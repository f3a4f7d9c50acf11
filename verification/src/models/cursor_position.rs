//! The position of a live edit cursor, carried inside code-change events.

use vstd::prelude::*;

verus! {

/// Where an edit cursor stands: the offset from the start, the row and the
/// column.
#[derive(Clone, Copy, Debug, PartialEq, Eq, Structural)]
pub struct CursorPosition {
    pub position: i32,
    pub row: i32,
    pub col: i32,
}

impl CursorPosition {
    /// A cursor at the given offset, row and column.
    pub fn new(position: i32, row: i32, col: i32) -> (c: Self)
        ensures
            c == (CursorPosition { position, row, col }),
    {
        Self { position, row, col }
    }
}

impl Default for CursorPosition {
    /// The cursor at the very start of a buffer.
    fn default() -> (c: Self)
        ensures
            c == (CursorPosition { position: 0, row: 0, col: 0 }),
    {
        Self { position: 0, row: 0, col: 0 }
    }
}

} // verus!
