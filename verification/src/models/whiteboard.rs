//! A whiteboard: a mutable code buffer of a fixed visibility.

use super::consts::WhiteboardType;
use vstd::prelude::*;

verus! {

/// The mathematical value of a [`Whiteboard`].
pub struct WhiteboardView {
    pub code: Seq<char>,
    pub whiteboard_type: WhiteboardType,
    pub locked: bool,
}

/// A code buffer of a fixed type, with an editability flag.
#[derive(Debug)]
pub struct Whiteboard {
    code: String,
    whiteboard_type: WhiteboardType,
    locked: bool,
}

impl View for Whiteboard {
    type V = WhiteboardView;

    closed spec fn view(&self) -> WhiteboardView {
        WhiteboardView {
            code: self.code@,
            whiteboard_type: self.whiteboard_type,
            locked: self.locked,
        }
    }
}

/// The code every whiteboard starts with unless it is given another.
pub open spec fn default_code() -> Seq<char> {
    "print(\"Hello world!\")"@
}

impl Whiteboard {
    /// A fresh, unlocked whiteboard holding the default code.
    pub fn new(whiteboard_type: WhiteboardType) -> (w: Self)
        ensures
            w@ == (WhiteboardView {
                code: default_code(),
                whiteboard_type,
                locked: false,
            }),
    {
        Self { code: "print(\"Hello world!\")".to_owned(), whiteboard_type, locked: false }
    }

    /// A fresh, unlocked whiteboard holding `code`.
    pub fn with_code(whiteboard_type: WhiteboardType, code: &str) -> (w: Self)
        ensures
            w@ == (WhiteboardView { code: code@, whiteboard_type, locked: false }),
    {
        Self { code: code.to_owned(), whiteboard_type, locked: false }
    }

    /// The code on the whiteboard.
    pub fn code(&self) -> (c: &str)
        ensures
            c@ == self@.code,
    {
        self.code.as_str()
    }

    /// Replaces the code; the type and the lock stay as they are.
    pub fn set_code(&mut self, code: String)
        ensures
            final(self)@ == (WhiteboardView { code: code@, ..old(self)@ }),
    {
        self.code = code;
    }

    /// The type the whiteboard was made with.
    pub fn whiteboard_type(&self) -> (t: &WhiteboardType)
        ensures
            *t == self@.whiteboard_type,
    {
        &self.whiteboard_type
    }

    /// Whether the whiteboard is locked.
    pub fn is_locked(&self) -> (l: bool)
        ensures
            l == self@.locked,
    {
        self.locked
    }

    /// Sets the editability flag; the code and the type stay as they are.
    pub fn set_locked(&mut self, locked: bool)
        ensures
            final(self)@ == (WhiteboardView { locked, ..old(self)@ }),
    {
        self.locked = locked;
    }

    /// An independent copy with the same value.
    pub fn duplicate(&self) -> (w: Self)
        ensures
            w@ == self@,
    {
        Self {
            code: self.code.clone(),
            whiteboard_type: self.whiteboard_type,
            locked: self.locked,
        }
    }
}

} // verus!
