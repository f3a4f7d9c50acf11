//! The entity model: classrooms, users, whiteboards and assignments.

pub mod assignment;
pub mod classroom;
pub mod consts;
pub mod cursor_position;
pub mod user;
pub mod whiteboard;
