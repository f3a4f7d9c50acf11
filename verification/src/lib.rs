//! A classroom-scoped session hub.
//!
//! Users connect, join a named classroom as student or teacher, and
//! exchange typed events: code edits, locks, assignments, submissions and
//! grades. The hub keeps track of who is reachable in which classroom,
//! checks every action against the sender's session and role, changes the
//! shared state, and fans the resulting event out to the right part of the
//! classroom.
//!
//! - [`models`] is the entity model: classrooms, users, whiteboards,
//!   assignments and the records of work on them.
//! - [`managers::classroom_manager`] is the classroom store and
//!   [`managers::connection_manager`] the connection registry with its
//!   fan-out.
//! - [`managers::rules`] states what the dispatcher does, as functions from
//!   a state and a message to the next state and the events to deliver;
//!   [`managers::payload_handler`] is the dispatcher that does it.
//! - [`managers::agreement`] shows that the rules keep the store and the
//!   registry in agreement, and [`laws`] what else holds in every state.
//! - [`outbox`] holds one outbound queue for each open connection and a
//!   journal of what was tried on them, and [`hub`] joins dispatcher and
//!   queues into what a transport calls.
//! - [`text`] reads and writes numbers and the key/value lines that
//!   payloads are made of.

pub mod error;
pub mod hub;
pub mod laws;
pub mod managers;
pub mod models;
pub mod outbox;
pub mod text;
