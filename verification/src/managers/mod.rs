//! The classroom store, the connection registry and the event dispatcher.

pub mod agreement;
pub mod classroom_manager;
pub mod connection_manager;
pub mod notices;
pub mod payload_handler;
pub mod rules;
