//! The messages that peers exchange.

pub mod incoming;
pub mod outgoing;
pub mod protobufs;
