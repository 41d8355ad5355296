//! The parts of the messenger clients and peers that decide what to send and when.

pub mod message;
pub mod client;
pub mod error;
pub mod holder;
pub mod hosts;
pub mod peer;
pub mod state;
pub mod tcp;
