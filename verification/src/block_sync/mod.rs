//! The block sync subprotocol, by which a replica catches up with its peers.

pub mod client;
pub mod laws;
pub mod messages;
pub mod policy;
pub mod session;
pub mod worker;
