//! What arrives from peers, and when it is looked at.

pub mod laws;
pub mod messages;
pub mod receiving;
