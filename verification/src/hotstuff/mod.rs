//! The HotStuff subprotocol.

pub mod acting;
pub mod bodies;
pub mod body_laws;
pub mod body_push;
pub mod certificate_laws;
pub mod certificates;
pub mod collectors;
pub mod entering;
pub mod fetching;
pub mod handlers;
pub mod headers;
pub mod laws;
pub mod message_laws;
pub mod messages;
pub mod order_laws;
pub mod proposal_laws;
pub mod proposing;
pub mod reputation;
pub mod speaking;
pub mod state;
pub mod state_laws;
pub mod step_laws;
pub mod types;
pub mod view_laws;
pub mod voting;
