//! A verified HotStuff state-machine-replication core: block tree, safety rules, certificates,
//! message handling, block sync and recovery. The library decides; the host program stores,
//! sends and keeps time.

pub mod algorithm;
pub mod algorithm_laws;
pub mod app;
pub mod block_sync;
pub mod block_tree;
pub mod codec;
pub mod committed_feed;
pub mod effects;
pub mod events;
pub mod hotstuff;
pub mod networking;
pub mod pacemaker;
pub mod roles;
pub mod types;
pub mod wire;
