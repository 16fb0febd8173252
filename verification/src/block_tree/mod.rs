//! The block tree: blocks, certificates and the replica's safety state.

pub mod app_state_laws;
pub mod app_view;
pub mod cells;
pub mod commit;
pub mod commit_laws;
pub mod effect_laws;
pub mod errors;
pub mod invariants;
pub mod laws;
pub mod life_laws;
pub mod loading;
pub mod persisting;
pub mod prune_laws;
pub mod pruning;
pub mod reading;
pub mod recovery;
pub mod retention;
pub mod sparing;
pub mod speculation;
pub mod storage_laws;
pub mod store;
pub mod stored_values;
pub mod tree;
pub mod updates;
pub mod variable_laws;
pub mod variables;
pub mod write_batch;
