//! What the replicated application is asked and answers.

use vstd::prelude::*;

use crate::block_tree::app_view::AppBlockTreeView;
use crate::types::block::Block;
use crate::types::data_types::{CryptoHash, Data, ViewNumber};
use crate::types::update_sets::AppStateUpdates;
use crate::types::validator_set::ValidatorSetUpdates;

verus! {

/// A request to produce a block.
pub struct ProduceBlockRequest<'a> {
    pub cur_view: ViewNumber,
    pub parent_block: Option<CryptoHash>,
    pub app_view: AppBlockTreeView<'a>,
}

/// A produced block.
pub struct ProduceBlockResponse {
    pub data_hash: CryptoHash,
    pub data: Data,
    pub app_state_updates: Option<AppStateUpdates>,
    pub validator_set_updates: Option<ValidatorSetUpdates>,
}

/// A request to validate a block.
pub struct ValidateBlockRequest<'a> {
    pub proposed_block: &'a Block,
    pub app_view: AppBlockTreeView<'a>,
}

/// The verdict on a block.
#[derive(PartialEq, Eq, Debug)]
pub enum ValidateBlockResponse {
    /// The block is valid and has these updates.
    Valid {
        app_state_updates: Option<AppStateUpdates>,
        validator_set_updates: Option<ValidatorSetUpdates>,
    },
    /// The block is invalid.
    Invalid,
    /// Data that the block refers to is not at hand.
    MissingData,
}

/// The replicated application.
pub trait App {
    /// Produce a block for the current view.
    fn produce_block(&mut self, request: ProduceBlockRequest<'_>) -> ProduceBlockResponse;

    /// Validate a block that was proposed.
    fn validate_block(&mut self, request: ValidateBlockRequest<'_>) -> ValidateBlockResponse;

    /// Validate a block that was fetched to catch up.
    fn validate_block_for_sync(
        &mut self,
        request: ValidateBlockRequest<'_>,
    ) -> ValidateBlockResponse;
}

} // verus!
