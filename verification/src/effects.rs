//! What the library asks its host to do, in the order in which it is to be done. What is in the
//! journal when the application is asked something is to be done before the application answers.

use vstd::prelude::*;

use crate::block_sync::worker::SyncCommand;
use crate::block_tree::write_batch::{BlockTreeWriteBatch, Change};
use crate::events::Event;
use crate::hotstuff::messages::{BlockDataRequest, HotStuffMessage};
use crate::hotstuff::types::{EquivocationEvidence, PhaseCertificate};
use crate::types::block::Block;
use crate::types::data_types::{CryptoHash, VerifyingKey};
use crate::types::validator_set::ValidatorSetUpdates;

verus! {

/// One thing for the host to do.
#[derive(PartialEq, Eq, Debug)]
pub enum Effect {
    /// Write a batch of changes durably and atomically.
    Persist(BlockTreeWriteBatch),
    /// Tell observers of an event.
    Publish(Event),
    /// Send a message to a peer.
    Send(VerifyingKey, HotStuffMessage),
    /// Send a message to every validator.
    Broadcast(HotStuffMessage),
    /// Tell every validator that a view can be left on the strength of a certificate.
    BroadcastAdvanceView(PhaseCertificate),
    /// Ask a peer for the body of a block over the block-data channel.
    RequestBlockData(VerifyingKey, BlockDataRequest),
    /// Keep a block at hand to serve its body.
    StoreBlockForServing(Block),
    /// Tell the network layer that the validator set changed.
    UpdateValidatorSet(ValidatorSetUpdates),
    /// Tell the application that a block is final.
    CommittedBlock(Block, CryptoHash),
    /// Tell the application that a speculative commit was undone.
    SpeculativeRollback(CryptoHash, EquivocationEvidence),
    /// Tell the application that the chain it holds final is contradicted.
    FatalSafetyViolation,
    /// Have the sync worker fetch blocks from a peer.
    FetchBlocks(SyncCommand),
}

/// What an [`Effect`] says: for a batch, its changes; otherwise the effect itself.
pub enum Deed {
    Persist(Seq<Change>),
    Other(Effect),
}

impl View for Effect {
    type V = Deed;

    open spec fn view(&self) -> Deed {
        match *self {
            Effect::Persist(batch) => Deed::Persist(batch@),
            effect => Deed::Other(effect),
        }
    }
}

/// What a list of effects says.
pub open spec fn deeds(effects: Seq<Effect>) -> Seq<Deed> {
    effects.map_values(|effect: Effect| effect@)
}

} // verus!
