//! Batches of changes to the block tree that are written atomically.

use vstd::prelude::*;

use std::sync::Arc;

use crate::block_tree::errors::BlockTreeError;
use crate::hotstuff::reputation::{LeaderReputation, LeaderReputationEntry};
use crate::hotstuff::types::PhaseCertificate;
use crate::pacemaker::{TimeoutCertificate, TipInfo};
use crate::types::block::Block;
use crate::types::data_types::{
    BlockHeight, Bytes, ChildrenList, CryptoHash, DataLen, Power, VerifyingKey, ViewNumber,
};
use crate::types::update_sets::AppStateUpdates;
use crate::types::validator_set::{ValidatorSet, ValidatorSetUpdates, ValidatorSetUpdatesStatus};

verus! {

/// One piece of evidence that a leader proposed two blocks in one view.
pub type EvidenceEntry = (ViewNumber, [u8; 32], CryptoHash, CryptoHash);

/// A change to one variable of the block tree.
#[derive(PartialEq, Eq, Debug)]
pub enum WriteOp {
    SetBlock(Block),
    DeleteBlock(CryptoHash, DataLen),
    SetBlockAtHeight(BlockHeight, CryptoHash),
    DeleteBlockAtHeight(BlockHeight),
    SetPrunedHeight(BlockHeight),
    SetAppFedHeight(BlockHeight),
    SetChildren(CryptoHash, ChildrenList),
    DeleteChildren(CryptoHash),
    SetAppState(Bytes, Bytes),
    DeleteAppState(Bytes),
    SetPendingAppStateUpdates(CryptoHash, AppStateUpdates),
    DeletePendingAppStateUpdates(CryptoHash),
    SetCommittedValidatorSet(ValidatorSet),
    SetPreviousValidatorSet(ValidatorSet),
    SetValidatorSetUpdates(CryptoHash, ValidatorSetUpdatesStatus),
    DeleteValidatorSetUpdates(CryptoHash),
    SetValidatorSetUpdateHeight(BlockHeight),
    SetValidatorSetUpdateDecided(bool),
    SetLockedPC(PhaseCertificate),
    SetHighestPC(PhaseCertificate),
    SetHighestViewEntered(ViewNumber),
    SetHighestViewPhaseVoted(ViewNumber),
    SetHighestCommittedBlock(CryptoHash),
    SetNewestBlock(CryptoHash),
    SetHighestTC(TimeoutCertificate),
    DeleteHighestTC,
    SetLocalTip(TipInfo),
    DeleteLocalTip,
    SetLastVotedProposal(ViewNumber, CryptoHash),
    SetSpeculativeCommits(ChildrenList),
    SetEquivocationEvidence(Arc<Vec<EvidenceEntry>>),
    SetLeaderReputation(LeaderReputation),
}

/// What a [`WriteOp`] says. Changes whose value is a list speak of the list's items; every other
/// change is the operation itself.
pub enum Change {
    Children(CryptoHash, Seq<CryptoHash>),
    CommittedValidators(Seq<(VerifyingKey, Power)>),
    PreviousValidators(Seq<(VerifyingKey, Power)>),
    SpeculativeCommits(Seq<CryptoHash>),
    Evidence(Seq<EvidenceEntry>),
    Reputation(Seq<([u8; 32], LeaderReputationEntry)>, u32),
    Plain(WriteOp),
}

impl View for WriteOp {
    type V = Change;

    open spec fn view(&self) -> Change {
        match *self {
            WriteOp::SetChildren(block, children) => Change::Children(block, children@),
            WriteOp::SetCommittedValidatorSet(set) => Change::CommittedValidators(set@),
            WriteOp::SetPreviousValidatorSet(set) => Change::PreviousValidators(set@),
            WriteOp::SetSpeculativeCommits(commits) => Change::SpeculativeCommits(commits@),
            WriteOp::SetEquivocationEvidence(evidence) => Change::Evidence(evidence@),
            WriteOp::SetLeaderReputation(reputation) => Change::Reputation(
                reputation.entries@,
                reputation.window_size,
            ),
            op => Change::Plain(op),
        }
    }
}

/// What a list of operations says.
pub open spec fn changes(ops: Seq<WriteOp>) -> Seq<Change> {
    ops.map_values(|op: WriteOp| op@)
}

/// A list of changes that take effect together, in order.
#[derive(PartialEq, Eq, Debug)]
pub struct BlockTreeWriteBatch {
    pub ops: Vec<WriteOp>,
}

impl View for BlockTreeWriteBatch {
    type V = Seq<Change>;

    open spec fn view(&self) -> Seq<Change> {
        changes(self.ops@)
    }
}

/// The changes that applying updates to the application state makes: values are set, then keys
/// removed.
pub open spec fn insert_changes(inserts: Seq<(Bytes, Bytes)>) -> Seq<Change> {
    inserts.map_values(|kv: (Bytes, Bytes)| Change::Plain(WriteOp::SetAppState(kv.0, kv.1)))
}

pub open spec fn delete_changes(deletes: Seq<Bytes>) -> Seq<Change> {
    deletes.map_values(|key: Bytes| Change::Plain(WriteOp::DeleteAppState(key)))
}

pub open spec fn app_state_changes(updates: AppStateUpdates) -> Seq<Change> {
    insert_changes(updates.inserts@) + delete_changes(updates.deletes@)
}

impl BlockTreeWriteBatch {
    /// An empty batch.
    pub fn new() -> (r: Self)
        ensures
            r@ == Seq::<Change>::empty(),
    {
        let r = BlockTreeWriteBatch { ops: Vec::new() };
        assert(r@ =~= Seq::<Change>::empty());
        r
    }

    /// An empty batch, for callers outside the library who change the block tree by hand.
    pub fn new_unsafe() -> (r: Self)
        ensures
            r@ == Seq::<Change>::empty(),
    {
        Self::new()
    }

    /// Add one operation at the end.
    pub fn push(&mut self, op: WriteOp)
        ensures
            final(self)@ == old(self)@.push(op@),
    {
        self.ops.push(op);
        assert(self@ =~= old(self)@.push(op@));
    }

    pub fn set_block(&mut self, block: &Block) -> (r: Result<(), BlockTreeError>)
        ensures
            r is Ok,
            final(self)@ == old(self)@.push(Change::Plain(WriteOp::SetBlock(*block))),
    {
        self.push(WriteOp::SetBlock(block.clone()));
        Ok(())
    }

    pub fn delete_block(&mut self, block: &CryptoHash, data_len: DataLen)
        ensures
            final(self)@ == old(self)@.push(Change::Plain(WriteOp::DeleteBlock(*block, data_len))),
    {
        self.push(WriteOp::DeleteBlock(*block, data_len));
    }

    pub fn set_block_at_height(&mut self, height: BlockHeight, block: &CryptoHash) -> (r: Result<
        (),
        BlockTreeError,
    >)
        ensures
            r is Ok,
            final(self)@ == old(self)@.push(Change::Plain(WriteOp::SetBlockAtHeight(height, *block))),
    {
        self.push(WriteOp::SetBlockAtHeight(height, *block));
        Ok(())
    }

    pub fn delete_block_at_height(&mut self, height: BlockHeight)
        ensures
            final(self)@ == old(self)@.push(Change::Plain(WriteOp::DeleteBlockAtHeight(height))),
    {
        self.push(WriteOp::DeleteBlockAtHeight(height));
    }

    pub fn set_block_tree_pruned_height(&mut self, height: BlockHeight) -> (r: Result<
        (),
        BlockTreeError,
    >)
        ensures
            r is Ok,
            final(self)@ == old(self)@.push(Change::Plain(WriteOp::SetPrunedHeight(height))),
    {
        self.push(WriteOp::SetPrunedHeight(height));
        Ok(())
    }

    pub fn set_app_fed_block_height(&mut self, height: BlockHeight) -> (r: Result<
        (),
        BlockTreeError,
    >)
        ensures
            r is Ok,
            final(self)@ == old(self)@.push(Change::Plain(WriteOp::SetAppFedHeight(height))),
    {
        self.push(WriteOp::SetAppFedHeight(height));
        Ok(())
    }

    pub fn set_children(&mut self, block: &CryptoHash, children: &ChildrenList) -> (r: Result<
        (),
        BlockTreeError,
    >)
        ensures
            r is Ok,
            final(self)@ == old(self)@.push(Change::Children(*block, children@)),
    {
        self.push(WriteOp::SetChildren(*block, children.clone()));
        Ok(())
    }

    pub fn delete_children(&mut self, block: &CryptoHash)
        ensures
            final(self)@ == old(self)@.push(Change::Plain(WriteOp::DeleteChildren(*block))),
    {
        self.push(WriteOp::DeleteChildren(*block));
    }

    pub fn set_committed_app_state(&mut self, key: &Bytes, value: &Bytes)
        ensures
            final(self)@ == old(self)@.push(Change::Plain(WriteOp::SetAppState(*key, *value))),
    {
        self.push(WriteOp::SetAppState(key.clone(), value.clone()));
    }

    pub fn delete_committed_app_state(&mut self, key: &Bytes)
        ensures
            final(self)@ == old(self)@.push(Change::Plain(WriteOp::DeleteAppState(*key))),
    {
        self.push(WriteOp::DeleteAppState(key.clone()));
    }

    pub fn set_pending_app_state_updates(
        &mut self,
        block: &CryptoHash,
        app_state_updates: &AppStateUpdates,
    ) -> (r: Result<(), BlockTreeError>)
        ensures
            r is Ok,
            final(self)@ == old(self)@.push(
                Change::Plain(WriteOp::SetPendingAppStateUpdates(*block, *app_state_updates)),
            ),
    {
        self.push(WriteOp::SetPendingAppStateUpdates(*block, app_state_updates.clone()));
        Ok(())
    }

    /// Apply updates to the application state: set the values, then remove the keys.
    pub fn apply_app_state_updates(&mut self, app_state_updates: &AppStateUpdates)
        ensures
            final(self)@ == old(self)@ + app_state_changes(*app_state_updates),
    {
        let ghost start = self@;
        let ghost inserts = insert_changes(app_state_updates.inserts@);
        let ghost deletes = delete_changes(app_state_updates.deletes@);
        let mut i: usize = 0;
        while i < app_state_updates.inserts.len()
            invariant
                i <= app_state_updates.inserts@.len(),
                inserts == insert_changes(app_state_updates.inserts@),
                self@ =~= start + inserts.take(i as int),
            decreases app_state_updates.inserts@.len() - i,
        {
            self.set_committed_app_state(
                &app_state_updates.inserts[i].0,
                &app_state_updates.inserts[i].1,
            );
            i = i + 1;
        }
        let mut j: usize = 0;
        while j < app_state_updates.deletes.len()
            invariant
                j <= app_state_updates.deletes@.len(),
                inserts.len() == i,
                deletes == delete_changes(app_state_updates.deletes@),
                self@ =~= start + inserts.take(i as int) + deletes.take(j as int),
            decreases app_state_updates.deletes@.len() - j,
        {
            self.delete_committed_app_state(&app_state_updates.deletes[j]);
            j = j + 1;
        }
        assert(self@ =~= start + app_state_changes(*app_state_updates));
    }

    pub fn delete_pending_app_state_updates(&mut self, block: &CryptoHash)
        ensures
            final(self)@ == old(self)@.push(
                Change::Plain(WriteOp::DeletePendingAppStateUpdates(*block)),
            ),
    {
        self.push(WriteOp::DeletePendingAppStateUpdates(*block));
    }

    pub fn set_committed_validator_set(&mut self, validator_set: &ValidatorSet) -> (r: Result<
        (),
        BlockTreeError,
    >)
        ensures
            r is Ok,
            final(self)@ == old(self)@.push(Change::CommittedValidators(validator_set@)),
    {
        self.push(WriteOp::SetCommittedValidatorSet(validator_set.clone()));
        Ok(())
    }

    pub fn set_pending_validator_set_updates(
        &mut self,
        block: &CryptoHash,
        validator_set_updates: &ValidatorSetUpdates,
    ) -> (r: Result<(), BlockTreeError>)
        ensures
            r is Ok,
            final(self)@ == old(self)@.push(
                Change::Plain(
                    WriteOp::SetValidatorSetUpdates(
                        *block,
                        ValidatorSetUpdatesStatus::Pending(*validator_set_updates),
                    ),
                ),
            ),
    {
        self.push(
            WriteOp::SetValidatorSetUpdates(
                *block,
                ValidatorSetUpdatesStatus::Pending(validator_set_updates.clone()),
            ),
        );
        Ok(())
    }

    pub fn set_committed_validator_set_updates(&mut self, block: &CryptoHash) -> (r: Result<
        (),
        BlockTreeError,
    >)
        ensures
            r is Ok,
            final(self)@ == old(self)@.push(
                Change::Plain(
                    WriteOp::SetValidatorSetUpdates(*block, ValidatorSetUpdatesStatus::Committed),
                ),
            ),
    {
        self.push(WriteOp::SetValidatorSetUpdates(*block, ValidatorSetUpdatesStatus::Committed));
        Ok(())
    }

    pub fn delete_block_validator_set_updates(&mut self, block: &CryptoHash)
        ensures
            final(self)@ == old(self)@.push(
                Change::Plain(WriteOp::DeleteValidatorSetUpdates(*block)),
            ),
    {
        self.push(WriteOp::DeleteValidatorSetUpdates(*block));
    }

    pub fn set_locked_pc(&mut self, pc: &PhaseCertificate) -> (r: Result<(), BlockTreeError>)
        ensures
            r is Ok,
            final(self)@ == old(self)@.push(Change::Plain(WriteOp::SetLockedPC(*pc))),
    {
        self.push(WriteOp::SetLockedPC(pc.clone()));
        Ok(())
    }

    pub fn set_highest_view_entered(&mut self, view: ViewNumber) -> (r: Result<(), BlockTreeError>)
        ensures
            r is Ok,
            final(self)@ == old(self)@.push(Change::Plain(WriteOp::SetHighestViewEntered(view))),
    {
        self.push(WriteOp::SetHighestViewEntered(view));
        Ok(())
    }

    pub fn set_highest_pc(&mut self, pc: &PhaseCertificate) -> (r: Result<(), BlockTreeError>)
        ensures
            r is Ok,
            final(self)@ == old(self)@.push(Change::Plain(WriteOp::SetHighestPC(*pc))),
    {
        self.push(WriteOp::SetHighestPC(pc.clone()));
        Ok(())
    }

    pub fn set_highest_committed_block(&mut self, block: &CryptoHash) -> (r: Result<
        (),
        BlockTreeError,
    >)
        ensures
            r is Ok,
            final(self)@ == old(self)@.push(
                Change::Plain(WriteOp::SetHighestCommittedBlock(*block)),
            ),
    {
        self.push(WriteOp::SetHighestCommittedBlock(*block));
        Ok(())
    }

    pub fn set_newest_block(&mut self, block: &CryptoHash) -> (r: Result<(), BlockTreeError>)
        ensures
            r is Ok,
            final(self)@ == old(self)@.push(Change::Plain(WriteOp::SetNewestBlock(*block))),
    {
        self.push(WriteOp::SetNewestBlock(*block));
        Ok(())
    }

    pub fn set_highest_tc(&mut self, tc: &TimeoutCertificate) -> (r: Result<(), BlockTreeError>)
        ensures
            r is Ok,
            final(self)@ == old(self)@.push(Change::Plain(WriteOp::SetHighestTC(*tc))),
    {
        self.push(WriteOp::SetHighestTC(tc.clone()));
        Ok(())
    }

    pub fn set_previous_validator_set(&mut self, validator_set: &ValidatorSet) -> (r: Result<
        (),
        BlockTreeError,
    >)
        ensures
            r is Ok,
            final(self)@ == old(self)@.push(Change::PreviousValidators(validator_set@)),
    {
        self.push(WriteOp::SetPreviousValidatorSet(validator_set.clone()));
        Ok(())
    }

    pub fn set_validator_set_update_block_height(&mut self, height: BlockHeight) -> (r: Result<
        (),
        BlockTreeError,
    >)
        ensures
            r is Ok,
            final(self)@ == old(self)@.push(
                Change::Plain(WriteOp::SetValidatorSetUpdateHeight(height)),
            ),
    {
        self.push(WriteOp::SetValidatorSetUpdateHeight(height));
        Ok(())
    }

    pub fn set_validator_set_update_decided(&mut self, update_decided: bool) -> (r: Result<
        (),
        BlockTreeError,
    >)
        ensures
            r is Ok,
            final(self)@ == old(self)@.push(
                Change::Plain(WriteOp::SetValidatorSetUpdateDecided(update_decided)),
            ),
    {
        self.push(WriteOp::SetValidatorSetUpdateDecided(update_decided));
        Ok(())
    }

    pub fn set_highest_view_phase_voted(&mut self, view: ViewNumber) -> (r: Result<
        (),
        BlockTreeError,
    >)
        ensures
            r is Ok,
            final(self)@ == old(self)@.push(Change::Plain(WriteOp::SetHighestViewPhaseVoted(view))),
    {
        self.push(WriteOp::SetHighestViewPhaseVoted(view));
        Ok(())
    }

    /// Forget the local tip.
    pub fn delete_local_tip(&mut self)
        ensures
            final(self)@ == old(self)@.push(Change::Plain(WriteOp::DeleteLocalTip)),
    {
        self.push(WriteOp::DeleteLocalTip);
    }

    /// Forget the highest timeout certificate.
    pub fn delete_highest_tc(&mut self)
        ensures
            final(self)@ == old(self)@.push(Change::Plain(WriteOp::DeleteHighestTC)),
    {
        self.push(WriteOp::DeleteHighestTC);
    }

    /// Overwrite the list of speculative commits.
    pub fn set_speculative_commits(&mut self, commits: Vec<CryptoHash>) -> (r: Result<
        (),
        BlockTreeError,
    >)
        ensures
            r is Ok,
            final(self)@ == old(self)@.push(Change::SpeculativeCommits(commits@)),
    {
        self.push(WriteOp::SetSpeculativeCommits(ChildrenList::new(commits)));
        Ok(())
    }
}

} // verus!
