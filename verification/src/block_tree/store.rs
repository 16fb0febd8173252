//! The variables of the block tree.

use vstd::prelude::*;

use std::sync::Arc;

use crate::block_tree::cells;
use crate::block_tree::cells::{
    Cell, BLOCKS, BLOCK_AT_HEIGHT, COMMITTED_VALIDATOR_SET, HIGHEST_COMMITTED_BLOCK,
};
use crate::block_tree::errors;
use crate::block_tree::errors::{unreadable, BlockTreeError, Key};
use crate::block_tree::persisting::op_overwrites;
use crate::block_tree::reading;
use crate::block_tree::reading::{find, RawTable};
use crate::block_tree::write_batch::{BlockTreeWriteBatch, Change, EvidenceEntry, WriteOp};
use crate::hotstuff::reputation::{LeaderReputation, LeaderReputationEntry};
use crate::hotstuff::types::PhaseCertificate;
use crate::pacemaker::{TimeoutCertificate, TipInfo};
use crate::types::block::Block;
use crate::types::data_types::{
    BlockHeight, Bytes, ChildrenList, CryptoHash, Power, VerifyingKey, ViewNumber,
};
use crate::types::table::{Table, TableKey};
use crate::types::update_sets::AppStateUpdates;
use crate::types::validator_set::{ValidatorSet, ValidatorSetUpdatesStatus};

verus! {

/// What the block tree holds.
#[verifier::ext_equal]
pub struct TreeView {
    pub blocks: Map<CryptoHash, Block>,
    /// The committed block of each height.
    pub block_at_height: Map<BlockHeight, CryptoHash>,
    pub children: Map<CryptoHash, Seq<CryptoHash>>,
    pub app_state: Map<Seq<u8>, Seq<u8>>,
    pub pending_app_state: Map<CryptoHash, AppStateUpdates>,
    pub validator_set_updates: Map<CryptoHash, ValidatorSetUpdatesStatus>,
    pub committed_validators: Option<Seq<(VerifyingKey, Power)>>,
    pub previous_validators: Option<Seq<(VerifyingKey, Power)>>,
    pub update_height: Option<BlockHeight>,
    pub update_decided: Option<bool>,
    pub locked_pc: Option<PhaseCertificate>,
    pub highest_pc: Option<PhaseCertificate>,
    pub highest_view_entered: Option<ViewNumber>,
    pub highest_view_phase_voted: Option<ViewNumber>,
    pub highest_committed_block: Option<CryptoHash>,
    pub newest_block: Option<CryptoHash>,
    pub highest_tc: Option<TimeoutCertificate>,
    pub local_tip: Option<TipInfo>,
    pub last_voted_proposal: Option<(ViewNumber, CryptoHash)>,
    pub speculative_commits: Seq<CryptoHash>,
    pub evidence: Seq<EvidenceEntry>,
    pub reputation: Option<(Seq<([u8; 32], LeaderReputationEntry)>, u32)>,
    /// The lowest height that was not pruned.
    pub pruned_height: Option<BlockHeight>,
    /// The highest committed height that was delivered to the application.
    pub app_fed_height: Option<BlockHeight>,
    /// What the key-value store holds under the keys whose values cannot be read.
    pub unread: Map<Seq<u8>, Seq<u8>>,
}

/// A tree in which nothing was ever written.
pub open spec fn empty_tree() -> TreeView {
    TreeView {
        blocks: Map::empty(),
        block_at_height: Map::empty(),
        children: Map::empty(),
        app_state: Map::empty(),
        pending_app_state: Map::empty(),
        validator_set_updates: Map::empty(),
        committed_validators: None,
        previous_validators: None,
        update_height: None,
        update_decided: None,
        locked_pc: None,
        highest_pc: None,
        highest_view_entered: None,
        highest_view_phase_voted: None,
        highest_committed_block: None,
        newest_block: None,
        highest_tc: None,
        local_tip: None,
        last_voted_proposal: None,
        speculative_commits: Seq::empty(),
        evidence: Seq::empty(),
        reputation: None,
        pruned_height: None,
        app_fed_height: None,
        unread: Map::empty(),
    }
}

/// Whether everything that the key-value store holds of the tree can be read.
pub open spec fn readable(tree: TreeView) -> bool {
    tree.unread == Map::<Seq<u8>, Seq<u8>>::empty()
}

/// Whether a cell has a value that cannot be read.
pub open spec fn unread_at(tree: TreeView, cell: Cell) -> bool {
    tree.unread.contains_key(cells::cell_key(cell))
}

/// Whether all blocks can be read, and which of them are committed.
pub open spec fn blocks_readable(tree: TreeView) -> bool {
    forall|key: Seq<u8>| #[trigger]
        tree.unread.contains_key(key) ==> key.len() > 0 && key[0] != BLOCKS && key[0]
            != BLOCK_AT_HEIGHT
}

/// Where all blocks can be read, nothing of a block is unread.
pub proof fn lemma_blocks_readable(tree: TreeView)
    requires
        blocks_readable(tree),
    ensures
        forall|cell: Cell|
            cells::cell_tag(cell) == BLOCKS || cells::cell_tag(cell) == BLOCK_AT_HEIGHT
                ==> !#[trigger] unread_at(tree, cell),
        forall|cell: Cell|
            cells::cell_tag(cell) == BLOCKS || cells::cell_tag(cell) == BLOCK_AT_HEIGHT
                ==> #[trigger] cells::content(tree.unread, cell) is None,
{
    assert forall|cell: Cell|
        cells::cell_tag(cell) == BLOCKS || cells::cell_tag(cell) == BLOCK_AT_HEIGHT implies
        !#[trigger] unread_at(tree, cell) by {
        assert(cells::cell_key(cell)[0] == cells::cell_tag(cell));
    }
    assert forall|cell: Cell|
        cells::cell_tag(cell) == BLOCKS || cells::cell_tag(cell) == BLOCK_AT_HEIGHT implies
        #[trigger] cells::content(tree.unread, cell) is None by {
        assert(!unread_at(tree, cell));
    }
}

/// Whether the tree's structure can be read: everything about blocks, the frontier and the committed
/// validators. What cannot be read is at most some of the variables that there is one of.
pub open spec fn structure_readable(tree: TreeView) -> bool {
    forall|key: Seq<u8>| #[trigger]
        tree.unread.contains_key(key) ==> key.len() == 1 && key[0] != HIGHEST_COMMITTED_BLOCK
            && key[0] != COMMITTED_VALIDATOR_SET
}

/// Where the structure can be read, nothing of it is unread.
pub proof fn lemma_structure_readable(tree: TreeView)
    requires
        structure_readable(tree),
    ensures
        forall|cell: Cell|
            cells::cell_owner(cell).len() > 0 || cell is HighestCommittedBlock || cell
                is CommittedValidatorSet ==> !#[trigger] unread_at(tree, cell),
        forall|cell: Cell|
            cells::cell_owner(cell).len() > 0 || cell is HighestCommittedBlock || cell
                is CommittedValidatorSet ==> #[trigger] cells::content(tree.unread, cell) is None,
{
    assert forall|cell: Cell|
        cells::cell_owner(cell).len() > 0 || cell is HighestCommittedBlock || cell
            is CommittedValidatorSet implies !#[trigger] unread_at(tree, cell) by {
        assert(cells::cell_key(cell)[0] == cells::cell_tag(cell));
    }
    assert forall|cell: Cell|
        cells::cell_owner(cell).len() > 0 || cell is HighestCommittedBlock || cell
            is CommittedValidatorSet implies #[trigger] cells::content(tree.unread, cell) is None by {
        assert(!unread_at(tree, cell));
    }
}

/// What is left unread after `change`: what is written over, or deleted, is no longer unread.
pub open spec fn unread_after(
    unread: Map<Seq<u8>, Seq<u8>>,
    change: Change,
) -> Map<Seq<u8>, Seq<u8>> {
    if unread == Map::<Seq<u8>, Seq<u8>>::empty() {
        unread
    } else {
        unread.remove_keys(cells::overwritten(change))
    }
}

/// `tree` after `change`.
pub open spec fn apply_change(tree: TreeView, change: Change) -> TreeView {
    TreeView { unread: unread_after(tree.unread, change), ..change_variable(tree, change) }
}

/// `tree` after `change`, as far as its variables go.
pub open spec fn change_variable(tree: TreeView, change: Change) -> TreeView {
    match change {
        Change::Children(block, children) => TreeView {
            children: tree.children.insert(block, children),
            ..tree
        },
        Change::CommittedValidators(set) => TreeView { committed_validators: Some(set), ..tree },
        Change::PreviousValidators(set) => TreeView { previous_validators: Some(set), ..tree },
        Change::SpeculativeCommits(commits) => TreeView { speculative_commits: commits, ..tree },
        Change::Evidence(evidence) => TreeView { evidence, ..tree },
        Change::Reputation(entries, window_size) => TreeView {
            reputation: Some((entries, window_size)),
            ..tree
        },
        Change::Plain(op) => match op {
            WriteOp::SetBlock(block) => TreeView {
                blocks: tree.blocks.insert(block.hash, block),
                ..tree
            },
            WriteOp::DeleteBlock(block, _) => TreeView {
                blocks: tree.blocks.remove(block),
                ..tree
            },
            WriteOp::SetBlockAtHeight(height, block) => TreeView {
                block_at_height: tree.block_at_height.insert(height, block),
                ..tree
            },
            WriteOp::DeleteBlockAtHeight(height) => TreeView {
                block_at_height: tree.block_at_height.remove(height),
                ..tree
            },
            WriteOp::SetPrunedHeight(height) => TreeView { pruned_height: Some(height), ..tree },
            WriteOp::SetAppFedHeight(height) => TreeView { app_fed_height: Some(height), ..tree },
            WriteOp::DeleteChildren(block) => TreeView {
                children: tree.children.remove(block),
                ..tree
            },
            WriteOp::SetAppState(key, value) => TreeView {
                app_state: tree.app_state.insert(key@, value@),
                ..tree
            },
            WriteOp::DeleteAppState(key) => TreeView {
                app_state: tree.app_state.remove(key@),
                ..tree
            },
            WriteOp::SetPendingAppStateUpdates(block, updates) => TreeView {
                pending_app_state: tree.pending_app_state.insert(block, updates),
                ..tree
            },
            WriteOp::DeletePendingAppStateUpdates(block) => TreeView {
                pending_app_state: tree.pending_app_state.remove(block),
                ..tree
            },
            WriteOp::SetValidatorSetUpdates(block, status) => TreeView {
                validator_set_updates: tree.validator_set_updates.insert(block, status),
                ..tree
            },
            WriteOp::DeleteValidatorSetUpdates(block) => TreeView {
                validator_set_updates: tree.validator_set_updates.remove(block),
                ..tree
            },
            WriteOp::SetValidatorSetUpdateHeight(height) => TreeView {
                update_height: Some(height),
                ..tree
            },
            WriteOp::SetValidatorSetUpdateDecided(decided) => TreeView {
                update_decided: Some(decided),
                ..tree
            },
            WriteOp::SetLockedPC(pc) => TreeView { locked_pc: Some(pc), ..tree },
            WriteOp::SetHighestPC(pc) => TreeView { highest_pc: Some(pc), ..tree },
            WriteOp::SetHighestViewEntered(view) => TreeView {
                highest_view_entered: Some(view),
                ..tree
            },
            WriteOp::SetHighestViewPhaseVoted(view) => TreeView {
                highest_view_phase_voted: Some(view),
                ..tree
            },
            WriteOp::SetHighestCommittedBlock(block) => TreeView {
                highest_committed_block: Some(block),
                ..tree
            },
            WriteOp::SetNewestBlock(block) => TreeView { newest_block: Some(block), ..tree },
            WriteOp::SetHighestTC(tc) => TreeView { highest_tc: Some(tc), ..tree },
            WriteOp::DeleteHighestTC => TreeView { highest_tc: None, ..tree },
            WriteOp::SetLocalTip(tip) => TreeView { local_tip: Some(tip), ..tree },
            WriteOp::DeleteLocalTip => TreeView { local_tip: None, ..tree },
            WriteOp::SetLastVotedProposal(view, block) => TreeView {
                last_voted_proposal: Some((view, block)),
                ..tree
            },
            _ => tree,
        },
    }
}

/// `tree` after all of `changes`, in order.
pub open spec fn apply_changes(tree: TreeView, changes: Seq<Change>) -> TreeView
    decreases changes.len(),
{
    if changes.len() == 0 {
        tree
    } else {
        apply_change(apply_changes(tree, changes.drop_last()), changes.last())
    }
}

/// A tree of which everything can be read stays so, whatever is changed.
pub proof fn lemma_stays_readable(tree: TreeView, changes: Seq<Change>)
    requires
        readable(tree),
    ensures
        readable(apply_changes(tree, changes)),
    decreases changes.len(),
{
    if changes.len() > 0 {
        lemma_stays_readable(tree, changes.drop_last());
    }
}

/// Applying a list of changes and then another is applying both at once.
pub proof fn lemma_apply_concat(tree: TreeView, first: Seq<Change>, second: Seq<Change>)
    ensures
        apply_changes(tree, first + second) == apply_changes(apply_changes(tree, first), second),
    decreases second.len(),
{
    if second.len() == 0 {
        assert(first + second =~= first);
    } else {
        assert((first + second).drop_last() =~= first + second.drop_last());
        lemma_apply_concat(tree, first, second.drop_last());
    }
}

/// One more change is applied last.
pub proof fn lemma_apply_push(tree: TreeView, changes: Seq<Change>, change: Change)
    ensures
        apply_changes(tree, changes.push(change)) == apply_change(
            apply_changes(tree, changes),
            change,
        ),
{
    assert(changes.push(change).drop_last() =~= changes);
}

/// The variables of the block tree, in memory.
pub struct Store {
    pub blocks: Table<CryptoHash, Block>,
    pub block_at_height: Table<BlockHeight, CryptoHash>,
    pub children: Table<CryptoHash, ChildrenList>,
    pub app_state: Table<Bytes, Bytes>,
    pub pending_app_state: Table<CryptoHash, AppStateUpdates>,
    pub validator_set_updates: Table<CryptoHash, ValidatorSetUpdatesStatus>,
    pub committed_validator_set: Option<ValidatorSet>,
    pub previous_validator_set: Option<ValidatorSet>,
    pub update_height: Option<BlockHeight>,
    pub update_decided: Option<bool>,
    pub locked_pc: Option<PhaseCertificate>,
    pub highest_pc: Option<PhaseCertificate>,
    pub highest_view_entered: Option<ViewNumber>,
    pub highest_view_phase_voted: Option<ViewNumber>,
    pub highest_committed_block: Option<CryptoHash>,
    pub newest_block: Option<CryptoHash>,
    pub highest_tc: Option<TimeoutCertificate>,
    pub local_tip: Option<TipInfo>,
    pub last_voted_proposal: Option<(ViewNumber, CryptoHash)>,
    pub speculative_commits: ChildrenList,
    pub evidence: Arc<Vec<EvidenceEntry>>,
    pub reputation: Option<LeaderReputation>,
    pub pruned_height: Option<BlockHeight>,
    pub app_fed_height: Option<BlockHeight>,
    pub unread: RawTable,
}

impl View for Store {
    type V = TreeView;

    open spec fn view(&self) -> TreeView {
        TreeView {
            blocks: self.blocks@,
            block_at_height: self.block_at_height@,
            children: self.children@.map_values(|list: ChildrenList| list@),
            app_state: self.app_state@.map_values(|value: Bytes| value@),
            pending_app_state: self.pending_app_state@,
            validator_set_updates: self.validator_set_updates@,
            committed_validators: match self.committed_validator_set {
                Some(set) => Some(set@),
                None => None,
            },
            previous_validators: match self.previous_validator_set {
                Some(set) => Some(set@),
                None => None,
            },
            update_height: self.update_height,
            update_decided: self.update_decided,
            locked_pc: self.locked_pc,
            highest_pc: self.highest_pc,
            highest_view_entered: self.highest_view_entered,
            highest_view_phase_voted: self.highest_view_phase_voted,
            highest_committed_block: self.highest_committed_block,
            newest_block: self.newest_block,
            highest_tc: self.highest_tc,
            local_tip: self.local_tip,
            last_voted_proposal: self.last_voted_proposal,
            speculative_commits: self.speculative_commits@,
            evidence: self.evidence@,
            reputation: match self.reputation {
                Some(reputation) => Some((reputation.entries@, reputation.window_size)),
                None => None,
            },
            pruned_height: self.pruned_height,
            app_fed_height: self.app_fed_height,
            unread: reading::raw(self.unread),
        }
    }
}

impl Store {
    /// A store in which nothing was ever written.
    pub fn new() -> (r: Store)
        ensures
            r@ == empty_tree(),
    {
        let r = Store {
            blocks: Table::new(),
            block_at_height: Table::new(),
            children: Table::new(),
            app_state: Table::new(),
            pending_app_state: Table::new(),
            validator_set_updates: Table::new(),
            committed_validator_set: None,
            previous_validator_set: None,
            update_height: None,
            update_decided: None,
            locked_pc: None,
            highest_pc: None,
            highest_view_entered: None,
            highest_view_phase_voted: None,
            highest_committed_block: None,
            newest_block: None,
            highest_tc: None,
            local_tip: None,
            last_voted_proposal: None,
            speculative_commits: ChildrenList::new(Vec::new()),
            evidence: Arc::new(Vec::new()),
            reputation: None,
            pruned_height: None,
            app_fed_height: None,
            unread: Table::new(),
        };
        assert(r@.unread =~= Map::empty());
        assert(r@.children =~= Map::empty());
        assert(r@.app_state =~= Map::empty());
        assert(r@ =~= empty_tree());
        r
    }

    /// Whether everything that the key-value store holds of the tree can be read.
    pub fn is_readable(&self) -> (r: bool)
        ensures
            r == readable(self@),
    {
        let r: bool = self.unread.is_empty();
        proof {
            if r {
                assert(self@.unread =~= Map::empty());
            } else {
                let key = choose|key: Seq<u8>| #[trigger] self.unread@.contains_key(key);
                assert(self@.unread.contains_key(key));
            }
        }
        r
    }

    /// Fail if a cell has a value that cannot be read.
    pub(crate) fn see_readable(&self, at: Vec<u8>, key: Key, Ghost(cell): Ghost<Cell>) -> (r: Result<
        (),
        BlockTreeError,
    >)
        requires
            at@ == cells::cell_key(cell),
        ensures
            r == (if unread_at(self@, cell) {
                Err(errors::undecodable(key))
            } else {
                Ok(())
            }),
    {
        match find(&self.unread, at) {
            Some(_) => Err(unreadable(key)),
            None => Ok(()),
        }
    }

    /// Forget what is unread under the keys that an operation writes over.
    fn forget_unread(&mut self, op: &WriteOp)
        ensures
            final(self)@ == (TreeView { unread: unread_after(old(self)@.unread, op@), ..old(self)@ }),
    {
        if self.is_readable() {
            return;
        }
        let mut left: RawTable = Table::new();
        let ghost before = self.unread@;
        let ghost gone = cells::overwritten(op@);
        let mut i: usize = 0;
        let count: usize = self.unread.len();
        while i < count
            invariant
                i <= count,
                count == self.unread.spec_len(),
                before == self.unread@,
                gone == cells::overwritten(op@),
                *self == *old(self),
                forall|key: Seq<u8>| #[trigger]
                    left@.contains_key(key) ==> before.contains_key(key) && left@[key]
                        == before[key] && !gone.contains(key),
                forall|j: int|
                    0 <= j < i && !gone.contains((#[trigger] self.unread.spec_entry(j)).0.model())
                        ==> left@.contains_key(self.unread.spec_entry(j).0.model()),
            decreases self.unread.spec_len() - i,
        {
            let (key, value) = self.unread.entry(i);
            if !op_overwrites(op, &*key.bytes) {
                left.insert(key.clone(), value.clone());
            }
            i = i + 1;
        }
        proof {
            self.unread.lemma_entries();
            assert forall|key: Seq<u8>| #[trigger]
                left@.contains_key(key) == (before.contains_key(key) && !gone.contains(key)) by {
                if before.contains_key(key) && !gone.contains(key) {
                    let j = choose|j: int|
                        0 <= j < self.unread.spec_len() && (#[trigger] self.unread.spec_entry(
                            j,
                        )).0.model() == key;
                    assert(left@.contains_key(self.unread.spec_entry(j).0.model()));
                }
            }
        }
        self.unread = left;
        assert(self@.unread =~= unread_after(old(self)@.unread, op@));
        assert(self@ =~= (TreeView { unread: unread_after(old(self)@.unread, op@), ..old(self)@ }));
    }

    /// Carry out one operation.
    pub(crate) fn apply_op(&mut self, op: &WriteOp)
        ensures
            final(self)@ == apply_change(old(self)@, op@),
    {
        self.forget_unread(op);
        match op {
            WriteOp::SetBlock(block) => {
                self.blocks.insert(block.hash, block.clone());
            },
            WriteOp::DeleteBlock(block, _) => {
                self.blocks.remove(block);
            },
            WriteOp::SetBlockAtHeight(height, block) => {
                self.block_at_height.insert(*height, *block);
            },
            WriteOp::DeleteBlockAtHeight(height) => {
                self.block_at_height.remove(height);
            },
            WriteOp::SetPrunedHeight(height) => {
                self.pruned_height = Some(*height);
            },
            WriteOp::SetAppFedHeight(height) => {
                self.app_fed_height = Some(*height);
            },
            WriteOp::SetChildren(block, children) => {
                self.children.insert(*block, children.clone());
            },
            WriteOp::DeleteChildren(block) => {
                self.children.remove(block);
            },
            WriteOp::SetAppState(key, value) => {
                self.app_state.insert(key.clone(), value.clone());
            },
            WriteOp::DeleteAppState(key) => {
                self.app_state.remove(key);
            },
            WriteOp::SetPendingAppStateUpdates(block, updates) => {
                self.pending_app_state.insert(*block, updates.clone());
            },
            WriteOp::DeletePendingAppStateUpdates(block) => {
                self.pending_app_state.remove(block);
            },
            WriteOp::SetCommittedValidatorSet(set) => {
                self.committed_validator_set = Some(set.clone());
            },
            WriteOp::SetPreviousValidatorSet(set) => {
                self.previous_validator_set = Some(set.clone());
            },
            WriteOp::SetValidatorSetUpdates(block, status) => {
                self.validator_set_updates.insert(*block, status.clone());
            },
            WriteOp::DeleteValidatorSetUpdates(block) => {
                self.validator_set_updates.remove(block);
            },
            WriteOp::SetValidatorSetUpdateHeight(height) => {
                self.update_height = Some(*height);
            },
            WriteOp::SetValidatorSetUpdateDecided(decided) => {
                self.update_decided = Some(*decided);
            },
            WriteOp::SetLockedPC(pc) => {
                self.locked_pc = Some(pc.clone());
            },
            WriteOp::SetHighestPC(pc) => {
                self.highest_pc = Some(pc.clone());
            },
            WriteOp::SetHighestViewEntered(view) => {
                self.highest_view_entered = Some(*view);
            },
            WriteOp::SetHighestViewPhaseVoted(view) => {
                self.highest_view_phase_voted = Some(*view);
            },
            WriteOp::SetHighestCommittedBlock(block) => {
                self.highest_committed_block = Some(*block);
            },
            WriteOp::SetNewestBlock(block) => {
                self.newest_block = Some(*block);
            },
            WriteOp::SetHighestTC(tc) => {
                self.highest_tc = Some(tc.clone());
            },
            WriteOp::DeleteHighestTC => {
                self.highest_tc = None;
            },
            WriteOp::SetLocalTip(tip) => {
                self.local_tip = Some(tip.clone());
            },
            WriteOp::DeleteLocalTip => {
                self.local_tip = None;
            },
            WriteOp::SetLastVotedProposal(view, block) => {
                self.last_voted_proposal = Some((*view, *block));
            },
            WriteOp::SetSpeculativeCommits(commits) => {
                self.speculative_commits = commits.clone();
            },
            WriteOp::SetEquivocationEvidence(evidence) => {
                self.evidence = evidence.clone();
            },
            WriteOp::SetLeaderReputation(reputation) => {
                self.reputation = Some(reputation.clone());
            },
        }
        assert(self@.children =~= apply_change(old(self)@, op@).children);
        assert(self@.app_state =~= apply_change(old(self)@, op@).app_state);
        assert(self@ =~= apply_change(old(self)@, op@));
    }

    /// Carry out all operations of a batch, in order.
    pub fn apply(&mut self, batch: &BlockTreeWriteBatch)
        ensures
            final(self)@ == apply_changes(old(self)@, batch@),
    {
        let mut i: usize = 0;
        while i < batch.ops.len()
            invariant
                i <= batch.ops@.len(),
                self@ == apply_changes(old(self)@, batch@.take(i as int)),
            decreases batch.ops@.len() - i,
        {
            assert(batch@.take(i + 1).drop_last() =~= batch@.take(i as int));
            self.apply_op(&batch.ops[i]);
            i = i + 1;
        }
        assert(batch@.take(i as int) =~= batch@);
    }
}

} // verus!
