//! Speculative commits, equivocation evidence and leader reputation.

use vstd::prelude::*;

use std::sync::Arc;

use crate::block_tree::cells;
use crate::block_tree::cells::{Cell, EQUIVOCATION_EVIDENCE, SPECULATIVE_COMMITS};
use crate::block_tree::errors;
use crate::block_tree::errors::{BlockTreeError, Key};
use crate::block_tree::persisting::single_key;
use crate::block_tree::reading;
use crate::block_tree::store;
use crate::block_tree::store::TreeView;
use crate::block_tree::tree;
use crate::block_tree::tree::BlockTreeSingleton;
use crate::block_tree::write_batch::{BlockTreeWriteBatch, Change, EvidenceEntry, WriteOp};
use crate::effects::Deed;
use crate::hotstuff::reputation;
use crate::hotstuff::reputation::{LeaderReputation, Records};
use crate::hotstuff::types::EquivocationEvidence;
use crate::roles::Roles;
use crate::types::data_types;
use crate::types::data_types::{
    contains_hash,
    copy_hashes,
    remove_hash,
    same_bytes,
    BlockHeight,
    CryptoHash,
    VerifyingKey,
    ViewNumber,
};

verus! {

/// The deeds that make `commits` the list of speculative commits.
pub open spec fn list_speculative(commits: Seq<CryptoHash>) -> Seq<Deed> {
    seq![Deed::Persist(seq![Change::SpeculativeCommits(commits)])]
}

/// The deeds that add `block` to the speculative commits.
pub open spec fn speculate(tree: TreeView, block: CryptoHash) -> Seq<Deed> {
    if tree.speculative_commits.contains(block) {
        Seq::empty()
    } else {
        list_speculative(tree.speculative_commits.push(block))
    }
}

/// The deeds that take `block` off the speculative commits.
pub open spec fn unspeculate(tree: TreeView, block: CryptoHash) -> Seq<Deed> {
    if tree.speculative_commits.contains(block) {
        list_speculative(data_types::without(tree.speculative_commits, block))
    } else {
        Seq::empty()
    }
}

/// What a piece of evidence is stored as.
pub open spec fn evidence_entry(evidence: EquivocationEvidence) -> EvidenceEntry {
    (evidence.view, evidence.leader.bytes, evidence.block_a, evidence.block_b)
}

/// The deeds that store a piece of evidence, unless it is known already.
pub open spec fn record_evidence(tree: TreeView, evidence: EquivocationEvidence) -> Seq<Deed> {
    if tree.evidence.contains(evidence_entry(evidence)) {
        Seq::empty()
    } else {
        seq![
            Deed::Persist(
                seq![Change::Evidence(tree.evidence.push(evidence_entry(evidence)))],
            ),
        ]
    }
}

/// The deeds that make `entries` the leader reputation.
pub open spec fn list_reputation(entries: Records, window_size: u32) -> Seq<Deed> {
    seq![Deed::Persist(seq![Change::Reputation(entries, window_size)])]
}

/// The deeds that count a success of `leader`. A full counter is left as it is.
pub open spec fn credit_leader(tree: TreeView, leader: VerifyingKey) -> Seq<Deed> {
    let (entries, window_size) = tree::reputation_of(tree);
    let record = reputation::record_of(entries, leader.bytes);
    if record.successes == u32::MAX || record.total == u32::MAX {
        Seq::empty()
    } else {
        list_reputation(
            reputation::with_record(entries, leader.bytes, reputation::after_success(record)),
            window_size,
        )
    }
}

/// The records after a timeout of `leader` was counted: they decay when the number of counted
/// views comes to a multiple of the window.
pub open spec fn timed_out_records(entries: Records, window_size: u32, leader: VerifyingKey) -> Records {
    let counted = reputation::with_record(
        entries,
        leader.bytes,
        reputation::after_timeout(reputation::record_of(entries, leader.bytes)),
    );
    let events = reputation::total_events(counted);
    if 0 < events <= u32::MAX && window_size > 0 && events % (window_size as nat) == 0 {
        reputation::decayed(counted)
    } else {
        counted
    }
}

/// The deeds that count a timeout of `leader`. A full counter is left as it is.
pub open spec fn debit_leader(tree: TreeView, leader: VerifyingKey) -> Seq<Deed> {
    let (entries, window_size) = tree::reputation_of(tree);
    if reputation::record_of(entries, leader.bytes).total == u32::MAX {
        Seq::empty()
    } else {
        list_reputation(timed_out_records(entries, window_size, leader), window_size)
    }
}

/// The deeds that credit the leader of `view`.
pub open spec fn credit_view<R: Roles>(tree: TreeView, roles: R, view: ViewNumber) -> Seq<Deed> {
    credit_leader(
        tree,
        roles.leader(view, tree.committed_validators->0, tree::reputation_of(tree).0),
    )
}

/// Whether `block` is committed for good: it is in the tree, no higher than the highest committed
/// block.
pub open spec fn irrevocable(tree: TreeView, block: CryptoHash) -> bool {
    match tree.highest_committed_block {
        Some(highest) => tree.blocks.contains_key(block) && tree.blocks.contains_key(highest)
            && tree.blocks[block].height.0 <= tree.blocks[highest].height.0,
        None => false,
    }
}

/// Whether the tree says that the height of a block is `height`.
pub open spec fn has_height(tree: TreeView, block: CryptoHash, height: Option<BlockHeight>) -> bool {
    if tree.blocks.contains_key(block) {
        height == Some(tree.blocks[block].height)
    } else {
        cells::holds_option(cells::content(tree.unread, Cell::BlockHeight(block)), height)
    }
}

/// Whether there is a height of a block that cannot be read.
pub open spec fn height_unreadable(tree: TreeView, block: CryptoHash) -> bool {
    &&& !tree.blocks.contains_key(block)
    &&& store::unread_at(tree, Cell::BlockHeight(block))
    &&& reading::is_no_encoding::<BlockHeight>(
        cells::content(tree.unread, Cell::BlockHeight(block))->0,
    )
}

/// Whether the heights that the tree says say whether `block` is committed for good.
pub open spec fn is_irrevocable_by(tree: TreeView, block: CryptoHash, answer: bool) -> bool {
    &&& !store::unread_at(tree, Cell::HighestCommittedBlock)
    &&& match tree.highest_committed_block {
        Some(highest) => exists|at: Option<BlockHeight>, top: Option<BlockHeight>| #[trigger]
            has_height(tree, block, at) && #[trigger] has_height(tree, highest, top) && answer == (at
                is Some && top is Some && (at->0).0 <= (top->0).0),
        None => !answer,
    }
}

impl BlockTreeSingleton {
    /// The blocks that are committed speculatively, oldest first.
    pub fn speculative_commits(&self) -> (r: Result<Vec<CryptoHash>, BlockTreeError>)
        ensures
            match r {
                Ok(commits) => !store::unread_at(self@, Cell::SpeculativeCommits) && commits@
                    == self@.speculative_commits,
                Err(e) => store::unread_at(self@, Cell::SpeculativeCommits) && e
                    == errors::undecodable(Key::HighestTC),
            },
    {
        match self.see_speculative_commits() {
            Ok(()) => Ok(copy_hashes(&*self.store.speculative_commits.hashes)),
            Err(e) => Err(e),
        }
    }

    /// Fail if the list of speculative commits cannot be read.
    fn see_speculative_commits(&self) -> (r: Result<(), BlockTreeError>)
        ensures
            r == tree::readable_or(self@, Cell::SpeculativeCommits, Key::HighestTC, ()),
    {
        self.store.see_readable(
            single_key(SPECULATIVE_COMMITS),
            Key::HighestTC,
            Ghost(Cell::SpeculativeCommits),
        )
    }

    /// Overwrite the list of speculative commits.
    fn set_speculative_commits(&mut self, commits: Vec<CryptoHash>)
        ensures
            tree::advanced(*old(self), *final(self), list_speculative(commits@)),
            final(self).gap_watch == old(self).gap_watch,
    {
        let mut wb = BlockTreeWriteBatch::new();
        let _ = wb.set_speculative_commits(commits);
        assert(wb@ =~= seq![Change::SpeculativeCommits(commits@)]);
        self.write(wb);
    }

    /// Commit `block` speculatively.
    pub fn add_speculative_commit(&mut self, block: CryptoHash) -> (r: Result<(), BlockTreeError>)
        ensures
            r == tree::readable_or(old(self)@, Cell::SpeculativeCommits, Key::HighestTC, ()),
            r is Err ==> *final(self) == *old(self),
            r is Ok ==> tree::advanced(*old(self), *final(self), speculate(old(self)@, block)),
            final(self).gap_watch == old(self).gap_watch,
    {
        match self.see_speculative_commits() {
            Ok(()) => {},
            Err(e) => {
                return Err(e);
            },
        }
        if contains_hash(&*self.store.speculative_commits.hashes, &block) {
            proof {
                tree::lemma_advanced_refl(*self);
            }
            return Ok(());
        }
        let mut commits = copy_hashes(&*self.store.speculative_commits.hashes);
        commits.push(block);
        assert(commits@ =~= old(self)@.speculative_commits.push(block));
        self.set_speculative_commits(commits);
        Ok(())
    }

    /// Take `block` off the speculative commits, because it is committed for good.
    pub fn promote_speculative_to_irrevocable(&mut self, block: &CryptoHash) -> (r: Result<
        (),
        BlockTreeError,
    >)
        ensures
            r == tree::readable_or(old(self)@, Cell::SpeculativeCommits, Key::HighestTC, ()),
            r is Err ==> *final(self) == *old(self),
            r is Ok ==> tree::advanced(*old(self), *final(self), unspeculate(old(self)@, *block)),
            final(self).gap_watch == old(self).gap_watch,
    {
        match self.rollback_speculative_block(block) {
            Ok(_) => Ok(()),
            Err(e) => Err(e),
        }
    }

    /// Undo the speculative commit of `block`. Returns whether there was one.
    pub fn rollback_speculative_block(&mut self, block: &CryptoHash) -> (r: Result<
        bool,
        BlockTreeError,
    >)
        ensures
            r == tree::readable_or(
                old(self)@,
                Cell::SpeculativeCommits,
                Key::HighestTC,
                old(self)@.speculative_commits.contains(*block),
            ),
            r is Err ==> *final(self) == *old(self),
            r is Ok ==> tree::advanced(*old(self), *final(self), unspeculate(old(self)@, *block)),
            final(self).gap_watch == old(self).gap_watch,
    {
        match self.see_speculative_commits() {
            Ok(()) => {},
            Err(e) => {
                return Err(e);
            },
        }
        if !contains_hash(&*self.store.speculative_commits.hashes, block) {
            proof {
                tree::lemma_advanced_refl(*self);
            }
            return Ok(false);
        }
        let commits = remove_hash(&*self.store.speculative_commits.hashes, block);
        self.set_speculative_commits(commits);
        Ok(true)
    }

    /// Whether `block` is committed speculatively.
    pub fn is_speculatively_committed(&self, block: &CryptoHash) -> (r: Result<
        bool,
        BlockTreeError,
    >)
        ensures
            r == tree::readable_or(
                self@,
                Cell::SpeculativeCommits,
                Key::HighestTC,
                self@.speculative_commits.contains(*block),
            ),
    {
        match self.see_speculative_commits() {
            Ok(()) => Ok(contains_hash(&*self.store.speculative_commits.hashes, block)),
            Err(e) => Err(e),
        }
    }

    /// Whether `block` is committed for good: it is in the tree, no higher than the highest
    /// committed block.
    pub fn is_irrevocably_committed(&self, block: &CryptoHash) -> (r: Result<bool, BlockTreeError>)
        ensures
            match r {
                Ok(answer) => is_irrevocable_by(self@, *block, answer),
                Err(e) => {
                    ||| store::unread_at(self@, Cell::HighestCommittedBlock) && e
                        == errors::undecodable(Key::HighestCommittedBlock)
                    ||| exists|of: CryptoHash|
                        (of == *block || self@.highest_committed_block == Some(of))
                            && #[trigger] height_unreadable(self@, of) && e == errors::undecodable(
                            Key::BlockHeight { block: of },
                        )
                },
            },
            store::readable(self@) ==> r == Ok::<bool, BlockTreeError>(irrevocable(self@, *block)),
    {
        let highest = match self.highest_committed_block() {
            Ok(Some(highest)) => highest,
            Ok(None) => {
                return Ok(false);
            },
            Err(e) => {
                return Err(e);
            },
        };
        let at = match self.block_height(block) {
            Ok(at) => at,
            Err(e) => {
                assert(height_unreadable(self@, *block));
                return Err(e);
            },
        };
        let top = match self.block_height(&highest) {
            Ok(top) => top,
            Err(e) => {
                assert(height_unreadable(self@, highest));
                return Err(e);
            },
        };
        assert(has_height(self@, *block, at) && has_height(self@, highest, top));
        match (at, top) {
            (Some(at), Some(top)) => Ok(at.0 <= top.0),
            _ => Ok(false),
        }
    }

    /// The block that was last committed speculatively and not yet for good.
    pub fn latest_speculative_non_irrevocable(&self) -> (r: Result<
        Option<CryptoHash>,
        BlockTreeError,
    >)
        ensures
            r == tree::readable_or(
                self@,
                Cell::SpeculativeCommits,
                Key::HighestTC,
                if self@.speculative_commits.len() > 0 {
                    Some(self@.speculative_commits.last())
                } else {
                    None
                },
            ),
    {
        match self.see_speculative_commits() {
            Ok(()) => {},
            Err(e) => {
                return Err(e);
            },
        }
        let count: usize = self.store.speculative_commits.len();
        if count > 0 {
            Ok(Some(self.store.speculative_commits.at(count - 1)))
        } else {
            Ok(None)
        }
    }

    /// All stored evidence of equivocation, oldest first.
    pub fn get_equivocation_evidence(&self) -> (r: Result<Vec<EvidenceEntry>, BlockTreeError>)
        ensures
            match r {
                Ok(all) => !store::unread_at(self@, Cell::EquivocationEvidence) && all@
                    == self@.evidence,
                Err(e) => store::unread_at(self@, Cell::EquivocationEvidence) && e
                    == errors::undecodable(Key::HighestTC),
            },
    {
        match self.see_evidence() {
            Ok(()) => {},
            Err(e) => {
                return Err(e);
            },
        }
        let mut all: Vec<EvidenceEntry> = Vec::new();
        let mut i: usize = 0;
        while i < self.store.evidence.len()
            invariant
                i <= self.store.evidence@.len(),
                all@ =~= self.store.evidence@.take(i as int),
            decreases self.store.evidence@.len() - i,
        {
            let entry = &self.store.evidence[i];
            all.push((entry.0, entry.1, entry.2, entry.3));
            i = i + 1;
        }
        assert(self.store.evidence@.take(i as int) =~= self.store.evidence@);
        Ok(all)
    }

    /// Fail if the evidence cannot be read.
    fn see_evidence(&self) -> (r: Result<(), BlockTreeError>)
        ensures
            r == tree::readable_or(self@, Cell::EquivocationEvidence, Key::HighestTC, ()),
    {
        self.store.see_readable(
            single_key(EQUIVOCATION_EVIDENCE),
            Key::HighestTC,
            Ghost(Cell::EquivocationEvidence),
        )
    }

    /// Store a piece of evidence, once.
    pub fn store_equivocation_evidence(&mut self, evidence: &EquivocationEvidence) -> (r: Result<
        (),
        BlockTreeError,
    >)
        ensures
            r == tree::readable_or(old(self)@, Cell::EquivocationEvidence, Key::HighestTC, ()),
            r is Err ==> *final(self) == *old(self),
            r is Ok ==> tree::advanced(
                *old(self),
                *final(self),
                record_evidence(old(self)@, *evidence),
            ),
            final(self).gap_watch == old(self).gap_watch,
    {
        match self.see_evidence() {
            Ok(()) => {},
            Err(e) => {
                return Err(e);
            },
        }
        let ghost wanted = evidence_entry(*evidence);
        let mut i: usize = 0;
        while i < self.store.evidence.len()
            invariant
                i <= self.store.evidence@.len(),
                wanted == evidence_entry(*evidence),
                *self == *old(self),
                !store::unread_at(self@, Cell::EquivocationEvidence),
                forall|j: int| 0 <= j < i ==> self.store.evidence@[j] != wanted,
            decreases self.store.evidence@.len() - i,
        {
            let entry = &self.store.evidence[i];
            if entry.0 == evidence.view && same_bytes(&entry.1, &evidence.leader.bytes) && entry.2
                == evidence.block_a && entry.3 == evidence.block_b {
                proof {
                    assert(self.store.evidence@[i as int] == wanted);
                    tree::lemma_advanced_refl(*self);
                }
                return Ok(());
            }
            i = i + 1;
        }
        assert(!self@.evidence.contains(wanted));
        let mut all: Vec<EvidenceEntry> = match self.get_equivocation_evidence() {
            Ok(all) => all,
            Err(e) => {
                return Err(e);
            },
        };
        all.push((evidence.view, evidence.leader.bytes, evidence.block_a, evidence.block_b));
        assert(all@ =~= old(self)@.evidence.push(wanted));
        let mut wb = BlockTreeWriteBatch::new();
        wb.push(WriteOp::SetEquivocationEvidence(Arc::new(all)));
        assert(wb@ =~= seq![Change::Evidence(old(self)@.evidence.push(wanted))]);
        self.write(wb);
        Ok(())
    }

    /// Overwrite the leader reputation.
    pub fn set_leader_reputation(&mut self, reputation: &LeaderReputation) -> (r: Result<
        (),
        BlockTreeError,
    >)
        ensures
            r is Ok,
            tree::advanced(
                *old(self),
                *final(self),
                list_reputation(reputation.entries@, reputation.window_size),
            ),
            final(self).gap_watch == old(self).gap_watch,
    {
        let mut wb = BlockTreeWriteBatch::new();
        wb.push(WriteOp::SetLeaderReputation(reputation.clone()));
        assert(wb@ =~= seq![Change::Reputation(reputation.entries@, reputation.window_size)]);
        self.write(wb);
        Ok(())
    }

    /// Count a view that `leader` led to a certificate.
    pub fn record_leader_success(&mut self, leader: &VerifyingKey) -> (r: Result<
        (),
        BlockTreeError,
    >)
        ensures
            r == tree::readable_or(old(self)@, Cell::LeaderReputation, Key::HighestTC, ()),
            r is Err ==> *final(self) == *old(self),
            r is Ok ==> tree::advanced(*old(self), *final(self), credit_leader(old(self)@, *leader)),
            final(self).gap_watch == old(self).gap_watch,
    {
        match self.leader_reputation() {
            Ok(mut reputation) => {
                let entry = reputation.entry(leader);
                if entry.successes == u32::MAX || entry.total == u32::MAX {
                    proof {
                        tree::lemma_advanced_refl(*self);
                    }
                    return Ok(());
                }
                reputation.record_success(leader);
                let _ = self.set_leader_reputation(&reputation);
                Ok(())
            },
            Err(e) => Err(e),
        }
    }

    /// Count a view of `leader` that timed out.
    pub fn record_leader_timeout(&mut self, leader: &VerifyingKey) -> (r: Result<
        (),
        BlockTreeError,
    >)
        ensures
            r == tree::readable_or(old(self)@, Cell::LeaderReputation, Key::HighestTC, ()),
            r is Err ==> *final(self) == *old(self),
            r is Ok ==> tree::advanced(*old(self), *final(self), debit_leader(old(self)@, *leader)),
            final(self).gap_watch == old(self).gap_watch,
    {
        match self.leader_reputation() {
            Ok(mut reputation) => {
                let entry = reputation.entry(leader);
                if entry.total == u32::MAX {
                    proof {
                        tree::lemma_advanced_refl(*self);
                    }
                    return Ok(());
                }
                reputation.record_timeout(leader);
                match reputation.events() {
                    Some(events) => {
                        if events > 0 && reputation.window_size > 0 && events
                            % reputation.window_size == 0 {
                            reputation.decay();
                        }
                    },
                    None => {},
                }
                let _ = self.set_leader_reputation(&reputation);
                Ok(())
            },
            Err(e) => Err(e),
        }
    }

    /// Credit the leader of `view`.
    pub(crate) fn credit_leader_of<R: Roles>(&mut self, roles: &R, view: ViewNumber)
        requires
            tree::initialized(old(self)@),
        ensures
            tree::advanced(*old(self), *final(self), credit_view(old(self)@, *roles, view)),
            final(self).gap_watch == old(self).gap_watch,
    {
        match (self.committed_validator_set(), self.leader_reputation()) {
            (Ok(set), Ok(reputation)) => {
                let leader = roles.select_leader_with_reputation(view, &set, &reputation);
                let _ = self.record_leader_success(&leader);
            },
            _ => {},
        }
    }
}

} // verus!
