//! What the steps of the block tree leave alone.

use vstd::prelude::*;

use crate::block_tree::commit;
use crate::block_tree::commit::CommittedBlock;
use crate::block_tree::pruning;
use crate::block_tree::retention::Retention;
use crate::block_tree::speculation;
use crate::block_tree::store;
use crate::block_tree::store::TreeView;
use crate::block_tree::tree;
use crate::block_tree::updates;
use crate::block_tree::write_batch;
use crate::block_tree::write_batch::{Change, WriteOp};
use crate::committed_feed;
use crate::effects::Deed;
use crate::hotstuff::types::PhaseCertificate;
use crate::roles::Roles;
use crate::types::data_types::{CryptoHash, ViewNumber};
use crate::types::update_sets::AppStateUpdates;
use crate::types::validator_set::ValidatorSetUpdatesStatus;

verus! {

/// A kind of changes.
pub enum Kind {
    /// The committed frontier moves.
    Frontier,
    /// The list of speculative commits changes.
    Speculation,
    /// A block is stored.
    Storing,
    /// A block gets a status of its updates to the validator set.
    Status(CryptoHash),
    /// A view is recorded as voted in.
    Votes,
    /// The highest certificate or the lock moves.
    Certificates,
    /// The validators change, or the change is decided.
    Validators,
    /// The committed application state changes.
    AppState,
}

/// Whether a change is of a kind.
pub open spec fn is_of(kind: Kind, change: Change) -> bool {
    match kind {
        Kind::Frontier => change is Plain && change->Plain_0 is SetHighestCommittedBlock,
        Kind::Speculation => change is SpeculativeCommits,
        Kind::Storing => change is Plain && change->Plain_0 is SetBlock,
        Kind::Status(block) => match change {
            Change::Plain(WriteOp::SetValidatorSetUpdates(of, _)) => of == block,
            _ => false,
        },
        Kind::Votes => change is Plain && change->Plain_0 is SetHighestViewPhaseVoted,
        Kind::Certificates => change is Plain && (change->Plain_0 is SetHighestPC || change->Plain_0
            is SetLockedPC),
        Kind::Validators => change is CommittedValidators || change is PreviousValidators || (change
            is Plain && (change->Plain_0 is SetValidatorSetUpdateHeight || change->Plain_0
            is SetValidatorSetUpdateDecided)),
        Kind::AppState => change is Plain && (change->Plain_0 is SetAppState || change->Plain_0
            is DeleteAppState),
    }
}

/// Whether a commit makes changes of a kind.
pub open spec fn commits_change(kind: Kind) -> bool {
    kind is Frontier || kind is Validators || kind is AppState
}

/// Whether no change is of a kind.
#[verifier::opaque]
pub open spec fn spares(kind: Kind, changes: Seq<Change>) -> bool {
    forall|i: int| 0 <= i < changes.len() ==> !is_of(kind, #[trigger] changes[i])
}

/// Whether nothing that is written is of a kind.
#[verifier::opaque]
pub open spec fn deeds_spare(kind: Kind, deeds: Seq<Deed>) -> bool {
    forall|i: int|
        0 <= i < deeds.len() ==> match #[trigger] deeds[i] {
            Deed::Persist(changes) => spares(kind, changes),
            Deed::Other(_) => true,
        }
}

/// Whether `after` is what changes that spare a kind make of `tree`, as far as that kind goes.
pub open spec fn spared(kind: Kind, tree: TreeView, after: TreeView) -> bool {
    match kind {
        Kind::Frontier => after.highest_committed_block == tree.highest_committed_block,
        Kind::Speculation => after.speculative_commits == tree.speculative_commits,
        Kind::Storing => forall|block: CryptoHash| #[trigger]
            after.blocks.contains_key(block) ==> tree.blocks.contains_key(block)
                && after.blocks[block] == tree.blocks[block],
        Kind::Status(block) => after.validator_set_updates.contains_key(block)
            ==> tree.validator_set_updates.contains_key(block) && after.validator_set_updates[block]
            == tree.validator_set_updates[block],
        Kind::Votes => after.highest_view_phase_voted == tree.highest_view_phase_voted,
        Kind::Certificates => after.highest_pc == tree.highest_pc && after.locked_pc
            == tree.locked_pc,
        Kind::Validators => after.committed_validators == tree.committed_validators
            && after.previous_validators == tree.previous_validators && after.update_height
            == tree.update_height && after.update_decided == tree.update_decided,
        Kind::AppState => after.app_state == tree.app_state,
    }
}

pub(crate) proof fn lemma_spared_trans(kind: Kind, a: TreeView, b: TreeView, c: TreeView)
    requires
        spared(kind, a, b),
        spared(kind, b, c),
    ensures
        spared(kind, a, c),
{
}

/// Changes that spare a kind.
pub(crate) proof fn lemma_spares(kind: Kind, tree: TreeView, changes: Seq<Change>)
    requires
        spares(kind, changes),
    ensures
        spared(kind, tree, store::apply_changes(tree, changes)),
    decreases changes.len(),
{
    reveal(spares);
    if changes.len() > 0 {
        let fewer = changes.drop_last();
        assert(spares(kind, fewer)) by {
            assert forall|i: int| 0 <= i < fewer.len() implies !is_of(kind, #[trigger] fewer[i]) by {
                assert(!is_of(kind, changes[i]));
            }
        }
        lemma_spares(kind, tree, fewer);
        assert(!is_of(kind, changes[changes.len() - 1]));
    }
}

/// Deeds that spare a kind.
pub(crate) proof fn lemma_deeds_spare(kind: Kind, tree: TreeView, deeds: Seq<Deed>)
    requires
        deeds_spare(kind, deeds),
    ensures
        spared(kind, tree, tree::replay(tree, deeds)),
    decreases deeds.len(),
{
    reveal(deeds_spare);
    if deeds.len() > 0 {
        let fewer = deeds.drop_last();
        assert(deeds_spare(kind, fewer)) by {
            assert forall|i: int| 0 <= i < fewer.len() implies match #[trigger] fewer[i] {
                Deed::Persist(changes) => spares(kind, changes),
                Deed::Other(_) => true,
            } by {
                assert(fewer[i] == deeds[i]);
            }
        }
        lemma_deeds_spare(kind, tree, fewer);
        match deeds[deeds.len() - 1] {
            Deed::Persist(changes) => {
                lemma_spares(kind, tree::replay(tree, fewer), changes);
            },
            Deed::Other(_) => {},
        }
    }
}

pub(crate) proof fn lemma_spares_concat(kind: Kind, first: Seq<Change>, second: Seq<Change>)
    requires
        spares(kind, first),
        spares(kind, second),
    ensures
        spares(kind, first + second),
{
    reveal(spares);
    let both = first + second;
    assert forall|i: int| 0 <= i < both.len() implies !is_of(kind, #[trigger] both[i]) by {
        if i < first.len() {
            assert(both[i] == first[i]);
        } else {
            assert(both[i] == second[i - first.len()]);
        }
    }
}

pub(crate) proof fn lemma_deeds_concat(kind: Kind, first: Seq<Deed>, second: Seq<Deed>)
    requires
        deeds_spare(kind, first),
        deeds_spare(kind, second),
    ensures
        deeds_spare(kind, first + second),
{
    reveal(deeds_spare);
    let both = first + second;
    assert forall|i: int| 0 <= i < both.len() implies match #[trigger] both[i] {
        Deed::Persist(changes) => spares(kind, changes),
        Deed::Other(_) => true,
    } by {
        if i < first.len() {
            assert(both[i] == first[i]);
        } else {
            assert(both[i] == second[i - first.len()]);
        }
    }
}

proof fn lemma_app_state(kind: Kind, updates: AppStateUpdates)
    requires
        !(kind is AppState),
    ensures
        spares(kind, write_batch::app_state_changes(updates)),
{
    reveal(spares);
    lemma_spares_concat(
        kind,
        write_batch::insert_changes(updates.inserts@),
        write_batch::delete_changes(updates.deletes@),
    );
}

pub(crate) proof fn lemma_deletions(kind: Kind, tree: TreeView, blocks: Seq<CryptoHash>)
    ensures
        spares(kind, commit::deletions(tree, blocks)),
    decreases blocks.len(),
{
    reveal(spares);
    if blocks.len() > 0 {
        lemma_deletions(kind, tree, blocks.drop_last());
        lemma_spares_concat(
            kind,
            commit::deletions(tree, blocks.drop_last()),
            commit::deletion(tree, blocks.last()),
        );
    }
}

proof fn lemma_branch_deletions(
    kind: Kind,
    tree: TreeView,
    roots: Seq<CryptoHash>,
    kept: CryptoHash,
)
    ensures
        spares(kind, commit::branch_deletions(tree, roots, kept)),
    decreases roots.len(),
{
    reveal(spares);
    if roots.len() > 0 {
        lemma_branch_deletions(kind, tree, roots.drop_last(), kept);
        let branch = commit::branch_of(tree, roots.last());
        lemma_deletions(kind, tree, branch);
        lemma_spares_concat(
            kind,
            commit::branch_deletions(tree, roots.drop_last(), kept),
            commit::deletions(tree, branch),
        );
    }
}

proof fn lemma_commit_one(kind: Kind, tree: TreeView, target: CryptoHash, block: CryptoHash)
    requires
        !commits_change(kind),
        kind is Status ==> !(tree::updates_status(tree, block) is Pending),
    ensures
        spares(kind, commit::commit_one(tree, target, block).0),
{
    reveal(spares);
    if tree.blocks.contains_key(block) {
        let indexed = seq![
            Change::Plain(WriteOp::SetBlockAtHeight(tree.blocks[block].height, block)),
        ];
        let deleted = commit::sibling_deletion(tree, block).0;
        let parent = tree.blocks[block].justify.block;
        if tree.children.contains_key(parent) {
            lemma_branch_deletions(kind, tree, tree.children[parent], block);
        }
        lemma_spares_concat(kind, indexed, deleted);
        let pending = commit::pending_app_changes(tree, block);
        if tree.pending_app_state.contains_key(block) {
            lemma_app_state(kind, tree.pending_app_state[block]);
        }
        lemma_spares_concat(kind, indexed + deleted, pending);
        let applied = indexed + deleted + pending;
        assert(spares(kind, applied));
        match tree::updates_status(tree, block) {
            ValidatorSetUpdatesStatus::Pending(updates) => {
                let changed = commit::validator_changes(tree, target, block, updates);
                assert(spares(kind, changed));
                lemma_spares_concat(kind, applied, changed);
            },
            _ => {},
        }
    }
}

proof fn lemma_commit_all(kind: Kind, tree: TreeView, target: CryptoHash, order: Seq<CryptoHash>)
    requires
        !commits_change(kind),
        kind is Status ==> forall|i: int|
            0 <= i < order.len() ==> !(tree::updates_status(tree, #[trigger] order[i]) is Pending),
    ensures
        spares(kind, commit::commit_all(tree, target, order).0),
    decreases order.len(),
{
    reveal(spares);
    if order.len() > 0 {
        let fewer = order.drop_last();
        if kind is Status {
            assert forall|i: int| 0 <= i < fewer.len() implies !(tree::updates_status(
                tree,
                #[trigger] fewer[i],
            ) is Pending) by {
                assert(fewer[i] == order[i]);
            }
            assert(order.last() == order[order.len() - 1]);
        }
        lemma_commit_all(kind, tree, target, fewer);
        lemma_commit_one(kind, tree, target, order.last());
        lemma_spares_concat(
            kind,
            commit::commit_all(tree, target, order.drop_last()).0,
            commit::commit_one(tree, target, order.last()).0,
        );
    }
}

/// A commit stores no block and leaves the speculative commits. It gives no status where none of
/// the blocks that it takes in brings updates.
pub(crate) proof fn lemma_commit(kind: Kind, tree: TreeView, block: CryptoHash)
    requires
        !commits_change(kind),
        kind is Status ==> ({
            let order = commit::uncommitted_chain(tree, block, u64::MAX as nat).reverse();
            forall|i: int|
                0 <= i < order.len() ==> !(tree::updates_status(
                    tree,
                    #[trigger] order[i],
                ) is Pending)
        }),
    ensures
        spares(kind, commit::commit_outcome(tree, block).0),
{
    reveal(spares);
    lemma_commit_all(
        kind,
        tree,
        block,
        commit::uncommitted_chain(tree, block, u64::MAX as nat).reverse(),
    );
}

/// What settling committed blocks writes is to the speculative commits and the leader records.
pub(crate) proof fn lemma_settling<R: Roles>(
    kind: Kind,
    tree: TreeView,
    roles: R,
    committed: Seq<CommittedBlock>,
)
    requires
        !(kind is Speculation),
    ensures
        deeds_spare(kind, updates::settle_all(tree, roles, committed)),
    decreases committed.len(),
{
    reveal(spares);
    reveal(deeds_spare);
    if committed.len() > 0 {
        let before = updates::settle_all(tree, roles, committed.drop_last());
        lemma_settling(kind, tree, roles, committed.drop_last());
        let after = tree::replay(tree, before);
        let block = committed.last().0;
        let promoted = speculation::unspeculate(after, block);
        assert(deeds_spare(kind, promoted));
        let settled = updates::settle_one(after, roles, block);
        assert(deeds_spare(kind, settled)) by {
            let next = tree::replay(after, promoted);
            if next.blocks.contains_key(block) && !next.blocks[block].justify.is_genesis()
                && next.blocks[block].justify.view.0 < u64::MAX {
                let view = ViewNumber((next.blocks[block].justify.view.0 + 1) as u64);
                let credited = speculation::credit_view(next, roles, view);
                assert(deeds_spare(kind, credited));
                lemma_deeds_concat(kind, promoted, credited);
            }
        }
        lemma_deeds_concat(kind, before, settled);
    }
}

/// Crediting a leader is to the leader records.
pub(crate) proof fn lemma_credit<R: Roles>(
    kind: Kind,
    tree: TreeView,
    roles: R,
    view: ViewNumber,
)
    ensures
        deeds_spare(kind, speculation::credit_view(tree, roles, view)),
{
    reveal(spares);
    reveal(deeds_spare);
}

proof fn lemma_commit_events(kind: Kind, committed: Seq<CommittedBlock>)
    ensures
        deeds_spare(kind, updates::all_commit_events(committed)),
    decreases committed.len(),
{
    reveal(deeds_spare);
    if committed.len() > 0 {
        lemma_commit_events(kind, committed.drop_last());
        lemma_deeds_concat(
            kind,
            updates::all_commit_events(committed.drop_last()),
            updates::commit_events(committed.last()),
        );
    }
}

/// Events write nothing.
pub(crate) proof fn lemma_events(
    kind: Kind,
    highest: Option<PhaseCertificate>,
    locked: Option<PhaseCertificate>,
    committed: Seq<CommittedBlock>,
)
    ensures
        deeds_spare(kind, updates::update_events(highest, locked, committed)),
{
    reveal(deeds_spare);
    lemma_commit_events(kind, committed);
    assert(deeds_spare(kind, updates::highest_event(highest)));
    assert(deeds_spare(kind, updates::locked_event(locked)));
    lemma_deeds_concat(kind, updates::highest_event(highest), updates::locked_event(locked));
    lemma_deeds_concat(
        kind,
        updates::highest_event(highest) + updates::locked_event(locked),
        updates::all_commit_events(committed),
    );
}

proof fn lemma_prune_range(kind: Kind, tree: TreeView, start: int, end: int)
    ensures
        spares(kind, pruning::prune_range(tree, start, end)),
    decreases end - start,
{
    reveal(spares);
    if end > start {
        lemma_prune_range(kind, tree, start, end - 1);
        lemma_spares_concat(
            kind,
            pruning::prune_range(tree, start, end - 1),
            pruning::prune_height(tree, end - 1),
        );
    }
}

/// Pruning stores no block, and leaves the frontier and the speculative commits.
pub(crate) proof fn lemma_pruning(kind: Kind, tree: TreeView, retention: Retention)
    ensures
        deeds_spare(kind, pruning::prune_deeds(tree, retention)),
{
    reveal(spares);
    reveal(deeds_spare);
    if let Some(limit) = retention.limit {
        lemma_prune_range(
            kind,
            tree,
            pruning::prune_start(tree),
            pruning::prune_end(tree, limit),
        );
    }
}

/// Feeding the application writes how far it was fed, and nothing else.
pub(crate) proof fn lemma_feeding(kind: Kind, tree: TreeView)
    ensures
        deeds_spare(kind, committed_feed::feed_deeds(tree)),
{
    reveal(spares);
    reveal(deeds_spare);
}

/// Moving the highest certificate and the lock, and deciding on validators, is none of the other
/// kinds.
pub(crate) proof fn lemma_locking(kind: Kind, tree: TreeView, justify: PhaseCertificate)
    requires
        !(kind is Certificates),
        !(kind is Validators),
    ensures
        spares(kind, updates::lock_changes(tree, justify)),
        spares(kind, updates::decision(justify)),
{
    reveal(spares);
}

} // verus!
