//! What holds of every step of the block tree.

use vstd::prelude::*;

use crate::block_tree::commit;
use crate::block_tree::commit::CommittedBlock;
use crate::block_tree::errors::BlockTreeError;
use crate::block_tree::invariants;
use crate::block_tree::pruning;
use crate::block_tree::pruning::PRUNE_BATCH_MAX;
use crate::block_tree::retention::Retention;
use crate::block_tree::speculation;
use crate::block_tree::store;
use crate::block_tree::store::TreeView;
use crate::block_tree::tree;
use crate::block_tree::updates;
use crate::block_tree::write_batch;
use crate::block_tree::write_batch::{Change, WriteOp};
use crate::effects::{Deed, Effect};
use crate::hotstuff::types::{EquivocationEvidence, PhaseCertificate};
use crate::roles::Roles;
use crate::types::data_types;
use crate::types::data_types::{BlockHeight, CryptoHash};
use crate::types::update_sets::AppStateUpdates;

verus! {

/// Whether a change is to the highest certificate or the lock.
spec fn moves_locks(change: Change) -> bool {
    match change {
        Change::Plain(WriteOp::SetHighestPC(_)) => true,
        Change::Plain(WriteOp::SetLockedPC(_)) => true,
        _ => false,
    }
}

/// Whether no change is to the highest certificate or the lock.
#[verifier::opaque]
spec fn keeps_locks(changes: Seq<Change>) -> bool {
    forall|i: int| 0 <= i < changes.len() ==> !moves_locks(#[trigger] changes[i])
}

/// Whether nothing that is written is to the highest certificate or the lock.
#[verifier::opaque]
spec fn deeds_keep_locks(deeds: Seq<Deed>) -> bool {
    forall|i: int|
        0 <= i < deeds.len() ==> match #[trigger] deeds[i] {
            Deed::Persist(changes) => keeps_locks(changes),
            Deed::Other(_) => true,
        }
}

/// Other changes leave the highest certificate and the lock.
proof fn lemma_keeps_locks(tree: TreeView, changes: Seq<Change>)
    requires
        keeps_locks(changes),
    ensures
        store::apply_changes(tree, changes).highest_pc == tree.highest_pc,
        store::apply_changes(tree, changes).locked_pc == tree.locked_pc,
    decreases changes.len(),
{
    reveal(keeps_locks);
    if changes.len() > 0 {
        let fewer = changes.drop_last();
        assert(keeps_locks(fewer)) by {
            assert forall|i: int| 0 <= i < fewer.len() implies !moves_locks(#[trigger] fewer[i]) by {
                assert(!moves_locks(changes[i]));
            }
        }
        lemma_keeps_locks(tree, fewer);
        assert(!moves_locks(changes[changes.len() - 1]));
    }
}

/// Other deeds leave the highest certificate and the lock.
proof fn lemma_deeds_keep_locks(tree: TreeView, deeds: Seq<Deed>)
    requires
        deeds_keep_locks(deeds),
    ensures
        tree::replay(tree, deeds).highest_pc == tree.highest_pc,
        tree::replay(tree, deeds).locked_pc == tree.locked_pc,
    decreases deeds.len(),
{
    reveal(keeps_locks);
    reveal(deeds_keep_locks);
    if deeds.len() > 0 {
        let fewer = deeds.drop_last();
        assert(deeds_keep_locks(fewer)) by {
            assert forall|i: int| 0 <= i < fewer.len() implies match #[trigger] fewer[i] {
                Deed::Persist(changes) => keeps_locks(changes),
                Deed::Other(_) => true,
            } by {
                assert(fewer[i] == deeds[i]);
            }
        }
        lemma_deeds_keep_locks(tree, fewer);
        match deeds[deeds.len() - 1] {
            Deed::Persist(changes) => {
                lemma_keeps_locks(tree::replay(tree, fewer), changes);
            },
            Deed::Other(_) => {},
        }
    }
}

/// Two lists of other changes make one.
proof fn lemma_keeps_locks_concat(first: Seq<Change>, second: Seq<Change>)
    requires
        keeps_locks(first),
        keeps_locks(second),
    ensures
        keeps_locks(first + second),
{
    reveal(keeps_locks);
    let both = first + second;
    assert forall|i: int| 0 <= i < both.len() implies !moves_locks(#[trigger] both[i]) by {
        if i < first.len() {
            assert(both[i] == first[i]);
        } else {
            assert(both[i] == second[i - first.len()]);
        }
    }
}

/// Two lists of other deeds make one.
proof fn lemma_deeds_keep_locks_concat(first: Seq<Deed>, second: Seq<Deed>)
    requires
        deeds_keep_locks(first),
        deeds_keep_locks(second),
    ensures
        deeds_keep_locks(first + second),
{
    reveal(keeps_locks);
    reveal(deeds_keep_locks);
    let both = first + second;
    assert forall|i: int| 0 <= i < both.len() implies match #[trigger] both[i] {
        Deed::Persist(changes) => keeps_locks(changes),
        Deed::Other(_) => true,
    } by {
        if i < first.len() {
            assert(both[i] == first[i]);
        } else {
            assert(both[i] == second[i - first.len()]);
        }
    }
}

proof fn lemma_app_state_keeps_locks(updates: AppStateUpdates)
    ensures
        keeps_locks(write_batch::app_state_changes(updates)),
{
    reveal(keeps_locks);
    lemma_keeps_locks_concat(
        write_batch::insert_changes(updates.inserts@),
        write_batch::delete_changes(updates.deletes@),
    );
}

proof fn lemma_deletions_keep_locks(tree: TreeView, blocks: Seq<CryptoHash>)
    ensures
        keeps_locks(commit::deletions(tree, blocks)),
    decreases blocks.len(),
{
    reveal(keeps_locks);
    if blocks.len() > 0 {
        lemma_deletions_keep_locks(tree, blocks.drop_last());
        lemma_keeps_locks_concat(
            commit::deletions(tree, blocks.drop_last()),
            commit::deletion(tree, blocks.last()),
        );
    }
}

proof fn lemma_branch_deletions_keep_locks(
    tree: TreeView,
    roots: Seq<CryptoHash>,
    spared: CryptoHash,
)
    ensures
        keeps_locks(commit::branch_deletions(tree, roots, spared)),
    decreases roots.len(),
{
    reveal(keeps_locks);
    if roots.len() > 0 {
        lemma_branch_deletions_keep_locks(tree, roots.drop_last(), spared);
        let branch = commit::branch_of(tree, roots.last());
        lemma_deletions_keep_locks(tree, branch);
        lemma_keeps_locks_concat(
            commit::branch_deletions(tree, roots.drop_last(), spared),
            commit::deletions(tree, branch),
        );
    }
}

proof fn lemma_commit_one_keeps_locks(tree: TreeView, target: CryptoHash, block: CryptoHash)
    ensures
        keeps_locks(commit::commit_one(tree, target, block).0),
{
    reveal(keeps_locks);
    if tree.blocks.contains_key(block) {
        let indexed = seq![
            Change::Plain(WriteOp::SetBlockAtHeight(tree.blocks[block].height, block)),
        ];
        let deleted = commit::sibling_deletion(tree, block).0;
        let parent = tree.blocks[block].justify.block;
        if tree.children.contains_key(parent) {
            lemma_branch_deletions_keep_locks(tree, tree.children[parent], block);
        }
        lemma_keeps_locks_concat(indexed, deleted);
        let pending = commit::pending_app_changes(tree, block);
        if tree.pending_app_state.contains_key(block) {
            lemma_app_state_keeps_locks(tree.pending_app_state[block]);
        }
        lemma_keeps_locks_concat(indexed + deleted, pending);
        let applied = indexed + deleted + pending;
        assert(keeps_locks(applied));
        match tree::updates_status(tree, block) {
            crate::types::validator_set::ValidatorSetUpdatesStatus::Pending(updates) => {
                let changed = commit::validator_changes(tree, target, block, updates);
                assert(keeps_locks(changed));
                lemma_keeps_locks_concat(applied, changed);
            },
            _ => {},
        }
    }
}

proof fn lemma_commit_all_keeps_locks(tree: TreeView, target: CryptoHash, order: Seq<CryptoHash>)
    ensures
        keeps_locks(commit::commit_all(tree, target, order).0),
    decreases order.len(),
{
    reveal(keeps_locks);
    if order.len() > 0 {
        lemma_commit_all_keeps_locks(tree, target, order.drop_last());
        lemma_commit_one_keeps_locks(tree, target, order.last());
        lemma_keeps_locks_concat(
            commit::commit_all(tree, target, order.drop_last()).0,
            commit::commit_one(tree, target, order.last()).0,
        );
    }
}

proof fn lemma_settling_keeps_locks<R: Roles>(
    tree: TreeView,
    roles: R,
    committed: Seq<CommittedBlock>,
)
    ensures
        deeds_keep_locks(updates::settle_all(tree, roles, committed)),
    decreases committed.len(),
{
    reveal(keeps_locks);
    reveal(deeds_keep_locks);
    if committed.len() > 0 {
        let before = updates::settle_all(tree, roles, committed.drop_last());
        lemma_settling_keeps_locks(tree, roles, committed.drop_last());
        let after = tree::replay(tree, before);
        let block = committed.last().0;
        let promoted = speculation::unspeculate(after, block);
        assert(deeds_keep_locks(promoted));
        let settled = updates::settle_one(after, roles, block);
        assert(deeds_keep_locks(settled)) by {
            let next = tree::replay(after, promoted);
            if next.blocks.contains_key(block) && !next.blocks[block].justify.is_genesis()
                && next.blocks[block].justify.view.0 < u64::MAX {
                let credited = speculation::credit_view(
                    next,
                    roles,
                    crate::types::data_types::ViewNumber(
                        (next.blocks[block].justify.view.0 + 1) as u64,
                    ),
                );
                assert(deeds_keep_locks(credited));
                lemma_deeds_keep_locks_concat(promoted, credited);
            }
        }
        lemma_deeds_keep_locks_concat(before, settled);
    }
}

proof fn lemma_commit_events_keep_locks(committed: Seq<CommittedBlock>)
    ensures
        deeds_keep_locks(updates::all_commit_events(committed)),
    decreases committed.len(),
{
    reveal(keeps_locks);
    reveal(deeds_keep_locks);
    if committed.len() > 0 {
        lemma_commit_events_keep_locks(committed.drop_last());
        lemma_deeds_keep_locks_concat(
            updates::all_commit_events(committed.drop_last()),
            updates::commit_events(committed.last()),
        );
    }
}

proof fn lemma_prune_range_keeps_locks(tree: TreeView, start: int, end: int)
    ensures
        keeps_locks(pruning::prune_range(tree, start, end)),
    decreases end - start,
{
    reveal(keeps_locks);
    if end > start {
        lemma_prune_range_keeps_locks(tree, start, end - 1);
        lemma_keeps_locks_concat(
            pruning::prune_range(tree, start, end - 1),
            pruning::prune_height(tree, end - 1),
        );
    }
}

proof fn lemma_pruning_keeps_locks(tree: TreeView, retention: Retention)
    ensures
        deeds_keep_locks(pruning::prune_deeds(tree, retention)),
{
    reveal(keeps_locks);
    reveal(deeds_keep_locks);
    if let Some(limit) = retention.limit {
        lemma_prune_range_keeps_locks(tree, pruning::prune_start(tree), pruning::prune_end(tree, limit));
    }
}

/// What the first write of acting on a certificate makes of the highest certificate and the lock.
proof fn lemma_first_write(tree: TreeView, justify: PhaseCertificate, others: Seq<Change>)
    requires
        keeps_locks(others),
    ensures
        ({
            let after = store::apply_changes(tree, updates::lock_changes(tree, justify) + others);
            &&& after.highest_pc == (if updates::is_news(tree, justify) {
                Some(justify)
            } else {
                tree.highest_pc
            })
            &&& after.locked_pc == (match invariants::new_lock(tree, justify) {
                Some(pc) => Some(pc),
                None => tree.locked_pc,
            })
        }),
{
    let moved = updates::lock_changes(tree, justify);
    store::lemma_apply_concat(tree, moved, others);
    lemma_keeps_locks(store::apply_changes(tree, moved), others);
    let highest = if updates::is_news(tree, justify) {
        seq![Change::Plain(WriteOp::SetHighestPC(justify))]
    } else {
        Seq::empty()
    };
    let lock = match invariants::new_lock(tree, justify) {
        Some(pc) => seq![Change::Plain(WriteOp::SetLockedPC(pc))],
        None => Seq::empty(),
    };
    store::lemma_apply_concat(tree, highest, lock);
    reveal_with_fuel(crate::block_tree::store::apply_changes, 2);
}

/// What a certificate commits leaves the highest certificate and the lock.
proof fn lemma_justified_commit_keeps_locks(tree: TreeView, justify: PhaseCertificate)
    ensures
        keeps_locks(updates::justified_commit(tree, justify).0 + updates::decision(justify)),
{
    reveal(keeps_locks);
    match invariants::commit_target(tree, justify) {
        Ok(Some(block)) => {
            let chain = commit::uncommitted_chain(tree, block, u64::MAX as nat);
            lemma_commit_all_keeps_locks(tree, block, chain.reverse());
        },
        _ => {},
    }
    lemma_keeps_locks_concat(
        updates::justified_commit(tree, justify).0,
        updates::decision(justify),
    );
}

/// The events of acting on a certificate leave the highest certificate and the lock.
proof fn lemma_update_events_keep_locks(
    highest: Option<PhaseCertificate>,
    locked: Option<PhaseCertificate>,
    committed: Seq<CommittedBlock>,
)
    ensures
        deeds_keep_locks(updates::update_events(highest, locked, committed)),
{
    reveal(keeps_locks);
    reveal(deeds_keep_locks);
    lemma_commit_events_keep_locks(committed);
    assert(deeds_keep_locks(updates::highest_event(highest)));
    assert(deeds_keep_locks(updates::locked_event(locked)));
    lemma_deeds_keep_locks_concat(
        updates::highest_event(highest),
        updates::locked_event(locked),
    );
    lemma_deeds_keep_locks_concat(
        updates::highest_event(highest) + updates::locked_event(locked),
        updates::all_commit_events(committed),
    );
}

/// Four lists of other deeds leave the highest certificate and the lock.
proof fn lemma_rest_keeps_locks(
    tree: TreeView,
    a: Seq<Deed>,
    b: Seq<Deed>,
    c: Seq<Deed>,
    d: Seq<Deed>,
)
    requires
        deeds_keep_locks(a),
        deeds_keep_locks(b),
        deeds_keep_locks(c),
        deeds_keep_locks(d),
    ensures
        tree::replay(tree, a + b + c + d).highest_pc == tree.highest_pc,
        tree::replay(tree, a + b + c + d).locked_pc == tree.locked_pc,
{
    lemma_deeds_keep_locks_concat(a, b);
    lemma_deeds_keep_locks_concat(a + b, c);
    lemma_deeds_keep_locks_concat(a + b + c, d);
    lemma_deeds_keep_locks(tree, a + b + c + d);
}

/// Crediting the leader of a new certificate leaves the highest certificate and the lock.
proof fn lemma_credit_keeps_locks<R: Roles>(
    tree: TreeView,
    roles: R,
    news: bool,
    justify: PhaseCertificate,
)
    ensures
        deeds_keep_locks(updates::credit_news(tree, roles, news, justify)),
{
    reveal(keeps_locks);
    reveal(deeds_keep_locks);
}

/// Acting on a certificate sets the highest certificate and the lock to it where it is newer, and
/// never moves either backwards.
pub proof fn law_update_only_moves_forward<R: Roles>(
    tree: TreeView,
    justify: PhaseCertificate,
    roles: R,
    retention: Retention,
)
    requires
        tree::initialized(tree),
        updates::update_outcome(tree, justify, roles, retention) is Ok,
    ensures
        ({
            let after = tree::replay(tree, updates::update_outcome(tree, justify, roles, retention)->Ok_0.0);
            &&& after.highest_pc == (if updates::is_news(tree, justify) {
                Some(justify)
            } else {
                tree.highest_pc
            })
            &&& after.locked_pc == (match invariants::new_lock(tree, justify) {
                Some(pc) => Some(pc),
                None => tree.locked_pc,
            })
            &&& (after.highest_pc->0).view.0 >= (tree.highest_pc->0).view.0
            &&& (after.locked_pc->0).view.0 >= (tree.locked_pc->0).view.0
        }),
{
    let (commit_changes, result) = updates::justified_commit(tree, justify);
    let committed = result->Ok_0;
    let none = Seq::<Change>::empty();
    let batch = none + updates::lock_changes(tree, justify) + commit_changes
        + updates::decision(justify);
    let others = commit_changes + updates::decision(justify);
    lemma_justified_commit_keeps_locks(tree, justify);
    assert(batch =~= updates::lock_changes(tree, justify) + others);
    lemma_first_write(tree, justify, others);
    let written = seq![Deed::Persist(batch)];
    tree::lemma_replay_one(tree, Deed::Persist(batch));
    let news = updates::is_news(tree, justify);
    let credited = updates::credit_news(tree::replay(tree, written), roles, news, justify);
    let settled = updates::settle_all(tree::replay(tree, written + credited), roles, committed);
    let highest = updates::new_highest(tree, justify);
    let locked = invariants::new_lock(tree, justify);
    let events = updates::update_events(highest, locked, committed);
    let before_pruning = written + credited + settled + events;
    let pruned = if committed.len() == 0 {
        Seq::empty()
    } else {
        pruning::prune_deeds(tree::replay(tree, before_pruning), retention)
    };
    lemma_credit_keeps_locks(tree::replay(tree, written), roles, news, justify);
    lemma_settling_keeps_locks(tree::replay(tree, written + credited), roles, committed);
    lemma_update_events_keep_locks(highest, locked, committed);
    lemma_pruning_keeps_locks(tree::replay(tree, before_pruning), retention);
    assert(deeds_keep_locks(pruned));
    let rest = credited + settled + events + pruned;
    assert(before_pruning + pruned =~= written + rest);
    tree::lemma_replay_concat(tree, written, rest);
    lemma_rest_keeps_locks(tree::replay(tree, written), credited, settled, events, pruned);
}

/// Moving the lock on ahead of a body sets the highest certificate and the lock as acting on the
/// certificate does. Afterwards the certificate is no news, and there is nothing to lock on: acting
/// on it later moves neither again.
pub proof fn law_locking_ahead_is_not_repeated<R: Roles>(
    tree: TreeView,
    justify: PhaseCertificate,
    roles: R,
)
    requires
        tree::initialized(tree),
    ensures
        ({
            let after = tree::replay(tree, updates::locks_only_deeds(tree, justify, roles));
            &&& after.highest_pc == (if updates::is_news(tree, justify) {
                Some(justify)
            } else {
                tree.highest_pc
            })
            &&& after.locked_pc == (match invariants::new_lock(tree, justify) {
                Some(pc) => Some(pc),
                None => tree.locked_pc,
            })
            &&& !updates::is_news(after, justify)
            &&& invariants::new_lock(after, justify) is None
            &&& (after.locked_pc->0).view.0 >= (tree.locked_pc->0).view.0
        }),
{
    reveal(keeps_locks);
    reveal(deeds_keep_locks);
    lemma_first_write(tree, justify, updates::decision(justify));
    let batch = updates::lock_changes(tree, justify) + updates::decision(justify);
    let written = seq![Deed::Persist(batch)];
    tree::lemma_replay_one(tree, Deed::Persist(batch));
    let credited = updates::credit_news(
        tree::replay(tree, written),
        roles,
        updates::is_news(tree, justify),
        justify,
    );
    let events = updates::update_events(
        updates::new_highest(tree, justify),
        invariants::new_lock(tree, justify),
        Seq::empty(),
    );
    assert(deeds_keep_locks(credited));
    assert(deeds_keep_locks(events));
    lemma_deeds_keep_locks_concat(credited, events);
    let rest = credited + events;
    assert(updates::locks_only_deeds(tree, justify, roles) =~= written + rest);
    tree::lemma_replay_concat(tree, written, rest);
    lemma_deeds_keep_locks(tree::replay(tree, written), rest);
}

/// The first thing that acting on a certificate does is to write, in one batch, everything that the
/// certificate brings about: whatever observers are told is durable.
pub proof fn law_events_follow_the_write<R: Roles>(
    tree: TreeView,
    justify: PhaseCertificate,
    roles: R,
    retention: Retention,
)
    requires
        updates::update_outcome(tree, justify, roles, retention) is Ok,
    ensures
        updates::update_outcome(tree, justify, roles, retention)->Ok_0.0.len() > 0,
        updates::update_outcome(tree, justify, roles, retention)->Ok_0.0[0] == Deed::Persist(
            updates::lock_changes(tree, justify) + updates::justified_commit(tree, justify).0 + updates::decision(justify),
        ),
{
    let none = Seq::<Change>::empty();
    assert(none + updates::lock_changes(tree, justify) =~= updates::lock_changes(tree, justify));
}

/// The blocks of a chain follow on each other.
pub(crate) proof fn lemma_chain(tree: TreeView, block: CryptoHash, limit: nat)
    ensures
        ({
            let chain = commit::uncommitted_chain(tree, block, limit);
            &&& chain.len() > 0 ==> chain[0] == block
            &&& forall|i: int|
                0 <= i < chain.len() ==> commit::above_frontier(tree, #[trigger] chain[i])
            &&& forall|i: int|
                0 <= i < chain.len() - 1 ==> #[trigger] commit::leads_down(tree, chain, i)
        }),
    decreases limit,
{
    if limit > 0 && commit::above_frontier(tree, block) {
        match commit::parent_in(tree, block) {
            Some(parent) => {
                lemma_chain(tree, parent, (limit - 1) as nat);
                let rest = commit::uncommitted_chain(tree, parent, (limit - 1) as nat);
                let chain = commit::uncommitted_chain(tree, block, limit);
                assert(chain =~= seq![block] + rest);
                assert forall|i: int| 0 <= i < chain.len() implies commit::above_frontier(
                    tree,
                    #[trigger] chain[i],
                ) by {
                    if i > 0 {
                        assert(chain[i] == rest[i - 1]);
                    }
                }
                assert forall|i: int| 0 <= i < chain.len() - 1 implies
                    #[trigger] commit::leads_down(tree, chain, i) by {
                    if i > 0 {
                        assert(commit::leads_down(tree, rest, i - 1));
                        assert(chain[i] == rest[i - 1]);
                        assert(chain[i + 1] == rest[i]);
                    } else {
                        assert(chain[1] == rest[0]);
                    }
                }
            },
            None => {},
        }
    }
}

/// A commit takes in the blocks that it is to take in, in their order.
pub(crate) proof fn lemma_commit_all_order(tree: TreeView, target: CryptoHash, order: Seq<CryptoHash>)
    requires
        commit::commit_all(tree, target, order).1 is Ok,
    ensures
        commit::commit_all(tree, target, order).1->Ok_0.len() == order.len(),
        forall|i: int|
            0 <= i < order.len() ==> (#[trigger] commit::commit_all(tree, target, order).1->Ok_0[i]).0
                == order[i] && tree.blocks.contains_key(order[i]),
    decreases order.len(),
{
    if order.len() > 0 {
        lemma_commit_all_order(tree, target, order.drop_last());
        let fewer = commit::commit_all(tree, target, order.drop_last()).1->Ok_0;
        let all = commit::commit_all(tree, target, order).1->Ok_0;
        assert forall|i: int| 0 <= i < order.len() implies (#[trigger] all[i]).0 == order[i]
            && tree.blocks.contains_key(order[i]) by {
            if i < fewer.len() {
                assert(all[i] == fewer[i]);
                assert(order.drop_last()[i] == order[i]);
            }
        }
    }
}

/// A commit never crosses a hole: what it takes in follows directly on the committed frontier, each
/// block is the parent of the next, and the last one is the block that was to be committed.
pub proof fn law_commits_are_contiguous(tree: TreeView, block: CryptoHash)
    requires
        commit::commit_outcome(tree, block).1 is Ok,
        commit::commit_outcome(tree, block).1->Ok_0.len() > 0,
    ensures
        ({
            let committed = commit::commit_outcome(tree, block).1->Ok_0;
            &&& commit::chains_to_frontier(tree, committed[0].0)
            &&& committed.last().0 == block
            &&& forall|i: int|
                0 <= i < committed.len() ==> tree.blocks.contains_key(
                    (#[trigger] committed[i]).0,
                ) && commit::above_frontier(tree, committed[i].0)
            &&& forall|i: int|
                0 < i < committed.len() ==> #[trigger] commit::follows_on(tree, committed, i)
        }),
{
    let chain = commit::uncommitted_chain(tree, block, u64::MAX as nat);
    let order = chain.reverse();
    lemma_chain(tree, block, u64::MAX as nat);
    lemma_commit_all_order(tree, block, order);
    let committed = commit::commit_outcome(tree, block).1->Ok_0;
    let n = chain.len() as int;
    assert(committed[0].0 == chain[n - 1]);
    assert(committed[n - 1].0 == chain[0]);
    assert forall|i: int| 0 <= i < committed.len() implies tree.blocks.contains_key(
        (#[trigger] committed[i]).0,
    ) && commit::above_frontier(tree, committed[i].0) by {
        assert(committed[i].0 == order[i]);
        assert(order[i] == chain[n - 1 - i]);
    }
    assert forall|i: int| 0 < i < committed.len() implies #[trigger] commit::follows_on(
        tree,
        committed,
        i,
    ) by {
        assert(committed[i].0 == order[i] && order[i] == chain[n - 1 - i]);
        assert(committed[i - 1].0 == order[i - 1] && order[i - 1] == chain[n - i]);
        assert(commit::leads_down(tree, chain, n - 1 - i));
    }
}

/// A commit that is put off changes nothing and commits nothing. For a block above the committed
/// frontier that is so exactly where the commit is put off: where the chain of blocks from it down
/// to the frontier has a gap.
pub proof fn law_commits_wait_for_missing_ancestors(tree: TreeView, block: CryptoHash)
    ensures
        ({
            let nothing = (
                Seq::<Change>::empty(),
                Ok::<Seq<CommittedBlock>, BlockTreeError>(Seq::empty()),
            );
            &&& commit::commit_deferred(tree, block) ==> commit::above_frontier(tree, block)
                && commit::commit_outcome(tree, block) == nothing
            &&& commit::above_frontier(tree, block) ==> (commit::commit_outcome(tree, block)
                == nothing <==> commit::commit_deferred(tree, block))
            &&& commit::above_frontier(tree, block) && commit::commit_outcome(tree, block).1 is Ok
                && !commit::commit_deferred(tree, block) ==> commit::commit_outcome(
                tree,
                block,
            ).1->Ok_0.len() > 0
        }),
{
    let chain = commit::uncommitted_chain(tree, block, u64::MAX as nat);
    let outcome = commit::commit_outcome(tree, block);
    if commit::above_frontier(tree, block) && outcome.1 is Ok && !commit::commit_deferred(
        tree,
        block,
    ) {
        assert(chain.len() > 0);
        lemma_commit_all_order(tree, block, chain.reverse());
    }
}

/// What pruning one height makes of a tree.
pub(crate) proof fn lemma_prune_one(known: TreeView, tree: TreeView, height: int)
    requires
        store::readable(tree),
        known.block_at_height.contains_key(BlockHeight(height as u64)),
    ensures
        ({
            let block = known.block_at_height[BlockHeight(height as u64)];
            store::apply_changes(tree, pruning::prune_height(known, height)) == (TreeView {
                blocks: tree.blocks.remove(block),
                children: tree.children.remove(block),
                pending_app_state: tree.pending_app_state.remove(block),
                validator_set_updates: tree.validator_set_updates.remove(block),
                block_at_height: tree.block_at_height.remove(BlockHeight(height as u64)),
                ..tree
            })
        }),
{
    let all = pruning::prune_height(known, height);
    let c0 = Seq::<Change>::empty();
    let c1 = c0.push(all[0]);
    let c2 = c1.push(all[1]);
    let c3 = c2.push(all[2]);
    let c4 = c3.push(all[3]);
    store::lemma_apply_push(tree, c0, all[0]);
    store::lemma_apply_push(tree, c1, all[1]);
    store::lemma_apply_push(tree, c2, all[2]);
    store::lemma_apply_push(tree, c3, all[3]);
    store::lemma_apply_push(tree, c4, all[4]);
    assert(c4.push(all[4]) =~= all);
}

/// What pruning a range makes of a tree.
proof fn lemma_prune_range(known: TreeView, tree: TreeView, start: int, end: int)
    requires
        store::readable(tree),
        0 <= start,
        end <= u64::MAX,
    ensures
        ({
            let after = store::apply_changes(tree, pruning::prune_range(known, start, end));
            &&& forall|height: u64| #[trigger]
                after.block_at_height.contains_key(BlockHeight(height)) == (
                tree.block_at_height.contains_key(BlockHeight(height)) && !(start <= height < end
                    && known.block_at_height.contains_key(BlockHeight(height))))
            &&& forall|height: u64|
                #![trigger after.block_at_height[BlockHeight(height)]]
                after.block_at_height.contains_key(BlockHeight(height))
                    ==> after.block_at_height[BlockHeight(height)]
                    == tree.block_at_height[BlockHeight(height)]
            &&& forall|block: CryptoHash|
                #![trigger after.blocks.contains_key(block)]
                !indexed_between(known, block, start, end) ==> (after.blocks.contains_key(block)
                    == tree.blocks.contains_key(block) && after.blocks[block]
                    == tree.blocks[block])
            &&& after == (TreeView {
                blocks: after.blocks,
                block_at_height: after.block_at_height,
                children: after.children,
                pending_app_state: after.pending_app_state,
                validator_set_updates: after.validator_set_updates,
                ..tree
            })
        }),
    decreases end - start,
{
    if end > start {
        lemma_prune_range(known, tree, start, end - 1);
        let before = pruning::prune_range(known, start, end - 1);
        let one = pruning::prune_height(known, end - 1);
        store::lemma_apply_concat(tree, before, one);
        let middle = store::apply_changes(tree, before);
        let after = store::apply_changes(middle, one);
        let at = BlockHeight((end - 1) as u64);
        if known.block_at_height.contains_key(at) {
            let block = known.block_at_height[at];
            store::lemma_stays_readable(tree, before);
            lemma_prune_one(known, middle, end - 1);
            assert(after.blocks == middle.blocks.remove(block));
            assert(after.block_at_height == middle.block_at_height.remove(at));
            assert forall|other: CryptoHash|
                #![trigger after.blocks.contains_key(other)]
                !indexed_between(known, other, start, end) implies after.blocks.contains_key(other)
                == tree.blocks.contains_key(other) && after.blocks[other]
                == tree.blocks[other] by {
                assert(indexed_at(known, block, at));
                assert(other != block);
                assert(!indexed_between(known, other, start, end - 1)) by {
                    if indexed_between(known, other, start, end - 1) {
                        let height = choose|height: u64|
                            start <= height < end - 1 && indexed_at(
                                known,
                                other,
                                BlockHeight(height),
                            );
                        assert(indexed_at(known, other, BlockHeight(height)));
                    }
                }
                assert(middle.blocks.contains_key(other) == tree.blocks.contains_key(other));
            }
        } else {
            assert forall|other: CryptoHash| !indexed_between(known, other, start, end) implies
                !#[trigger] indexed_between(known, other, start, end - 1) by {
                if indexed_between(known, other, start, end - 1) {
                    let height = choose|height: u64|
                        start <= height < end - 1 && indexed_at(known, other, BlockHeight(height));
                    assert(indexed_at(known, other, BlockHeight(height)));
                }
            }
        }
    }
}

/// Whether `block` is indexed as the committed block of a height.
pub open spec fn indexed_at(tree: TreeView, block: CryptoHash, height: BlockHeight) -> bool {
    tree.block_at_height.contains_key(height) && tree.block_at_height[height] == block
}

/// Whether `block` is indexed as the committed block of a height from `start` up to and without
/// `end`.
pub open spec fn indexed_between(
    tree: TreeView,
    block: CryptoHash,
    start: int,
    end: int,
) -> bool {
    exists|height: u64| start <= height < end && #[trigger] indexed_at(
        tree,
        block,
        BlockHeight(height),
    )
}

/// Pruning deletes at most a batch of heights, all of them below the retention window. Every height
/// from there on, every block that is not indexed below, and everything else in the tree stays.
pub proof fn law_pruning_spares_what_is_retained(tree: TreeView, retention: u64)
    requires
        store::readable(tree),
    ensures
        ({
            let after = tree::replay(tree, pruning::prune_deeds_with(tree, retention));
            let end = pruning::prune_end(tree, retention);
            &&& pruning::prunes(tree, retention) ==> end <= pruning::prune_start(tree) + PRUNE_BATCH_MAX && end
                <= pruning::prune_horizon(tree, retention)
            &&& forall|height: u64|
                #![trigger after.block_at_height.contains_key(BlockHeight(height))]
                !(pruning::prune_start(tree) <= height < end) ==> after.block_at_height.contains_key(
                    BlockHeight(height),
                ) == tree.block_at_height.contains_key(BlockHeight(height))
            &&& forall|block: CryptoHash|
                #![trigger after.blocks.contains_key(block)]
                !indexed_between(tree, block, pruning::prune_start(tree), end) ==> (
                after.blocks.contains_key(block) == tree.blocks.contains_key(block)
                    && after.blocks[block] == tree.blocks[block])
            &&& after == (TreeView {
                blocks: after.blocks,
                block_at_height: after.block_at_height,
                children: after.children,
                pending_app_state: after.pending_app_state,
                validator_set_updates: after.validator_set_updates,
                pruned_height: after.pruned_height,
                ..tree
            })
        }),
{
    if pruning::prunes(tree, retention) {
        let start = pruning::prune_start(tree);
        let end = pruning::prune_end(tree, retention);
        lemma_prune_range(tree, tree, start, end);
        let changes = pruning::prune_range(tree, start, end);
        let last = Change::Plain(WriteOp::SetPrunedHeight(BlockHeight(end as u64)));
        tree::lemma_replay_one(tree, Deed::Persist(changes.push(last)));
        assert(changes.push(last).drop_last() =~= changes);
        let after = tree::replay(tree, pruning::prune_deeds_with(tree, retention));
        let pruned = store::apply_changes(tree, changes);
        store::lemma_stays_readable(tree, changes);
        assert(after == (TreeView { pruned_height: Some(BlockHeight(end as u64)), ..pruned }));
    } else {
        tree::lemma_replay_one(tree, Deed::Persist(Seq::empty()));
    }
}

/// Pruning goes on where it left off: each call that prunes moves its start up to the end of what
/// it pruned. A call that reaches the window leaves nothing to prune, as long as the committed
/// frontier is not indexed below it.
pub proof fn law_pruning_catches_up(tree: TreeView, retention: u64)
    requires
        store::readable(tree),
        pruning::prunes(tree, retention),
        !indexed_between(
            tree,
            tree.highest_committed_block->0,
            pruning::prune_start(tree),
            pruning::prune_end(tree, retention),
        ),
    ensures
        ({
            let after = tree::replay(tree, pruning::prune_deeds_with(tree, retention));
            &&& pruning::prune_start(after) == pruning::prune_end(tree, retention)
            &&& pruning::prune_horizon(after, retention) == pruning::prune_horizon(tree, retention)
            &&& pruning::prune_horizon(tree, retention) <= pruning::prune_start(tree) + PRUNE_BATCH_MAX ==> !pruning::prunes(
                after,
                retention,
            )
        }),
{
    let start = pruning::prune_start(tree);
    let end = pruning::prune_end(tree, retention);
    lemma_prune_range(tree, tree, start, end);
    let changes = pruning::prune_range(tree, start, end);
    let last = Change::Plain(WriteOp::SetPrunedHeight(BlockHeight(end as u64)));
    tree::lemma_replay_one(tree, Deed::Persist(changes.push(last)));
    assert(changes.push(last).drop_last() =~= changes);
    let after = tree::replay(tree, pruning::prune_deeds_with(tree, retention));
    let pruned = store::apply_changes(tree, changes);
    store::lemma_stays_readable(tree, changes);
    assert(after == (TreeView { pruned_height: Some(BlockHeight(end as u64)), ..pruned }));
    let frontier = tree.highest_committed_block->0;
    assert(after.blocks.contains_key(frontier) == tree.blocks.contains_key(frontier));
}

/// Taking a block as speculatively committed and rolling that back leaves the tree as it was, if
/// the block was not taken so before.
pub proof fn law_rollback_undoes_speculation(tree: TreeView, block: CryptoHash)
    requires
        store::readable(tree),
        !tree.speculative_commits.contains(block),
    ensures
        ({
            let speculated = tree::replay(tree, speculation::speculate(tree, block));
            &&& speculated.speculative_commits.contains(block)
            &&& tree::replay(speculated, speculation::unspeculate(speculated, block)) == tree
        }),
{
    let longer = tree.speculative_commits.push(block);
    let speculated = tree::replay(tree, speculation::speculate(tree, block));
    lemma_list_speculative(tree, longer);
    assert(speculated == (TreeView { speculative_commits: longer, ..tree }));
    assert(longer[longer.len() - 1] == block);
    assert(longer.contains(block));
    let shorter = data_types::without(longer, block);
    lemma_list_speculative(speculated, shorter);
    lemma_without_absent(tree.speculative_commits, block);
    reveal(Seq::filter);
    assert(longer.drop_last() =~= tree.speculative_commits);
    assert(shorter =~= tree.speculative_commits);
    assert(tree::replay(speculated, speculation::unspeculate(speculated, block)) =~= tree);
}

/// What listing speculative commits makes of a tree.
proof fn lemma_list_speculative(tree: TreeView, commits: Seq<CryptoHash>)
    ensures
        tree::replay(tree, speculation::list_speculative(commits)) == (TreeView {
            speculative_commits: commits,
            unread: store::unread_after(tree.unread, Change::SpeculativeCommits(commits)),
            ..tree
        }),
{
    let change = Change::SpeculativeCommits(commits);
    tree::lemma_replay_one(tree, Deed::Persist(seq![change]));
    assert(seq![change].drop_last() =~= Seq::<Change>::empty());
    reveal_with_fuel(crate::block_tree::store::apply_changes, 2);
}

/// Leaving out what is not there changes nothing.
proof fn lemma_without_absent(hashes: Seq<CryptoHash>, hash: CryptoHash)
    requires
        !hashes.contains(hash),
    ensures
        data_types::without(hashes, hash) == hashes,
    decreases hashes.len(),
{
    reveal(Seq::filter);
    if hashes.len() > 0 {
        let fewer = hashes.drop_last();
        assert(!fewer.contains(hash)) by {
            if fewer.contains(hash) {
                let i = choose|i: int| 0 <= i < fewer.len() && fewer[i] == hash;
                assert(hashes[i] == hash);
            }
        }
        lemma_without_absent(fewer, hash);
        assert(hashes[hashes.len() - 1] != hash);
        assert(data_types::without(hashes, hash) =~= hashes);
    }
}

/// Evidence is kept once, however often it is recorded, and a rollback leaves it.
pub proof fn law_evidence_is_kept_once(
    tree: TreeView,
    evidence: EquivocationEvidence,
    block: CryptoHash,
)
    ensures
        ({
            let recorded = tree::replay(tree, speculation::record_evidence(tree, evidence));
            &&& recorded.evidence.contains(speculation::evidence_entry(evidence))
            &&& speculation::record_evidence(recorded, evidence) == Seq::<Deed>::empty()
            &&& tree::replay(recorded, speculation::unspeculate(recorded, block)).evidence == recorded.evidence
        }),
{
    let entry = speculation::evidence_entry(evidence);
    let recorded = tree::replay(tree, speculation::record_evidence(tree, evidence));
    tree::lemma_replay_one(tree, Deed::Other(Effect::FatalSafetyViolation));
    if !tree.evidence.contains(entry) {
        let longer = tree.evidence.push(entry);
        let change = Change::Evidence(longer);
        tree::lemma_replay_one(tree, Deed::Persist(seq![change]));
        assert(seq![change].drop_last() =~= Seq::<Change>::empty());
        reveal_with_fuel(crate::block_tree::store::apply_changes, 2);
        assert(recorded.evidence == longer);
        assert(longer[longer.len() - 1] == entry);
    }
    lemma_list_speculative(recorded, data_types::without(recorded.speculative_commits, block));
    tree::lemma_replay_one(recorded, Deed::Other(Effect::FatalSafetyViolation));
}

} // verus!
