//! What becomes of the application state: which value a key has after updates were applied.

use vstd::prelude::*;

use crate::block_tree::app_view;
use crate::block_tree::commit;
use crate::block_tree::commit::CommittedBlock;
use crate::block_tree::invariants;
use crate::block_tree::laws;
use crate::block_tree::life_laws;
use crate::block_tree::retention::Retention;
use crate::block_tree::sparing::Kind;
use crate::block_tree::store;
use crate::block_tree::store::TreeView;
use crate::block_tree::tree;
use crate::block_tree::updates;
use crate::block_tree::write_batch;
use crate::block_tree::write_batch::{Change, WriteOp};
use crate::hotstuff::types::PhaseCertificate;
use crate::roles::Roles;
use crate::types::data_types::{Bytes, CryptoHash};
use crate::types::update_sets::AppStateUpdates;
use crate::types::validator_set::{ValidatorSetState, ValidatorSetUpdatesStatus};

verus! {

/// What a key-value map holds under a key.
pub open spec fn value_at(state: Map<Seq<u8>, Seq<u8>>, key: Seq<u8>) -> Option<Seq<u8>> {
    if state.contains_key(key) {
        Some(state[key])
    } else {
        None
    }
}

/// Whether updates remove a key.
pub open spec fn removes(updates: AppStateUpdates, key: Seq<u8>) -> bool {
    exists|i: int| 0 <= i < updates.deletes@.len() && (#[trigger] updates.deletes@[i])@ == key
}

/// Whether the updates give a key a value at a place of their list.
pub open spec fn sets_at(updates: AppStateUpdates, key: Seq<u8>, at: int) -> bool {
    0 <= at < updates.inserts@.len() && updates.inserts@[at].0@ == key
}

/// Whether updates give a key a value.
pub open spec fn sets(updates: AppStateUpdates, key: Seq<u8>) -> bool {
    exists|at: int| #[trigger] sets_at(updates, key, at)
}

/// Whether a place is the last one at which the updates give a key a value.
pub open spec fn sets_last_at(updates: AppStateUpdates, key: Seq<u8>, at: int) -> bool {
    &&& sets_at(updates, key, at)
    &&& forall|later: int| at < later ==> !#[trigger] sets_at(updates, key, later)
}

/// Whether a key that had the value `before` has the value `after` once `updates` took effect: a
/// key that they remove has none, any other key that they set has the last value that they set it
/// to, and every other key has the value that it had.
pub open spec fn took_effect(
    updates: AppStateUpdates,
    key: Seq<u8>,
    before: Option<Seq<u8>>,
    after: Option<Seq<u8>>,
) -> bool {
    &&& removes(updates, key) ==> after is None
    &&& !removes(updates, key) ==> forall|at: int| #[trigger]
        sets_last_at(updates, key, at) ==> after == Some(updates.inserts@[at].1@)
    &&& !removes(updates, key) && !sets(updates, key) ==> after == before
}

/// Setting values, up to a place.
proof fn lemma_inserts(tree: TreeView, inserts: Seq<(Bytes, Bytes)>, key: Seq<u8>)
    ensures
        ({
            let after = store::apply_changes(tree, write_batch::insert_changes(inserts)).app_state;
            &&& forall|at: int|
                0 <= at < inserts.len() && (#[trigger] inserts[at]).0@ == key && (forall|later: int|
                    at < later < inserts.len() ==> (#[trigger] inserts[later]).0@ != key)
                    ==> value_at(after, key) == Some(inserts[at].1@)
            &&& (forall|at: int| 0 <= at < inserts.len() ==> (#[trigger] inserts[at]).0@ != key)
                ==> value_at(after, key) == value_at(tree.app_state, key)
        }),
    decreases inserts.len(),
{
    let changes = write_batch::insert_changes(inserts);
    if inserts.len() > 0 {
        let fewer = inserts.drop_last();
        lemma_inserts(tree, fewer, key);
        assert(changes.drop_last() =~= write_batch::insert_changes(fewer));
        let n = fewer.len() as int;
        let before = store::apply_changes(tree, changes.drop_last()).app_state;
        let after = store::apply_changes(tree, changes).app_state;
        assert(changes.last() == Change::Plain(WriteOp::SetAppState(inserts[n].0, inserts[n].1)));
        assert(after == before.insert(inserts[n].0@, inserts[n].1@));
        assert forall|at: int|
            0 <= at < inserts.len() && (#[trigger] inserts[at]).0@ == key && (forall|later: int|
                at < later < inserts.len() ==> (#[trigger] inserts[later]).0@
                    != key) implies value_at(after, key) == Some(inserts[at].1@) by {
            if at < n {
                assert(inserts[n].0@ != key);
                assert(fewer[at] == inserts[at]);
                assert forall|later: int| at < later < fewer.len() implies (
                #[trigger] fewer[later]).0@ != key by {
                    assert(fewer[later] == inserts[later]);
                }
            }
        }
        if forall|at: int| 0 <= at < inserts.len() ==> (#[trigger] inserts[at]).0@ != key {
            assert(inserts[n].0@ != key);
            assert forall|at: int| 0 <= at < fewer.len() implies (#[trigger] fewer[at]).0@
                != key by {
                assert(fewer[at] == inserts[at]);
            }
        }
    }
}

/// Removing keys.
proof fn lemma_deletes(tree: TreeView, deletes: Seq<Bytes>, key: Seq<u8>)
    ensures
        ({
            let after = store::apply_changes(tree, write_batch::delete_changes(deletes)).app_state;
            value_at(after, key) == (if exists|i: int|
                0 <= i < deletes.len() && (#[trigger] deletes[i])@ == key {
                None
            } else {
                value_at(tree.app_state, key)
            })
        }),
    decreases deletes.len(),
{
    let changes = write_batch::delete_changes(deletes);
    if deletes.len() > 0 {
        let fewer = deletes.drop_last();
        lemma_deletes(tree, fewer, key);
        assert(changes.drop_last() =~= write_batch::delete_changes(fewer));
        let n = fewer.len() as int;
        let before = store::apply_changes(tree, changes.drop_last()).app_state;
        let after = store::apply_changes(tree, changes).app_state;
        assert(changes.last() == Change::Plain(WriteOp::DeleteAppState(deletes[n])));
        assert(after == before.remove(deletes[n]@));
        if exists|i: int| 0 <= i < deletes.len() && (#[trigger] deletes[i])@ == key {
            let i = choose|i: int| 0 <= i < deletes.len() && (#[trigger] deletes[i])@ == key;
            if i < n {
                assert(fewer[i]@ == key);
            }
        } else {
            assert(deletes[n]@ != key);
            assert forall|i: int| 0 <= i < fewer.len() implies (#[trigger] fewer[i])@ != key by {
                assert(fewer[i] == deletes[i]);
            }
        }
    }
}

/// Applying updates to the application state does to every key what the updates say: a key that they
/// remove is gone, even if they set it too; any other key that they set has the last value that they
/// set it to; and every other key is as it was.
pub proof fn law_updates_take_effect(tree: TreeView, updates: AppStateUpdates, key: Seq<u8>)
    ensures
        took_effect(
            updates,
            key,
            value_at(tree.app_state, key),
            value_at(
                store::apply_changes(tree, write_batch::app_state_changes(updates)).app_state,
                key,
            ),
        ),
{
    let inserts = write_batch::insert_changes(updates.inserts@);
    let deletes = write_batch::delete_changes(updates.deletes@);
    store::lemma_apply_concat(tree, inserts, deletes);
    let middle = store::apply_changes(tree, inserts);
    lemma_inserts(tree, updates.inserts@, key);
    lemma_deletes(middle, updates.deletes@, key);
    if !removes(updates, key) {
        assert forall|at: int| #[trigger] sets_last_at(updates, key, at) implies value_at(
            middle.app_state,
            key,
        ) == Some(updates.inserts@[at].1@) by {
            assert forall|later: int| at < later < updates.inserts@.len() implies (
            #[trigger] updates.inserts@[later]).0@ != key by {
                assert(!sets_at(updates, key, later));
            }
        }
        if !sets(updates, key) {
            assert forall|at: int| 0 <= at < updates.inserts@.len() implies (
            #[trigger] updates.inserts@[at]).0@ != key by {
                assert(!sets_at(updates, key, at));
            }
        }
    }
}

/// Whether a change is to the application state.
spec fn is_app_change(change: Change) -> bool {
    match change {
        Change::Plain(WriteOp::SetAppState(_, _)) => true,
        Change::Plain(WriteOp::DeleteAppState(_)) => true,
        _ => false,
    }
}

/// Whether no change is to the application state.
#[verifier::opaque]
spec fn spares_app_state(changes: Seq<Change>) -> bool {
    forall|i: int| 0 <= i < changes.len() ==> !is_app_change(#[trigger] changes[i])
}

proof fn lemma_spares(tree: TreeView, changes: Seq<Change>)
    requires
        spares_app_state(changes),
    ensures
        store::apply_changes(tree, changes).app_state == tree.app_state,
    decreases changes.len(),
{
    reveal(spares_app_state);
    if changes.len() > 0 {
        let fewer = changes.drop_last();
        assert forall|i: int| 0 <= i < fewer.len() implies !is_app_change(#[trigger] fewer[i]) by {
            assert(fewer[i] == changes[i]);
        }
        lemma_spares(tree, fewer);
        assert(!is_app_change(changes[changes.len() - 1]));
    }
}

proof fn lemma_spares_concat(first: Seq<Change>, second: Seq<Change>)
    requires
        spares_app_state(first),
        spares_app_state(second),
    ensures
        spares_app_state(first + second),
{
    reveal(spares_app_state);
    let both = first + second;
    assert forall|i: int| 0 <= i < both.len() implies !is_app_change(#[trigger] both[i]) by {
        if i < first.len() {
            assert(both[i] == first[i]);
        } else {
            assert(both[i] == second[i - first.len()]);
        }
    }
}

proof fn lemma_deletions_spare(tree: TreeView, blocks: Seq<CryptoHash>)
    ensures
        spares_app_state(commit::deletions(tree, blocks)),
    decreases blocks.len(),
{
    reveal(spares_app_state);
    if blocks.len() > 0 {
        lemma_deletions_spare(tree, blocks.drop_last());
        lemma_spares_concat(
            commit::deletions(tree, blocks.drop_last()),
            commit::deletion(tree, blocks.last()),
        );
    }
}

proof fn lemma_branch_deletions_spare(tree: TreeView, roots: Seq<CryptoHash>, kept: CryptoHash)
    ensures
        spares_app_state(commit::branch_deletions(tree, roots, kept)),
    decreases roots.len(),
{
    reveal(spares_app_state);
    if roots.len() > 0 {
        lemma_branch_deletions_spare(tree, roots.drop_last(), kept);
        let branch = commit::branch_of(tree, roots.last());
        lemma_deletions_spare(tree, branch);
        lemma_spares_concat(
            commit::branch_deletions(tree, roots.drop_last(), kept),
            commit::deletions(tree, branch),
        );
    }
}

/// Whether the block at a place of a list has pending updates that touch a key.
pub open spec fn touches_at(
    tree: TreeView,
    committed: Seq<CommittedBlock>,
    at: int,
    key: Seq<u8>,
) -> bool {
    &&& 0 <= at < committed.len()
    &&& tree.pending_app_state.contains_key(committed[at].0)
    &&& removes(tree.pending_app_state[committed[at].0], key) || sets(
        tree.pending_app_state[committed[at].0],
        key,
    )
}

/// Whether a key that had the value `before` has the value `after` once the pending updates of the
/// blocks of `committed` took effect: the last of them whose updates touch the key decides.
pub open spec fn applied_pending(
    tree: TreeView,
    committed: Seq<CommittedBlock>,
    key: Seq<u8>,
    before: Option<Seq<u8>>,
    after: Option<Seq<u8>>,
) -> bool {
    &&& forall|at: int| #[trigger]
        touches_at(tree, committed, at, key) && (forall|later: int|
            at < later ==> !#[trigger] touches_at(tree, committed, later, key)) ==> took_effect(
            tree.pending_app_state[committed[at].0],
            key,
            before,
            after,
        )
    &&& (forall|at: int| !#[trigger] touches_at(tree, committed, at, key)) ==> after == before
}

/// What committing one block does to a key.
proof fn lemma_commit_one(
    tree: TreeView,
    base: TreeView,
    target: CryptoHash,
    block: CryptoHash,
    key: Seq<u8>,
)
    requires
        commit::commit_one(tree, target, block).1 is Ok,
    ensures
        ({
            let before = value_at(base.app_state, key);
            let after = value_at(
                store::apply_changes(base, commit::commit_one(tree, target, block).0).app_state,
                key,
            );
            if tree.pending_app_state.contains_key(block) {
                took_effect(tree.pending_app_state[block], key, before, after)
            } else {
                after == before
            }
        }),
{
    reveal(spares_app_state);
    let indexed = seq![Change::Plain(WriteOp::SetBlockAtHeight(tree.blocks[block].height, block))];
    let deleted = commit::sibling_deletion(tree, block).0;
    let parent = tree.blocks[block].justify.block;
    lemma_branch_deletions_spare(tree, tree.children[parent], block);
    assert(spares_app_state(deleted));
    assert(spares_app_state(indexed));
    lemma_spares_concat(indexed, deleted);
    let pending = commit::pending_app_changes(tree, block);
    let frontier = Change::Plain(WriteOp::SetHighestCommittedBlock(block));
    let rest = match tree::updates_status(tree, block) {
        ValidatorSetUpdatesStatus::Pending(updates) => commit::validator_changes(
            tree,
            target,
            block,
            updates,
        ).push(frontier),
        _ => seq![frontier],
    };
    assert(spares_app_state(rest));
    let all = commit::commit_one(tree, target, block).0;
    assert(all =~= (indexed + deleted) + pending + rest);
    store::lemma_apply_concat(base, indexed + deleted, pending);
    store::lemma_apply_concat(base, (indexed + deleted) + pending, rest);
    let first = store::apply_changes(base, indexed + deleted);
    let second = store::apply_changes(first, pending);
    lemma_spares(base, indexed + deleted);
    lemma_spares(second, rest);
    if tree.pending_app_state.contains_key(block) {
        let updates = tree.pending_app_state[block];
        let applied = write_batch::app_state_changes(updates);
        law_updates_take_effect(first, updates, key);
        store::lemma_apply_push(
            first,
            applied,
            Change::Plain(WriteOp::DeletePendingAppStateUpdates(block)),
        );
    }
}

/// What committing blocks one after another does to a key.
proof fn lemma_commit_all(
    tree: TreeView,
    base: TreeView,
    target: CryptoHash,
    order: Seq<CryptoHash>,
    key: Seq<u8>,
)
    requires
        commit::commit_all(tree, target, order).1 is Ok,
    ensures
        ({
            let (changes, result) = commit::commit_all(tree, target, order);
            let committed = result->Ok_0;
            let before = value_at(base.app_state, key);
            let after = value_at(store::apply_changes(base, changes).app_state, key);
            &&& committed.len() == order.len()
            &&& applied_pending(tree, committed, key, before, after)
        }),
    decreases order.len(),
{
    if order.len() > 0 {
        let fewer = order.drop_last();
        lemma_commit_all(tree, base, target, fewer, key);
        let (before, earlier) = commit::commit_all(tree, target, fewer);
        let (changes, result) = commit::commit_all(tree, target, order);
        let last = commit::commit_one(tree, target, order.last()).0;
        let some = earlier->Ok_0;
        let committed = result->Ok_0;
        let middle = store::apply_changes(base, before);
        store::lemma_apply_concat(base, before, last);
        lemma_commit_one(tree, middle, target, order.last(), key);
        let n = some.len() as int;
        assert(committed[n].0 == order.last());
        assert forall|at: int| at < n implies #[trigger] touches_at(tree, some, at, key)
            == touches_at(tree, committed, at, key) by {
            if 0 <= at {
                assert(committed[at] == some[at]);
            }
        }
        let start = value_at(base.app_state, key);
        let between = value_at(middle.app_state, key);
        let after = value_at(store::apply_changes(base, changes).app_state, key);
        if !touches_at(tree, committed, n, key) {
            assert(after == between);
        }
        assert forall|at: int| #[trigger]
            touches_at(tree, committed, at, key) && (forall|later: int|
                at < later ==> !#[trigger] touches_at(
                    tree,
                    committed,
                    later,
                    key,
                )) implies took_effect(
            tree.pending_app_state[committed[at].0],
            key,
            start,
            after,
        ) by {
            if at < n {
                assert(!touches_at(tree, committed, n, key));
                assert(touches_at(tree, some, at, key));
                assert forall|later: int| at < later implies !#[trigger] touches_at(
                    tree,
                    some,
                    later,
                    key,
                ) by {
                    if later < n {
                        assert(!touches_at(tree, committed, later, key));
                    }
                }
                assert(committed[at] == some[at]);
            }
        }
        if forall|at: int| !#[trigger] touches_at(tree, committed, at, key) {
            assert forall|at: int| !#[trigger] touches_at(tree, some, at, key) by {
                if at < n {
                    assert(!touches_at(tree, committed, at, key));
                }
            }
        }
    }
}

/// After a commit the committed application state is what the pending updates of the committed
/// blocks make of it. The newest committed block whose updates touch a key decides: if they remove
/// the key it is gone, and otherwise it has the last value that they set it to. A key that none of
/// the committed blocks touches is as it was, and so is every key where nothing is committed.
pub proof fn law_commits_apply_pending_updates(tree: TreeView, block: CryptoHash, key: Seq<u8>)
    requires
        commit::commit_outcome(tree, block).1 is Ok,
    ensures
        ({
            let (changes, result) = commit::commit_outcome(tree, block);
            let committed = result->Ok_0;
            let before = value_at(tree.app_state, key);
            let after = value_at(store::apply_changes(tree, changes).app_state, key);
            applied_pending(tree, committed, key, before, after)
        }),
{
    let chain = commit::uncommitted_chain(tree, block, u64::MAX as nat);
    if chain.len() > 0 && tree.blocks.contains_key(chain.last()) && commit::chains_to_frontier(
        tree,
        chain.last(),
    ) {
        lemma_commit_all(tree, tree, block, chain.reverse(), key);
    }
}

/// Initialization gives the application state exactly what the initial updates say, on top of what
/// the tree held.
pub proof fn law_initialization_sets_the_app_state(
    tree: TreeView,
    app_state: AppStateUpdates,
    validators: ValidatorSetState,
    genesis: PhaseCertificate,
    key: Seq<u8>,
)
    ensures
        took_effect(
            app_state,
            key,
            value_at(tree.app_state, key),
            value_at(
                store::apply_changes(
                    tree,
                    updates::initial_changes(app_state, validators, genesis),
                ).app_state,
                key,
            ),
        ),
{
    let applied = write_batch::app_state_changes(app_state);
    let all = updates::initial_changes(app_state, validators, genesis);
    let rest = all.subrange(applied.len() as int, all.len() as int);
    assert(all =~= applied + rest);
    store::lemma_apply_concat(tree, applied, rest);
    law_updates_take_effect(tree, app_state, key);
    assert(spares_app_state(rest)) by {
        reveal(spares_app_state);
    }
    lemma_spares(store::apply_changes(tree, applied), rest);
}

/// What a commit does to a key on top of any state.
proof fn lemma_commit(tree: TreeView, base: TreeView, block: CryptoHash, key: Seq<u8>)
    requires
        commit::commit_outcome(tree, block).1 is Ok,
    ensures
        applied_pending(
            tree,
            commit::commit_outcome(tree, block).1->Ok_0,
            key,
            value_at(base.app_state, key),
            value_at(
                store::apply_changes(base, commit::commit_outcome(tree, block).0).app_state,
                key,
            ),
        ),
{
    let chain = commit::uncommitted_chain(tree, block, u64::MAX as nat);
    if chain.len() > 0 && tree.blocks.contains_key(chain.last()) && commit::chains_to_frontier(
        tree,
        chain.last(),
    ) {
        lemma_commit_all(tree, base, block, chain.reverse(), key);
    }
}

/// Acting on a certificate makes of the committed application state exactly what the pending updates
/// of the blocks that it commits say, the newest block that touches a key deciding about it. Where
/// it commits nothing, the state is as it was.
pub proof fn law_acting_on_certificates_applies_pending_updates<R: Roles>(
    tree: TreeView,
    justify: PhaseCertificate,
    roles: R,
    retention: Retention,
    key: Seq<u8>,
)
    requires
        updates::update_outcome(tree, justify, roles, retention) is Ok,
    ensures
        ({
            let (deeds, committed) = updates::update_outcome(
                tree,
                justify,
                roles,
                retention,
            )->Ok_0;
            applied_pending(
                tree,
                committed,
                key,
                value_at(tree.app_state, key),
                value_at(tree::replay(tree, deeds).app_state, key),
            )
        }),
{
    life_laws::lemma_later_stages(Kind::AppState, tree, justify, roles, retention);
    let (committing, result) = updates::justified_commit(tree, justify);
    let locks = updates::lock_changes(tree, justify);
    let decision = updates::decision(justify);
    store::lemma_apply_concat(tree, locks, committing);
    store::lemma_apply_concat(tree, locks + committing, decision);
    let locked = store::apply_changes(tree, locks);
    let committed = store::apply_changes(locked, committing);
    assert(spares_app_state(locks) && spares_app_state(decision)) by {
        reveal(spares_app_state);
    }
    lemma_spares(tree, locks);
    lemma_spares(committed, decision);
    if let Ok(Some(block)) = invariants::commit_target(tree, justify) {
        lemma_commit(tree, locked, block, key);
    }
}

/// The updates that are pending along a chain.
proof fn lemma_pending_ancestry(tree: TreeView, block: CryptoHash, limit: nat)
    requires
        ({
            let chain = commit::uncommitted_chain(tree, block, limit);
            forall|i: int| 0 <= i < chain.len() ==> tree.blocks.contains_key(#[trigger] chain[i])
        }),
    ensures
        ({
            let chain = commit::uncommitted_chain(tree, block, limit);
            let pending = app_view::pending_ancestry(tree, Some(block), limit);
            &&& pending.len() == chain.len()
            &&& forall|i: int|
                0 <= i < chain.len() ==> #[trigger] pending[i] == app_view::pending_updates(
                    tree,
                    chain[i],
                )
        }),
    decreases limit,
{
    let chain = commit::uncommitted_chain(tree, block, limit);
    let pending = app_view::pending_ancestry(tree, Some(block), limit);
    if limit > 0 && commit::above_frontier(tree, block) {
        assert(chain[0] == block);
        match commit::parent_in(tree, block) {
            Some(parent) => {
                let rest = commit::uncommitted_chain(tree, parent, (limit - 1) as nat);
                assert forall|i: int| 0 <= i < rest.len() implies tree.blocks.contains_key(
                    #[trigger] rest[i],
                ) by {
                    assert(rest[i] == chain[i + 1]);
                }
                lemma_pending_ancestry(tree, parent, (limit - 1) as nat);
                let others = app_view::pending_ancestry(tree, Some(parent), (limit - 1) as nat);
                assert(pending =~= seq![app_view::pending_updates(tree, block)] + others);
                assert forall|i: int| 0 <= i < chain.len() implies #[trigger] pending[i]
                    == app_view::pending_updates(tree, chain[i]) by {
                    if i > 0 {
                        assert(pending[i] == others[i - 1]);
                        assert(chain[i] == rest[i - 1]);
                    }
                }
            },
            None => {
                let others = app_view::pending_ancestry(tree, None, (limit - 1) as nat);
                assert(others =~= Seq::empty());
                assert(pending =~= seq![app_view::pending_updates(tree, block)] + others);
            },
        }
    } else {
        assert(chain.len() == 0);
        assert(pending.len() == 0);
    }
}

/// The application sees the state as it will be right after the parent is committed: what it is
/// shown on top of the committed state are the pending updates of exactly the blocks that a commit of
/// the parent takes in, newest first.
pub proof fn law_the_application_sees_what_a_commit_applies(tree: TreeView, parent: CryptoHash)
    requires
        commit::commit_outcome(tree, parent).1 is Ok,
        commit::commit_outcome(tree, parent).1->Ok_0.len() > 0,
    ensures
        ({
            let committed = commit::commit_outcome(tree, parent).1->Ok_0;
            let shown = app_view::pending_ancestry(tree, Some(parent), u64::MAX as nat);
            &&& shown.len() == committed.len()
            &&& forall|i: int|
                0 <= i < shown.len() ==> ({
                    let block = committed[committed.len() - 1 - i].0;
                    &&& (#[trigger] shown[i]) is Some <==> tree.pending_app_state.contains_key(
                        block,
                    )
                    &&& shown[i] is Some ==> shown[i]->0 == tree.pending_app_state[block]
                })
        }),
{
    let chain = commit::uncommitted_chain(tree, parent, u64::MAX as nat);
    let order = chain.reverse();
    let committed = commit::commit_outcome(tree, parent).1->Ok_0;
    laws::lemma_commit_all_order(tree, parent, order);
    assert forall|i: int| 0 <= i < chain.len() implies tree.blocks.contains_key(
        #[trigger] chain[i],
    ) by {
        assert(order[chain.len() - 1 - i] == chain[i]);
        assert(committed[chain.len() - 1 - i].0 == order[chain.len() - 1 - i]);
    }
    lemma_pending_ancestry(tree, parent, u64::MAX as nat);
    let shown = app_view::pending_ancestry(tree, Some(parent), u64::MAX as nat);
    assert forall|i: int| 0 <= i < shown.len() implies ({
        let block = committed[committed.len() - 1 - i].0;
        &&& (#[trigger] shown[i]) is Some <==> tree.pending_app_state.contains_key(block)
        &&& shown[i] is Some ==> shown[i]->0 == tree.pending_app_state[block]
    }) by {
        let at = committed.len() - 1 - i;
        assert(committed[at].0 == order[at]);
        assert(order[at] == chain[i]);
    }
}

} // verus!
