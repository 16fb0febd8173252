//! What inserting a block and committing blocks make of the tree, variable by variable.

use vstd::prelude::*;

use crate::block_tree::commit;
use crate::block_tree::commit::CommittedBlock;
use crate::block_tree::errors::BlockTreeError;
use crate::block_tree::invariants;
use crate::block_tree::laws;
use crate::block_tree::life_laws;
use crate::block_tree::retention::Retention;
use crate::block_tree::sparing;
use crate::block_tree::sparing::Kind;
use crate::block_tree::speculation;
use crate::block_tree::store;
use crate::block_tree::store::TreeView;
use crate::block_tree::tree;
use crate::block_tree::tree::GapWatch;
use crate::block_tree::updates;
use crate::block_tree::write_batch;
use crate::block_tree::write_batch::{Change, WriteOp};
use crate::effects::{Deed, Effect};
use crate::events::Event;
use crate::hotstuff::reputation;
use crate::hotstuff::reputation::{LeaderReputationEntry, Records};
use crate::hotstuff::types::{Phase, PhaseCertificate};
use crate::roles::Roles;
use crate::types::block::Block;
use crate::types::data_types::{BlockHeight, ChainID, CryptoHash, VerifyingKey, ViewNumber};
use crate::types::update_sets::AppStateUpdates;
use crate::types::validator_set;
use crate::types::validator_set::{
    ValidatorSetState, ValidatorSetUpdates, ValidatorSetUpdatesStatus,
};

verus! {

/// An inserted block is in the tree under its hash, is the newest block and the last child of the
/// block that it rests on, and its updates are pending. Everything else in the tree is as it was:
/// in particular, nothing is committed.
pub proof fn law_inserted_blocks_are_in_the_tree(
    tree: TreeView,
    block: Block,
    app_state_updates: Option<AppStateUpdates>,
    validator_set_updates: Option<ValidatorSetUpdates>,
)
    requires
        store::readable(tree),
    ensures
        ({
            let parent = block.justify.block;
            let after = store::apply_changes(
                tree,
                updates::insertion(tree, block, app_state_updates, validator_set_updates),
            );
            &&& after.blocks == tree.blocks.insert(block.hash, block)
            &&& after.newest_block == Some(block.hash)
            &&& after.children.contains_key(parent)
            &&& after.children[parent] == (if tree.children.contains_key(parent) {
                tree.children[parent].push(block.hash)
            } else {
                seq![block.hash]
            })
            &&& forall|other: CryptoHash|
                other != parent ==> #[trigger] after.children.contains_key(other)
                    == tree.children.contains_key(other) && (after.children.contains_key(other)
                    ==> after.children[other] == tree.children[other])
            &&& after.pending_app_state == (match app_state_updates {
                Some(updates) => tree.pending_app_state.insert(block.hash, updates),
                None => tree.pending_app_state,
            })
            &&& after.validator_set_updates == (match validator_set_updates {
                Some(updates) => tree.validator_set_updates.insert(
                    block.hash,
                    ValidatorSetUpdatesStatus::Pending(updates),
                ),
                None => tree.validator_set_updates,
            })
            &&& after == (TreeView {
                blocks: after.blocks,
                newest_block: after.newest_block,
                children: after.children,
                pending_app_state: after.pending_app_state,
                validator_set_updates: after.validator_set_updates,
                ..tree
            })
        }),
{
    let c1 = Change::Plain(WriteOp::SetBlock(block));
    let c2 = Change::Plain(WriteOp::SetNewestBlock(block.hash));
    let none = Seq::<Change>::empty();
    let all = updates::insertion(tree, block, app_state_updates, validator_set_updates);
    let s2 = none.push(c1).push(c2);
    store::lemma_apply_push(tree, none, c1);
    store::lemma_apply_push(tree, none.push(c1), c2);
    let s3 = match app_state_updates {
        Some(updates) => s2.push(
            Change::Plain(WriteOp::SetPendingAppStateUpdates(block.hash, updates)),
        ),
        None => s2,
    };
    if let Some(updates) = app_state_updates {
        store::lemma_apply_push(
            tree,
            s2,
            Change::Plain(WriteOp::SetPendingAppStateUpdates(block.hash, updates)),
        );
    }
    let s4 = match validator_set_updates {
        Some(updates) => s3.push(
            Change::Plain(
                WriteOp::SetValidatorSetUpdates(
                    block.hash,
                    ValidatorSetUpdatesStatus::Pending(updates),
                ),
            ),
        ),
        None => s3,
    };
    if let Some(updates) = validator_set_updates {
        store::lemma_apply_push(
            tree,
            s3,
            Change::Plain(
                WriteOp::SetValidatorSetUpdates(
                    block.hash,
                    ValidatorSetUpdatesStatus::Pending(updates),
                ),
            ),
        );
    }
    let last = Change::Children(
        block.justify.block,
        updates::children_of(tree, block.justify.block).push(block.hash),
    );
    store::lemma_apply_push(tree, s4, last);
    assert(all =~= s4.push(last));
    assert(Seq::<CryptoHash>::empty().push(block.hash) =~= seq![block.hash]);
}

/// What deleting blocks leaves in the tree.
proof fn lemma_deletions(known: TreeView, tree: TreeView, blocks: Seq<CryptoHash>, block: CryptoHash)
    ensures
        ({
            let after = store::apply_changes(tree, commit::deletions(known, blocks));
            &&& after.blocks.contains_key(block) <==> tree.blocks.contains_key(block) && !(
            blocks.contains(block) && known.blocks.contains_key(block))
            &&& after.block_at_height == tree.block_at_height
            &&& after.highest_committed_block == tree.highest_committed_block
            &&& tree::validators_of(after) == tree::validators_of(tree)
            &&& after.committed_validators == tree.committed_validators
            &&& after.previous_validators == tree.previous_validators
            &&& after.update_decided == tree.update_decided
        }),
    decreases blocks.len(),
{
    if blocks.len() > 0 {
        let fewer = blocks.drop_last();
        lemma_deletions(known, tree, fewer, block);
        let gone = blocks.last();
        let middle = store::apply_changes(tree, commit::deletions(known, fewer));
        let last = commit::deletion(known, gone);
        store::lemma_apply_concat(tree, commit::deletions(known, fewer), last);
        let none = Seq::<Change>::empty();
        let c1 = none.push(last[0]);
        let c2 = c1.push(last[1]);
        let c3 = c2.push(last[2]);
        store::lemma_apply_push(middle, none, last[0]);
        store::lemma_apply_push(middle, c1, last[1]);
        store::lemma_apply_push(middle, c2, last[2]);
        if known.blocks.contains_key(gone) {
            store::lemma_apply_push(middle, c3, last[3]);
            assert(c3.push(last[3]) =~= last);
        } else {
            assert(c3 =~= last);
        }
        if blocks.contains(block) && block != gone {
            let i = choose|i: int| 0 <= i < blocks.len() && blocks[i] == block;
            assert(fewer[i] == block);
        }
        if fewer.contains(block) {
            let i = choose|i: int| 0 <= i < fewer.len() && fewer[i] == block;
            assert(blocks[i] == block);
        }
        assert(blocks[blocks.len() - 1] == gone);
    }
}

/// Whether a block lies in the branch of one of `roots` other than `kept`.
pub open spec fn in_other_branch(
    tree: TreeView,
    roots: Seq<CryptoHash>,
    kept: CryptoHash,
    block: CryptoHash,
) -> bool {
    exists|i: int|
        0 <= i < roots.len() && #[trigger] roots[i] != kept && commit::branch_of(
            tree,
            roots[i],
        ).contains(block)
}

/// What deleting the branches of siblings leaves in the tree.
proof fn lemma_branch_deletions(
    known: TreeView,
    tree: TreeView,
    roots: Seq<CryptoHash>,
    kept: CryptoHash,
    block: CryptoHash,
)
    ensures
        ({
            let after = store::apply_changes(tree, commit::branch_deletions(known, roots, kept));
            &&& after.blocks.contains_key(block) <==> tree.blocks.contains_key(block) && !(
            in_other_branch(known, roots, kept, block) && known.blocks.contains_key(block))
            &&& after.block_at_height == tree.block_at_height
            &&& after.highest_committed_block == tree.highest_committed_block
            &&& tree::validators_of(after) == tree::validators_of(tree)
            &&& after.committed_validators == tree.committed_validators
            &&& after.previous_validators == tree.previous_validators
            &&& after.update_decided == tree.update_decided
        }),
    decreases roots.len(),
{
    if roots.len() > 0 {
        let fewer = roots.drop_last();
        lemma_branch_deletions(known, tree, fewer, kept, block);
        let n = fewer.len() as int;
        let before = commit::branch_deletions(known, fewer, kept);
        if in_other_branch(known, fewer, kept, block) {
            let i = choose|i: int|
                0 <= i < fewer.len() && #[trigger] fewer[i] != kept && commit::branch_of(
                    known,
                    fewer[i],
                ).contains(block);
            assert(roots[i] == fewer[i]);
            assert(in_other_branch(known, roots, kept, block));
        }
        if in_other_branch(known, roots, kept, block) && !in_other_branch(
            known,
            fewer,
            kept,
            block,
        ) {
            let i = choose|i: int|
                0 <= i < roots.len() && #[trigger] roots[i] != kept && commit::branch_of(
                    known,
                    roots[i],
                ).contains(block);
            if i < n {
                assert(fewer[i] == roots[i]);
            }
            assert(i == n);
        }
        assert(roots[n] == roots.last());
        if roots.last() != kept {
            let branch = commit::branch_of(known, roots.last());
            store::lemma_apply_concat(tree, before, commit::deletions(known, branch));
            lemma_deletions(known, store::apply_changes(tree, before), branch, block);
        }
    }
}

/// Whether a change leaves what is committed and the blocks of the tree alone.
spec fn is_app_state_change(change: Change) -> bool {
    match change {
        Change::Plain(WriteOp::SetAppState(_, _)) => true,
        Change::Plain(WriteOp::DeleteAppState(_)) => true,
        Change::Plain(WriteOp::DeletePendingAppStateUpdates(_)) => true,
        _ => false,
    }
}

proof fn lemma_app_state_changes(tree: TreeView, changes: Seq<Change>)
    requires
        forall|i: int| 0 <= i < changes.len() ==> is_app_state_change(#[trigger] changes[i]),
    ensures
        ({
            let after = store::apply_changes(tree, changes);
            &&& after.blocks == tree.blocks
            &&& after.block_at_height == tree.block_at_height
            &&& after.children == tree.children
            &&& after.highest_committed_block == tree.highest_committed_block
            &&& after.committed_validators == tree.committed_validators
            &&& after.previous_validators == tree.previous_validators
            &&& after.update_height == tree.update_height
            &&& after.update_decided == tree.update_decided
        }),
    decreases changes.len(),
{
    if changes.len() > 0 {
        let fewer = changes.drop_last();
        assert forall|i: int| 0 <= i < fewer.len() implies is_app_state_change(
            #[trigger] fewer[i],
        ) by {
            assert(fewer[i] == changes[i]);
        }
        lemma_app_state_changes(tree, fewer);
        assert(is_app_state_change(changes[changes.len() - 1]));
    }
}

proof fn lemma_pending_are_app_state_changes(tree: TreeView, block: CryptoHash)
    ensures
        forall|i: int|
            0 <= i < commit::pending_app_changes(tree, block).len() ==> is_app_state_change(
                #[trigger] commit::pending_app_changes(tree, block)[i],
            ),
{
    if tree.pending_app_state.contains_key(block) {
        let updates = tree.pending_app_state[block];
        let first = write_batch::insert_changes(updates.inserts@);
        let second = write_batch::delete_changes(updates.deletes@);
        let all = commit::pending_app_changes(tree, block);
        assert forall|i: int| 0 <= i < all.len() implies is_app_state_change(
            #[trigger] all[i],
        ) by {
            if i < first.len() {
                assert(all[i] == first[i]);
            } else if i < first.len() + second.len() {
                assert(all[i] == second[i - first.len()]);
            }
        }
    }
}

/// The siblings of a block, as listed for its parent.
pub open spec fn siblings_of(tree: TreeView, block: CryptoHash) -> Seq<CryptoHash> {
    tree.children[tree.blocks[block].justify.block]
}

/// What committing one block makes of the tree.
proof fn lemma_commit_one(
    tree: TreeView,
    base: TreeView,
    target: CryptoHash,
    block: CryptoHash,
    other: CryptoHash,
)
    requires
        commit::commit_one(tree, target, block).1 is Ok,
    ensures
        ({
            let (changes, result) = commit::commit_one(tree, target, block);
            let after = store::apply_changes(base, changes);
            &&& tree.blocks.contains_key(block)
            &&& after.block_at_height == base.block_at_height.insert(
                tree.blocks[block].height,
                block,
            )
            &&& after.highest_committed_block == Some(block)
            &&& after.blocks.contains_key(other) <==> base.blocks.contains_key(other) && !(
            in_other_branch(tree, siblings_of(tree, block), block, other)
                && tree.blocks.contains_key(other))
            &&& after.children.contains_key(tree.blocks[block].justify.block)
            &&& after.children[tree.blocks[block].justify.block] == seq![block]
            &&& match tree::updates_status(tree, block) {
                ValidatorSetUpdatesStatus::Pending(updates) => {
                    &&& result == Ok::<Option<ValidatorSetUpdates>, BlockTreeError>(Some(updates))
                    &&& after.committed_validators == Some(
                        validator_set::updated_entries(tree.committed_validators->0, updates),
                    )
                    &&& after.previous_validators == tree.committed_validators
                    &&& after.update_height == Some(tree.blocks[block].height)
                    &&& after.update_decided == Some(false)
                },
                _ => {
                    &&& result == Ok::<Option<ValidatorSetUpdates>, BlockTreeError>(None)
                    &&& after.committed_validators == base.committed_validators
                    &&& after.previous_validators == base.previous_validators
                    &&& after.update_height == base.update_height
                    &&& after.update_decided == base.update_decided
                },
            }
        }),
{
    let parent = tree.blocks[block].justify.block;
    let index = Change::Plain(WriteOp::SetBlockAtHeight(tree.blocks[block].height, block));
    let none = Seq::<Change>::empty();
    let cut = commit::branch_deletions(tree, tree.children[parent], block);
    let only = Change::Children(parent, seq![block]);
    let pending = commit::pending_app_changes(tree, block);
    let frontier = Change::Plain(WriteOp::SetHighestCommittedBlock(block));
    let (changes, result) = commit::commit_one(tree, target, block);
    let t1 = store::apply_changes(base, seq![index]);
    store::lemma_apply_push(base, none, index);
    assert(none.push(index) =~= seq![index]);
    let s2 = seq![index] + cut;
    store::lemma_apply_concat(base, seq![index], cut);
    let t2 = store::apply_changes(t1, cut);
    lemma_branch_deletions(tree, t1, tree.children[parent], block, other);
    let s3 = s2.push(only);
    store::lemma_apply_push(base, s2, only);
    let t3 = store::apply_change(t2, only);
    let s4 = s3 + pending;
    store::lemma_apply_concat(base, s3, pending);
    let t4 = store::apply_changes(t3, pending);
    lemma_pending_are_app_state_changes(tree, block);
    lemma_app_state_changes(t3, pending);
    match tree::updates_status(tree, block) {
        ValidatorSetUpdatesStatus::Pending(updates) => {
            let changed = commit::validator_changes(tree, target, block, updates);
            let v1 = s4.push(changed[0]);
            let v2 = v1.push(changed[1]);
            let v3 = v2.push(changed[2]);
            let v4 = v3.push(changed[3]);
            let v5 = v4.push(changed[4]);
            store::lemma_apply_push(base, s4, changed[0]);
            store::lemma_apply_push(base, v1, changed[1]);
            store::lemma_apply_push(base, v2, changed[2]);
            store::lemma_apply_push(base, v3, changed[3]);
            store::lemma_apply_push(base, v4, changed[4]);
            store::lemma_apply_push(base, v5, frontier);
            assert(changes =~= v5.push(frontier));
        },
        _ => {
            store::lemma_apply_push(base, s4, frontier);
            assert(changes =~= s4.push(frontier));
        },
    }
}

/// Whether the block at a place of a list is committed at a height, and no later one is.
pub open spec fn last_at_height(
    tree: TreeView,
    committed: Seq<CommittedBlock>,
    height: BlockHeight,
    at: int,
) -> bool {
    &&& 0 <= at < committed.len()
    &&& tree.blocks[committed[at].0].height == height
    &&& forall|later: int|
        at < later < committed.len() ==> tree.blocks[(#[trigger] committed[later]).0].height
            != height
}

/// Whether the block at a place of a list brings updates to the validators, and no later one does.
pub open spec fn last_with_updates(committed: Seq<CommittedBlock>, at: int) -> bool {
    &&& 0 <= at < committed.len()
    &&& committed[at].1 is Some
    &&& forall|later: int| at < later < committed.len() ==> (#[trigger] committed[later]).1 is None
}

/// Whether a block lies in the branch of a sibling of one of the committed blocks.
pub open spec fn is_cut_off(
    tree: TreeView,
    committed: Seq<CommittedBlock>,
    block: CryptoHash,
) -> bool {
    exists|i: int|
        0 <= i < committed.len() && in_other_branch(
            tree,
            siblings_of(tree, (#[trigger] committed[i]).0),
            committed[i].0,
            block,
        )
}

/// Whether `after` is what a commit of the blocks of `committed` makes of `base`, as far as the
/// heights, the blocks and the validators go.
pub open spec fn took_in(
    tree: TreeView,
    base: TreeView,
    committed: Seq<CommittedBlock>,
    after: TreeView,
    height: BlockHeight,
    block: CryptoHash,
) -> bool {
    &&& forall|at: int| #[trigger]
        last_at_height(tree, committed, height, at) ==> after.block_at_height.contains_key(height)
            && after.block_at_height[height] == committed[at].0
    &&& (forall|at: int|
        0 <= at < committed.len() ==> tree.blocks[(#[trigger] committed[at]).0].height != height)
        ==> after.block_at_height.contains_key(height) == base.block_at_height.contains_key(height)
        && after.block_at_height[height] == base.block_at_height[height]
    &&& after.blocks.contains_key(block) <==> base.blocks.contains_key(block) && !(is_cut_off(
        tree,
        committed,
        block,
    ) && tree.blocks.contains_key(block))
    &&& forall|at: int| #[trigger]
        last_with_updates(committed, at) ==> {
            &&& after.committed_validators == Some(
                validator_set::updated_entries(tree.committed_validators->0, committed[at].1->0),
            )
            &&& after.previous_validators == tree.committed_validators
            &&& after.update_height == Some(tree.blocks[committed[at].0].height)
            &&& after.update_decided == Some(false)
        }
    &&& (forall|at: int| 0 <= at < committed.len() ==> (#[trigger] committed[at]).1 is None) ==> {
        &&& after.committed_validators == base.committed_validators
        &&& after.previous_validators == base.previous_validators
        &&& after.update_height == base.update_height
        &&& after.update_decided == base.update_decided
    }
    &&& forall|at: int|
        0 <= at < committed.len() ==> (match tree::updates_status(
            tree,
            (#[trigger] committed[at]).0,
        ) {
            ValidatorSetUpdatesStatus::Pending(updates) => committed[at].1 == Some(updates),
            _ => committed[at].1 is None,
        })
}

/// What committing blocks one after another makes of the tree.
proof fn lemma_commit_all(
    tree: TreeView,
    base: TreeView,
    target: CryptoHash,
    order: Seq<CryptoHash>,
    height: BlockHeight,
    block: CryptoHash,
)
    requires
        commit::commit_all(tree, target, order).1 is Ok,
    ensures
        ({
            let (changes, result) = commit::commit_all(tree, target, order);
            took_in(
                tree,
                base,
                result->Ok_0,
                store::apply_changes(base, changes),
                height,
                block,
            )
        }),
    decreases order.len(),
{
    if order.len() > 0 {
        let fewer = order.drop_last();
        lemma_commit_all(tree, base, target, fewer, height, block);
        let (before, earlier) = commit::commit_all(tree, target, fewer);
        let (changes, result) = commit::commit_all(tree, target, order);
        let some = earlier->Ok_0;
        let committed = result->Ok_0;
        let last = commit::commit_one(tree, target, order.last()).0;
        let middle = store::apply_changes(base, before);
        let after = store::apply_changes(base, changes);
        store::lemma_apply_concat(base, before, last);
        lemma_commit_one(tree, middle, target, order.last(), block);
        let n = some.len() as int;
        assert(committed[n].0 == order.last());
        assert(committed.drop_last() =~= some);
        assert forall|at: int| #[trigger]
            last_at_height(
                tree,
                committed,
                height,
                at,
            ) implies after.block_at_height.contains_key(height) && after.block_at_height[height]
            == committed[at].0 by {
            if at < n {
                assert(tree.blocks[committed[n].0].height != height);
                assert(committed[at] == some[at]);
                assert forall|later: int| at < later < some.len() implies tree.blocks[(
                #[trigger] some[later]).0].height != height by {
                    assert(some[later] == committed[later]);
                }
                assert(last_at_height(tree, some, height, at));
            }
        }
        if forall|at: int|
            0 <= at < committed.len() ==> tree.blocks[(#[trigger] committed[at]).0].height
                != height {
            assert(tree.blocks[committed[n].0].height != height);
            assert forall|at: int| 0 <= at < some.len() implies tree.blocks[(
            #[trigger] some[at]).0].height != height by {
                assert(some[at] == committed[at]);
            }
        }
        assert(is_cut_off(tree, committed, block) <==> is_cut_off(tree, some, block)
            || in_other_branch(tree, siblings_of(tree, order.last()), order.last(), block)) by {
            if is_cut_off(tree, some, block) {
                let i = choose|i: int|
                    0 <= i < some.len() && in_other_branch(
                        tree,
                        siblings_of(tree, (#[trigger] some[i]).0),
                        some[i].0,
                        block,
                    );
                assert(committed[i] == some[i]);
            }
            if is_cut_off(tree, committed, block) {
                let i = choose|i: int|
                    0 <= i < committed.len() && in_other_branch(
                        tree,
                        siblings_of(tree, (#[trigger] committed[i]).0),
                        committed[i].0,
                        block,
                    );
                if i < n {
                    assert(some[i] == committed[i]);
                }
            }
            assert(committed[n].0 == order.last());
        }
        assert forall|at: int| #[trigger] last_with_updates(committed, at) implies {
            &&& after.committed_validators == Some(
                validator_set::updated_entries(tree.committed_validators->0, committed[at].1->0),
            )
            &&& after.previous_validators == tree.committed_validators
            &&& after.update_height == Some(tree.blocks[committed[at].0].height)
            &&& after.update_decided == Some(false)
        } by {
            if at < n {
                assert(committed[n].1 is None);
                assert(committed[at] == some[at]);
                assert forall|later: int| at < later < some.len() implies (
                #[trigger] some[later]).1 is None by {
                    assert(some[later] == committed[later]);
                }
                assert(last_with_updates(some, at));
            }
        }
        if forall|at: int| 0 <= at < committed.len() ==> (#[trigger] committed[at]).1 is None {
            assert(committed[n].1 is None);
            assert forall|at: int| 0 <= at < some.len() implies (#[trigger] some[at]).1
                is None by {
                assert(some[at] == committed[at]);
            }
        }
        assert forall|at: int| 0 <= at < committed.len() implies (match tree::updates_status(
            tree,
            (#[trigger] committed[at]).0,
        ) {
            ValidatorSetUpdatesStatus::Pending(updates) => committed[at].1 == Some(updates),
            _ => committed[at].1 is None,
        }) by {
            if at < n {
                assert(committed[at] == some[at]);
            }
        }
    }
}

/// After a commit, each height of a committed block has that block as its committed block, and every
/// other height has the one that it had. The branches of the siblings of the committed blocks are
/// gone from the tree, and every other block stays. If committed blocks bring updates to the
/// validators, those of the last one that does are put into effect: the committed validators are
/// what the updates make of them, the previous validators are the committed ones of before, the
/// height of the change is that of the block, and the change is not decided. If none does, the
/// validators are as they were. The commit tells of each block exactly the updates that were
/// pending.
pub proof fn law_commits_take_effect(
    tree: TreeView,
    target: CryptoHash,
    height: BlockHeight,
    block: CryptoHash,
)
    requires
        commit::commit_outcome(tree, target).1 is Ok,
    ensures
        ({
            let (changes, result) = commit::commit_outcome(tree, target);
            took_in(
                tree,
                tree,
                result->Ok_0,
                store::apply_changes(tree, changes),
                height,
                block,
            )
        }),
{
    let chain = commit::uncommitted_chain(tree, target, u64::MAX as nat);
    if chain.len() > 0 && tree.blocks.contains_key(chain.last()) && commit::chains_to_frontier(
        tree,
        chain.last(),
    ) {
        lemma_commit_all(tree, tree, target, chain.reverse(), height, block);
    }
}

/// What acting on a certificate makes of the validators. A decide certificate leaves the change of
/// validators decided. Otherwise, and in all other respects, the validators change as the blocks that
/// the certificate commits bring it about: the updates of the last of them that brings any are put
/// into effect, and undecided; and if none does, nothing changes.
pub proof fn law_acting_on_certificates_changes_the_validators<R: Roles>(
    tree: TreeView,
    justify: PhaseCertificate,
    roles: R,
    retention: Retention,
)
    requires
        updates::update_outcome(tree, justify, roles, retention) is Ok,
    ensures
        ({
            let (deeds, committed) = updates::update_outcome(
                tree,
                justify,
                roles,
                retention,
            )->Ok_0;
            let after = tree::replay(tree, deeds);
            &&& justify.phase == Phase::Decide ==> after.update_decided == Some(true)
            &&& forall|at: int| #[trigger]
                last_with_updates(committed, at) ==> {
                    &&& after.committed_validators == Some(
                        validator_set::updated_entries(
                            tree.committed_validators->0,
                            committed[at].1->0,
                        ),
                    )
                    &&& after.previous_validators == tree.committed_validators
                    &&& after.update_height == Some(tree.blocks[committed[at].0].height)
                    &&& justify.phase != Phase::Decide ==> after.update_decided == Some(false)
                }
            &&& (forall|at: int|
                0 <= at < committed.len() ==> (#[trigger] committed[at]).1 is None) ==> {
                &&& after.committed_validators == tree.committed_validators
                &&& after.previous_validators == tree.previous_validators
                &&& after.update_height == tree.update_height
                &&& justify.phase != Phase::Decide ==> after.update_decided == tree.update_decided
            }
        }),
{
    life_laws::lemma_later_stages(Kind::Validators, tree, justify, roles, retention);
    let (committing, result) = updates::justified_commit(tree, justify);
    let locks = updates::lock_changes(tree, justify);
    let decision = updates::decision(justify);
    store::lemma_apply_concat(tree, locks, committing);
    store::lemma_apply_concat(tree, locks + committing, decision);
    let locked = store::apply_changes(tree, locks);
    let taken = store::apply_changes(locked, committing);
    let kind = Kind::Validators;
    assert(sparing::spares(kind, locks)) by {
        reveal(sparing::spares);
    }
    sparing::lemma_spares(kind, tree, locks);
    if justify.phase == Phase::Decide {
        let decided = Change::Plain(WriteOp::SetValidatorSetUpdateDecided(true));
        store::lemma_apply_push(taken, Seq::empty(), decided);
        assert(Seq::<Change>::empty().push(decided) =~= decision);
    }
    if let Ok(Some(target)) = invariants::commit_target(tree, justify) {
        lemma_commit(tree, locked, target, BlockHeight(0), target);
    }
}

/// What a commit makes of the tree on top of any state.
proof fn lemma_commit(
    tree: TreeView,
    base: TreeView,
    target: CryptoHash,
    height: BlockHeight,
    block: CryptoHash,
)
    requires
        commit::commit_outcome(tree, target).1 is Ok,
    ensures
        ({
            let (changes, result) = commit::commit_outcome(tree, target);
            took_in(
                tree,
                base,
                result->Ok_0,
                store::apply_changes(base, changes),
                height,
                block,
            )
        }),
{
    let chain = commit::uncommitted_chain(tree, target, u64::MAX as nat);
    if chain.len() > 0 && tree.blocks.contains_key(chain.last()) && commit::chains_to_frontier(
        tree,
        chain.last(),
    ) {
        lemma_commit_all(tree, base, target, chain.reverse(), height, block);
    }
}

/// Whether observers are told of an event.
pub open spec fn is_told(deeds: Seq<Deed>, event: Event) -> bool {
    deeds.contains(Deed::Other(Effect::Publish(event)))
}

proof fn lemma_told_in_part(before: Seq<Deed>, part: Seq<Deed>, after: Seq<Deed>, event: Event)
    requires
        is_told(part, event),
    ensures
        is_told(before + part + after, event),
{
    let deed = Deed::Other(Effect::Publish(event));
    let i = choose|i: int| 0 <= i < part.len() && part[i] == deed;
    assert((before + part + after)[before.len() + i] == deed);
}

/// The events of committed blocks.
proof fn lemma_commit_events(committed: Seq<CommittedBlock>, at: int)
    requires
        0 <= at < committed.len(),
    ensures
        is_told(
            updates::all_commit_events(committed),
            Event::CommitBlock { block: committed[at].0 },
        ),
        committed[at].1 matches Some(updates) ==> is_told(
            updates::all_commit_events(committed),
            Event::UpdateValidatorSet {
                cause_block: committed[at].0,
                validator_set_updates: updates,
            },
        ),
    decreases committed.len(),
{
    let fewer = committed.drop_last();
    let before = updates::all_commit_events(fewer);
    let own = updates::commit_events(committed.last());
    let none = Seq::<Deed>::empty();
    let all = updates::all_commit_events(committed);
    let commit_event = Event::CommitBlock { block: committed[at].0 };
    if at < fewer.len() {
        assert(fewer[at] == committed[at]);
        lemma_commit_events(fewer, at);
        lemma_told_in_part(none, before, own, commit_event);
        assert(none + before + own =~= all);
        if let Some(updates) = committed[at].1 {
            let event = Event::UpdateValidatorSet {
                cause_block: committed[at].0,
                validator_set_updates: updates,
            };
            lemma_told_in_part(none, before, own, event);
        }
    } else {
        assert(own[1] == Deed::Other(Effect::Publish(commit_event)));
        lemma_told_in_part(before, own, none, commit_event);
        assert(before + own + none =~= all);
        if let Some(updates) = committed[at].1 {
            let event = Event::UpdateValidatorSet {
                cause_block: committed[at].0,
                validator_set_updates: updates,
            };
            assert(own[2] == Deed::Other(Effect::Publish(event)));
            lemma_told_in_part(before, own, none, event);
        }
    }
}

/// Observers are told what acting on a certificate brings about: of the new highest certificate if
/// it is newer, of the new lock if it moves the lock, and of each committed block with the updates
/// to the validators that it brings.
pub proof fn law_observers_are_told<R: Roles>(
    tree: TreeView,
    justify: PhaseCertificate,
    roles: R,
    retention: Retention,
    at: int,
)
    requires
        updates::update_outcome(tree, justify, roles, retention) is Ok,
    ensures
        ({
            let (deeds, committed) = updates::update_outcome(
                tree,
                justify,
                roles,
                retention,
            )->Ok_0;
            &&& justify.view.0 > (tree.highest_pc->0).view.0 ==> is_told(
                deeds,
                Event::UpdateHighestPC { highest_pc: justify },
            )
            &&& justify.phase != Phase::Prepare && justify.view.0 > (tree.locked_pc->0).view.0
                ==> is_told(deeds, Event::UpdateLockedPC { locked_pc: justify })
            &&& 0 <= at < committed.len() ==> is_told(
                deeds,
                Event::CommitBlock { block: committed[at].0 },
            )
            &&& 0 <= at < committed.len() && committed[at].1 is Some ==> is_told(
                deeds,
                Event::UpdateValidatorSet {
                    cause_block: committed[at].0,
                    validator_set_updates: committed[at].1->0,
                },
            )
        }),
{
    let (deeds, committed) = updates::update_outcome(tree, justify, roles, retention)->Ok_0;
    let (commit_changes, result) = updates::justified_commit(tree, justify);
    let none = Seq::<Change>::empty();
    let nothing = Seq::<Deed>::empty();
    let written = seq![
        Deed::Persist(
            none + updates::lock_changes(tree, justify) + commit_changes + updates::decision(
                justify,
            ),
        ),
    ];
    let news = updates::is_news(tree, justify);
    let credited = updates::credit_news(tree::replay(tree, written), roles, news, justify);
    let settled = updates::settle_all(tree::replay(tree, written + credited), roles, committed);
    let highest = updates::highest_event(updates::new_highest(tree, justify));
    let locked = updates::locked_event(invariants::new_lock(tree, justify));
    let commits = updates::all_commit_events(committed);
    let events = highest + locked + commits;
    let before = written + credited + settled;
    let pruned = deeds.skip((before + events).len() as int);
    assert(deeds =~= before + events + pruned);
    if justify.view.0 > (tree.highest_pc->0).view.0 {
        let event = Event::UpdateHighestPC { highest_pc: justify };
        assert(highest[0] == Deed::Other(Effect::Publish(event)));
        lemma_told_in_part(nothing, highest, locked + commits, event);
        assert(nothing + highest + (locked + commits) =~= events);
        lemma_told_in_part(before, events, pruned, event);
    }
    if justify.phase != Phase::Prepare && justify.view.0 > (tree.locked_pc->0).view.0 {
        let event = Event::UpdateLockedPC { locked_pc: justify };
        assert(locked[0] == Deed::Other(Effect::Publish(event)));
        lemma_told_in_part(highest, locked, commits, event);
        lemma_told_in_part(before, events, pruned, event);
    }
    if 0 <= at < committed.len() {
        lemma_commit_events(committed, at);
        let event = Event::CommitBlock { block: committed[at].0 };
        lemma_told_in_part(highest + locked, commits, nothing, event);
        assert(highest + locked + commits + nothing =~= events);
        lemma_told_in_part(before, events, pruned, event);
        if let Some(updates) = committed[at].1 {
            let event = Event::UpdateValidatorSet {
                cause_block: committed[at].0,
                validator_set_updates: updates,
            };
            lemma_told_in_part(highest + locked, commits, nothing, event);
            lemma_told_in_part(before, events, pruned, event);
        }
    }
}

/// What counting a success of a leader makes of the records: the leader's has one more success in
/// one more view, and every other record is as it was. Only a full record is left alone.
pub proof fn law_credited_leaders_gain_one_success(
    tree: TreeView,
    leader: VerifyingKey,
    other: [u8; 32],
)
    ensures
        ({
            let after = tree::replay(tree, speculation::credit_leader(tree, leader));
            let before = reputation::record_of(tree::reputation_of(tree).0, leader.bytes);
            let now = reputation::record_of(tree::reputation_of(after).0, leader.bytes);
            &&& before.successes < u32::MAX && before.total < u32::MAX ==> now.successes
                == before.successes + 1 && now.total == before.total + 1
            &&& before.successes == u32::MAX || before.total == u32::MAX ==> after == tree
            &&& other != leader.bytes ==> reputation::record_of(
                tree::reputation_of(after).0,
                other,
            ) == reputation::record_of(tree::reputation_of(tree).0, other)
            &&& tree::reputation_of(after).1 == tree::reputation_of(tree).1
        }),
{
    let (entries, window) = tree::reputation_of(tree);
    let before = reputation::record_of(entries, leader.bytes);
    let deed = Deed::Other(Effect::FatalSafetyViolation);
    tree::lemma_replay_one(tree, deed);
    if before.successes < u32::MAX && before.total < u32::MAX {
        let next = reputation::with_record(
            entries,
            leader.bytes,
            reputation::after_success(before),
        );
        let change = Change::Reputation(next, window);
        tree::lemma_replay_one(tree, Deed::Persist(seq![change]));
        store::lemma_apply_push(tree, Seq::empty(), change);
        assert(Seq::<Change>::empty().push(change) =~= seq![change]);
        lemma_with_record(entries, leader.bytes, reputation::after_success(before), other);
    }
}

/// Replacing a record replaces it alone.
pub(crate) proof fn lemma_with_record(
    entries: Records,
    key: [u8; 32],
    entry: LeaderReputationEntry,
    other: [u8; 32],
)
    ensures
        reputation::record_of(reputation::with_record(entries, key, entry), key) == entry,
        other != key ==> reputation::record_of(
            reputation::with_record(entries, key, entry),
            other,
        ) == reputation::record_of(entries, other),
{
    let next = reputation::with_record(entries, key, entry);
    reputation::lemma_record_index(entries, key, 0);
    reputation::lemma_record_index(entries, other, 0);
    reputation::lemma_record_index(next, key, 0);
    reputation::lemma_record_index(next, other, 0);
    let at = reputation::record_index(entries, key, 0);
    let place = reputation::record_index(next, key, 0);
    assert(next[at].0 == key);
    if place < at {
        assert(entries[place].0 != key);
        assert(next[place] == entries[place]);
    } else if place > at {
        assert(next[at].0 != key);
    }
    if other != key {
        let was = reputation::record_index(entries, other, 0);
        let is = reputation::record_index(next, other, 0);
        if was < entries.len() {
            assert(next[was] == entries[was]);
            if is < was {
                assert(next[is].0 == other);
                assert(is != at);
                assert(entries[is].0 != other);
                assert(next[is] == entries[is]);
            } else if is > was {
                assert(next[was].0 != other);
            }
        } else if is < next.len() {
            assert(next[is].0 == other);
            assert(is != at);
            assert(entries[is] == next[is]);
            assert(entries[is].0 != other);
        }
    }
}

/// Right after the first write, acting on a certificate that is newer than the highest one, and is
/// not the genesis certificate, counts a success of the leader of the certificate's view.
pub proof fn law_new_certificates_credit_their_leader<R: Roles>(
    tree: TreeView,
    justify: PhaseCertificate,
    roles: R,
    retention: Retention,
)
    requires
        updates::update_outcome(tree, justify, roles, retention) is Ok,
        justify.view.0 > (tree.highest_pc->0).view.0,
        !justify.is_genesis(),
    ensures
        ({
            let deeds = updates::update_outcome(tree, justify, roles, retention)->Ok_0.0;
            let written = tree::replay(tree, deeds.take(1));
            let (records, window) = tree::reputation_of(written);
            let leader = roles.leader(justify.view, written.committed_validators->0, records);
            let before = reputation::record_of(records, leader.bytes);
            before.successes < u32::MAX && before.total < u32::MAX ==> {
                &&& deeds.len() > 1
                &&& deeds[1] is Persist
                &&& deeds[1]->Persist_0.len() == 1
                &&& deeds[1]->Persist_0[0] is Reputation
                &&& ({
                    let now = reputation::record_of(
                        deeds[1]->Persist_0[0]->Reputation_0,
                        leader.bytes,
                    );
                    now.successes == before.successes + 1 && now.total == before.total + 1
                })
            }
        }),
{
    let (deeds, committed) = updates::update_outcome(tree, justify, roles, retention)->Ok_0;
    let (commit_changes, result) = updates::justified_commit(tree, justify);
    let none = Seq::<Change>::empty();
    let written = seq![
        Deed::Persist(
            none + updates::lock_changes(tree, justify) + commit_changes + updates::decision(
                justify,
            ),
        ),
    ];
    let after = tree::replay(tree, written);
    let credited = updates::credit_news(after, roles, true, justify);
    assert(deeds.take(1) =~= written);
    let (records, window) = tree::reputation_of(after);
    let leader = roles.leader(justify.view, after.committed_validators->0, records);
    let before = reputation::record_of(records, leader.bytes);
    if before.successes < u32::MAX && before.total < u32::MAX {
        lemma_with_record(
            records,
            leader.bytes,
            reputation::after_success(before),
            leader.bytes,
        );
        assert(deeds[1] == credited[0]);
    }
}

/// What counting a timeout of a leader makes of the records, before they decay: the leader's has one
/// more view and no more successes.
pub proof fn law_debited_leaders_lose_a_view(tree: TreeView, leader: VerifyingKey, other: [u8; 32])
    requires
        reputation::record_of(tree::reputation_of(tree).0, leader.bytes).total < u32::MAX,
    ensures
        ({
            let (entries, window) = tree::reputation_of(tree);
            let before = reputation::record_of(entries, leader.bytes);
            let counted = reputation::with_record(
                entries,
                leader.bytes,
                LeaderReputationEntry {
                    successes: before.successes,
                    total: (before.total + 1) as u32,
                },
            );
            let after = tree::replay(tree, speculation::debit_leader(tree, leader));
            let events = reputation::total_events(counted);
            let full = window > 0 && 0 < events <= u32::MAX && events % (window as nat) == 0;
            &&& tree::reputation_of(after) == (
                if full {
                    reputation::decayed(counted)
                } else {
                    counted
                },
                window,
            )
            &&& !full ==> ({
                let now = reputation::record_of(tree::reputation_of(after).0, leader.bytes);
                &&& now.successes == before.successes
                &&& now.total == before.total + 1
                &&& other != leader.bytes ==> reputation::record_of(
                    tree::reputation_of(after).0,
                    other,
                ) == reputation::record_of(entries, other)
            })
        }),
{
    let (entries, window) = tree::reputation_of(tree);
    let before = reputation::record_of(entries, leader.bytes);
    let next = speculation::timed_out_records(entries, window, leader);
    let change = Change::Reputation(next, window);
    tree::lemma_replay_one(tree, Deed::Persist(seq![change]));
    store::lemma_apply_push(tree, Seq::empty(), change);
    assert(Seq::<Change>::empty().push(change) =~= seq![change]);
    lemma_with_record(entries, leader.bytes, reputation::after_timeout(before), other);
}

/// Whether `entries` has a record of `key`.
spec fn has_record(entries: Records, key: [u8; 32]) -> bool {
    exists|i: int| 0 <= i < entries.len() && (#[trigger] entries[i]).0 == key
}

/// One more record counts only for a key that has none.
proof fn lemma_record_added(
    entries: Records,
    key: [u8; 32],
    entry: LeaderReputationEntry,
    of: [u8; 32],
)
    ensures
        reputation::record_of(entries.push((key, entry)), of) == (if has_record(entries, of)
            || key != of {
            reputation::record_of(entries, of)
        } else {
            entry
        }),
{
    let longer = entries.push((key, entry));
    reputation::lemma_record_index(entries, of, 0);
    reputation::lemma_record_index(longer, of, 0);
    let was = reputation::record_index(entries, of, 0);
    let is = reputation::record_index(longer, of, 0);
    if was < entries.len() {
        assert(longer[was] == entries[was]);
        if is < was {
            assert(longer[is] == entries[is]);
        }
        assert(is == was);
    } else {
        assert(!has_record(entries, of));
        if is < entries.len() {
            assert(longer[is] == entries[is]);
        }
        assert(longer[entries.len() as int].0 == key);
    }
}

/// A decay gives no record to a key that had none.
proof fn lemma_decay_adds_none(entries: Records, key: [u8; 32])
    requires
        !has_record(entries, key),
    ensures
        !has_record(reputation::decayed(entries), key),
    decreases entries.len(),
{
    if entries.len() > 0 {
        let fewer = entries.drop_last();
        assert forall|i: int| 0 <= i < fewer.len() implies (#[trigger] fewer[i]).0 != key by {
            assert(fewer[i] == entries[i]);
        }
        lemma_decay_adds_none(fewer, key);
        assert(entries[entries.len() - 1].0 != key);
        let some = reputation::decayed(fewer);
        let after = reputation::decayed(entries);
        assert forall|i: int| 0 <= i < after.len() implies (#[trigger] after[i]).0 != key by {
            if i < some.len() {
                assert(after[i] == some[i]);
            }
        }
    }
}

/// A decay halves both counts of the record of every validator, rounding down.
pub proof fn law_decay_halves_the_counts(entries: Records, key: [u8; 32])
    requires
        reputation::in_order(entries),
        forall|i: int, j: int|
            0 <= i < j < entries.len() ==> (#[trigger] entries[i]).0 != (#[trigger] entries[j]).0,
    ensures
        ({
            let before = reputation::record_of(entries, key);
            let after = reputation::record_of(reputation::decayed(entries), key);
            &&& after.successes == before.successes as int / 2
            &&& after.total == before.total as int / 2
        }),
    decreases entries.len(),
{
    if entries.len() > 0 {
        let fewer = entries.drop_last();
        let last = entries.last();
        let n = fewer.len() as int;
        assert(reputation::in_order(fewer)) by {
            assert forall|i: int| 0 <= i < fewer.len() implies (#[trigger] fewer[i]).1.successes
                <= fewer[i].1.total by {
                assert(fewer[i] == entries[i]);
            }
        }
        assert forall|i: int, j: int| 0 <= i < j < fewer.len() implies (#[trigger] fewer[i]).0 != (
        #[trigger] fewer[j]).0 by {
            assert(entries[i].0 != entries[j].0);
        }
        law_decay_halves_the_counts(fewer, key);
        assert(entries =~= fewer.push((last.0, last.1)));
        lemma_record_added(fewer, last.0, last.1, key);
        let half = LeaderReputationEntry {
            successes: (last.1.successes / 2) as u32,
            total: (last.1.total / 2) as u32,
        };
        lemma_record_added(reputation::decayed(fewer), last.0, half, key);
        assert(entries[n].1.successes <= entries[n].1.total);
        if last.0 == key {
            if has_record(fewer, key) {
                let i = choose|i: int| 0 <= i < fewer.len() && (#[trigger] fewer[i]).0 == key;
                assert(entries[i].0 != entries[n].0);
            }
            lemma_decay_adds_none(fewer, key);
            reputation::lemma_record_index(fewer, key, 0);
            reputation::lemma_record_index(reputation::decayed(fewer), key, 0);
            assert(reputation::record_of(entries, key) == last.1);
        }
        assert(last == entries[n]);
        if half.total > 0 {
            assert(reputation::decayed(entries) == reputation::decayed(fewer).push((last.0, half)));
        } else {
            assert(reputation::decayed(entries) == reputation::decayed(fewer));
            assert(last.1.total < 2 && last.1.successes < 2);
        }
    }
}

/// A score is the share of successes in ten thousandths, rounded down, but never less than a
/// quarter. A leader without a record has the full score.
pub proof fn law_scores_are_shares_of_successes(entry: LeaderReputationEntry)
    requires
        entry.successes <= entry.total,
    ensures
        ({
            let score = reputation::entry_score(entry);
            let s = entry.successes as int;
            let t = entry.total as int;
            &&& t == 0 ==> score == 10_000
            &&& t > 0 && 4 * s < t ==> score == 2_500
            &&& t > 0 && 4 * s >= t ==> score * t <= 10_000 * s < (score + 1) * t
        }),
{
    let s = entry.successes as int;
    let t = entry.total as int;
    if t > 0 {
        let raw = s * 10_000 / t;
        assert(0 <= raw <= 10_000 && raw * t <= 10_000 * s < (raw + 1) * t) by (nonlinear_arith)
            requires
                0 <= s <= t,
                t > 0,
                raw == s * 10_000 / t,
        ;
        if 4 * s >= t {
            assert(raw >= 2_500) by (nonlinear_arith)
                requires
                    10_000 * s < (raw + 1) * t,
                    4 * s >= t,
                    t > 0,
            ;
        } else {
            assert(raw < 2_500) by (nonlinear_arith)
                requires
                    raw * t <= 10_000 * s,
                    4 * s < t,
                    t > 0,
            ;
        }
    }
}

/// What a certificate commits. A commit or decide certificate commits the block that it is for. A
/// generic certificate commits the parent of its block, if the certificate that its block rests on is
/// of the view right before. A prepare or precommit certificate commits nothing. Nothing is committed
/// that lies at or below the committed frontier, or where the tree lacks the certificate's block.
pub proof fn law_what_certificates_commit(tree: TreeView, pc: PhaseCertificate, block: CryptoHash)
    ensures
        ({
            let own = tree.blocks[pc.block];
            let is_above = tree.blocks.contains_key(block) && (tree::committed_height(tree) is None
                || tree.blocks[block].height.0 > (tree::committed_height(tree)->0).0);
            invariants::commit_target(tree, pc) == Ok::<Option<CryptoHash>, BlockTreeError>(
                Some(block),
            ) <==> tree.blocks.contains_key(pc.block) && is_above && ({
                ||| (pc.phase == Phase::Commit || pc.phase == Phase::Decide) && block == pc.block
                ||| pc.phase == Phase::Generic && !own.justify.is_genesis() && own.justify.view.0
                    + 1 == pc.view.0 && block == own.justify.block
            })
        }),
        invariants::commit_target(tree, pc) is Err <==> tree.blocks.contains_key(pc.block)
            && pc.phase == Phase::Generic && !tree.blocks[pc.block].justify.is_genesis()
            && tree.blocks[pc.block].justify.view.0 + 1 == pc.view.0 && !tree.blocks.contains_key(
            tree.blocks[pc.block].justify.block,
        ),
{
}

/// A certificate may be acted on exactly if it is the genesis certificate or is for this chain and a
/// block of the tree; it is newer than the lock, or its block is the locked block, a child or a
/// grandchild of it; and it is generic exactly if its block does not change the validators.
pub proof fn law_which_certificates_are_safe(
    tree: TreeView,
    pc: PhaseCertificate,
    chain_id: ChainID,
)
    ensures
        ({
            let lock = tree.locked_pc->0;
            let held = tree.blocks.contains_key(pc.block);
            let parent = tree.blocks[pc.block].justify.block;
            let grandparent = tree.blocks[parent].justify.block;
            invariants::pc_safe(tree, pc, chain_id) <==> ({
                &&& pc.is_genesis() || (held && pc.chain_id == chain_id)
                &&& {
                    ||| pc.view.0 > lock.view.0
                    ||| pc.block == lock.block
                    ||| held && parent == lock.block
                    ||| held && tree.blocks.contains_key(parent) && grandparent == lock.block
                }
                &&& pc.phase == Phase::Generic <==> (!tree.validator_set_updates.contains_key(
                    pc.block,
                ) || tree.validator_set_updates[pc.block] is NoUpdates)
            })
        }),
{
}

/// A fresh tree, initialized, has the validators that it was given as its committed and previous
/// ones, with the height and the decision of their last change; its lock and its highest certificate
/// are the genesis certificate, and the view entered is the first.
pub proof fn law_initialization_sets_the_variables(
    app_state: AppStateUpdates,
    validators: ValidatorSetState,
    genesis: PhaseCertificate,
)
    ensures
        ({
            let after = store::apply_changes(
                store::empty_tree(),
                updates::initial_changes(app_state, validators, genesis),
            );
            &&& after.committed_validators == Some(validators.committed_validator_set@)
            &&& after.previous_validators == Some(validators.previous_validator_set@)
            &&& after.update_height == validators.update_height
            &&& after.update_decided == Some(validators.update_decided)
            &&& after.locked_pc == Some(genesis)
            &&& after.highest_pc == Some(genesis)
            &&& after.highest_view_entered == Some(ViewNumber(0))
            &&& tree::initialized(after)
        }),
{
    let base = store::empty_tree();
    let applied = write_batch::app_state_changes(app_state);
    let all = updates::initial_changes(app_state, validators, genesis);
    let first = write_batch::insert_changes(app_state.inserts@);
    let second = write_batch::delete_changes(app_state.deletes@);
    assert forall|i: int| 0 <= i < applied.len() implies is_app_state_change(
        #[trigger] applied[i],
    ) by {
        if i < first.len() {
            assert(applied[i] == first[i]);
        } else {
            assert(applied[i] == second[i - first.len()]);
        }
    }
    lemma_app_state_changes(base, applied);
    store::lemma_stays_readable(base, applied);
    let c1 = Change::CommittedValidators(validators.committed_validator_set@);
    let c2 = Change::PreviousValidators(validators.previous_validator_set@);
    let s1 = applied.push(c1);
    let s2 = s1.push(c2);
    store::lemma_apply_push(base, applied, c1);
    store::lemma_apply_push(base, s1, c2);
    let s3 = match validators.update_height {
        Some(height) => s2.push(Change::Plain(WriteOp::SetValidatorSetUpdateHeight(height))),
        None => s2,
    };
    if let Some(height) = validators.update_height {
        store::lemma_apply_push(
            base,
            s2,
            Change::Plain(WriteOp::SetValidatorSetUpdateHeight(height)),
        );
    }
    let c4 = Change::Plain(WriteOp::SetValidatorSetUpdateDecided(validators.update_decided));
    let c5 = Change::Plain(WriteOp::SetLockedPC(genesis));
    let c6 = Change::Plain(WriteOp::SetHighestViewEntered(ViewNumber(0)));
    let c7 = Change::Plain(WriteOp::SetHighestPC(genesis));
    let s4 = s3.push(c4);
    let s5 = s4.push(c5);
    let s6 = s5.push(c6);
    store::lemma_apply_push(base, s3, c4);
    store::lemma_apply_push(base, s4, c5);
    store::lemma_apply_push(base, s5, c6);
    store::lemma_apply_push(base, s6, c7);
    assert(all =~= s6.push(c7));
}

/// A commit never crosses a hole. The first block that it takes in rests on the genesis certificate or
/// directly on the committed frontier, each further one rests on the one before it, all of them lie
/// higher than the frontier, and the last one is the block that was to be committed.
pub proof fn law_commits_follow_the_frontier(tree: TreeView, target: CryptoHash, at: int)
    requires
        commit::commit_outcome(tree, target).1 is Ok,
        0 <= at < commit::commit_outcome(tree, target).1->Ok_0.len(),
    ensures
        ({
            let committed = commit::commit_outcome(tree, target).1->Ok_0;
            let block = tree.blocks[committed[at].0];
            &&& tree.blocks.contains_key(committed[at].0)
            &&& at == 0 ==> block.justify.is_genesis() || Some(block.justify.block)
                == tree.highest_committed_block
            &&& at > 0 ==> block.justify.block == committed[at - 1].0
            &&& tree.highest_committed_block is Some && tree.blocks.contains_key(
                tree.highest_committed_block->0,
            ) ==> block.height.0 > tree.blocks[tree.highest_committed_block->0].height.0
            &&& committed.last().0 == target
        }),
{
    laws::law_commits_are_contiguous(tree, target);
    let committed = commit::commit_outcome(tree, target).1->Ok_0;
    assert(commit::above_frontier(tree, committed[at].0));
    if at > 0 {
        assert(commit::follows_on(tree, committed, at));
    }
}

/// A block of the tree that rests directly on the committed frontier, and lies higher, is committed
/// alone when it is to be committed, unless the commit fails.
pub proof fn law_the_next_block_can_be_committed(tree: TreeView, block: CryptoHash)
    requires
        tree.highest_committed_block is Some,
        tree.blocks.contains_key(tree.highest_committed_block->0),
        tree.blocks.contains_key(block),
        !tree.blocks[block].justify.is_genesis(),
        Some(tree.blocks[block].justify.block) == tree.highest_committed_block,
        tree.blocks[block].height.0 > tree.blocks[tree.highest_committed_block->0].height.0,
    ensures
        match commit::commit_outcome(tree, block).1 {
            Ok(committed) => committed.len() == 1 && committed[0].0 == block,
            Err(_) => !tree.children.contains_key(tree.highest_committed_block->0)
                || tree.committed_validators is None,
        },
{
    let frontier = tree.highest_committed_block->0;
    let rest = commit::uncommitted_chain(tree, frontier, (u64::MAX - 1) as nat);
    assert(rest =~= Seq::empty());
    let chain = commit::uncommitted_chain(tree, block, u64::MAX as nat);
    assert(chain =~= seq![block]);
    let order = chain.reverse();
    assert(order =~= seq![block]);
    assert(order.drop_last() =~= Seq::empty());
    assert(commit::commit_all(tree, block, order.drop_last()).1 is Ok);
    if commit::commit_all(tree, block, order).1 is Ok {
        laws::lemma_commit_all_order(tree, block, order);
    }
}

/// After a block was committed it is no longer speculatively committed, and the leader of the view in
/// which it was proposed, the one right after that of its certificate, gains a success.
pub proof fn law_committed_blocks_credit_their_leader<R: Roles>(
    tree: TreeView,
    roles: R,
    block: CryptoHash,
)
    requires
        tree.blocks.contains_key(block),
        !tree.blocks[block].justify.is_genesis(),
        tree.blocks[block].justify.view.0 < u64::MAX,
    ensures
        ({
            let view = ViewNumber((tree.blocks[block].justify.view.0 + 1) as u64);
            let (records, window) = tree::reputation_of(tree);
            let leader = roles.leader(view, tree.committed_validators->0, records);
            let before = reputation::record_of(records, leader.bytes);
            let after = tree::replay(tree, updates::settle_one(tree, roles, block));
            let now = reputation::record_of(tree::reputation_of(after).0, leader.bytes);
            before.successes < u32::MAX && before.total < u32::MAX ==> now.successes
                == before.successes + 1 && now.total == before.total + 1
        }),
{
    let promoted = speculation::unspeculate(tree, block);
    let after = tree::replay(tree, promoted);
    let change = Change::SpeculativeCommits(
        crate::types::data_types::without(tree.speculative_commits, block),
    );
    tree::lemma_replay_one(tree, Deed::Persist(seq![change]));
    store::lemma_apply_push(tree, Seq::empty(), change);
    assert(Seq::<Change>::empty().push(change) =~= seq![change]);
    let view = ViewNumber((tree.blocks[block].justify.view.0 + 1) as u64);
    let credited = speculation::credit_view(after, roles, view);
    tree::lemma_replay_concat(tree, promoted, credited);
    let leader = roles.leader(
        view,
        tree.committed_validators->0,
        tree::reputation_of(tree).0,
    );
    law_credited_leaders_gain_one_success(after, leader, leader.bytes);
}

/// Every counted view counts once in the number of all counted views.
pub proof fn law_every_counted_view_counts(entries: Records, key: [u8; 32])
    requires
        reputation::record_of(entries, key).total < u32::MAX,
    ensures
        ({
            let record = reputation::record_of(entries, key);
            &&& reputation::total_events(
                reputation::with_record(entries, key, reputation::after_timeout(record)),
            ) == reputation::total_events(entries) + 1
            &&& record.successes < u32::MAX ==> reputation::total_events(
                reputation::with_record(entries, key, reputation::after_success(record)),
            ) == reputation::total_events(entries) + 1
            &&& reputation::total_events(Seq::empty()) == 0
        }),
{
    reputation::lemma_record_index(entries, key, 0);
    let record = reputation::record_of(entries, key);
    let at = reputation::record_index(entries, key, 0);
    let timed_out = reputation::after_timeout(record);
    let succeeded = reputation::after_success(record);
    if at < entries.len() {
        lemma_total_update(entries, at, (key, timed_out));
        lemma_total_update(entries, at, (key, succeeded));
    } else {
        assert(entries.push((key, timed_out)).drop_last() =~= entries);
        assert(entries.push((key, succeeded)).drop_last() =~= entries);
    }
}

proof fn lemma_total_update(
    entries: Records,
    at: int,
    entry: ([u8; 32], LeaderReputationEntry),
)
    requires
        0 <= at < entries.len(),
    ensures
        reputation::total_events(entries.update(at, entry)) == reputation::total_events(entries)
            - entries[at].1.total + entry.1.total,
    decreases entries.len(),
{
    let updated = entries.update(at, entry);
    if at == entries.len() - 1 {
        assert(updated.drop_last() =~= entries.drop_last());
    } else {
        assert(updated.drop_last() =~= entries.drop_last().update(at, entry));
        lemma_total_update(entries.drop_last(), at, entry);
    }
}

/// A put-off commit is counted for the lowest block of the chain that does not reach the frontier;
/// nothing is counted where nothing is put off.
pub proof fn law_put_off_commits_are_watched(
    tree: TreeView,
    justify: PhaseCertificate,
    watch: GapWatch,
    target: CryptoHash,
)
    ensures
        !(invariants::commit_target(tree, justify) is Ok && invariants::commit_target(
            tree,
            justify,
        )->Ok_0 is Some) ==> updates::watch_after(tree, justify, watch) == watch,
        invariants::commit_target(tree, justify) == Ok::<Option<CryptoHash>, BlockTreeError>(
            Some(target),
        ) && commit::commit_outcome(tree, target).1 is Ok && commit::commit_outcome(
            tree,
            target,
        ).1->Ok_0.len() > 0 ==> updates::watch_after(tree, justify, watch) == watch,
        invariants::commit_target(tree, justify) == Ok::<Option<CryptoHash>, BlockTreeError>(
            Some(target),
        ) && commit::commit_deferred(tree, target) ==> ({
            let after = updates::watch_after(tree, justify, watch);
            &&& after.count >= 1
            &&& tree.blocks.contains_key(after.block)
            &&& !tree.blocks[after.block].justify.is_genesis()
            &&& Some(tree.blocks[after.block].justify.block) != tree.highest_committed_block
        }),
{
}

/// Whether a tree lists each of its blocks with a parent's children, and holds the parents of the blocks
/// above its committed frontier.
pub open spec fn is_whole(tree: TreeView) -> bool {
    &&& tree.committed_validators is Some
    &&& forall|block: CryptoHash| #[trigger]
        tree.blocks.contains_key(block) ==> {
            let justify = tree.blocks[block].justify;
            &&& tree.children.contains_key(justify.block)
            &&& justify.is_genesis() || tree.blocks.contains_key(justify.block) || (
            tree::committed_height(tree) is Some && tree.blocks[block].height.0 <= (
            tree::committed_height(tree)->0).0)
        }
}

/// The blocks of a chain are in a whole tree.
proof fn lemma_chain_is_held(tree: TreeView, block: CryptoHash, limit: nat)
    requires
        is_whole(tree),
        tree.blocks.contains_key(block),
    ensures
        forall|i: int|
            0 <= i < commit::uncommitted_chain(tree, block, limit).len()
                ==> tree.blocks.contains_key(
                #[trigger] commit::uncommitted_chain(tree, block, limit)[i],
            ),
    decreases limit,
{
    let chain = commit::uncommitted_chain(tree, block, limit);
    if limit > 0 && commit::above_frontier(tree, block) {
        if let Some(parent) = commit::parent_in(tree, block) {
            let rest = commit::uncommitted_chain(tree, parent, (limit - 1) as nat);
            assert(tree.blocks.contains_key(parent));
            lemma_chain_is_held(tree, parent, (limit - 1) as nat);
            assert forall|i: int| 0 <= i < chain.len() implies tree.blocks.contains_key(
                #[trigger] chain[i],
            ) by {
                if i > 0 {
                    assert(chain[i] == rest[i - 1]);
                }
            }
        }
    }
}

proof fn lemma_commit_all_succeeds(tree: TreeView, target: CryptoHash, order: Seq<CryptoHash>)
    requires
        is_whole(tree),
        forall|i: int|
            0 <= i < order.len() ==> tree.blocks.contains_key(#[trigger] order[i]),
    ensures
        commit::commit_all(tree, target, order).1 is Ok,
    decreases order.len(),
{
    if order.len() > 0 {
        let fewer = order.drop_last();
        assert forall|i: int| 0 <= i < fewer.len() implies tree.blocks.contains_key(
            #[trigger] fewer[i],
        ) by {
            assert(fewer[i] == order[i]);
        }
        lemma_commit_all_succeeds(tree, target, fewer);
        assert(tree.blocks.contains_key(order[order.len() - 1]));
    }
}

/// In a whole tree a commit of a block that the tree holds never fails, and neither does acting on a
/// certificate for a block above the committed frontier.
pub proof fn law_whole_trees_do_not_fail<R: Roles>(
    tree: TreeView,
    block: CryptoHash,
    justify: PhaseCertificate,
    roles: R,
    retention: Retention,
)
    requires
        is_whole(tree),
    ensures
        tree.blocks.contains_key(block) ==> commit::commit_outcome(tree, block).1 is Ok,
        !tree.blocks.contains_key(justify.block) || tree::committed_height(tree) is None
            || tree.blocks[justify.block].height.0 > (tree::committed_height(tree)->0).0
            ==> updates::update_outcome(tree, justify, roles, retention) is Ok,
{
    if tree.blocks.contains_key(block) {
        lemma_commit_succeeds(tree, block);
    }
    if let Ok(Some(target)) = invariants::commit_target(tree, justify) {
        lemma_commit_succeeds(tree, target);
    }
}

proof fn lemma_commit_succeeds(tree: TreeView, block: CryptoHash)
    requires
        is_whole(tree),
        tree.blocks.contains_key(block),
    ensures
        commit::commit_outcome(tree, block).1 is Ok,
{
    let chain = commit::uncommitted_chain(tree, block, u64::MAX as nat);
    lemma_chain_is_held(tree, block, u64::MAX as nat);
    let order = chain.reverse();
    if chain.len() > 0 {
        assert(chain.last() == chain[chain.len() - 1]);
        assert forall|i: int| 0 <= i < order.len() implies tree.blocks.contains_key(
            #[trigger] order[i],
        ) by {
            assert(order[i] == chain[chain.len() - 1 - i]);
        }
        lemma_commit_all_succeeds(tree, block, order);
    }
}

} // verus!
