//! What is committed stays committed.

use vstd::prelude::*;

use crate::block_tree::commit;
use crate::block_tree::store;
use crate::block_tree::store::TreeView;
use crate::block_tree::tree;
use crate::block_tree::write_batch;
use crate::block_tree::write_batch::{Change, WriteOp};
use crate::types::data_types::{BlockHeight, CryptoHash};
use crate::types::update_sets::AppStateUpdates;
use crate::types::validator_set::ValidatorSetUpdatesStatus;

verus! {

/// Whether a change is to what is committed at a height up to `frontier`.
spec fn touches_committed(change: Change, frontier: u64) -> bool {
    match change {
        Change::Plain(WriteOp::SetBlockAtHeight(height, _)) => height.0 <= frontier,
        Change::Plain(WriteOp::DeleteBlockAtHeight(_)) => true,
        _ => false,
    }
}

/// Whether no change is to what is committed at a height up to `frontier`.
#[verifier::opaque]
spec fn spares_committed(changes: Seq<Change>, frontier: u64) -> bool {
    forall|i: int| 0 <= i < changes.len() ==> !touches_committed(#[trigger] changes[i], frontier)
}

/// Other changes leave what is committed at a height.
proof fn lemma_spares_committed(
    tree: TreeView,
    changes: Seq<Change>,
    frontier: u64,
    height: BlockHeight,
)
    requires
        spares_committed(changes, frontier),
        height.0 <= frontier,
    ensures
        ({
            let after = store::apply_changes(tree, changes).block_at_height;
            &&& after.contains_key(height) == tree.block_at_height.contains_key(height)
            &&& after.contains_key(height) ==> after[height] == tree.block_at_height[height]
        }),
    decreases changes.len(),
{
    reveal(spares_committed);
    if changes.len() > 0 {
        let fewer = changes.drop_last();
        assert(spares_committed(fewer, frontier)) by {
            assert forall|i: int| 0 <= i < fewer.len() implies !touches_committed(
                #[trigger] fewer[i],
                frontier,
            ) by {
                assert(!touches_committed(changes[i], frontier));
            }
        }
        lemma_spares_committed(tree, fewer, frontier, height);
        assert(!touches_committed(changes[changes.len() - 1], frontier));
    }
}

/// Two lists of other changes make one.
proof fn lemma_spares_concat(first: Seq<Change>, second: Seq<Change>, frontier: u64)
    requires
        spares_committed(first, frontier),
        spares_committed(second, frontier),
    ensures
        spares_committed(first + second, frontier),
{
    reveal(spares_committed);
    let both = first + second;
    assert forall|i: int| 0 <= i < both.len() implies !touches_committed(
        #[trigger] both[i],
        frontier,
    ) by {
        if i < first.len() {
            assert(both[i] == first[i]);
        } else {
            assert(both[i] == second[i - first.len()]);
        }
    }
}

proof fn lemma_app_state_spares(updates: AppStateUpdates, frontier: u64)
    ensures
        spares_committed(write_batch::app_state_changes(updates), frontier),
{
    reveal(spares_committed);
    lemma_spares_concat(
        write_batch::insert_changes(updates.inserts@),
        write_batch::delete_changes(updates.deletes@),
        frontier,
    );
}

proof fn lemma_deletions_spare(tree: TreeView, blocks: Seq<CryptoHash>, frontier: u64)
    ensures
        spares_committed(commit::deletions(tree, blocks), frontier),
    decreases blocks.len(),
{
    reveal(spares_committed);
    if blocks.len() > 0 {
        lemma_deletions_spare(tree, blocks.drop_last(), frontier);
        lemma_spares_concat(
            commit::deletions(tree, blocks.drop_last()),
            commit::deletion(tree, blocks.last()),
            frontier,
        );
    }
}

proof fn lemma_branch_deletions_spare(
    tree: TreeView,
    roots: Seq<CryptoHash>,
    spared: CryptoHash,
    frontier: u64,
)
    ensures
        spares_committed(commit::branch_deletions(tree, roots, spared), frontier),
    decreases roots.len(),
{
    reveal(spares_committed);
    if roots.len() > 0 {
        lemma_branch_deletions_spare(tree, roots.drop_last(), spared, frontier);
        let branch = commit::branch_of(tree, roots.last());
        lemma_deletions_spare(tree, branch, frontier);
        lemma_spares_concat(
            commit::branch_deletions(tree, roots.drop_last(), spared),
            commit::deletions(tree, branch),
            frontier,
        );
    }
}

proof fn lemma_commit_one_spares(
    tree: TreeView,
    target: CryptoHash,
    block: CryptoHash,
    frontier: u64,
)
    requires
        tree.blocks.contains_key(block) ==> tree.blocks[block].height.0 > frontier,
    ensures
        spares_committed(commit::commit_one(tree, target, block).0, frontier),
{
    reveal(spares_committed);
    if tree.blocks.contains_key(block) {
        let indexed = seq![
            Change::Plain(WriteOp::SetBlockAtHeight(tree.blocks[block].height, block)),
        ];
        let deleted = commit::sibling_deletion(tree, block).0;
        let parent = tree.blocks[block].justify.block;
        if tree.children.contains_key(parent) {
            lemma_branch_deletions_spare(tree, tree.children[parent], block, frontier);
        }
        lemma_spares_concat(indexed, deleted, frontier);
        let pending = commit::pending_app_changes(tree, block);
        if tree.pending_app_state.contains_key(block) {
            lemma_app_state_spares(tree.pending_app_state[block], frontier);
        }
        lemma_spares_concat(indexed + deleted, pending, frontier);
        let applied = indexed + deleted + pending;
        assert(spares_committed(applied, frontier));
        match tree::updates_status(tree, block) {
            ValidatorSetUpdatesStatus::Pending(updates) => {
                let changed = commit::validator_changes(tree, target, block, updates);
                assert(spares_committed(changed, frontier));
                lemma_spares_concat(applied, changed, frontier);
            },
            _ => {},
        }
    }
}

proof fn lemma_commit_all_spares(
    tree: TreeView,
    target: CryptoHash,
    order: Seq<CryptoHash>,
    frontier: u64,
)
    requires
        forall|i: int|
            0 <= i < order.len() && tree.blocks.contains_key(#[trigger] order[i])
                ==> tree.blocks[order[i]].height.0 > frontier,
    ensures
        spares_committed(commit::commit_all(tree, target, order).0, frontier),
    decreases order.len(),
{
    reveal(spares_committed);
    if order.len() > 0 {
        let fewer = order.drop_last();
        assert forall|i: int|
            0 <= i < fewer.len() && tree.blocks.contains_key(
                #[trigger] fewer[i],
            ) implies tree.blocks[fewer[i]].height.0 > frontier by {
            assert(fewer[i] == order[i]);
        }
        lemma_commit_all_spares(tree, target, fewer, frontier);
        assert(order.last() == order[order.len() - 1]);
        lemma_commit_one_spares(tree, target, order.last(), frontier);
        lemma_spares_concat(
            commit::commit_all(tree, target, fewer).0,
            commit::commit_one(tree, target, order.last()).0,
            frontier,
        );
    }
}

/// The blocks of a chain lie above the committed frontier, and it starts at its first block.
pub(crate) proof fn lemma_chain_above(tree: TreeView, block: CryptoHash, limit: nat)
    ensures
        ({
            let chain = commit::uncommitted_chain(tree, block, limit);
            &&& forall|i: int| 0 <= i < chain.len() ==> commit::above_frontier(tree, #[trigger] chain[i])
            &&& chain.len() > 0 ==> chain[0] == block
        }),
    decreases limit,
{
    if limit > 0 && commit::above_frontier(tree, block) {
        match commit::parent_in(tree, block) {
            Some(parent) => {
                lemma_chain_above(tree, parent, (limit - 1) as nat);
                let rest = commit::uncommitted_chain(tree, parent, (limit - 1) as nat);
                let chain = seq![block] + rest;
                assert forall|i: int| 0 <= i < chain.len() implies commit::above_frontier(
                    tree,
                    #[trigger] chain[i],
                ) by {
                    if i > 0 {
                        assert(chain[i] == rest[i - 1]);
                    }
                }
            },
            None => {},
        }
    }
}

/// What is committed stays committed: whatever a commit does, the block that is committed at a
/// height up to the committed frontier stays the same.
pub proof fn law_commits_keep_what_is_committed(
    tree: TreeView,
    block: CryptoHash,
    height: BlockHeight,
)
    requires
        tree::committed_height(tree) is Some,
        height.0 <= (tree::committed_height(tree)->0).0,
    ensures
        ({
            let after = store::apply_changes(tree, commit::commit_outcome(tree, block).0).block_at_height;
            &&& after.contains_key(height) == tree.block_at_height.contains_key(height)
            &&& after.contains_key(height) ==> after[height] == tree.block_at_height[height]
        }),
{
    let frontier = (tree::committed_height(tree)->0).0;
    let chain = commit::uncommitted_chain(tree, block, u64::MAX as nat);
    let order = chain.reverse();
    lemma_chain_above(tree, block, u64::MAX as nat);
    assert forall|i: int|
        0 <= i < order.len() && tree.blocks.contains_key(
            #[trigger] order[i],
        ) implies tree.blocks[order[i]].height.0 > frontier by {
        assert(order[i] == chain[chain.len() - 1 - i]);
        assert(commit::above_frontier(tree, chain[chain.len() - 1 - i]));
    }
    lemma_commit_all_spares(tree, block, order, frontier);
    let changes = commit::commit_outcome(tree, block).0;
    assert(spares_committed(changes, frontier)) by {
        reveal(spares_committed);
    }
    lemma_spares_committed(tree, changes, frontier, height);
}

/// A commit that takes in blocks moves the committed frontier to the block that was to be
/// committed.
pub proof fn law_commits_move_the_frontier(tree: TreeView, block: CryptoHash)
    requires
        commit::commit_outcome(tree, block).1 is Ok,
        commit::commit_outcome(tree, block).1->Ok_0.len() > 0,
    ensures
        store::apply_changes(
            tree,
            commit::commit_outcome(tree, block).0,
        ).highest_committed_block == Some(block),
{
    let chain = commit::uncommitted_chain(tree, block, u64::MAX as nat);
    let order = chain.reverse();
    lemma_chain_above(tree, block, u64::MAX as nat);
    assert(order.last() == chain[0]);
    let before = commit::commit_all(tree, block, order.drop_last()).0;
    let last = commit::commit_one(tree, block, block).0;
    assert(last.len() > 0);
    assert(last.last() == Change::Plain(WriteOp::SetHighestCommittedBlock(block)));
    let changes = before + last;
    assert(changes == commit::commit_outcome(tree, block).0);
    assert(changes.last() == last.last());
}

/// A block under one that is listed in depth-first order lies under the root that the stack lies
/// under.
proof fn lemma_listed_is_under(
    children: Map<CryptoHash, Seq<CryptoHash>>,
    root: CryptoHash,
    stack: Seq<CryptoHash>,
    limit: nat,
    block: CryptoHash,
)
    requires
        forall|i: int|
            0 <= i < stack.len() ==> commit::is_under(children, root, #[trigger] stack[i]),
        commit::depth_first(children, stack, limit).contains(block),
    ensures
        commit::is_under(children, root, block),
    decreases limit,
{
    let first = stack.last();
    let listed = commit::depth_first(children, stack, limit);
    let at = choose|at: int| 0 <= at < listed.len() && listed[at] == block;
    assert(stack[stack.len() - 1] == first);
    if at > 0 {
        let more = if children.contains_key(first) {
            children[first]
        } else {
            Seq::empty()
        };
        let rest = if children.contains_key(first) {
            stack.drop_last() + more
        } else {
            stack.drop_last()
        };
        let below = commit::depth_first(children, rest, (limit - 1) as nat);
        assert(listed == seq![first] + below);
        assert(below[at - 1] == block);
        assert forall|i: int| 0 <= i < rest.len() implies commit::is_under(
            children,
            root,
            #[trigger] rest[i],
        ) by {
            if i < stack.len() - 1 {
                assert(rest[i] == stack[i]);
            } else {
                assert(rest[i] == more[i - (stack.len() - 1)]);
                assert(commit::is_listed(children, first, rest[i]));
                let steps = choose|steps: nat| commit::descends(children, root, first, steps);
                assert(commit::descends(children, root, rest[i], steps + 1));
            }
        }
        lemma_listed_is_under(children, root, rest, (limit - 1) as nat, block);
    }
}

/// A depth-first walk that comes to its end lists the whole stack, and with a block its children.
proof fn lemma_walk_is_closed(
    children: Map<CryptoHash, Seq<CryptoHash>>,
    stack: Seq<CryptoHash>,
    limit: nat,
)
    requires
        commit::depth_first(children, stack, limit).len() < limit,
    ensures
        forall|i: int|
            0 <= i < stack.len() ==> commit::depth_first(children, stack, limit).contains(
                #[trigger] stack[i],
            ),
        forall|parent: CryptoHash, child: CryptoHash|
            commit::depth_first(children, stack, limit).contains(parent)
                && #[trigger] commit::is_listed(children, parent, child) ==> commit::depth_first(
                children,
                stack,
                limit,
            ).contains(child),
    decreases limit,
{
    if stack.len() > 0 {
        let first = stack.last();
        let listed = commit::depth_first(children, stack, limit);
        let more = if children.contains_key(first) {
            children[first]
        } else {
            Seq::empty()
        };
        let rest = if children.contains_key(first) {
            stack.drop_last() + more
        } else {
            stack.drop_last()
        };
        let below = commit::depth_first(children, rest, (limit - 1) as nat);
        assert(listed == seq![first] + below);
        lemma_walk_is_closed(children, rest, (limit - 1) as nat);
        assert forall|block: CryptoHash| #[trigger] listed.contains(block) == (block == first
            || below.contains(block)) by {
            if below.contains(block) {
                let at = choose|at: int| 0 <= at < below.len() && below[at] == block;
                assert(listed[at + 1] == block);
            }
            if listed.contains(block) {
                let at = choose|at: int| 0 <= at < listed.len() && listed[at] == block;
                if at > 0 {
                    assert(below[at - 1] == block);
                }
            }
            assert(listed[0] == first);
        }
        assert forall|i: int| 0 <= i < stack.len() implies listed.contains(#[trigger] stack[i]) by {
            if i < stack.len() - 1 {
                assert(rest[i] == stack[i]);
                assert(below.contains(rest[i]));
            }
        }
        assert forall|parent: CryptoHash, child: CryptoHash|
            listed.contains(parent) && #[trigger] commit::is_listed(
                children,
                parent,
                child,
            ) implies listed.contains(child) by {
            if parent == first {
                let k = choose|k: int| 0 <= k < more.len() && more[k] == child;
                assert(rest[stack.len() - 1 + k] == child);
                assert(below.contains(rest[stack.len() - 1 + k]));
            }
        }
    }
}

/// What holds of the root, and is handed on to children, holds of all blocks under the root.
proof fn lemma_descendants_listed(
    children: Map<CryptoHash, Seq<CryptoHash>>,
    root: CryptoHash,
    listed: Seq<CryptoHash>,
    block: CryptoHash,
    steps: nat,
)
    requires
        listed.contains(root),
        forall|parent: CryptoHash, child: CryptoHash|
            listed.contains(parent) && #[trigger] commit::is_listed(children, parent, child)
                ==> listed.contains(child),
        commit::descends(children, root, block, steps),
    ensures
        listed.contains(block),
    decreases steps,
{
    if steps > 0 {
        let parent = choose|parent: CryptoHash|
            commit::descends(children, root, parent, (steps - 1) as nat)
                && #[trigger] commit::is_listed(children, parent, block);
        lemma_descendants_listed(children, root, listed, parent, (steps - 1) as nat);
    }
}

/// A branch lists its root and the blocks under it by the lists of children, and no others. That is
/// so wherever the walk comes to its end, which it does not where a block lies under itself.
pub proof fn law_a_branch_is_what_lies_under_its_root(tree: TreeView, root: CryptoHash)
    requires
        commit::branch_of(tree, root).len() < u64::MAX,
    ensures
        forall|block: CryptoHash| #[trigger]
            commit::branch_of(tree, root).contains(block) <==> commit::is_under(
                tree.children,
                root,
                block,
            ),
{
    let stack = seq![root];
    let limit = u64::MAX as nat;
    let listed = commit::branch_of(tree, root);
    assert(commit::descends(tree.children, root, stack[0], 0));
    lemma_walk_is_closed(tree.children, stack, limit);
    assert(listed.contains(stack[0]));
    assert forall|block: CryptoHash| #[trigger] listed.contains(block) <==> commit::is_under(
        tree.children,
        root,
        block,
    ) by {
        if listed.contains(block) {
            lemma_listed_is_under(tree.children, root, stack, limit, block);
        }
        if commit::is_under(tree.children, root, block) {
            let steps = choose|steps: nat| commit::descends(tree.children, root, block, steps);
            lemma_descendants_listed(tree.children, root, listed, block, steps);
        }
    }
}

} // verus!
