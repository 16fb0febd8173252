//! What pruning deletes.

use vstd::prelude::*;

use crate::block_tree::laws;
use crate::block_tree::pruning;
use crate::block_tree::pruning::PRUNE_BATCH_MAX;
use crate::block_tree::store;
use crate::block_tree::store::TreeView;
use crate::block_tree::tree;
use crate::block_tree::write_batch::{Change, WriteOp};
use crate::effects::Deed;
use crate::types::data_types::{BlockHeight, CryptoHash};

verus! {

/// Whether nothing is left in a tree of a block.
pub open spec fn is_gone(tree: TreeView, block: CryptoHash) -> bool {
    &&& !tree.blocks.contains_key(block)
    &&& !tree.children.contains_key(block)
    &&& !tree.pending_app_state.contains_key(block)
    &&& !tree.validator_set_updates.contains_key(block)
}

/// What pruning a range makes of one height.
proof fn lemma_pruned(known: TreeView, tree: TreeView, start: int, end: int, height: u64)
    requires
        store::readable(tree),
        0 <= start,
        end <= u64::MAX,
    ensures
        ({
            let after = store::apply_changes(tree, pruning::prune_range(known, start, end));
            let at = BlockHeight(height);
            let block = known.block_at_height[at];
            &&& store::readable(after)
            &&& start <= height < end && known.block_at_height.contains_key(at)
                ==> !after.block_at_height.contains_key(at) && is_gone(after, block)
            &&& !(start <= height < end) ==> after.block_at_height.contains_key(at)
                == tree.block_at_height.contains_key(at) && after.block_at_height[at]
                == tree.block_at_height[at]
            &&& after.highest_committed_block == tree.highest_committed_block
        }),
    decreases end - start,
{
    let changes = pruning::prune_range(known, start, end);
    store::lemma_stays_readable(tree, changes);
    if end > start {
        let before = pruning::prune_range(known, start, end - 1);
        let one = pruning::prune_height(known, end - 1);
        lemma_pruned(known, tree, start, end - 1, height);
        store::lemma_apply_concat(tree, before, one);
        let middle = store::apply_changes(tree, before);
        let last = BlockHeight((end - 1) as u64);
        if known.block_at_height.contains_key(last) {
            laws::lemma_prune_one(known, middle, end - 1);
        } else {
            assert(store::apply_changes(middle, one) == middle);
        }
    }
}

/// Pruning deletes what is old and keeps what is not. With `retention` heights to keep below the
/// committed frontier, every height that is no further below it stays indexed as it is. The heights
/// from where pruning left off, up to there, are pruned, at most a batch at a time: they are no longer
/// indexed, and nothing is left of their blocks. Where pruning left off is noted. If nothing is old
/// enough, nothing changes.
pub proof fn law_pruning_deletes_what_is_old(tree: TreeView, retention: u64, height: u64)
    requires
        store::readable(tree),
        tree::committed_height(tree) is Some,
    ensures
        ({
            let top = (tree::committed_height(tree)->0).0;
            let start: int = match tree.pruned_height {
                Some(pruned) => pruned.0 as int,
                None => 0,
            };
            let at = BlockHeight(height);
            let block = tree.block_at_height[at];
            let after = tree::replay(tree, pruning::prune_deeds_with(tree, retention));
            &&& start + retention >= top ==> after == tree
            &&& height + retention >= top ==> after.block_at_height.contains_key(at)
                == tree.block_at_height.contains_key(at) && after.block_at_height[at]
                == tree.block_at_height[at]
            &&& start <= height < start + PRUNE_BATCH_MAX && height + retention < top
                && tree.block_at_height.contains_key(at) ==> !after.block_at_height.contains_key(at)
                && is_gone(after, block)
            &&& start + retention < top ==> after.pruned_height is Some && (
            after.pruned_height->0).0 == (if top - retention < start + PRUNE_BATCH_MAX {
                top - retention
            } else {
                start + PRUNE_BATCH_MAX
            })
        }),
{
    let start = pruning::prune_start(tree);
    let end = pruning::prune_end(tree, retention);
    if pruning::prunes(tree, retention) {
        lemma_pruned(tree, tree, start, end, height);
        let changes = pruning::prune_range(tree, start, end);
        let last = Change::Plain(WriteOp::SetPrunedHeight(BlockHeight(end as u64)));
        tree::lemma_replay_one(tree, Deed::Persist(changes.push(last)));
        store::lemma_apply_push(tree, changes, last);
    } else {
        tree::lemma_replay_one(tree, Deed::Persist(Seq::empty()));
    }
}

/// The number of blocks that a pruning call reports is that of the heights that it takes out of the
/// index: one more height in the range counts one more exactly if a block is indexed there.
pub proof fn law_pruned_blocks_are_counted(tree: TreeView, start: int, end: int)
    requires
        start <= end,
    ensures
        pruning::indexed_in(tree, start, start) == 0,
        pruning::indexed_in(tree, start, end + 1) == pruning::indexed_in(tree, start, end) + (
        if tree.block_at_height.contains_key(BlockHeight(end as u64)) {
            1nat
        } else {
            0nat
        }),
{
}

} // verus!
