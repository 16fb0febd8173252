//! Pruning: deleting committed blocks that have fallen out of the retention window.

use vstd::prelude::*;

use crate::block_tree::cells::{Cell, BLOCK_TREE_PRUNED_HEIGHT};
use crate::block_tree::errors;
use crate::block_tree::errors::{BlockTreeError, Key};
use crate::block_tree::persisting::single_key;
use crate::block_tree::retention::{block_tree_retention, Retention};
use crate::block_tree::store;
use crate::block_tree::store::TreeView;
use crate::block_tree::tree;
use crate::block_tree::tree::BlockTreeSingleton;
use crate::block_tree::write_batch::{BlockTreeWriteBatch, Change, WriteOp};
use crate::effects::Deed;
use crate::types::data_types::{BlockHeight, DataLen};

verus! {

/// The largest number of heights that one call prunes.
pub const PRUNE_BATCH_MAX: u64 = 64;

/// The lowest height that is still to be pruned.
pub open spec fn prune_start(tree: TreeView) -> int {
    match tree.pruned_height {
        Some(height) => height.0 as int,
        None => 0,
    }
}

/// The height up to which blocks may be pruned: heights from here on are retained.
pub open spec fn prune_horizon(tree: TreeView, retention: u64) -> int {
    match tree::committed_height(tree) {
        Some(height) => height.0 - retention,
        None => 0,
    }
}

/// The height up to which one call prunes.
pub open spec fn prune_end(tree: TreeView, retention: u64) -> int {
    let horizon = prune_horizon(tree, retention);
    if horizon < prune_start(tree) + PRUNE_BATCH_MAX {
        horizon
    } else {
        prune_start(tree) + PRUNE_BATCH_MAX
    }
}

/// The changes that delete the committed block of `height`, if there is one.
pub open spec fn prune_height(tree: TreeView, height: int) -> Seq<Change> {
    let at = BlockHeight(height as u64);
    if tree.block_at_height.contains_key(at) {
        let block = tree.block_at_height[at];
        let data_len = if tree.blocks.contains_key(block) {
            tree::data_len_of(tree.blocks[block])
        } else {
            DataLen(0)
        };
        seq![
            Change::Plain(WriteOp::DeleteBlock(block, data_len)),
            Change::Plain(WriteOp::DeleteChildren(block)),
            Change::Plain(WriteOp::DeletePendingAppStateUpdates(block)),
            Change::Plain(WriteOp::DeleteValidatorSetUpdates(block)),
            Change::Plain(WriteOp::DeleteBlockAtHeight(at)),
        ]
    } else {
        Seq::empty()
    }
}

/// The changes that delete the committed blocks from height `start` up to and without `end`.
pub open spec fn prune_range(tree: TreeView, start: int, end: int) -> Seq<Change>
    decreases end - start,
{
    if end <= start {
        Seq::empty()
    } else {
        prune_range(tree, start, end - 1) + prune_height(tree, end - 1)
    }
}

/// The number of committed blocks from height `start` up to and without `end`.
pub open spec fn indexed_in(tree: TreeView, start: int, end: int) -> nat
    decreases end - start,
{
    if end <= start {
        0
    } else {
        indexed_in(tree, start, end - 1) + (if tree.block_at_height.contains_key(
            BlockHeight((end - 1) as u64),
        ) {
            1nat
        } else {
            0nat
        })
    }
}

/// Whether there is anything to prune.
pub open spec fn prunes(tree: TreeView, retention: u64) -> bool {
    &&& tree::committed_height(tree) is Some
    &&& prune_start(tree) < prune_horizon(tree, retention)
}

/// The deeds of one pruning call.
pub open spec fn prune_deeds_with(tree: TreeView, retention: u64) -> Seq<Deed> {
    if prunes(tree, retention) {
        let end = prune_end(tree, retention);
        seq![
            Deed::Persist(
                prune_range(tree, prune_start(tree), end).push(
                    Change::Plain(WriteOp::SetPrunedHeight(BlockHeight(end as u64))),
                ),
            ),
        ]
    } else {
        Seq::empty()
    }
}

/// The deeds of one pruning call under a retention setting.
pub open spec fn prune_deeds(tree: TreeView, retention: Retention) -> Seq<Deed> {
    match retention.limit {
        Some(limit) => prune_deeds_with(tree, limit),
        None => Seq::empty(),
    }
}

/// The number of blocks that one pruning call deletes.
pub open spec fn pruned_count(tree: TreeView, retention: u64) -> nat {
    if prunes(tree, retention) {
        indexed_in(tree, prune_start(tree), prune_end(tree, retention))
    } else {
        0
    }
}

/// No more blocks are deleted than there are heights in the range.
pub proof fn lemma_indexed_in_bound(tree: TreeView, start: int, end: int)
    ensures
        indexed_in(tree, start, end) <= (if end > start {
            end - start
        } else {
            0
        }),
    decreases end - start,
{
    if end > start {
        lemma_indexed_in_bound(tree, start, end - 1);
    }
}

/// Why a pruning call fails, if it does: the frontier cannot be read, or where pruning left off.
pub open spec fn prune_fault(tree: TreeView, retention: u64) -> Option<BlockTreeError> {
    if store::unread_at(tree, Cell::HighestCommittedBlock) {
        Some(errors::undecodable(Key::HighestCommittedBlock))
    } else if tree::committed_height(tree) is Some && prune_horizon(tree, retention) > 0
        && store::unread_at(tree, Cell::PrunedHeight) {
        Some(errors::undecodable(Key::HighestCommittedBlock))
    } else {
        None
    }
}

impl BlockTreeSingleton {
    /// The lowest committed height that was not pruned; `None` if pruning never ran.
    pub fn block_tree_pruned_height(&self) -> (r: Result<Option<BlockHeight>, BlockTreeError>)
        ensures
            r == tree::readable_or(
                self@,
                Cell::PrunedHeight,
                Key::HighestCommittedBlock,
                self@.pruned_height,
            ),
    {
        match self.store.see_readable(
            single_key(BLOCK_TREE_PRUNED_HEIGHT),
            Key::HighestCommittedBlock,
            Ghost(Cell::PrunedHeight),
        ) {
            Ok(()) => Ok(self.store.pruned_height),
            Err(e) => Err(e),
        }
    }

    /// Prune under the replica's retention setting. Returns the number of blocks deleted.
    pub fn prune_old_committed_blocks(&mut self) -> (r: Result<u64, BlockTreeError>)
        requires
            store::blocks_readable(old(self)@),
        ensures
            match old(self).retention.limit {
                Some(limit) => match prune_fault(old(self)@, limit) {
                    Some(e) => r == Err::<u64, BlockTreeError>(e),
                    None => r == Ok::<u64, BlockTreeError>(pruned_count(old(self)@, limit) as u64),
                },
                None => r == Ok::<u64, BlockTreeError>(0),
            },
            r is Err ==> *final(self) == *old(self),
            r is Ok ==> tree::advanced(
                *old(self),
                *final(self),
                prune_deeds(old(self)@, old(self).retention),
            ),
            final(self).gap_watch == old(self).gap_watch,
    {
        match block_tree_retention(&self.retention) {
            Some(retention) => self.prune_old_committed_blocks_with(retention),
            None => {
                proof {
                    tree::lemma_advanced_refl(*self);
                }
                Ok(0)
            },
        }
    }

    /// Delete the committed blocks more than `retention` below the committed frontier, a bounded
    /// number of heights at a time. Returns the number of blocks deleted.
    pub fn prune_old_committed_blocks_with(&mut self, retention: u64) -> (r: Result<
        u64,
        BlockTreeError,
    >)
        requires
            store::blocks_readable(old(self)@),
        ensures
            match prune_fault(old(self)@, retention) {
                Some(e) => r == Err::<u64, BlockTreeError>(e) && *final(self) == *old(self),
                None => {
                    &&& r == Ok::<u64, BlockTreeError>(pruned_count(old(self)@, retention) as u64)
                    &&& pruned_count(old(self)@, retention) <= PRUNE_BATCH_MAX
                    &&& tree::advanced(
                        *old(self),
                        *final(self),
                        prune_deeds_with(old(self)@, retention),
                    )
                },
            },
            final(self).gap_watch == old(self).gap_watch,
    {
        proof {
            tree::lemma_advanced_refl(*self);
            store::lemma_blocks_readable(self@);
        }
        let highest: u64 = match self.highest_committed_block_height() {
            Ok(Some(height)) => height.0,
            Ok(None) => {
                return Ok(0);
            },
            Err(e) => {
                return Err(e);
            },
        };
        if highest <= retention {
            return Ok(0);
        }
        let horizon: u64 = highest - retention;
        let start: u64 = match self.block_tree_pruned_height() {
            Ok(Some(height)) => height.0,
            Ok(None) => 0,
            Err(e) => {
                return Err(e);
            },
        };
        if start >= horizon {
            return Ok(0);
        }
        let end: u64 = if horizon - start < PRUNE_BATCH_MAX {
            horizon
        } else {
            start + PRUNE_BATCH_MAX
        };
        let mut wb = BlockTreeWriteBatch::new();
        let mut pruned: u64 = 0;
        let mut h: u64 = start;
        while h < end
            invariant
                start <= h <= end,
                *self == *old(self),
                store::blocks_readable(self@),
                wb@ == prune_range(self@, start as int, h as int),
                pruned == indexed_in(self@, start as int, h as int),
                pruned <= h - start,
            decreases end - h,
        {
            let height = BlockHeight(h);
            let ghost before = wb@;
            proof {
                store::lemma_blocks_readable(self@);
            }
            match self.store.block_at_height.get(&height) {
                Some(block) => {
                    let data_len = match self.block_data_len(block) {
                        Ok(Some(data_len)) => data_len,
                        _ => DataLen(0),
                    };
                    wb.delete_block(block, data_len);
                    wb.delete_children(block);
                    wb.delete_pending_app_state_updates(block);
                    wb.delete_block_validator_set_updates(block);
                    wb.delete_block_at_height(height);
                    pruned = pruned + 1;
                },
                None => {},
            }
            assert(wb@ =~= before + prune_height(self@, h as int));
            h = h + 1;
        }
        let _ = wb.set_block_tree_pruned_height(BlockHeight(end));
        self.write(wb);
        Ok(pruned)
    }
}

} // verus!
