//! Committing blocks: which blocks a commit takes in, and the changes that it makes.

use vstd::prelude::*;

use crate::block_tree::errors;
use crate::block_tree::errors::{missing, BlockTreeError, Key};
use crate::block_tree::store;
use crate::block_tree::store::TreeView;
use crate::block_tree::tree;
use crate::block_tree::tree::{note_gap_commit_deferral, BlockTreeSingleton};
use crate::block_tree::write_batch;
use crate::block_tree::write_batch::{BlockTreeWriteBatch, Change, WriteOp};
use crate::types::data_types::{ChildrenList, CryptoHash};
use crate::types::validator_set;
use crate::types::validator_set::{ValidatorSetUpdates, ValidatorSetUpdatesStatus};

verus! {

/// The parent of a block that the tree holds, unless the block is a first block.
pub open spec fn parent_in(tree: TreeView, block: CryptoHash) -> Option<CryptoHash> {
    if tree.blocks.contains_key(block) && !tree.blocks[block].justify.is_genesis() {
        Some(tree.blocks[block].justify.block)
    } else {
        None
    }
}

/// Whether `block` lies above the committed frontier. While nothing is committed, every block
/// does.
pub open spec fn above_frontier(tree: TreeView, block: CryptoHash) -> bool {
    match tree::committed_height(tree) {
        None => true,
        Some(height) => tree.blocks.contains_key(block) && tree.blocks[block].height.0 > height.0,
    }
}

/// `block` and its ancestors above the committed frontier, newest first. The walk ends at a first
/// block, at a block that the tree does not hold, or after `limit` blocks.
pub open spec fn uncommitted_chain(tree: TreeView, block: CryptoHash, limit: nat) -> Seq<CryptoHash>
    decreases limit,
{
    if limit == 0 || !above_frontier(tree, block) {
        Seq::empty()
    } else {
        match parent_in(tree, block) {
            Some(parent) => seq![block] + uncommitted_chain(tree, parent, (limit - 1) as nat),
            None => seq![block],
        }
    }
}

/// Whether `child` is listed as a child of `parent`.
pub open spec fn is_listed(
    children: Map<CryptoHash, Seq<CryptoHash>>,
    parent: CryptoHash,
    child: CryptoHash,
) -> bool {
    children.contains_key(parent) && children[parent].contains(child)
}

/// Whether some steps from a block to a child that is listed for it lead from `root` to `block`.
pub open spec fn descends(
    children: Map<CryptoHash, Seq<CryptoHash>>,
    root: CryptoHash,
    block: CryptoHash,
    steps: nat,
) -> bool
    decreases steps,
{
    if steps == 0 {
        block == root
    } else {
        exists|parent: CryptoHash|
            descends(children, root, parent, (steps - 1) as nat) && #[trigger] is_listed(
                children,
                parent,
                block,
            )
    }
}

/// Whether `block` is `root`, or lies under it by the lists of children.
pub open spec fn is_under(
    children: Map<CryptoHash, Seq<CryptoHash>>,
    root: CryptoHash,
    block: CryptoHash,
) -> bool {
    exists|steps: nat| descends(children, root, block, steps)
}

/// Depth-first order of the blocks under the blocks of `stack`: the last block of the stack comes
/// first, and the children of a block are stacked in order.
pub open spec fn depth_first(
    children: Map<CryptoHash, Seq<CryptoHash>>,
    stack: Seq<CryptoHash>,
    limit: nat,
) -> Seq<CryptoHash>
    decreases limit,
{
    if limit == 0 || stack.len() == 0 {
        Seq::empty()
    } else {
        let block = stack.last();
        let rest = if children.contains_key(block) {
            stack.drop_last() + children[block]
        } else {
            stack.drop_last()
        };
        seq![block] + depth_first(children, rest, (limit - 1) as nat)
    }
}

/// `root` and all blocks under it.
pub open spec fn branch_of(tree: TreeView, root: CryptoHash) -> Seq<CryptoHash> {
    depth_first(tree.children, seq![root], u64::MAX as nat)
}

/// The changes that delete everything about one block.
pub open spec fn deletion(tree: TreeView, block: CryptoHash) -> Seq<Change> {
    let common = seq![
        Change::Plain(WriteOp::DeleteChildren(block)),
        Change::Plain(WriteOp::DeletePendingAppStateUpdates(block)),
        Change::Plain(WriteOp::DeleteValidatorSetUpdates(block)),
    ];
    if tree.blocks.contains_key(block) {
        common.push(
            Change::Plain(WriteOp::DeleteBlock(block, tree::data_len_of(tree.blocks[block]))),
        )
    } else {
        common
    }
}

/// The changes that delete everything about `blocks`.
pub open spec fn deletions(tree: TreeView, blocks: Seq<CryptoHash>) -> Seq<Change>
    decreases blocks.len(),
{
    if blocks.len() == 0 {
        Seq::empty()
    } else {
        deletions(tree, blocks.drop_last()) + deletion(tree, blocks.last())
    }
}

/// The changes that delete the branches of all of `roots` but `spared`.
pub open spec fn branch_deletions(
    tree: TreeView,
    roots: Seq<CryptoHash>,
    spared: CryptoHash,
) -> Seq<Change>
    decreases roots.len(),
{
    if roots.len() == 0 {
        Seq::empty()
    } else {
        let before = branch_deletions(tree, roots.drop_last(), spared);
        if roots.last() == spared {
            before
        } else {
            before + deletions(tree, branch_of(tree, roots.last()))
        }
    }
}

/// What becomes of the siblings of `block`: changes, and an error if one comes up.
pub open spec fn sibling_deletion(tree: TreeView, block: CryptoHash) -> (
    Seq<Change>,
    Result<(), BlockTreeError>,
) {
    if !tree.blocks.contains_key(block) {
        (Seq::empty(), Err(errors::not_found(Key::BlockJustify { block })))
    } else {
        let parent = tree.blocks[block].justify.block;
        if !tree.children.contains_key(parent) {
            (Seq::empty(), Err(errors::not_found(Key::BlockChildren { block: parent })))
        } else {
            (
                branch_deletions(tree, tree.children[parent], block).push(
                    Change::Children(parent, seq![block]),
                ),
                Ok(()),
            )
        }
    }
}

/// The changes that apply the pending application state updates of `block`.
pub open spec fn pending_app_changes(tree: TreeView, block: CryptoHash) -> Seq<Change> {
    if tree.pending_app_state.contains_key(block) {
        write_batch::app_state_changes(tree.pending_app_state[block]).push(
            Change::Plain(WriteOp::DeletePendingAppStateUpdates(block)),
        )
    } else {
        Seq::empty()
    }
}

/// The changes that put validator set updates into effect: `block` brings them, and `target` is
/// the block whose commit takes `block` in.
pub open spec fn validator_changes(
    tree: TreeView,
    target: CryptoHash,
    block: CryptoHash,
    updates: ValidatorSetUpdates,
) -> Seq<Change> {
    seq![
        Change::CommittedValidators(validator_set::updated_entries(tree.committed_validators->0, updates)),
        Change::PreviousValidators(tree.committed_validators->0),
        Change::Plain(WriteOp::SetValidatorSetUpdateHeight(tree.blocks[block].height)),
        Change::Plain(WriteOp::SetValidatorSetUpdateDecided(false)),
        Change::Plain(
            WriteOp::SetValidatorSetUpdates(target, ValidatorSetUpdatesStatus::Committed),
        ),
    ]
}

/// What committing one block does: changes, and the block's validator set updates or an error.
pub open spec fn commit_one(tree: TreeView, target: CryptoHash, block: CryptoHash) -> (
    Seq<Change>,
    Result<Option<ValidatorSetUpdates>, BlockTreeError>,
) {
    if !tree.blocks.contains_key(block) {
        (Seq::empty(), Err(BlockTreeError::BlockExpectedButNotFound { block }))
    } else {
        let indexed = seq![
            Change::Plain(WriteOp::SetBlockAtHeight(tree.blocks[block].height, block)),
        ];
        let (deleted, result) = sibling_deletion(tree, block);
        match result {
            Err(e) => (indexed + deleted, Err(e)),
            Ok(_) => {
                let applied = indexed + deleted + pending_app_changes(tree, block);
                let frontier = Change::Plain(WriteOp::SetHighestCommittedBlock(block));
                match tree::updates_status(tree, block) {
                    ValidatorSetUpdatesStatus::Pending(updates) => {
                        if tree.committed_validators is None {
                            (applied, Err(errors::not_found(Key::CommittedValidatorSet)))
                        } else {
                            (
                                (applied + validator_changes(tree, target, block, updates)).push(
                                    frontier,
                                ),
                                Ok(Some(updates)),
                            )
                        }
                    },
                    _ => (applied.push(frontier), Ok(None)),
                }
            },
        }
    }
}

/// A committed block with the validator set updates that it brought.
pub type CommittedBlock = (CryptoHash, Option<ValidatorSetUpdates>);

/// Whether the block at a place in a chain has the next one as its parent.
pub open spec fn leads_down(tree: TreeView, chain: Seq<CryptoHash>, at: int) -> bool {
    parent_in(tree, chain[at]) == Some(chain[at + 1])
}

/// Whether the committed block at a place in a list is justified by the one before it.
pub open spec fn follows_on(tree: TreeView, committed: Seq<CommittedBlock>, at: int) -> bool {
    tree.blocks[committed[at].0].justify.block == committed[at - 1].0
}

/// What committing the blocks of `order`, one after another, does. An error ends the commit.
pub open spec fn commit_all(tree: TreeView, target: CryptoHash, order: Seq<CryptoHash>) -> (
    Seq<Change>,
    Result<Seq<CommittedBlock>, BlockTreeError>,
)
    decreases order.len(),
{
    if order.len() == 0 {
        (Seq::empty(), Ok(Seq::empty()))
    } else {
        let (before, result) = commit_all(tree, target, order.drop_last());
        match result {
            Err(e) => (before, Err(e)),
            Ok(committed) => {
                let (changes, one) = commit_one(tree, target, order.last());
                match one {
                    Err(e) => (before + changes, Err(e)),
                    Ok(updates) => (before + changes, Ok(committed.push((order.last(), updates)))),
                }
            },
        }
    }
}

/// Whether the lowest block of a chain follows directly on the committed frontier.
pub open spec fn chains_to_frontier(tree: TreeView, lowest: CryptoHash) -> bool {
    let justify = tree.blocks[lowest].justify;
    justify.is_genesis() || Some(justify.block) == tree.highest_committed_block
}

/// What a commit of `block` does: nothing while an ancestor is missing, and otherwise the blocks
/// between the committed frontier and `block` are committed, oldest first.
pub open spec fn commit_outcome(tree: TreeView, block: CryptoHash) -> (
    Seq<Change>,
    Result<Seq<CommittedBlock>, BlockTreeError>,
) {
    let chain = uncommitted_chain(tree, block, u64::MAX as nat);
    if chain.len() == 0 {
        (Seq::empty(), Ok(Seq::empty()))
    } else if !tree.blocks.contains_key(chain.last()) {
        (Seq::empty(), Err(errors::not_found(Key::BlockJustify { block: chain.last() })))
    } else if !chains_to_frontier(tree, chain.last()) {
        (Seq::empty(), Ok(Seq::empty()))
    } else {
        commit_all(tree, block, chain.reverse())
    }
}

/// Whether a commit of `block` is put off because an ancestor is missing.
pub open spec fn commit_deferred(tree: TreeView, block: CryptoHash) -> bool {
    let chain = uncommitted_chain(tree, block, u64::MAX as nat);
    &&& chain.len() > 0
    &&& tree.blocks.contains_key(chain.last())
    &&& !chains_to_frontier(tree, chain.last())
}

impl BlockTreeSingleton {
    /// `root` and all blocks under it, in depth-first order.
    pub fn blocks_in_branch(&self, root: CryptoHash) -> (r: Vec<CryptoHash>)
        requires
            store::structure_readable(self@),
        ensures
            r@ == branch_of(self@, root),
    {
        let mut stack: Vec<CryptoHash> = Vec::new();
        stack.push(root);
        let mut branch: Vec<CryptoHash> = Vec::new();
        let mut left: u64 = u64::MAX;
        let ghost whole = branch_of(self@, root);
        assert(stack@ =~= seq![root]);
        assert(branch@ + whole =~= whole);
        while left > 0 && stack.len() > 0
            invariant
                whole == branch@ + depth_first(self@.children, stack@, left as nat),
            decreases left,
        {
            let ghost before = stack@;
            let ghost walked = branch@;
            let block = stack.pop().unwrap();
            match self.store.children.get(&block) {
                Some(children) => {
                    let mut i: usize = 0;
                    let ghost base = stack@;
                    assert(base + children@.take(0) =~= base);
                    while i < children.hashes.len()
                        invariant
                            i <= children@.len(),
                            stack@ == base + children@.take(i as int),
                        decreases children@.len() - i,
                    {
                        stack.push(children.hashes[i]);
                        assert(stack@ =~= base + children@.take(i + 1));
                        i = i + 1;
                    }
                    assert(children@.take(i as int) =~= children@);
                },
                None => {},
            }
            branch.push(block);
            left = left - 1;
            proof {
                assert(depth_first(self@.children, before, (left + 1) as nat) =~= seq![block]
                    + depth_first(self@.children, stack@, left as nat));
                assert(walked + (seq![block] + depth_first(self@.children, stack@, left as nat))
                    =~= branch@ + depth_first(self@.children, stack@, left as nat));
            }
        }
        assert(branch@ + Seq::<CryptoHash>::empty() =~= branch@);
        branch
    }

    /// Delete everything about the blocks of a branch.
    pub fn delete_branch(&self, wb: &mut BlockTreeWriteBatch, root: &CryptoHash)
        requires
            store::structure_readable(self@),
        ensures
            final(wb)@ == old(wb)@ + deletions(self@, branch_of(self@, *root)),
    {
        let branch = self.blocks_in_branch(*root);
        let ghost start = wb@;
        let mut i: usize = 0;
        assert(branch@.take(0) =~= Seq::<CryptoHash>::empty());
        assert(start + deletions(self@, branch@.take(0)) =~= start);
        while i < branch.len()
            invariant
                store::structure_readable(self@),
                i <= branch@.len(),
                wb@ == start + deletions(self@, branch@.take(i as int)),
            decreases branch@.len() - i,
        {
            let ghost before = wb@;
            let block = branch[i];
            wb.delete_children(&block);
            wb.delete_pending_app_state_updates(&block);
            wb.delete_block_validator_set_updates(&block);
            proof {
                store::lemma_structure_readable(self@);
            }
            match self.block_data_len(&block) {
                Ok(Some(data_len)) => {
                    wb.delete_block(&block, data_len);
                },
                _ => {},
            }
            proof {
                assert(wb@ =~= before + deletion(self@, block));
                assert(branch@.take(i + 1).drop_last() =~= branch@.take(i as int));
                assert(start + deletions(self@, branch@.take(i as int)) + deletion(self@, block)
                    =~= start + deletions(self@, branch@.take(i + 1)));
            }
            i = i + 1;
        }
        assert(branch@.take(i as int) =~= branch@);
    }

    /// Delete the siblings of `block` with everything under them, and make `block` its parent's
    /// only child.
    pub fn delete_siblings(&self, wb: &mut BlockTreeWriteBatch, block: &CryptoHash) -> (r: Result<
        (),
        BlockTreeError,
    >)
        requires
            store::structure_readable(self@),
        ensures
            final(wb)@ == old(wb)@ + sibling_deletion(self@, *block).0,
            r == sibling_deletion(self@, *block).1,
    {
        let ghost start = wb@;
        assert(start + Seq::<Change>::empty() =~= start);
        proof {
            store::lemma_structure_readable(self@);
        }
        let justify = match self.block_justify(block) {
            Ok(justify) => justify,
            Err(e) => {
                return Err(e);
            },
        };
        let parent = justify.block;
        let children = match self.children(&parent) {
            Ok(children) => children,
            Err(e) => {
                return Err(e);
            },
        };
        let mut i: usize = 0;
        assert(children@.take(0) =~= Seq::<CryptoHash>::empty());
        while i < children.hashes.len()
            invariant
                store::structure_readable(self@),
                i <= children@.len(),
                wb@ == start + branch_deletions(self@, children@.take(i as int), *block),
            decreases children@.len() - i,
        {
            assert(children@.take(i + 1).drop_last() =~= children@.take(i as int));
            let ghost before = wb@;
            if children.hashes[i] != *block {
                self.delete_branch(wb, &children.hashes[i]);
            }
            assert(wb@ =~= start + branch_deletions(self@, children@.take(i + 1), *block));
            i = i + 1;
        }
        assert(children@.take(i as int) =~= children@);
        let mut only: Vec<CryptoHash> = Vec::new();
        only.push(*block);
        assert(only@ =~= seq![*block]);
        let list = ChildrenList::new(only);
        let _ = wb.set_children(&parent, &list);
        assert(wb@ =~= start + sibling_deletion(self@, *block).0);
        Ok(())
    }

    /// The blocks that a commit of `block` has to take in, newest first.
    fn collect_uncommitted(&self, block: &CryptoHash) -> (r: Vec<CryptoHash>)
        requires
            store::structure_readable(self@),
        ensures
            r@ == uncommitted_chain(self@, *block, u64::MAX as nat),
    {
        let mut chain: Vec<CryptoHash> = Vec::new();
        let mut current = *block;
        let mut left: u64 = u64::MAX;
        let ghost whole = uncommitted_chain(self@, *block, u64::MAX as nat);
        proof {
            store::lemma_structure_readable(self@);
        }
        let frontier = match self.highest_committed_block_height() {
            Ok(height) => height,
            Err(_) => None,
        };
        assert(chain@ + whole =~= whole);
        loop
            invariant_except_break
                whole == chain@ + uncommitted_chain(self@, current, left as nat),
            invariant
                frontier == tree::committed_height(self@),
            ensures
                whole == chain@,
            decreases left,
        {
            if left == 0 {
                assert(chain@ + Seq::<CryptoHash>::empty() =~= chain@);
                break;
            }
            let stored = self.store.blocks.get(&current);
            let above = match frontier {
                None => true,
                Some(height) => match stored {
                    Some(found) => found.height.0 > height.0,
                    None => false,
                },
            };
            if !above {
                assert(chain@ + Seq::<CryptoHash>::empty() =~= chain@);
                break;
            }
            let ghost walked = chain@;
            chain.push(current);
            let next: Option<CryptoHash> = match stored {
                Some(found) => if found.justify.is_genesis_pc() {
                    None
                } else {
                    Some(found.justify.block)
                },
                None => None,
            };
            match next {
                None => {
                    assert(whole =~= chain@);
                    break;
                },
                Some(parent) => {
                    proof {
                        assert(walked + (seq![current] + uncommitted_chain(
                            self@,
                            parent,
                            (left - 1) as nat,
                        )) =~= chain@ + uncommitted_chain(self@, parent, (left - 1) as nat));
                    }
                    current = parent;
                    left = left - 1;
                },
            }
        }
        chain
    }

    /// Commit one block.
    fn commit_block(
        &self,
        wb: &mut BlockTreeWriteBatch,
        target: &CryptoHash,
        block: &CryptoHash,
    ) -> (r: Result<Option<ValidatorSetUpdates>, BlockTreeError>)
        requires
            store::structure_readable(self@),
        ensures
            final(wb)@ == old(wb)@ + commit_one(self@, *target, *block).0,
            r == commit_one(self@, *target, *block).1,
    {
        let ghost start = wb@;
        assert(start + Seq::<Change>::empty() =~= start);
        let height = match self.store.blocks.get(block) {
            Some(found) => found.height,
            None => {
                return Err(BlockTreeError::BlockExpectedButNotFound { block: *block });
            },
        };
        let _ = wb.set_block_at_height(height, block);
        let ghost indexed = seq![Change::Plain(WriteOp::SetBlockAtHeight(height, *block))];
        assert(wb@ =~= start + indexed);
        match self.delete_siblings(wb, block) {
            Ok(_) => {},
            Err(e) => {
                assert(wb@ =~= start + (indexed + sibling_deletion(self@, *block).0));
                return Err(e);
            },
        }
        let ghost deleted = sibling_deletion(self@, *block).0;
        assert(wb@ =~= start + (indexed + deleted));
        match self.store.pending_app_state.get(block) {
            Some(updates) => {
                wb.apply_app_state_updates(updates);
                wb.delete_pending_app_state_updates(block);
            },
            None => {},
        }
        let ghost applied = indexed + deleted + pending_app_changes(self@, *block);
        assert(wb@ =~= start + applied);
        let status = match self.store.validator_set_updates.get(block) {
            Some(status) => status.clone(),
            None => ValidatorSetUpdatesStatus::NoUpdates,
        };
        let brought: Option<ValidatorSetUpdates> = match status {
            ValidatorSetUpdatesStatus::Pending(updates) => {
                proof {
                    store::lemma_structure_readable(self@);
                }
                let previous = match self.committed_validator_set() {
                    Ok(set) => set,
                    Err(e) => {
                        return Err(e);
                    },
                };
                let mut next = previous.clone();
                next.apply_updates(&updates);
                let _ = wb.set_committed_validator_set(&next);
                let _ = wb.set_previous_validator_set(&previous);
                let _ = wb.set_validator_set_update_block_height(height);
                let _ = wb.set_validator_set_update_decided(false);
                let _ = wb.set_committed_validator_set_updates(target);
                assert(wb@ =~= start + (applied + validator_changes(
                    self@,
                    *target,
                    *block,
                    updates,
                )));
                Some(updates)
            },
            _ => None,
        };
        let _ = wb.set_highest_committed_block(block);
        assert(wb@ =~= start + commit_one(self@, *target, *block).0);
        Ok(brought)
    }

    /// Commit `block` and those of its ancestors that are not committed yet, oldest first.
    ///
    /// While an ancestor between the committed frontier and `block` is missing from the tree,
    /// nothing is committed.
    pub fn commit(&mut self, wb: &mut BlockTreeWriteBatch, block: &CryptoHash) -> (r: Result<
        Vec<(CryptoHash, Option<ValidatorSetUpdates>)>,
        BlockTreeError,
    >)
        requires
            store::structure_readable(old(self)@),
        ensures
            final(wb)@ == old(wb)@ + commit_outcome(old(self)@, *block).0,
            match r {
                Ok(committed) => commit_outcome(old(self)@, *block).1 == Ok::<
                    Seq<CommittedBlock>,
                    BlockTreeError,
                >(committed@),
                Err(e) => commit_outcome(old(self)@, *block).1 == Err::<
                    Seq<CommittedBlock>,
                    BlockTreeError,
                >(e),
            },
            final(self).store == old(self).store,
            final(self).journal == old(self).journal,
            final(self).retention == old(self).retention,
            final(self).gap_watch == (if commit_deferred(old(self)@, *block) {
                tree::gap_noted(
                    old(self).gap_watch,
                    uncommitted_chain(old(self)@, *block, u64::MAX as nat).last(),
                )
            } else {
                old(self).gap_watch
            }),
    {
        let ghost start = wb@;
        assert(start + Seq::<Change>::empty() =~= start);
        let chain = self.collect_uncommitted(block);
        let mut committed: Vec<(CryptoHash, Option<ValidatorSetUpdates>)> = Vec::new();
        assert(committed@ =~= Seq::<CommittedBlock>::empty());
        if chain.len() == 0 {
            return Ok(committed);
        }
        let lowest = chain[chain.len() - 1];
        let contiguous = match self.store.blocks.get(&lowest) {
            None => {
                return Err(missing(Key::BlockJustify { block: lowest }));
            },
            Some(found) => found.justify.is_genesis_pc() || self.store.highest_committed_block
                == Some(found.justify.block),
        };
        if !contiguous {
            let _ = note_gap_commit_deferral(&mut self.gap_watch, &lowest);
            return Ok(committed);
        }
        let ghost order = chain@.reverse();
        let mut left: usize = chain.len();
        assert(order.take(0) =~= Seq::<CryptoHash>::empty());
        while left > 0
            invariant
                store::structure_readable(self@),
                left <= chain@.len(),
                order == chain@.reverse(),
                *self == *old(self),
                start == old(wb)@,
                wb@ == start + commit_all(self@, *block, order.take(chain@.len() - left)).0,
                commit_all(self@, *block, order.take(chain@.len() - left)).1 == Ok::<
                    Seq<CommittedBlock>,
                    BlockTreeError,
                >(committed@),
                commit_outcome(self@, *block) == commit_all(self@, *block, order),
                !commit_deferred(self@, *block),
            decreases left,
        {
            let ghost done = chain@.len() - left;
            let next = chain[left - 1];
            assert(order[done] == next);
            assert(order.take(done + 1).drop_last() =~= order.take(done));
            let ghost so_far = commit_all(self@, *block, order.take(done)).0;
            let one = self.commit_block(wb, block, &next);
            assert(wb@ =~= start + (so_far + commit_one(self@, *block, next).0));
            assert(order.take(done + 1).last() == next);
            assert(commit_all(self@, *block, order.take(done + 1)).0 == so_far + commit_one(
                self@,
                *block,
                next,
            ).0);
            match one {
                Err(e) => {
                    proof {
                        lemma_commit_error_stays(self@, *block, order, done + 1);
                    }
                    return Err(e);
                },
                Ok(updates) => {
                    let ghost listed = committed@;
                    committed.push((next, updates));
                    assert(committed@ =~= listed.push((next, updates)));
                },
            }
            left = left - 1;
        }
        assert(order.take(chain@.len() as int) =~= order);
        Ok(committed)
    }
}

/// Once committing a prefix of a list of blocks has failed, committing the whole list fails with
/// the same changes and the same error.
proof fn lemma_commit_error_stays(
    tree: TreeView,
    target: CryptoHash,
    order: Seq<CryptoHash>,
    upto: int,
)
    requires
        0 <= upto <= order.len(),
        commit_all(tree, target, order.take(upto)).1 is Err,
    ensures
        commit_all(tree, target, order) == commit_all(tree, target, order.take(upto)),
    decreases order.len(),
{
    if upto == order.len() {
        assert(order.take(upto) =~= order);
    } else {
        assert(order.drop_last().take(upto) =~= order.take(upto));
        lemma_commit_error_stays(tree, target, order.drop_last(), upto);
    }
}

} // verus!
