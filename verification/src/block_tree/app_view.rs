//! What the application sees of the block tree.

use vstd::prelude::*;

use crate::block_tree::commit;
use crate::block_tree::errors::BlockTreeError;
use crate::block_tree::store;
use crate::block_tree::store::{Store, TreeView};
use crate::block_tree::tree;
use crate::block_tree::tree::BlockTreeSingleton;
use crate::types::data_types::CryptoHash;
use crate::types::update_sets::AppStateUpdates;

verus! {

/// A read-only view of the block tree.
pub struct BlockTreeSnapshot<'a> {
    pub store: &'a Store,
}

/// The application state as it will be once a block is committed: the committed state, and the
/// updates of the uncommitted ancestors that come on top of it, newest first.
pub struct AppBlockTreeView<'a> {
    pub block_tree: &'a BlockTreeSingleton,
    pub pending_ancestors_app_state_updates: Vec<Option<AppStateUpdates>>,
}

/// The pending application state updates of a block.
pub open spec fn pending_updates(tree: TreeView, block: CryptoHash) -> Option<AppStateUpdates> {
    if tree.pending_app_state.contains_key(block) {
        Some(tree.pending_app_state[block])
    } else {
        None
    }
}

/// The pending updates of `block` and its ancestors above the committed frontier, newest first.
/// The walk ends at a block that the tree does not hold, or after `limit` blocks.
pub open spec fn pending_ancestry(tree: TreeView, block: Option<CryptoHash>, limit: nat) -> Seq<
    Option<AppStateUpdates>,
>
    decreases limit,
{
    match block {
        None => Seq::empty(),
        Some(hash) => {
            if limit == 0 || !tree.blocks.contains_key(hash) {
                Seq::empty()
            } else if tree::committed_height(tree) is Some && tree.blocks[hash].height.0 <= (
            tree::committed_height(tree)->0).0 {
                Seq::empty()
            } else {
                seq![pending_updates(tree, hash)] + pending_ancestry(
                    tree,
                    commit::parent_in(tree, hash),
                    (limit - 1) as nat,
                )
            }
        },
    }
}

/// The value behind an optional hash reference.
pub open spec fn hash_option(hash: Option<&CryptoHash>) -> Option<CryptoHash> {
    match hash {
        Some(hash) => Some(*hash),
        None => None,
    }
}

impl BlockTreeSingleton {
    /// A read-only view of the tree as it is.
    pub fn snapshot(&self) -> (r: BlockTreeSnapshot<'_>)
        ensures
            r.store@ == self@,
    {
        BlockTreeSnapshot { store: &self.store }
    }

    /// The application state as it will be right after `parent` is committed.
    pub fn app_view(&self, parent: Option<&CryptoHash>) -> (r: Result<
        AppBlockTreeView<'_>,
        BlockTreeError,
    >)
        requires
            store::structure_readable(self@),
        ensures
            r is Ok,
            r->Ok_0.block_tree == self,
            r->Ok_0.pending_ancestors_app_state_updates@ == pending_ancestry(
                self@,
                hash_option(parent),
                u64::MAX as nat,
            ),
    {
        proof {
            store::lemma_structure_readable(self@);
        }
        let frontier = match self.highest_committed_block_height() {
            Ok(height) => height,
            Err(e) => {
                return Err(e);
            },
        };
        let mut updates: Vec<Option<AppStateUpdates>> = Vec::new();
        let mut current: Option<CryptoHash> = match parent {
            Some(hash) => Some(*hash),
            None => None,
        };
        let mut left: u64 = u64::MAX;
        let ghost whole = pending_ancestry(self@, current, u64::MAX as nat);
        assert(updates@ + whole =~= whole);
        loop
            invariant_except_break
                whole == updates@ + pending_ancestry(self@, current, left as nat),
            invariant
                frontier == tree::committed_height(self@),
            ensures
                whole == updates@,
            decreases left,
        {
            let ghost walked = updates@;
            assert(updates@ + Seq::<Option<AppStateUpdates>>::empty() =~= updates@);
            let hash = match current {
                None => {
                    break;
                },
                Some(hash) => hash,
            };
            if left == 0 {
                break;
            }
            let block = match self.store.blocks.get(&hash) {
                None => {
                    break;
                },
                Some(block) => block,
            };
            match frontier {
                Some(height) => {
                    if block.height.0 <= height.0 {
                        break;
                    }
                },
                None => {},
            }
            let pending = match self.store.pending_app_state.get(&hash) {
                Some(pending) => Some(pending.clone()),
                None => None,
            };
            updates.push(pending);
            current = if block.justify.is_genesis_pc() {
                None
            } else {
                Some(block.justify.block)
            };
            left = left - 1;
            assert(walked + (seq![pending] + pending_ancestry(self@, current, left as nat)) =~=
                updates@ + pending_ancestry(self@, current, left as nat));
        }
        Ok(AppBlockTreeView { block_tree: self, pending_ancestors_app_state_updates: updates })
    }
}

} // verus!
