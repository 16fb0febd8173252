//! The safety rules: which certificates and blocks may be acted on, what to lock on and what to
//! commit.

use vstd::prelude::*;

use crate::block_tree::errors::BlockTreeError;
use crate::block_tree::store;
use crate::block_tree::store::TreeView;
use crate::block_tree::tree;
use crate::block_tree::tree::BlockTreeSingleton;
use crate::hotstuff::certificates;
use crate::hotstuff::messages::Nudge;
use crate::hotstuff::types::{Phase, PhaseCertificate};
use crate::types::block::Block;
use crate::types::data_types::{ChainID, CryptoHash, ViewNumber};
use crate::types::validator_set::ValidatorSetUpdatesStatus;

verus! {

/// The block that a block's own justification names, if the tree holds the block.
pub open spec fn justified_block(tree: TreeView, block: CryptoHash) -> Option<CryptoHash> {
    if tree.blocks.contains_key(block) {
        Some(tree.blocks[block].justify.block)
    } else {
        None
    }
}

/// Whether `block` is the locked block, or a child or grandchild of it.
pub open spec fn extends_locked_block(tree: TreeView, block: CryptoHash) -> bool {
    let locked = (tree.locked_pc->0).block;
    ||| block == locked
    ||| match justified_block(tree, block) {
        None => false,
        Some(parent) => parent == locked || justified_block(tree, parent) == Some(locked),
    }
}

/// The lock rule: a certificate is newer than the lock, or its block extends the locked block.
/// The tree need not hold the block for this to be decided.
pub open spec fn lock_clause(tree: TreeView, pc: PhaseCertificate) -> bool {
    pc.view.0 > (tree.locked_pc->0).view.0 || extends_locked_block(tree, pc.block)
}

/// Whether a block's phases are those of a block that changes the validator set.
pub open spec fn phase_fits(tree: TreeView, pc: PhaseCertificate) -> bool {
    (pc.phase == Phase::Generic) == (tree::updates_status(tree, pc.block) is NoUpdates)
}

/// Whether a certificate may be acted on: it is for this chain, its block is in the tree, the
/// lock allows it, and its phase fits its block.
pub open spec fn pc_safe(tree: TreeView, pc: PhaseCertificate, chain_id: ChainID) -> bool {
    &&& tree.blocks.contains_key(pc.block) || pc.is_genesis()
    &&& pc.chain_id == chain_id || pc.is_genesis()
    &&& lock_clause(tree, pc)
    &&& phase_fits(tree, pc)
}

/// Whether a block may be inserted and voted for.
pub open spec fn block_safe(tree: TreeView, block: Block, chain_id: ChainID) -> bool {
    pc_safe(tree, block.justify, chain_id) && block.justify.justifies_block()
}

/// Whether a block's hash is its own and its justification is correct.
pub open spec fn block_correct(tree: TreeView, block: Block) -> bool {
    block.hash_matches() && certificates::pc_correct(tree, block.justify)
}

/// Whether a nudge may be voted for in `view`.
pub open spec fn nudge_safe(
    tree: TreeView,
    nudge: Nudge,
    view: ViewNumber,
    chain_id: ChainID,
) -> bool {
    &&& pc_safe(tree, nudge.justify, chain_id)
    &&& nudge.justify.justifies_nudge()
    &&& nudge.chain_id == chain_id
    &&& nudge.justify.phase == Phase::Commit || nudge.justify.view.0 + 1 == view.0
}

/// The certificate to lock on: `justify` itself, unless it is a prepare certificate or no newer
/// than the lock.
pub open spec fn new_lock(tree: TreeView, justify: PhaseCertificate) -> Option<PhaseCertificate> {
    if justify.phase == Phase::Prepare || justify.view.0 <= (tree.locked_pc->0).view.0 {
        None
    } else {
        Some(justify)
    }
}

/// Whether `block` has not been committed yet, as far as its height tells.
pub open spec fn not_committed_yet(tree: TreeView, block: CryptoHash) -> bool {
    match tree::committed_height(tree) {
        None => true,
        Some(height) => tree.blocks[block].height.0 > height.0,
    }
}

/// The block that `justify` commits.
///
/// A commit or decide certificate commits its own block. A generic certificate commits the parent
/// of its block when the two were certified in consecutive views. In each case the block must not
/// be committed yet; it is an error if the tree does not hold it. A certificate of a block that the
/// tree does not hold commits nothing.
pub open spec fn commit_target(tree: TreeView, justify: PhaseCertificate) -> Result<
    Option<CryptoHash>,
    BlockTreeError,
> {
    if !tree.blocks.contains_key(justify.block) {
        Ok(None)
    } else {
        match justify.phase {
            Phase::Prepare => Ok(None),
            Phase::Precommit => Ok(None),
            Phase::Commit => Ok(
                if not_committed_yet(tree, justify.block) {
                    Some(justify.block)
                } else {
                    None
                },
            ),
            Phase::Decide => Ok(
                if not_committed_yet(tree, justify.block) {
                    Some(justify.block)
                } else {
                    None
                },
            ),
            Phase::Generic => {
                let parent_justify = tree.blocks[justify.block].justify;
                if parent_justify.is_genesis() || justify.view.0 != parent_justify.view.0 + 1 {
                    Ok(None)
                } else if !tree.blocks.contains_key(parent_justify.block) {
                    Err(BlockTreeError::BlockExpectedButNotFound { block: parent_justify.block })
                } else if not_committed_yet(tree, parent_justify.block) {
                    Ok(Some(parent_justify.block))
                } else {
                    Ok(None)
                }
            },
        }
    }
}

/// The block to propose again in `view`: that of the highest certificate, if it left off half way
/// through the phases of a change of validators and views have been skipped since.
pub open spec fn block_to_repropose(tree: TreeView, view: ViewNumber) -> Option<CryptoHash> {
    let highest = tree.highest_pc->0;
    if (highest.phase == Phase::Prepare || highest.phase == Phase::Precommit) && highest.view.0 + 1
        != view.0 {
        Some(highest.block)
    } else {
        None
    }
}

/// Whether the lock rule allows `pc`.
pub fn safe_pc_lock_clause(pc: &PhaseCertificate, block_tree: &BlockTreeSingleton) -> (r: Result<
    bool,
    BlockTreeError,
>)
    requires
        tree::initialized(block_tree@),
    ensures
        r == Ok::<bool, BlockTreeError>(lock_clause(block_tree@, *pc)),
{
    let locked = match block_tree.locked_pc() {
        Ok(locked) => locked,
        Err(e) => {
            return Err(e);
        },
    };
    if pc.view.0 > locked.view.0 || pc.block == locked.block {
        return Ok(true);
    }
    match block_tree.store.blocks.get(&pc.block) {
        None => Ok(false),
        Some(block) => {
            if block.justify.block == locked.block {
                return Ok(true);
            }
            match block_tree.store.blocks.get(&block.justify.block) {
                None => Ok(false),
                Some(parent) => Ok(parent.justify.block == locked.block),
            }
        },
    }
}

/// Whether a certificate may be acted on.
pub fn safe_pc(pc: &PhaseCertificate, block_tree: &BlockTreeSingleton, chain_id: ChainID) -> (r:
    Result<bool, BlockTreeError>)
    requires
        tree::initialized(block_tree@),
    ensures
        r == Ok::<bool, BlockTreeError>(pc_safe(block_tree@, *pc, chain_id)),
{
    let genesis = pc.is_genesis_pc();
    if !(block_tree.contains(&pc.block) || genesis) {
        return Ok(false);
    }
    if !(pc.chain_id == chain_id || genesis) {
        return Ok(false);
    }
    let status = match block_tree.validator_set_updates_status(&pc.block) {
        Ok(status) => status,
        Err(e) => {
            return Err(e);
        },
    };
    let updates_nothing = match status {
        ValidatorSetUpdatesStatus::NoUpdates => true,
        _ => false,
    };
    if pc.phase.is_generic() != updates_nothing {
        return Ok(false);
    }
    safe_pc_lock_clause(pc, block_tree)
}

/// Whether a block may be inserted and voted for.
pub fn safe_block(block: &Block, block_tree: &BlockTreeSingleton, chain_id: ChainID) -> (r: Result<
    bool,
    BlockTreeError,
>)
    requires
        tree::initialized(block_tree@),
    ensures
        r == Ok::<bool, BlockTreeError>(block_safe(block_tree@, *block, chain_id)),
{
    if !block.justify.is_block_justify() {
        return Ok(false);
    }
    safe_pc(&block.justify, block_tree, chain_id)
}

/// Whether a nudge may be voted for in `view`.
pub fn safe_nudge(
    nudge: &Nudge,
    view: ViewNumber,
    block_tree: &BlockTreeSingleton,
    chain_id: ChainID,
) -> (r: Result<bool, BlockTreeError>)
    requires
        tree::initialized(block_tree@),
    ensures
        r == Ok::<bool, BlockTreeError>(nudge_safe(block_tree@, *nudge, view, chain_id)),
{
    if !nudge.justify.is_nudge_justify() || nudge.chain_id != chain_id {
        return Ok(false);
    }
    let follows = view.0 > 0 && nudge.justify.view.0 == view.0 - 1;
    if !(nudge.justify.phase.is_commit() || follows) {
        return Ok(false);
    }
    safe_pc(&nudge.justify, block_tree, chain_id)
}

impl Block {
    /// Whether the block's hash is its own and its justification is correct.
    pub fn is_correct(&self, block_tree: &BlockTreeSingleton) -> (r: Result<bool, BlockTreeError>)
        ensures
            r == (if !self.hash_matches() {
                Ok(false)
            } else {
                match certificates::pc_fault(block_tree@, self.justify) {
                    Some(e) => Err(e),
                    None => Ok(block_correct(block_tree@, *self)),
                }
            }),
            tree::initialized(block_tree@) ==> r == Ok::<bool, BlockTreeError>(
                block_correct(block_tree@, *self),
            ),
    {
        if !self.is_hash_correct() {
            return Ok(false);
        }
        self.justify.is_correct(block_tree)
    }
}

/// The certificate to lock on upon seeing `justify`, if any.
pub fn pc_to_lock(justify: &PhaseCertificate, block_tree: &BlockTreeSingleton) -> (r: Result<
    Option<PhaseCertificate>,
    BlockTreeError,
>)
    requires
        tree::initialized(block_tree@),
    ensures
        r == Ok::<Option<PhaseCertificate>, BlockTreeError>(new_lock(block_tree@, *justify)),
{
    let locked = match block_tree.locked_pc() {
        Ok(locked) => locked,
        Err(e) => {
            return Err(e);
        },
    };
    if justify.phase.is_prepare() || justify.view.0 <= locked.view.0 {
        Ok(None)
    } else {
        Ok(Some(justify.clone()))
    }
}

/// The block that `justify` commits, if any.
pub fn block_to_commit(justify: &PhaseCertificate, block_tree: &BlockTreeSingleton) -> (r: Result<
    Option<CryptoHash>,
    BlockTreeError,
>)
    requires
        store::structure_readable(block_tree@),
    ensures
        r == commit_target(block_tree@, *justify),
{
    let block = match block_tree.store.blocks.get(&justify.block) {
        None => {
            return Ok(None);
        },
        Some(block) => block,
    };
    let frontier = match block_tree.highest_committed_block_height() {
        Ok(height) => height,
        Err(e) => {
            return Err(e);
        },
    };
    match justify.phase {
        Phase::Prepare => Ok(None),
        Phase::Precommit => Ok(None),
        Phase::Generic => {
            if block.justify.is_genesis_pc() {
                return Ok(None);
            }
            if justify.view.0 == 0 || justify.view.0 - 1 != block.justify.view.0 {
                return Ok(None);
            }
            match block_tree.store.blocks.get(&block.justify.block) {
                None => Err(
                    BlockTreeError::BlockExpectedButNotFound { block: block.justify.block },
                ),
                Some(parent) => {
                    let uncommitted = match frontier {
                        None => true,
                        Some(height) => parent.height.0 > height.0,
                    };
                    if uncommitted {
                        Ok(Some(block.justify.block))
                    } else {
                        Ok(None)
                    }
                },
            }
        },
        _ => {
            let uncommitted = match frontier {
                None => true,
                Some(height) => block.height.0 > height.0,
            };
            if uncommitted {
                Ok(Some(justify.block))
            } else {
                Ok(None)
            }
        },
    }
}

/// The block to propose again in `view`, if any.
pub fn repropose_block(view: ViewNumber, block_tree: &BlockTreeSingleton) -> (r: Result<
    Option<CryptoHash>,
    BlockTreeError,
>)
    requires
        tree::initialized(block_tree@),
    ensures
        r == Ok::<Option<CryptoHash>, BlockTreeError>(block_to_repropose(block_tree@, view)),
{
    let highest = match block_tree.highest_pc() {
        Ok(highest) => highest,
        Err(e) => {
            return Err(e);
        },
    };
    let follows = view.0 > 0 && highest.view.0 == view.0 - 1;
    if (highest.phase.is_prepare() || highest.phase.is_precommit()) && !follows {
        Ok(Some(highest.block))
    } else {
        Ok(None)
    }
}

/// A lock only ever moves to a newer view.
pub proof fn law_lock_moves_forward(tree: TreeView, justify: PhaseCertificate)
    requires
        tree::initialized(tree),
        new_lock(tree, justify) is Some,
    ensures
        (new_lock(tree, justify)->0).view.0 > (tree.locked_pc->0).view.0,
{
}

/// A replica that acted on the certificate it is locked on may always act on it again: the lock
/// rule allows the locked certificate itself and every newer one.
pub proof fn law_lock_allows_itself_and_newer(tree: TreeView, pc: PhaseCertificate)
    requires
        tree::initialized(tree),
        pc.view.0 > (tree.locked_pc->0).view.0 || pc.block == (tree.locked_pc->0).block,
    ensures
        lock_clause(tree, pc),
{
}

} // verus!
