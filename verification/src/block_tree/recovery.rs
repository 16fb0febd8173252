//! Offline surgery on a block tree whose uncommitted part has a hole: a block that others are
//! justified by, and that is lost for good. The uncommitted part is found by walking, deleted, and
//! the tree is anchored at its committed frontier again.

use vstd::prelude::*;

use crate::block_tree::cells::Cell;
use crate::block_tree::errors;
use crate::block_tree::errors::{BlockTreeError, Key};
use crate::block_tree::pruning;
use crate::block_tree::store;
use crate::block_tree::store::TreeView;
use crate::block_tree::tree;
use crate::block_tree::tree::BlockTreeSingleton;
use crate::block_tree::write_batch::{BlockTreeWriteBatch, Change, WriteOp};
use crate::effects::Deed;
use crate::hotstuff::certificates;
use crate::hotstuff::types;
use crate::hotstuff::types::PhaseCertificate;
use crate::types::data_types::{
    contains_hash, BlockHeight, ChildrenList, CryptoHash, DataLen, ViewNumber,
};

verus! {

/// What a walk of a block tree found.
pub struct WedgeReport {
    pub committed_frontier_height: BlockHeight,
    pub committed_frontier_hash: CryptoHash,
    /// How many committed blocks are still indexed.
    pub committed_retained: u64,
    /// The uncommitted blocks.
    pub uncommitted: Vec<CryptoHash>,
    /// The lost blocks that uncommitted ones are justified by.
    pub holes: Vec<CryptoHash>,
    /// The certificates for the committed frontier that uncommitted blocks carry.
    pub pc_candidates: Vec<PhaseCertificate>,
}

/// What surgery did.
#[derive(Clone, Copy, PartialEq, Eq, Debug)]
pub struct SurgeryReport {
    /// How many uncommitted blocks were deleted.
    pub pruned: u64,
    /// How many holes had their lists of children cleared.
    pub holes_cleared: u64,
    pub recovery_pc_view: ViewNumber,
    pub frontier_height: BlockHeight,
    pub frontier_hash: CryptoHash,
}

/// What is wrong with a tree, or with the block that is to be taken out of it.
#[derive(Clone, Copy, PartialEq, Eq, Debug)]
pub enum Flaw {
    /// This many uncommitted blocks are left.
    UncommittedPresent(u64),
    /// This many holes are left.
    HolesPresent(u64),
    /// The highest certificate is not for the committed frontier.
    HighestPcElsewhere,
    /// The committed frontier is not in the tree.
    FrontierMissing,
    /// The lock is not on the committed frontier.
    LockedPcElsewhere,
    /// The block is not an uncommitted one.
    NotUncommitted(CryptoHash),
    /// The block cannot be taken out: it is a child of the frontier, or has no child.
    NotInjectable(CryptoHash),
    /// No block can be taken out.
    NothingInjectable,
}

/// The ways in which inspection and surgery can fail.
#[derive(Clone, Copy, PartialEq, Eq, Debug)]
pub enum RecoveryError {
    /// The block tree could not be read.
    BlockTree(BlockTreeError),
    /// No block is committed.
    NoCommittedBlock,
    /// The certificate is not for the committed frontier.
    PcWrongBlock,
    /// The certificate is of a phase that cannot justify a block.
    PcWrongPhase,
    /// The certificate is not signed by a quorum.
    PcBadSignatures,
    /// The tree is not as it should be.
    VerifyFailed(Flaw),
}

impl From<BlockTreeError> for RecoveryError {
    fn from(value: BlockTreeError) -> (r: Self) {
        RecoveryError::BlockTree(value)
    }
}

impl vstd::std_specs::convert::FromSpecImpl<BlockTreeError> for RecoveryError {
    open spec fn obeys_from_spec() -> bool {
        true
    }

    open spec fn from_spec(value: BlockTreeError) -> Self {
        RecoveryError::BlockTree(value)
    }
}

/// The children that are listed for a block.
pub open spec fn children_of(tree: TreeView, block: CryptoHash) -> Seq<CryptoHash> {
    if tree.children.contains_key(block) {
        tree.children[block]
    } else {
        Seq::empty()
    }
}

/// The height of the committed frontier, where one is stored that can be read.
pub open spec fn frontier_of(tree: TreeView) -> Option<BlockHeight> {
    match tree::frontier_height(tree) {
        Ok(height) => height,
        Err(_) => None,
    }
}

/// Whether `block` is indexed as the committed block of `height`, between the pruned heights and
/// the frontier.
pub open spec fn retained_at(tree: TreeView, height: u64, block: CryptoHash) -> bool {
    &&& frontier_of(tree) is Some
    &&& tree.pruned_height is Some ==> (tree.pruned_height->0).0 <= height
    &&& height <= (frontier_of(tree)->0).0
    &&& tree.block_at_height.contains_key(BlockHeight(height))
    &&& tree.block_at_height[BlockHeight(height)] == block
}

/// The committed blocks that are still indexed.
pub open spec fn retained(tree: TreeView) -> Set<CryptoHash> {
    Set::new(|block: CryptoHash| is_retained(tree, block))
}

/// Whether a block is committed and still indexed.
pub open spec fn is_retained(tree: TreeView, block: CryptoHash) -> bool {
    exists|height: u64| retained_at(tree, height, block)
}

/// Whether the walk ends at a block.
pub open spec fn is_boundary(tree: TreeView, block: CryptoHash) -> bool {
    is_retained(tree, block) || block == types::genesis_hash()
}

/// Whether a committed block has `block` as a child.
pub open spec fn is_child_of_retained(tree: TreeView, block: CryptoHash) -> bool {
    exists|parent: CryptoHash| #[trigger]
        is_retained(tree, parent) && children_of(tree, parent).contains(block)
}

/// Where the walk starts: at the children of committed blocks, the newest block and the
/// speculatively committed ones.
pub open spec fn is_root(tree: TreeView, block: CryptoHash) -> bool {
    ||| is_child_of_retained(tree, block)
    ||| tree.newest_block == Some(block)
    ||| tree.speculative_commits.contains(block)
}

/// How the walk goes on: from a block to its children and its parent, and from a lost block to its
/// children.
pub open spec fn leads_to(tree: TreeView, from: CryptoHash, to: CryptoHash) -> bool {
    &&& !is_boundary(tree, from)
    &&& children_of(tree, from).contains(to) || (tree.blocks.contains_key(from)
        && !tree.blocks[from].justify.is_genesis() && tree.blocks[from].justify.block == to)
}

/// Whether `path` is a walk.
pub open spec fn is_walk(tree: TreeView, path: Seq<CryptoHash>) -> bool {
    &&& path.len() > 0
    &&& is_root(tree, path[0])
    &&& forall|i: int| 0 <= i < path.len() - 1 ==> #[trigger] leads_to(tree, path[i], path[i + 1])
}

/// Whether the walk comes to a block.
pub open spec fn is_discovered(tree: TreeView, block: CryptoHash) -> bool {
    exists|path: Seq<CryptoHash>| #[trigger] is_walk(tree, path) && path.last() == block
}

/// Whether a block is in the tree, is not committed, and is come to by the walk.
pub open spec fn is_uncommitted(tree: TreeView, block: CryptoHash) -> bool {
    is_discovered(tree, block) && !is_boundary(tree, block) && tree.blocks.contains_key(block)
}

/// The uncommitted blocks.
pub open spec fn uncommitted_blocks(tree: TreeView) -> Set<CryptoHash> {
    Set::new(|block: CryptoHash| is_uncommitted(tree, block))
}

/// Whether `block` is justified by `hole`, which is neither committed nor in the tree.
pub open spec fn misses(tree: TreeView, block: CryptoHash, hole: CryptoHash) -> bool {
    &&& !tree.blocks[block].justify.is_genesis()
    &&& tree.blocks[block].justify.block == hole
    &&& !is_retained(tree, hole)
    &&& !tree.blocks.contains_key(hole)
}

/// Whether an uncommitted block is justified by a lost one.
pub open spec fn is_hole(tree: TreeView, hole: CryptoHash) -> bool {
    exists|block: CryptoHash| #[trigger]
        is_uncommitted(tree, block) && misses(tree, block, hole)
}

/// The lost blocks that uncommitted ones are justified by.
pub open spec fn holes_of(tree: TreeView) -> Set<CryptoHash> {
    Set::new(|hole: CryptoHash| is_hole(tree, hole))
}

/// Whether the certificate that a block carries could justify the block after the frontier.
pub open spec fn offers_pc(tree: TreeView, block: CryptoHash) -> bool {
    &&& tree.highest_committed_block == Some(tree.blocks[block].justify.block)
    &&& tree.blocks[block].justify.justifies_block()
}

/// Whether `candidates` are the certificates for the frontier that `blocks` carry, each once.
pub open spec fn are_candidates(
    tree: TreeView,
    blocks: Seq<CryptoHash>,
    candidates: Seq<PhaseCertificate>,
) -> bool {
    &&& forall|i: int|
        0 <= i < candidates.len() ==> carried_by_some(tree, blocks, #[trigger] candidates[i])
    &&& forall|j: int|
        0 <= j < blocks.len() && offers_pc(tree, #[trigger] blocks[j]) ==> has_same(
            candidates,
            tree.blocks[blocks[j]].justify,
        )
    &&& forall|i: int, j: int|
        0 <= i < j < candidates.len() ==> !types::same_certificate(
            #[trigger] candidates[i],
            #[trigger] candidates[j],
        )
}

/// Whether one of `blocks` carries a certificate for the frontier.
pub open spec fn carried_by_some(
    tree: TreeView,
    blocks: Seq<CryptoHash>,
    pc: PhaseCertificate,
) -> bool {
    exists|j: int|
        0 <= j < blocks.len() && offers_pc(tree, #[trigger] blocks[j])
            && tree.blocks[blocks[j]].justify == pc
}

/// Whether one of `candidates` says the same as `pc`.
pub open spec fn has_same(candidates: Seq<PhaseCertificate>, pc: PhaseCertificate) -> bool {
    exists|i: int| 0 <= i < candidates.len() && types::same_certificate(#[trigger] candidates[i], pc)
}

/// Whether a tree has a committed frontier, and a committed block that is still indexed.
pub open spec fn has_frontier(tree: TreeView) -> bool {
    frontier_of(tree) is Some && exists|block: CryptoHash| is_retained(tree, block)
}

/// The lowest of the heights from `from` up to `to` for which it cannot be read which block is
/// committed.
pub open spec fn lowest_unread(tree: TreeView, from: int, to: int) -> Option<BlockHeight>
    decreases to - from + 1,
{
    if from > to {
        None
    } else if store::unread_at(tree, Cell::BlockAtHeight(BlockHeight(from as u64))) {
        Some(BlockHeight(from as u64))
    } else {
        lowest_unread(tree, from + 1, to)
    }
}

/// Why it cannot be found out what a tree holds, if it cannot: a value that is needed cannot be
/// read, or no block is committed. The children of a block are not needed, and a block of which a
/// part cannot be read counts as lost.
pub open spec fn inspection_refused(tree: TreeView) -> Option<RecoveryError> {
    if store::unread_at(tree, Cell::NewestBlock) {
        Some(RecoveryError::BlockTree(errors::undecodable(Key::NewestBlock)))
    } else {
        match tree::frontier_height(tree) {
            Err(e) => Some(RecoveryError::BlockTree(e)),
            Ok(None) => Some(RecoveryError::NoCommittedBlock),
            Ok(Some(to)) => if store::unread_at(tree, Cell::PrunedHeight) {
                Some(RecoveryError::BlockTree(errors::undecodable(Key::HighestCommittedBlock)))
            } else {
                match lowest_unread(tree, pruning::prune_start(tree), to.0 as int) {
                    Some(height) => Some(
                        RecoveryError::BlockTree(errors::undecodable(Key::BlockAtHeight { height })),
                    ),
                    None => if !has_frontier(tree) {
                        Some(RecoveryError::NoCommittedBlock)
                    } else if store::unread_at(tree, Cell::SpeculativeCommits) {
                        Some(RecoveryError::BlockTree(errors::undecodable(Key::HighestTC)))
                    } else {
                        None
                    },
                }
            },
        }
    }
}

/// Where everything can be read, only the want of a committed block stands against finding out.
proof fn lemma_readable_inspection(tree: TreeView)
    requires
        store::readable(tree),
    ensures
        inspection_refused(tree) == (if has_frontier(tree) {
            None
        } else {
            Some(RecoveryError::NoCommittedBlock)
        }),
        frontier_of(tree) == tree::committed_height(tree),
{
    if frontier_of(tree) is Some {
        lemma_none_unread(tree, pruning::prune_start(tree), (frontier_of(tree)->0).0 as int);
    }
}

/// Where everything can be read, every height can.
proof fn lemma_none_unread(tree: TreeView, from: int, to: int)
    requires
        store::readable(tree),
    ensures
        lowest_unread(tree, from, to) is None,
    decreases to - from + 1,
{
    if from <= to {
        lemma_none_unread(tree, from + 1, to);
    }
}

/// Whether `report` says what a tree holds.
pub open spec fn is_report(tree: TreeView, report: WedgeReport) -> bool {
    &&& frontier_of(tree) == Some(report.committed_frontier_height)
    &&& tree.highest_committed_block == Some(report.committed_frontier_hash)
    &&& report.committed_retained == retained(tree).len()
    &&& report.uncommitted@.no_duplicates()
    &&& report.uncommitted@.to_set() == uncommitted_blocks(tree)
    &&& report.holes@.no_duplicates()
    &&& report.holes@.to_set() == holes_of(tree)
    &&& are_candidates(tree, report.uncommitted@, report.pc_candidates@)
}

/// The byte strings of a length.
spec fn strings(len: nat) -> Set<Seq<u8>> {
    Set::new(|s: Seq<u8>| s.len() == len)
}

/// The byte strings of a length whose last byte is below a bound.
spec fn strings_below(len: nat, bound: int) -> Set<Seq<u8>> {
    Set::new(|s: Seq<u8>| s.len() == len && s.last() < bound)
}

/// There are finitely many byte strings of a length.
proof fn lemma_strings_finite(len: nat)
    ensures
        strings(len).finite(),
    decreases len,
{
    if len == 0 {
        assert forall|s: Seq<u8>| strings(0).contains(s) implies s == Seq::<u8>::empty() by {
            assert(s =~= Seq::<u8>::empty());
        }
        assert(strings(0) =~= set![Seq::<u8>::empty()]);
    } else {
        lemma_strings_finite((len - 1) as nat);
        lemma_strings_below_finite(len, 256);
        assert(strings(len) =~= strings_below(len, 256));
    }
}

/// There are finitely many byte strings of a length whose last byte is below a bound.
proof fn lemma_strings_below_finite(len: nat, bound: int)
    requires
        len > 0,
        0 <= bound <= 256,
        strings((len - 1) as nat).finite(),
    ensures
        strings_below(len, bound).finite(),
    decreases bound,
{
    if bound == 0 {
        assert(strings_below(len, 0) =~= Set::<Seq<u8>>::empty());
    } else {
        lemma_strings_below_finite(len, bound - 1);
        let last = (bound - 1) as u8;
        let shorter = strings((len - 1) as nat);
        let extend = |s: Seq<u8>| s.push(last);
        shorter.lemma_map_finite(extend);
        let extended = shorter.map(extend);
        assert forall|s: Seq<u8>| strings_below(len, bound).contains(s) implies strings_below(
            len,
            bound - 1,
        ).union(extended).contains(s) by {
            if s.last() == last {
                assert(shorter.contains(s.drop_last()));
                assert(extend(s.drop_last()) =~= s);
            }
        }
        vstd::set_lib::lemma_set_subset_finite(
            strings_below(len, bound - 1).union(extended),
            strings_below(len, bound),
        );
    }
}

/// There are finitely many hashes.
proof fn lemma_hashes_finite()
    ensures
        Set::<CryptoHash>::full().finite(),
{
    lemma_strings_finite(32);
    let hash_of = |s: Seq<u8>| choose|hash: CryptoHash| hash.bytes@ == s;
    strings(32).lemma_map_finite(hash_of);
    let hashes = strings(32).map(hash_of);
    assert forall|hash: CryptoHash| hashes.contains(hash) by {
        let s = hash.bytes@;
        assert(strings(32).contains(s));
        let other = hash_of(s);
        assert(other.bytes@ == s);
        assert(other.bytes =~= hash.bytes);
    }
    assert(Set::<CryptoHash>::full() =~= hashes);
}

/// A step from where the walk comes to is where it comes to.
proof fn lemma_discovered_step(tree: TreeView, from: CryptoHash, to: CryptoHash)
    requires
        is_discovered(tree, from),
        leads_to(tree, from, to),
    ensures
        is_discovered(tree, to),
{
    let path = choose|path: Seq<CryptoHash>| #[trigger] is_walk(tree, path) && path.last() == from;
    let longer = path.push(to);
    assert forall|i: int| 0 <= i < longer.len() - 1 implies #[trigger] leads_to(
        tree,
        longer[i],
        longer[i + 1],
    ) by {
        if i < path.len() - 1 {
            assert(leads_to(tree, path[i], path[i + 1]));
        }
    }
    assert(is_walk(tree, longer));
}

/// The walk comes to where it starts.
proof fn lemma_discovered_root(tree: TreeView, block: CryptoHash)
    requires
        is_root(tree, block),
    ensures
        is_discovered(tree, block),
{
    assert(is_walk(tree, seq![block]));
}

/// What holds where the walk starts, and is handed on by its steps, holds wherever it comes to.
proof fn lemma_walk_stays(tree: TreeView, path: Seq<CryptoHash>, kept: Seq<CryptoHash>)
    requires
        is_walk(tree, path),
        forall|block: CryptoHash| #[trigger] is_root(tree, block) ==> kept.contains(block),
        forall|from: CryptoHash, to: CryptoHash|
            kept.contains(from) && #[trigger] leads_to(tree, from, to) ==> kept.contains(to),
    ensures
        kept.contains(path.last()),
    decreases path.len(),
{
    if path.len() > 1 {
        let shorter = path.drop_last();
        assert forall|i: int| 0 <= i < shorter.len() - 1 implies #[trigger] leads_to(
            tree,
            shorter[i],
            shorter[i + 1],
        ) by {
            assert(leads_to(tree, path[i], path[i + 1]));
        }
        lemma_walk_stays(tree, shorter, kept);
        assert(leads_to(tree, path[path.len() - 2], path[path.len() - 2 + 1]));
    }
}

/// The children that are listed for a block.
fn listed_children(block_tree: &BlockTreeSingleton, block: &CryptoHash) -> (r: ChildrenList)
    ensures
        r@ == children_of(block_tree@, *block),
{
    match block_tree.store.children.get(block) {
        Some(children) => children.clone(),
        None => ChildrenList::new(Vec::new()),
    }
}

/// Put `list` on top of `stack`.
fn push_all(stack: &mut Vec<CryptoHash>, list: &ChildrenList)
    ensures
        final(stack)@ == old(stack)@ + list@,
{
    let ghost base = stack@;
    let mut i: usize = 0;
    assert(base + list@.take(0) =~= base);
    while i < list.hashes.len()
        invariant
            i <= list@.len(),
            stack@ == base + list@.take(i as int),
        decreases list@.len() - i,
    {
        stack.push(list.hashes[i]);
        assert(stack@ =~= base + list@.take(i + 1));
        i = i + 1;
    }
    assert(list@.take(i as int) =~= list@);
}

/// The committed blocks that are still indexed, each once.
fn retained_blocks(block_tree: &BlockTreeSingleton, from: u64, to: u64) -> (r: Result<
    Vec<CryptoHash>,
    BlockTreeError,
>)
    requires
        frontier_of(block_tree@) == Some(BlockHeight(to)),
        from == pruning::prune_start(block_tree@),
    ensures
        match r {
            Ok(committed) => {
                &&& lowest_unread(block_tree@, from as int, to as int) is None
                &&& committed@.no_duplicates()
                &&& forall|block: CryptoHash|
                    committed@.contains(block) == is_retained(block_tree@, block)
            },
            Err(e) => {
                let unread = lowest_unread(block_tree@, from as int, to as int);
                unread is Some && e == errors::undecodable(
                    Key::BlockAtHeight { height: unread->0 },
                )
            },
        },
{
    let mut committed: Vec<CryptoHash> = Vec::new();
    if from > to {
        return Ok(committed);
    }
    let mut height: u64 = from;
    loop
        invariant_except_break
            lowest_unread(block_tree@, from as int, to as int) == lowest_unread(
                block_tree@,
                height as int,
                to as int,
            ),
        invariant
            from <= height <= to,
            frontier_of(block_tree@) == Some(BlockHeight(to)),
            from == pruning::prune_start(block_tree@),
            committed@.no_duplicates(),
            forall|block: CryptoHash| #[trigger]
                committed@.contains(block) ==> is_retained(block_tree@, block),
            forall|at: u64, block: CryptoHash|
                at < height && #[trigger] retained_at(block_tree@, at, block)
                    ==> committed@.contains(block),
        ensures
            lowest_unread(block_tree@, from as int, to as int) is None,
            forall|at: u64, block: CryptoHash| #[trigger]
                retained_at(block_tree@, at, block) ==> committed@.contains(block),
        decreases to - height,
    {
        let ghost before = committed@;
        let found = match block_tree.block_at_height(BlockHeight(height)) {
            Ok(found) => found,
            Err(e) => {
                return Err(e);
            },
        };
        assert(lowest_unread(block_tree@, height as int, to as int) == lowest_unread(
            block_tree@,
            height + 1,
            to as int,
        ));
        if let Some(hash) = found {
            if !contains_hash(&committed, &hash) {
                committed.push(hash);
                assert(retained_at(block_tree@, height, hash));
                assert(committed@[before.len() as int] == hash);
            }
            assert(committed@.contains(hash));
        }
        assert forall|block: CryptoHash| #[trigger] before.contains(block) implies
            committed@.contains(block) by {
            let i = choose|i: int| 0 <= i < before.len() && before[i] == block;
            assert(committed@[i] == block);
        }
        assert forall|block: CryptoHash| #[trigger] committed@.contains(block) implies is_retained(
            block_tree@,
            block,
        ) by {
            let i = choose|i: int| 0 <= i < committed@.len() && committed@[i] == block;
            if i < before.len() {
                assert(before[i] == block);
                assert(before.contains(block));
            } else {
                assert(retained_at(block_tree@, height, block));
            }
        }
        if height == to {
            break;
        }
        height = height + 1;
    }
    Ok(committed)
}

/// Where the walk starts.
fn roots(
    block_tree: &BlockTreeSingleton,
    committed: &Vec<CryptoHash>,
    newest: Option<CryptoHash>,
    speculative: Vec<CryptoHash>,
) -> (r: Vec<CryptoHash>)
    requires
        newest == block_tree@.newest_block,
        speculative@ == block_tree@.speculative_commits,
        forall|block: CryptoHash|
            committed@.contains(block) == is_retained(block_tree@, block),
    ensures
        forall|block: CryptoHash| r@.contains(block) == is_root(block_tree@, block),
{
    let mut r: Vec<CryptoHash> = Vec::new();
    let mut i: usize = 0;
    while i < committed.len()
        invariant
            i <= committed@.len(),
            forall|block: CryptoHash|
                committed@.contains(block) == is_retained(block_tree@, block),
            forall|block: CryptoHash| #[trigger]
                r@.contains(block) ==> is_child_of_retained(block_tree@, block),
            forall|j: int, block: CryptoHash|
                0 <= j < i && #[trigger] children_of(block_tree@, committed@[j]).contains(block)
                    ==> r@.contains(block),
        decreases committed@.len() - i,
    {
        let ghost before = r@;
        let children = listed_children(block_tree, &committed[i]);
        push_all(&mut r, &children);
        proof {
            let parent = committed@[i as int];
            assert(committed@.contains(parent));
            assert forall|block: CryptoHash| #[trigger] r@.contains(block) implies
                is_child_of_retained(block_tree@, block) by {
                lemma_contains_concat(before, children@, block);
                if children@.contains(block) {
                    assert(is_retained(block_tree@, parent));
                }
            }
            assert forall|j: int, block: CryptoHash|
                0 <= j < i + 1 && #[trigger] children_of(
                    block_tree@,
                    committed@[j],
                ).contains(block) implies r@.contains(block) by {
                lemma_contains_concat(before, children@, block);
            }
        }
        i = i + 1;
    }
    let ghost of_retained = r@;
    assert forall|block: CryptoHash| is_child_of_retained(block_tree@, block) implies
        #[trigger] of_retained.contains(block) by {
        let parent = choose|parent: CryptoHash| #[trigger]
            is_retained(block_tree@, parent) && children_of(block_tree@, parent).contains(block);
        assert(committed@.contains(parent));
        let j = choose|j: int| 0 <= j < committed@.len() && committed@[j] == parent;
        assert(children_of(block_tree@, committed@[j]).contains(block));
    }
    if let Some(newest) = newest {
        r.push(newest);
    }
    let ghost with_newest = r@;
    push_all(&mut r, &ChildrenList::new(speculative));
    proof {
        assert forall|block: CryptoHash| #[trigger] with_newest.contains(block) == (
        of_retained.contains(block) || block_tree@.newest_block == Some(block)) by {
            match block_tree@.newest_block {
                Some(newest) => {
                    lemma_contains_push(of_retained, newest, block);
                },
                None => {},
            }
        }
        assert forall|block: CryptoHash| #[trigger] r@.contains(block) == is_root(
            block_tree@,
            block,
        ) by {
            lemma_contains_concat(with_newest, block_tree@.speculative_commits, block);
        }
    }
    r
}

/// What two lists hold, one behind the other.
proof fn lemma_contains_concat(first: Seq<CryptoHash>, second: Seq<CryptoHash>, block: CryptoHash)
    ensures
        (first + second).contains(block) == (first.contains(block) || second.contains(block)),
{
    let both = first + second;
    if first.contains(block) {
        let i = choose|i: int| 0 <= i < first.len() && first[i] == block;
        assert(both[i] == block);
    }
    if second.contains(block) {
        let i = choose|i: int| 0 <= i < second.len() && second[i] == block;
        assert(both[first.len() + i] == block);
    }
    if both.contains(block) {
        let i = choose|i: int| 0 <= i < both.len() && both[i] == block;
        if i < first.len() {
            assert(first[i] == block);
        } else {
            assert(second[i - first.len()] == block);
        }
    }
}

/// What a list holds with one more block on top.
proof fn lemma_contains_push(list: Seq<CryptoHash>, top: CryptoHash, block: CryptoHash)
    ensures
        list.push(top).contains(block) == (list.contains(block) || block == top),
{
    let one = seq![top];
    assert(list.push(top) =~= list + one);
    lemma_contains_concat(list, one, block);
    assert(one[0] == top);
    if block == top {
        assert(one.contains(block));
    } else {
        assert forall|i: int| 0 <= i < one.len() implies one[i] != block by {}
    }
}

/// The uncommitted blocks, each once.
fn walk(
    block_tree: &BlockTreeSingleton,
    committed: &Vec<CryptoHash>,
    newest: Option<CryptoHash>,
    speculative: Vec<CryptoHash>,
) -> (r: Vec<CryptoHash>)
    requires
        newest == block_tree@.newest_block,
        speculative@ == block_tree@.speculative_commits,
        forall|block: CryptoHash|
            committed@.contains(block) == is_retained(block_tree@, block),
    ensures
        r@.no_duplicates(),
        forall|block: CryptoHash| r@.contains(block) == is_uncommitted(block_tree@, block),
{
    let ghost tree = block_tree@;
    let mut worklist = roots(block_tree, committed, newest, speculative);
    let mut processed: Vec<CryptoHash> = Vec::new();
    let mut uncommitted: Vec<CryptoHash> = Vec::new();
    proof {
        lemma_hashes_finite();
        assert forall|block: CryptoHash| #[trigger] worklist@.contains(block) implies
            is_discovered(tree, block) by {
            lemma_discovered_root(tree, block);
        }
    }
    while worklist.len() > 0
        invariant
            tree == block_tree@,
            forall|block: CryptoHash| committed@.contains(block) == is_retained(tree, block),
            Set::<CryptoHash>::full().finite(),
            uncommitted@.no_duplicates(),
            forall|block: CryptoHash| #[trigger]
                worklist@.contains(block) ==> is_discovered(tree, block),
            forall|block: CryptoHash| #[trigger]
                processed@.contains(block) ==> is_discovered(tree, block),
            forall|block: CryptoHash| #[trigger]
                uncommitted@.contains(block) <==> processed@.contains(block) && !is_boundary(
                    tree,
                    block,
                ) && tree.blocks.contains_key(block),
            forall|block: CryptoHash| #[trigger]
                is_root(tree, block) ==> processed@.contains(block) || worklist@.contains(block),
            forall|from: CryptoHash, to: CryptoHash|
                processed@.contains(from) && #[trigger] leads_to(tree, from, to)
                    ==> processed@.contains(to) || worklist@.contains(to),
        decreases
                Set::<CryptoHash>::full().difference(processed@.to_set()).len(),
                worklist@.len(),
    {
        let ghost work = worklist@;
        let ghost done = processed@;
        let ghost found = uncommitted@;
        let block = worklist[worklist.len() - 1];
        let _ = worklist.pop();
        let ghost rest = worklist@;
        assert(work =~= rest.push(block));
        assert forall|other: CryptoHash| #[trigger] work.contains(other) == (rest.contains(other)
            || other == block) by {
            lemma_contains_push(rest, block, other);
        }
        assert(work.contains(block));
        assert forall|other: CryptoHash| #[trigger] rest.contains(other) implies is_discovered(
            tree,
            other,
        ) by {
            assert(work.contains(other));
        }
        if contains_hash(&processed, &block) {
            continue ;
        }
        processed.push(block);
        assert forall|other: CryptoHash| #[trigger] processed@.contains(other) == (done.contains(
            other,
        ) || other == block) by {
            lemma_contains_push(done, block, other);
        }
        proof {
            let left = Set::<CryptoHash>::full().difference(done.to_set());
            assert(left.contains(block));
            assert(Set::<CryptoHash>::full().difference(processed@.to_set()) =~= left.remove(
                block,
            ));
        }
        let is_genesis = block == (CryptoHash { bytes: [0u8; 32] });
        if !contains_hash(committed, &block) && !is_genesis {
            assert(!is_boundary(tree, block));
            let children = listed_children(block_tree, &block);
            if let Some(held) = block_tree.store.blocks.get(&block) {
                assert(!found.contains(block));
                uncommitted.push(block);
                assert(uncommitted@.no_duplicates()) by {
                    assert forall|i: int| 0 <= i < found.len() implies found[i] != block by {
                        assert(found.contains(found[i]));
                    }
                }
                assert forall|other: CryptoHash| #[trigger] uncommitted@.contains(other) == (
                found.contains(other) || other == block) by {
                    lemma_contains_push(found, block, other);
                }
                if !held.justify.is_genesis_pc() {
                    worklist.push(held.justify.block);
                }
            }
            let ghost with_parent = worklist@;
            push_all(&mut worklist, &children);
            proof {
                assert forall|other: CryptoHash| #[trigger] with_parent.contains(other) implies
                    rest.contains(other) || leads_to(tree, block, other) by {
                    if with_parent.len() > rest.len() {
                        let parent = tree.blocks[block].justify.block;
                        lemma_contains_push(rest, parent, other);
                    }
                }
                assert forall|other: CryptoHash| #[trigger] worklist@.contains(other) implies
                    is_discovered(tree, other) by {
                    lemma_contains_concat(with_parent, children@, other);
                    if rest.contains(other) {
                        assert(work.contains(other));
                    } else {
                        assert(leads_to(tree, block, other));
                        lemma_discovered_step(tree, block, other);
                    }
                }
                assert forall|other: CryptoHash| rest.contains(other) || leads_to(
                    tree,
                    block,
                    other,
                ) implies #[trigger] worklist@.contains(other) by {
                    lemma_contains_concat(with_parent, children@, other);
                    if with_parent.len() > rest.len() {
                        let parent = tree.blocks[block].justify.block;
                        lemma_contains_push(rest, parent, other);
                    }
                }
            }
        } else {
            assert(is_boundary(tree, block));
        }
    }
    assert forall|block: CryptoHash| #[trigger] is_discovered(tree, block) implies
        processed@.contains(block) by {
        let path = choose|path: Seq<CryptoHash>| #[trigger]
            is_walk(tree, path) && path.last() == block;
        lemma_walk_stays(tree, path, processed@);
    }
    uncommitted
}

/// Whether two certificates say the same.
fn is_same_certificate(a: &PhaseCertificate, b: &PhaseCertificate) -> (r: bool)
    ensures
        r == types::same_certificate(*a, *b),
{
    if a.chain_id != b.chain_id || a.view != b.view || a.block != b.block || a.phase != b.phase {
        return false;
    }
    if a.signatures.len() != b.signatures.len() {
        return false;
    }
    let mut i: usize = 0;
    while i < a.signatures.len()
        invariant
            i <= a.signatures@.len(),
            a.signatures@.len() == b.signatures@.len(),
            forall|j: int| 0 <= j < i ==> a.signatures@[j] == #[trigger] b.signatures@[j],
        decreases a.signatures@.len() - i,
    {
        if a.signatures.get(i) != b.signatures.get(i) {
            return false;
        }
        i = i + 1;
    }
    assert(a.signatures@ =~= b.signatures@);
    true
}

/// The lost blocks that some of `blocks` are justified by, each once.
fn find_holes(
    block_tree: &BlockTreeSingleton,
    committed: &Vec<CryptoHash>,
    blocks: &Vec<CryptoHash>,
) -> (r: Vec<CryptoHash>)
    requires
        forall|block: CryptoHash|
            committed@.contains(block) == is_retained(block_tree@, block),
        forall|j: int|
            0 <= j < blocks@.len() ==> block_tree@.blocks.contains_key(#[trigger] blocks@[j]),
    ensures
        r@.no_duplicates(),
        forall|hole: CryptoHash| #[trigger]
            r@.contains(hole) ==> exists|j: int|
                0 <= j < blocks@.len() && misses(block_tree@, #[trigger] blocks@[j], hole),
        forall|j: int, hole: CryptoHash|
            0 <= j < blocks@.len() && #[trigger] misses(block_tree@, blocks@[j], hole)
                ==> r@.contains(hole),
{
    let mut holes: Vec<CryptoHash> = Vec::new();
    let mut i: usize = 0;
    while i < blocks.len()
        invariant
            i <= blocks@.len(),
            forall|block: CryptoHash|
                committed@.contains(block) == is_retained(block_tree@, block),
            forall|j: int|
                0 <= j < blocks@.len() ==> block_tree@.blocks.contains_key(#[trigger] blocks@[j]),
            holes@.no_duplicates(),
            forall|hole: CryptoHash| #[trigger]
                holes@.contains(hole) ==> exists|j: int|
                    0 <= j < blocks@.len() && misses(block_tree@, #[trigger] blocks@[j], hole),
            forall|j: int, hole: CryptoHash|
                0 <= j < i && #[trigger] misses(block_tree@, blocks@[j], hole)
                    ==> holes@.contains(hole),
        decreases blocks@.len() - i,
    {
        let ghost found = holes@;
        let block = blocks[i];
        assert(block_tree@.blocks.contains_key(blocks@[i as int]));
        if let Some(held) = block_tree.store.blocks.get(&block) {
            let parent = held.justify.block;
            if !held.justify.is_genesis_pc() && !contains_hash(committed, &parent)
                && !block_tree.store.blocks.contains_key(&parent) && !contains_hash(
                &holes,
                &parent,
            ) {
                holes.push(parent);
                assert(misses(block_tree@, blocks@[i as int], parent));
                assert(holes@.no_duplicates()) by {
                    assert forall|k: int| 0 <= k < found.len() implies found[k] != parent by {
                        assert(found.contains(found[k]));
                    }
                }
                assert forall|hole: CryptoHash| #[trigger] holes@.contains(hole) == (found.contains(
                    hole,
                ) || hole == parent) by {
                    lemma_contains_push(found, parent, hole);
                }
            }
        }
        i = i + 1;
    }
    holes
}

/// The certificates for the frontier that some of `blocks` carry, each once.
fn find_candidates(
    block_tree: &BlockTreeSingleton,
    frontier: &CryptoHash,
    blocks: &Vec<CryptoHash>,
) -> (r: Vec<PhaseCertificate>)
    requires
        block_tree@.highest_committed_block == Some(*frontier),
        forall|j: int|
            0 <= j < blocks@.len() ==> block_tree@.blocks.contains_key(#[trigger] blocks@[j]),
    ensures
        are_candidates(block_tree@, blocks@, r@),
{
    let ghost tree = block_tree@;
    let mut candidates: Vec<PhaseCertificate> = Vec::new();
    let mut i: usize = 0;
    while i < blocks.len()
        invariant
            i <= blocks@.len(),
            tree == block_tree@,
            tree.highest_committed_block == Some(*frontier),
            forall|j: int|
                0 <= j < blocks@.len() ==> tree.blocks.contains_key(#[trigger] blocks@[j]),
            forall|k: int|
                0 <= k < candidates@.len() ==> carried_by_some(
                    tree,
                    blocks@,
                    #[trigger] candidates@[k],
                ),
            forall|j: int|
                0 <= j < i && offers_pc(tree, #[trigger] blocks@[j]) ==> has_same(
                    candidates@,
                    tree.blocks[blocks@[j]].justify,
                ),
            forall|k: int, l: int|
                0 <= k < l < candidates@.len() ==> !types::same_certificate(
                    #[trigger] candidates@[k],
                    #[trigger] candidates@[l],
                ),
        decreases blocks@.len() - i,
    {
        let ghost found = candidates@;
        let block = blocks[i];
        assert(tree.blocks.contains_key(blocks@[i as int]));
        if let Some(held) = block_tree.store.blocks.get(&block) {
            let justify = held.justify.clone();
            if justify.block == *frontier && justify.is_block_justify() {
                assert(offers_pc(tree, blocks@[i as int]));
                let mut is_known = false;
                let mut k: usize = 0;
                while k < candidates.len()
                    invariant
                        k <= candidates@.len(),
                        candidates@ == found,
                        is_known ==> has_same(found, justify),
                        !is_known ==> forall|l: int|
                            0 <= l < k ==> !types::same_certificate(#[trigger] found[l], justify),
                    decreases candidates@.len() - k,
                {
                    if is_same_certificate(&candidates[k], &justify) {
                        assert(types::same_certificate(found[k as int], justify));
                        is_known = true;
                    }
                    k = k + 1;
                }
                if !is_known {
                    let ghost added = justify;
                    candidates.push(justify);
                    assert(carried_by_some(tree, blocks@, added));
                    assert(types::same_certificate(candidates@[found.len() as int], added));
                    assert forall|j: int| 0 <= j < i && offers_pc(tree, #[trigger] blocks@[j])
                        implies has_same(candidates@, tree.blocks[blocks@[j]].justify) by {
                        let pc = tree.blocks[blocks@[j]].justify;
                        assert(has_same(found, pc));
                        let l = choose|l: int|
                            0 <= l < found.len() && types::same_certificate(#[trigger] found[l], pc);
                        assert(types::same_certificate(candidates@[l], pc));
                    }
                }
                assert(has_same(candidates@, tree.blocks[blocks@[i as int]].justify));
            }
        }
        i = i + 1;
    }
    candidates
}

/// Find out what a tree holds.
pub fn inspect(block_tree: &BlockTreeSingleton) -> (r: Result<WedgeReport, RecoveryError>)
    ensures
        match r {
            Ok(report) => inspection_refused(block_tree@) is None && is_report(block_tree@, report),
            Err(e) => inspection_refused(block_tree@) == Some(e),
        },
{
    let ghost tree = block_tree@;
    let newest = match block_tree.newest_block() {
        Ok(newest) => newest,
        Err(e) => {
            return Err(RecoveryError::from(e));
        },
    };
    let frontier = match block_tree.highest_committed_block() {
        Ok(frontier) => frontier,
        Err(e) => {
            return Err(RecoveryError::from(e));
        },
    };
    let committed_frontier_hash = match frontier {
        Some(hash) => hash,
        None => {
            return Err(RecoveryError::NoCommittedBlock);
        },
    };
    let height = match block_tree.highest_committed_block_height() {
        Ok(height) => height,
        Err(e) => {
            return Err(RecoveryError::from(e));
        },
    };
    let committed_frontier_height = match height {
        Some(height) => height,
        None => {
            return Err(RecoveryError::NoCommittedBlock);
        },
    };
    let pruned = match block_tree.block_tree_pruned_height() {
        Ok(pruned) => pruned,
        Err(e) => {
            return Err(RecoveryError::from(e));
        },
    };
    let from: u64 = match pruned {
        Some(height) => height.0,
        None => 0,
    };
    let committed = match retained_blocks(block_tree, from, committed_frontier_height.0) {
        Ok(committed) => committed,
        Err(e) => {
            return Err(RecoveryError::from(e));
        },
    };
    if committed.len() == 0 {
        assert forall|block: CryptoHash| !is_retained(tree, block) by {
            assert(!committed@.contains(block));
        }
        return Err(RecoveryError::NoCommittedBlock);
    }
    assert(committed@.contains(committed@[0]));
    let speculative = match block_tree.speculative_commits() {
        Ok(speculative) => speculative,
        Err(e) => {
            return Err(RecoveryError::from(e));
        },
    };
    let uncommitted = walk(block_tree, &committed, newest, speculative);
    assert forall|j: int| 0 <= j < uncommitted@.len() implies tree.blocks.contains_key(
        #[trigger] uncommitted@[j],
    ) by {
        assert(uncommitted@.contains(uncommitted@[j]));
    }
    let holes = find_holes(block_tree, &committed, &uncommitted);
    let pc_candidates = find_candidates(block_tree, &committed_frontier_hash, &uncommitted);
    proof {
        committed@.unique_seq_to_set();
        assert(committed@.to_set() =~= retained(tree));
        assert(uncommitted@.to_set() =~= uncommitted_blocks(tree));
        assert forall|hole: CryptoHash| holes@.contains(hole) == is_hole(tree, hole) by {
            if holes@.contains(hole) {
                let j = choose|j: int|
                    0 <= j < uncommitted@.len() && misses(tree, #[trigger] uncommitted@[j], hole);
                assert(uncommitted@.contains(uncommitted@[j]));
                assert(is_uncommitted(tree, uncommitted@[j]));
            }
            if is_hole(tree, hole) {
                let block = choose|block: CryptoHash| #[trigger]
                    is_uncommitted(tree, block) && misses(tree, block, hole);
                assert(uncommitted@.contains(block));
                let j = choose|j: int| 0 <= j < uncommitted@.len() && uncommitted@[j] == block;
                assert(misses(tree, uncommitted@[j], hole));
            }
        }
        assert(holes@.to_set() =~= holes_of(tree));
    }
    Ok(
        WedgeReport {
            committed_frontier_height,
            committed_frontier_hash,
            committed_retained: committed.len() as u64,
            uncommitted,
            holes,
            pc_candidates,
        },
    )
}

/// The changes that take one uncommitted block out of a tree.
pub open spec fn removal(tree: TreeView, block: CryptoHash) -> Seq<Change> {
    seq![
        Change::Plain(
            WriteOp::DeleteBlock(
                block,
                if tree.blocks.contains_key(block) {
                    tree::data_len_of(tree.blocks[block])
                } else {
                    DataLen(0)
                },
            ),
        ),
        Change::Plain(WriteOp::DeleteChildren(block)),
        Change::Plain(WriteOp::DeletePendingAppStateUpdates(block)),
        Change::Plain(WriteOp::DeleteValidatorSetUpdates(block)),
    ]
}

/// The changes that take uncommitted blocks out of a tree.
pub open spec fn removals(tree: TreeView, blocks: Seq<CryptoHash>) -> Seq<Change>
    decreases blocks.len(),
{
    if blocks.len() == 0 {
        Seq::empty()
    } else {
        removals(tree, blocks.drop_last()) + removal(tree, blocks.last())
    }
}

/// The changes that forget the children of `blocks`.
pub open spec fn child_clearings(blocks: Seq<CryptoHash>) -> Seq<Change>
    decreases blocks.len(),
{
    if blocks.len() == 0 {
        Seq::empty()
    } else {
        child_clearings(blocks.drop_last()).push(
            Change::Plain(WriteOp::DeleteChildren(blocks.last())),
        )
    }
}

/// The changes that anchor a tree at a frontier.
pub open spec fn anchoring(frontier: CryptoHash, pc: PhaseCertificate) -> Seq<Change> {
    seq![
        Change::Plain(WriteOp::DeleteChildren(frontier)),
        Change::Plain(WriteOp::SetHighestPC(pc)),
        Change::Plain(WriteOp::SetLockedPC(pc)),
        Change::Plain(WriteOp::SetNewestBlock(frontier)),
        Change::Plain(WriteOp::DeleteLocalTip),
        Change::Plain(WriteOp::DeleteHighestTC),
        Change::SpeculativeCommits(Seq::empty()),
    ]
}

/// The changes that surgery makes, in one batch.
pub open spec fn surgery(
    tree: TreeView,
    uncommitted: Seq<CryptoHash>,
    holes: Seq<CryptoHash>,
    pc: PhaseCertificate,
) -> Seq<Change> {
    removals(tree, uncommitted) + child_clearings(holes) + anchoring(
        tree.highest_committed_block->0,
        pc,
    )
}

/// A tree after surgery: without its uncommitted blocks and the holes, anchored at its frontier.
/// What was committed, voted for or entered stays.
pub open spec fn surgered(tree: TreeView, pc: PhaseCertificate) -> TreeView {
    let gone = uncommitted_blocks(tree);
    TreeView {
        blocks: tree.blocks.remove_keys(gone),
        children: tree.children.remove_keys(
            gone.union(holes_of(tree)).insert(tree.highest_committed_block->0),
        ),
        pending_app_state: tree.pending_app_state.remove_keys(gone),
        validator_set_updates: tree.validator_set_updates.remove_keys(gone),
        highest_pc: Some(pc),
        locked_pc: Some(pc),
        newest_block: tree.highest_committed_block,
        local_tip: None,
        highest_tc: None,
        speculative_commits: Seq::empty(),
        ..tree
    }
}

/// Whether `after` is a tree after surgery, apart from what is unread: what surgery deletes or writes
/// over is no longer unread.
pub open spec fn is_surgered(tree: TreeView, pc: PhaseCertificate, after: TreeView) -> bool {
    after == (TreeView { unread: after.unread, ..surgered(tree, pc) })
}

/// Why surgery with a certificate is refused, if it is.
pub open spec fn surgery_refused(tree: TreeView, pc: PhaseCertificate) -> Option<RecoveryError> {
    if inspection_refused(tree) is Some {
        inspection_refused(tree)
    } else if tree.highest_committed_block != Some(pc.block) {
        Some(RecoveryError::PcWrongBlock)
    } else if !pc.justifies_block() {
        Some(RecoveryError::PcWrongPhase)
    } else if certificates::pc_fault(tree, pc) is Some {
        Some(RecoveryError::BlockTree(certificates::pc_fault(tree, pc)->0))
    } else if !certificates::pc_correct(tree, pc) {
        Some(RecoveryError::PcBadSignatures)
    } else {
        None
    }
}

/// What is wrong with a tree, if anything is: surgery leaves a tree without uncommitted blocks and
/// holes, whose certificates are for its frontier.
pub open spec fn fault_of(tree: TreeView) -> Option<RecoveryError> {
    let frontier = tree.highest_committed_block->0;
    let highest = tree::needed(tree, Cell::HighestPC, Key::HighestPC, tree.highest_pc);
    let locked = tree::needed(tree, Cell::LockedPC, Key::LockedPC, tree.locked_pc);
    let validators = tree::needed(
        tree,
        Cell::CommittedValidatorSet,
        Key::CommittedValidatorSet,
        tree.committed_validators,
    );
    if inspection_refused(tree) is Some {
        inspection_refused(tree)
    } else if uncommitted_blocks(tree).len() != 0 {
        Some(
            RecoveryError::VerifyFailed(
                Flaw::UncommittedPresent(uncommitted_blocks(tree).len() as u64),
            ),
        )
    } else if holes_of(tree).len() != 0 {
        Some(RecoveryError::VerifyFailed(Flaw::HolesPresent(holes_of(tree).len() as u64)))
    } else if highest is Err {
        Some(RecoveryError::BlockTree(highest->Err_0))
    } else if (highest->Ok_0).block != frontier {
        Some(RecoveryError::VerifyFailed(Flaw::HighestPcElsewhere))
    } else if !tree.blocks.contains_key(frontier) {
        Some(RecoveryError::VerifyFailed(Flaw::FrontierMissing))
    } else if locked is Err {
        Some(RecoveryError::BlockTree(locked->Err_0))
    } else if (locked->Ok_0).block != frontier {
        Some(RecoveryError::VerifyFailed(Flaw::LockedPcElsewhere))
    } else if validators is Err {
        Some(RecoveryError::BlockTree(validators->Err_0))
    } else {
        None
    }
}

/// What taking out one block makes of a tree.
proof fn lemma_removal(tree: TreeView, known: TreeView, block: CryptoHash)
    ensures
        store::apply_changes(tree, removal(known, block)) == (TreeView {
            blocks: tree.blocks.remove(block),
            children: tree.children.remove(block),
            pending_app_state: tree.pending_app_state.remove(block),
            validator_set_updates: tree.validator_set_updates.remove(block),
            unread: store::apply_changes(tree, removal(known, block)).unread,
            ..tree
        }),
{
    let all = removal(known, block);
    let none = Seq::<Change>::empty();
    store::lemma_apply_push(tree, none, all[0]);
    store::lemma_apply_push(tree, none.push(all[0]), all[1]);
    store::lemma_apply_push(tree, none.push(all[0]).push(all[1]), all[2]);
    store::lemma_apply_push(tree, none.push(all[0]).push(all[1]).push(all[2]), all[3]);
    assert(none.push(all[0]).push(all[1]).push(all[2]).push(all[3]) =~= all);
}

/// What taking out blocks makes of a tree.
proof fn lemma_removals(tree: TreeView, known: TreeView, blocks: Seq<CryptoHash>)
    ensures
        store::apply_changes(tree, removals(known, blocks)) == (TreeView {
            blocks: tree.blocks.remove_keys(blocks.to_set()),
            children: tree.children.remove_keys(blocks.to_set()),
            pending_app_state: tree.pending_app_state.remove_keys(blocks.to_set()),
            validator_set_updates: tree.validator_set_updates.remove_keys(blocks.to_set()),
            unread: store::apply_changes(tree, removals(known, blocks)).unread,
            ..tree
        }),
    decreases blocks.len(),
{
    let gone = blocks.to_set();
    if blocks.len() == 0 {
        assert(gone =~= Set::<CryptoHash>::empty());
    } else {
        let fewer = blocks.drop_last();
        lemma_removals(tree, known, fewer);
        store::lemma_apply_concat(tree, removals(known, fewer), removal(known, blocks.last()));
        lemma_removal(
            store::apply_changes(tree, removals(known, fewer)),
            known,
            blocks.last(),
        );
        assert(gone =~= fewer.to_set().insert(blocks.last())) by {
            assert forall|block: CryptoHash| blocks.contains(block) == (fewer.contains(block)
                || block == blocks.last()) by {
                lemma_contains_push(fewer, blocks.last(), block);
                assert(fewer.push(blocks.last()) =~= blocks);
            }
        }
    }
    let after = store::apply_changes(tree, removals(known, blocks));
    assert(after.blocks =~= tree.blocks.remove_keys(gone));
    assert(after.children =~= tree.children.remove_keys(gone));
    assert(after.pending_app_state =~= tree.pending_app_state.remove_keys(gone));
    assert(after.validator_set_updates =~= tree.validator_set_updates.remove_keys(gone));
}

/// What forgetting the children of blocks makes of a tree.
proof fn lemma_child_clearings(tree: TreeView, blocks: Seq<CryptoHash>)
    ensures
        store::apply_changes(tree, child_clearings(blocks)) == (TreeView {
            children: tree.children.remove_keys(blocks.to_set()),
            unread: store::apply_changes(tree, child_clearings(blocks)).unread,
            ..tree
        }),
    decreases blocks.len(),
{
    let gone = blocks.to_set();
    if blocks.len() == 0 {
        assert(gone =~= Set::<CryptoHash>::empty());
    } else {
        let fewer = blocks.drop_last();
        lemma_child_clearings(tree, fewer);
        store::lemma_apply_push(
            tree,
            child_clearings(fewer),
            Change::Plain(WriteOp::DeleteChildren(blocks.last())),
        );
        assert(gone =~= fewer.to_set().insert(blocks.last())) by {
            assert forall|block: CryptoHash| blocks.contains(block) == (fewer.contains(block)
                || block == blocks.last()) by {
                lemma_contains_push(fewer, blocks.last(), block);
                assert(fewer.push(blocks.last()) =~= blocks);
            }
        }
    }
    let after = store::apply_changes(tree, child_clearings(blocks));
    assert(after.children =~= tree.children.remove_keys(gone));
}

/// What anchoring makes of a tree.
proof fn lemma_anchoring(tree: TreeView, frontier: CryptoHash, pc: PhaseCertificate)
    ensures
        store::apply_changes(tree, anchoring(frontier, pc)) == (TreeView {
            children: tree.children.remove(frontier),
            highest_pc: Some(pc),
            locked_pc: Some(pc),
            newest_block: Some(frontier),
            local_tip: None,
            highest_tc: None,
            speculative_commits: Seq::empty(),
            unread: store::apply_changes(tree, anchoring(frontier, pc)).unread,
            ..tree
        }),
{
    let all = anchoring(frontier, pc);
    let c0 = Seq::<Change>::empty();
    let c1 = c0.push(all[0]);
    let c2 = c1.push(all[1]);
    let c3 = c2.push(all[2]);
    let c4 = c3.push(all[3]);
    let c5 = c4.push(all[4]);
    let c6 = c5.push(all[5]);
    store::lemma_apply_push(tree, c0, all[0]);
    store::lemma_apply_push(tree, c1, all[1]);
    store::lemma_apply_push(tree, c2, all[2]);
    store::lemma_apply_push(tree, c3, all[3]);
    store::lemma_apply_push(tree, c4, all[4]);
    store::lemma_apply_push(tree, c5, all[5]);
    store::lemma_apply_push(tree, c6, all[6]);
    assert(c6.push(all[6]) =~= all);
}

/// What surgery makes of a tree does not depend on the order in which blocks are taken out.
proof fn lemma_surgery(
    tree: TreeView,
    uncommitted: Seq<CryptoHash>,
    holes: Seq<CryptoHash>,
    pc: PhaseCertificate,
)
    requires
        tree.highest_committed_block is Some,
        uncommitted.to_set() == uncommitted_blocks(tree),
        holes.to_set() == holes_of(tree),
    ensures
        is_surgered(
            tree,
            pc,
            store::apply_changes(tree, surgery(tree, uncommitted, holes, pc)),
        ),
        store::readable(tree) ==> store::apply_changes(
            tree,
            surgery(tree, uncommitted, holes, pc),
        ) == surgered(tree, pc),
{
    let frontier = tree.highest_committed_block->0;
    let first = removals(tree, uncommitted);
    let second = child_clearings(holes);
    let third = anchoring(frontier, pc);
    store::lemma_apply_concat(tree, first + second, third);
    store::lemma_apply_concat(tree, first, second);
    lemma_removals(tree, tree, uncommitted);
    lemma_child_clearings(store::apply_changes(tree, first), holes);
    lemma_anchoring(store::apply_changes(tree, first + second), frontier, pc);
    let after = store::apply_changes(tree, surgery(tree, uncommitted, holes, pc));
    assert(after.children =~= surgered(tree, pc).children);
    if store::readable(tree) {
        store::lemma_stays_readable(tree, surgery(tree, uncommitted, holes, pc));
    }
}

/// Anchor a tree at its committed frontier again: delete what is not committed, and install
/// `recovery_pc`.
pub fn apply(block_tree: &mut BlockTreeSingleton, recovery_pc: &PhaseCertificate) -> (r: Result<
    SurgeryReport,
    RecoveryError,
>)
    ensures
        match surgery_refused(old(block_tree)@, *recovery_pc) {
            Some(e) => r == Err::<SurgeryReport, RecoveryError>(e) && *final(block_tree) == *old(
                block_tree,
            ),
            None => {
                &&& is_surgered(old(block_tree)@, *recovery_pc, final(block_tree)@)
                &&& store::readable(old(block_tree)@) ==> final(block_tree)@ == surgered(
                    old(block_tree)@,
                    *recovery_pc,
                )
                &&& exists|uncommitted: Seq<CryptoHash>, holes: Seq<CryptoHash>|
                    uncommitted.no_duplicates() && uncommitted.to_set() == uncommitted_blocks(
                        old(block_tree)@,
                    ) && holes.no_duplicates() && holes.to_set() == holes_of(old(block_tree)@)
                        && tree::advanced(
                        *old(block_tree),
                        *final(block_tree),
                        seq![
                            Deed::Persist(
                                #[trigger] surgery(
                                    old(block_tree)@,
                                    uncommitted,
                                    holes,
                                    *recovery_pc,
                                ),
                            ),
                        ],
                    )
                &&& r == (match fault_of(final(block_tree)@) {
                    Some(e) => Err(e),
                    None => Ok(
                        SurgeryReport {
                            pruned: uncommitted_blocks(old(block_tree)@).len() as u64,
                            holes_cleared: holes_of(old(block_tree)@).len() as u64,
                            recovery_pc_view: recovery_pc.view,
                            frontier_height: frontier_of(old(block_tree)@)->0,
                            frontier_hash: old(block_tree)@.highest_committed_block->0,
                        },
                    ),
                })
            },
        },
{
    let ghost tree = block_tree@;
    let report = match inspect(block_tree) {
        Ok(report) => report,
        Err(e) => {
            return Err(e);
        },
    };
    let frontier_hash = report.committed_frontier_hash;
    if recovery_pc.block != frontier_hash {
        return Err(RecoveryError::PcWrongBlock);
    }
    if !recovery_pc.is_block_justify() {
        return Err(RecoveryError::PcWrongPhase);
    }
    let is_correct = match recovery_pc.is_correct(block_tree) {
        Ok(is_correct) => is_correct,
        Err(e) => {
            return Err(RecoveryError::from(e));
        },
    };
    if !is_correct {
        return Err(RecoveryError::PcBadSignatures);
    }
    let mut wb = BlockTreeWriteBatch::new_unsafe();
    assert forall|j: int| 0 <= j < report.uncommitted@.len() implies tree.blocks.contains_key(
        #[trigger] report.uncommitted@[j],
    ) by {
        assert(report.uncommitted@.to_set().contains(report.uncommitted@[j]));
    }
    stage_removals(block_tree, &mut wb, &report.uncommitted);
    stage_child_clearings(&mut wb, &report.holes);
    wb.delete_children(&frontier_hash);
    let _ = wb.set_highest_pc(recovery_pc);
    let _ = wb.set_locked_pc(recovery_pc);
    let _ = wb.set_newest_block(&frontier_hash);
    wb.delete_local_tip();
    wb.delete_highest_tc();
    let _ = wb.set_speculative_commits(Vec::new());
    proof {
        assert(wb@ =~= surgery(tree, report.uncommitted@, report.holes@, *recovery_pc));
        lemma_surgery(tree, report.uncommitted@, report.holes@, *recovery_pc);
        report.uncommitted@.unique_seq_to_set();
        report.holes@.unique_seq_to_set();
    }
    block_tree.write(wb);
    match verify_after(block_tree) {
        Ok(()) => {},
        Err(e) => {
            return Err(e);
        },
    }
    Ok(
        SurgeryReport {
            pruned: report.uncommitted.len() as u64,
            holes_cleared: report.holes.len() as u64,
            recovery_pc_view: recovery_pc.view,
            frontier_height: report.committed_frontier_height,
            frontier_hash,
        },
    )
}

/// Stage the changes that take blocks out of a tree.
fn stage_removals(
    block_tree: &BlockTreeSingleton,
    wb: &mut BlockTreeWriteBatch,
    blocks: &Vec<CryptoHash>,
)
    requires
        forall|j: int|
            0 <= j < blocks@.len() ==> block_tree@.blocks.contains_key(#[trigger] blocks@[j]),
    ensures
        final(wb)@ == old(wb)@ + removals(block_tree@, blocks@),
{
    let ghost start = wb@;
    let mut i: usize = 0;
    assert(blocks@.take(0) =~= Seq::<CryptoHash>::empty());
    assert(start + removals(block_tree@, blocks@.take(0)) =~= start);
    while i < blocks.len()
        invariant
            forall|j: int|
                0 <= j < blocks@.len() ==> block_tree@.blocks.contains_key(#[trigger] blocks@[j]),
            i <= blocks@.len(),
            wb@ == start + removals(block_tree@, blocks@.take(i as int)),
        decreases blocks@.len() - i,
    {
        let ghost before = wb@;
        let block = blocks[i];
        assert(block_tree@.blocks.contains_key(blocks@[i as int]));
        let data_len = match block_tree.block_data_len(&block) {
            Ok(Some(data_len)) => data_len,
            _ => DataLen(0),
        };
        wb.delete_block(&block, data_len);
        wb.delete_children(&block);
        wb.delete_pending_app_state_updates(&block);
        wb.delete_block_validator_set_updates(&block);
        proof {
            assert(wb@ =~= before + removal(block_tree@, block));
            assert(blocks@.take(i + 1).drop_last() =~= blocks@.take(i as int));
            assert(start + removals(block_tree@, blocks@.take(i as int)) + removal(
                block_tree@,
                block,
            ) =~= start + removals(block_tree@, blocks@.take(i + 1)));
        }
        i = i + 1;
    }
    assert(blocks@.take(i as int) =~= blocks@);
}

/// Stage the changes that forget the children of blocks.
fn stage_child_clearings(wb: &mut BlockTreeWriteBatch, blocks: &Vec<CryptoHash>)
    ensures
        final(wb)@ == old(wb)@ + child_clearings(blocks@),
{
    let ghost start = wb@;
    let mut i: usize = 0;
    assert(blocks@.take(0) =~= Seq::<CryptoHash>::empty());
    assert(start + child_clearings(blocks@.take(0)) =~= start);
    while i < blocks.len()
        invariant
            i <= blocks@.len(),
            wb@ == start + child_clearings(blocks@.take(i as int)),
        decreases blocks@.len() - i,
    {
        wb.delete_children(&blocks[i]);
        assert(blocks@.take(i + 1).drop_last() =~= blocks@.take(i as int));
        assert(wb@ =~= start + child_clearings(blocks@.take(i + 1)));
        i = i + 1;
    }
    assert(blocks@.take(i as int) =~= blocks@);
}

/// See whether a tree is as surgery should leave it.
pub fn verify_after(block_tree: &BlockTreeSingleton) -> (r: Result<(), RecoveryError>)
    ensures
        r == (match fault_of(block_tree@) {
            Some(e) => Err(e),
            None => Ok(()),
        }),
{
    let report = match inspect(block_tree) {
        Ok(report) => report,
        Err(e) => {
            return Err(e);
        },
    };
    proof {
        report.uncommitted@.unique_seq_to_set();
        report.holes@.unique_seq_to_set();
    }
    if report.uncommitted.len() != 0 {
        return Err(
            RecoveryError::VerifyFailed(Flaw::UncommittedPresent(report.uncommitted.len() as u64)),
        );
    }
    if report.holes.len() != 0 {
        return Err(RecoveryError::VerifyFailed(Flaw::HolesPresent(report.holes.len() as u64)));
    }
    let frontier = report.committed_frontier_hash;
    match block_tree.highest_pc() {
        Ok(pc) => {
            if pc.block != frontier {
                return Err(RecoveryError::VerifyFailed(Flaw::HighestPcElsewhere));
            }
        },
        Err(e) => {
            return Err(RecoveryError::from(e));
        },
    }
    if !block_tree.store.blocks.contains_key(&frontier) {
        return Err(RecoveryError::VerifyFailed(Flaw::FrontierMissing));
    }
    match block_tree.locked_pc() {
        Ok(pc) => {
            if pc.block != frontier {
                return Err(RecoveryError::VerifyFailed(Flaw::LockedPcElsewhere));
            }
        },
        Err(e) => {
            return Err(RecoveryError::from(e));
        },
    }
    match block_tree.committed_validator_set() {
        Ok(_) => Ok(()),
        Err(e) => Err(RecoveryError::from(e)),
    }
}

/// Whether a block has a child that is in the tree.
pub open spec fn has_child_in_tree(tree: TreeView, block: CryptoHash) -> bool {
    exists|i: int|
        0 <= i < children_of(tree, block).len() && tree.blocks.contains_key(
            #[trigger] children_of(tree, block)[i],
        )
}

/// Whether taking a block out makes a hole that surgery can mend: it is uncommitted, not a child of
/// the frontier, and has a child.
pub open spec fn is_injectable(tree: TreeView, block: CryptoHash) -> bool {
    &&& is_uncommitted(tree, block)
    &&& tree.highest_committed_block != Some(tree.blocks[block].justify.block)
    &&& has_child_in_tree(tree, block)
}

/// The changes that lose a block: its children stay listed.
pub open spec fn loss(tree: TreeView, block: CryptoHash) -> Seq<Change> {
    seq![
        Change::Plain(WriteOp::DeleteBlock(block, tree::data_len_of(tree.blocks[block]))),
        Change::Plain(WriteOp::DeletePendingAppStateUpdates(block)),
        Change::Plain(WriteOp::DeleteValidatorSetUpdates(block)),
    ]
}

/// Why no block can be taken out, if none can.
pub open spec fn injection_refused(tree: TreeView, target: Option<CryptoHash>) -> Option<
    RecoveryError,
> {
    if inspection_refused(tree) is Some {
        inspection_refused(tree)
    } else {
        match target {
            Some(block) => if !is_uncommitted(tree, block) {
                Some(RecoveryError::VerifyFailed(Flaw::NotUncommitted(block)))
            } else if !is_injectable(tree, block) {
                Some(RecoveryError::VerifyFailed(Flaw::NotInjectable(block)))
            } else {
                None
            },
            None => if exists|block: CryptoHash| is_injectable(tree, block) {
                None
            } else {
                Some(RecoveryError::VerifyFailed(Flaw::NothingInjectable))
            },
        }
    }
}

/// Whether a block that is known to be uncommitted can be taken out.
fn can_inject(block_tree: &BlockTreeSingleton, frontier: &CryptoHash, block: &CryptoHash) -> (r:
    bool)
    requires
        is_uncommitted(block_tree@, *block),
        block_tree@.highest_committed_block == Some(*frontier),
    ensures
        r == is_injectable(block_tree@, *block),
{
    match block_tree.store.blocks.get(block) {
        Some(held) => {
            if held.justify.block == *frontier {
                return false;
            }
        },
        None => {
            return false;
        },
    }
    let children = listed_children(block_tree, block);
    let mut i: usize = 0;
    while i < children.hashes.len()
        invariant
            i <= children@.len(),
            children@ == children_of(block_tree@, *block),
            is_uncommitted(block_tree@, *block),
            block_tree@.highest_committed_block == Some(*frontier),
            *frontier != block_tree@.blocks[*block].justify.block,
            forall|j: int|
                0 <= j < i ==> !block_tree@.blocks.contains_key(#[trigger] children@[j]),
        decreases children@.len() - i,
    {
        if block_tree.store.blocks.contains_key(&children.hashes[i]) {
            assert(block_tree@.blocks.contains_key(children_of(block_tree@, *block)[i as int]));
            return true;
        }
        i = i + 1;
    }
    false
}

/// Lose a block, to try out surgery on a chain that nobody cares about: `target`, or else the
/// lowest one that can be taken out. The block is returned.
pub fn inject_hole_for_testing(
    block_tree: &mut BlockTreeSingleton,
    target: Option<CryptoHash>,
) -> (r: Result<CryptoHash, RecoveryError>)
    ensures
        match injection_refused(old(block_tree)@, target) {
            Some(e) => r == Err::<CryptoHash, RecoveryError>(e) && *final(block_tree) == *old(
                block_tree,
            ),
            None => {
                &&& r is Ok
                &&& is_injectable(old(block_tree)@, r->Ok_0)
                &&& target is Some ==> target == Some(r->Ok_0)
                &&& target is None ==> forall|block: CryptoHash| #[trigger]
                    is_injectable(old(block_tree)@, block) ==> old(
                        block_tree,
                    )@.blocks[r->Ok_0].height.0 <= old(block_tree)@.blocks[block].height.0
                &&& tree::advanced(
                    *old(block_tree),
                    *final(block_tree),
                    seq![Deed::Persist(loss(old(block_tree)@, r->Ok_0))],
                )
                &&& final(block_tree)@ == store::apply_changes(
                    old(block_tree)@,
                    loss(old(block_tree)@, r->Ok_0),
                )
            },
        },
{
    let ghost tree = block_tree@;
    let report = match inspect(block_tree) {
        Ok(report) => report,
        Err(e) => {
            return Err(e);
        },
    };
    let frontier = report.committed_frontier_hash;
    proof {
        assert forall|block: CryptoHash| report.uncommitted@.contains(block) == is_uncommitted(
            tree,
            block,
        ) by {
            assert(report.uncommitted@.to_set().contains(block) == uncommitted_blocks(
                tree,
            ).contains(block));
        }
    }
    let victim = match target {
        Some(block) => {
            if !contains_hash(&report.uncommitted, &block) {
                return Err(RecoveryError::VerifyFailed(Flaw::NotUncommitted(block)));
            }
            if !can_inject(block_tree, &frontier, &block) {
                return Err(RecoveryError::VerifyFailed(Flaw::NotInjectable(block)));
            }
            block
        },
        None => {
            match lowest_injectable(block_tree, &frontier, &report.uncommitted) {
                Some(block) => block,
                None => {
                    return Err(RecoveryError::VerifyFailed(Flaw::NothingInjectable));
                },
            }
        },
    };
    let data_len = match block_tree.block_data_len(&victim) {
        Ok(Some(data_len)) => data_len,
        _ => DataLen(0),
    };
    let mut wb = BlockTreeWriteBatch::new_unsafe();
    wb.delete_block(&victim, data_len);
    wb.delete_pending_app_state_updates(&victim);
    wb.delete_block_validator_set_updates(&victim);
    assert(wb@ =~= loss(tree, victim));
    block_tree.write(wb);
    Ok(victim)
}

/// The lowest of the uncommitted blocks that can be taken out.
fn lowest_injectable(
    block_tree: &BlockTreeSingleton,
    frontier: &CryptoHash,
    uncommitted: &Vec<CryptoHash>,
) -> (r: Option<CryptoHash>)
    requires
        block_tree@.highest_committed_block == Some(*frontier),
        forall|block: CryptoHash|
            uncommitted@.contains(block) == is_uncommitted(block_tree@, block),
    ensures
        match r {
            Some(lowest) => is_injectable(block_tree@, lowest) && forall|block: CryptoHash|
                #[trigger] is_injectable(block_tree@, block)
                    ==> block_tree@.blocks[lowest].height.0 <= block_tree@.blocks[block].height.0,
            None => forall|block: CryptoHash| !#[trigger] is_injectable(block_tree@, block),
        },
{
    let ghost tree = block_tree@;
    let mut best: Option<(u64, CryptoHash)> = None;
    let mut i: usize = 0;
    while i < uncommitted.len()
        invariant
            i <= uncommitted@.len(),
            tree == block_tree@,
            tree.highest_committed_block == Some(*frontier),
            forall|block: CryptoHash| uncommitted@.contains(block) == is_uncommitted(tree, block),
            match best {
                Some((height, lowest)) => is_injectable(tree, lowest) && height
                    == tree.blocks[lowest].height.0,
                None => true,
            },
            forall|j: int|
                0 <= j < i && is_injectable(tree, #[trigger] uncommitted@[j]) ==> best is Some && (
                best->0).0 <= tree.blocks[uncommitted@[j]].height.0,
        decreases uncommitted@.len() - i,
    {
        let block = uncommitted[i];
        assert(uncommitted@.contains(uncommitted@[i as int]));
        if can_inject(block_tree, frontier, &block) {
            let height: u64 = match block_tree.store.blocks.get(&block) {
                Some(held) => held.height.0,
                None => u64::MAX,
            };
            let is_lower = match best {
                Some((lowest, _)) => height < lowest,
                None => true,
            };
            if is_lower {
                best = Some((height, block));
            }
        }
        i = i + 1;
    }
    assert forall|block: CryptoHash| #[trigger] is_injectable(tree, block) implies best is Some && (
    best->0).0 <= tree.blocks[block].height.0 by {
        assert(uncommitted@.contains(block));
        let j = choose|j: int| 0 <= j < uncommitted@.len() && uncommitted@[j] == block;
        assert(is_injectable(tree, uncommitted@[j]));
    }
    match best {
        Some((_, block)) => Some(block),
        None => None,
    }
}

/// After surgery the walk comes to no block that it did not come to before.
proof fn lemma_surgery_discovers_nothing_new(
    tree: TreeView,
    pc: PhaseCertificate,
    path: Seq<CryptoHash>,
)
    requires
        has_frontier(tree),
        is_retained(tree, tree.highest_committed_block->0),
        is_walk(surgered(tree, pc), path),
    ensures
        is_boundary(tree, path.last()) || is_discovered(tree, path.last()),
    decreases path.len(),
{
    let after = surgered(tree, pc);
    lemma_surgery_keeps_retained(tree, pc);
    let last = path.last();
    if path.len() == 1 {
        if is_child_of_retained(after, last) {
            let parent = choose|parent: CryptoHash| #[trigger]
                is_retained(after, parent) && children_of(after, parent).contains(last);
            assert(is_retained(tree, parent));
            assert(children_of(tree, parent).contains(last));
            lemma_discovered_root(tree, last);
        }
    } else {
        let shorter = path.drop_last();
        assert forall|i: int| 0 <= i < shorter.len() - 1 implies #[trigger] leads_to(
            after,
            shorter[i],
            shorter[i + 1],
        ) by {
            assert(leads_to(after, path[i], path[i + 1]));
        }
        lemma_surgery_discovers_nothing_new(tree, pc, shorter);
        let from = path[path.len() - 2];
        assert(leads_to(after, path[path.len() - 2], path[path.len() - 2 + 1]));
        assert(!is_boundary(tree, from));
        assert(leads_to(tree, from, last));
        lemma_discovered_step(tree, from, last);
    }
}

/// Surgery keeps the committed blocks that are indexed.
proof fn lemma_surgery_keeps_retained(tree: TreeView, pc: PhaseCertificate)
    requires
        has_frontier(tree),
        is_retained(tree, tree.highest_committed_block->0),
    ensures
        frontier_of(surgered(tree, pc)) == frontier_of(tree),
        forall|block: CryptoHash|
            #![trigger is_retained(surgered(tree, pc), block)]
            #![trigger is_retained(tree, block)]
            is_retained(surgered(tree, pc), block) == is_retained(tree, block),
        has_frontier(surgered(tree, pc)),
{
    let after = surgered(tree, pc);
    assert(frontier_of(after) == frontier_of(tree));
    assert forall|block: CryptoHash| is_retained(after, block) == is_retained(tree, block) by {
        if is_retained(tree, block) {
            let height = choose|height: u64| retained_at(tree, height, block);
            assert(retained_at(after, height, block));
        }
        if is_retained(after, block) {
            let height = choose|height: u64| retained_at(after, height, block);
            assert(retained_at(tree, height, block));
        }
    }
}

/// Surgery that is not refused leaves a tree without uncommitted blocks and holes, with the
/// certificate as its highest one and its lock: it never fails for what it leaves. A second time
/// it changes nothing.
pub proof fn law_surgery_heals(tree: TreeView, pc: PhaseCertificate)
    requires
        tree::initialized(tree),
        is_retained(tree, tree.highest_committed_block->0),
        surgery_refused(tree, pc) is None,
    ensures
        fault_of(surgered(tree, pc)) is None,
        uncommitted_blocks(surgered(tree, pc)) == Set::<CryptoHash>::empty(),
        surgered(surgered(tree, pc), pc) == surgered(tree, pc),
{
    let after = surgered(tree, pc);
    lemma_readable_inspection(tree);
    lemma_readable_inspection(after);
    lemma_surgery_keeps_retained(tree, pc);
    assert forall|block: CryptoHash| !is_uncommitted(after, block) by {
        if is_uncommitted(after, block) {
            let path = choose|path: Seq<CryptoHash>| #[trigger]
                is_walk(after, path) && path.last() == block;
            lemma_surgery_discovers_nothing_new(tree, pc, path);
            assert(is_uncommitted(tree, block));
            assert(uncommitted_blocks(tree).contains(block));
        }
    }
    assert(uncommitted_blocks(after) =~= Set::<CryptoHash>::empty());
    assert(holes_of(after) =~= Set::<CryptoHash>::empty());
    let twice = surgered(after, pc);
    assert(twice.blocks =~= after.blocks);
    assert(twice.children =~= after.children);
    assert(twice.pending_app_state =~= after.pending_app_state);
    assert(twice.validator_set_updates =~= after.validator_set_updates);
}

/// Surgery keeps every committed block, the index of heights, the application's state, the
/// validator sets, and what the replica has entered and voted for.
pub proof fn law_surgery_keeps_what_is_committed(
    tree: TreeView,
    pc: PhaseCertificate,
    block: CryptoHash,
)
    ensures
        is_retained(tree, block) && tree.blocks.contains_key(block) ==> surgered(
            tree,
            pc,
        ).blocks.contains_key(block) && surgered(tree, pc).blocks[block] == tree.blocks[block],
        surgered(tree, pc).block_at_height == tree.block_at_height,
        surgered(tree, pc).app_state == tree.app_state,
        surgered(tree, pc).committed_validators == tree.committed_validators,
        surgered(tree, pc).previous_validators == tree.previous_validators,
        surgered(tree, pc).highest_committed_block == tree.highest_committed_block,
        surgered(tree, pc).highest_view_entered == tree.highest_view_entered,
        surgered(tree, pc).highest_view_phase_voted == tree.highest_view_phase_voted,
        surgered(tree, pc).last_voted_proposal == tree.last_voted_proposal,
        surgered(tree, pc).pruned_height == tree.pruned_height,
        surgered(tree, pc).app_fed_height == tree.app_fed_height,
{
}

/// Surgery anchors a tree at its committed frontier: the certificate is its highest one and its lock,
/// the frontier is the newest block and lists no children, and there is neither a tip nor a timeout
/// certificate nor a speculative commit. Exactly the uncommitted blocks are gone, with all that was
/// pending of them. The records of leaders, the evidence, and the state of the last change of
/// validators stay.
pub proof fn law_surgery_anchors_the_tree(tree: TreeView, pc: PhaseCertificate, block: CryptoHash)
    ensures
        ({
            let after = surgered(tree, pc);
            let frontier = tree.highest_committed_block->0;
            &&& after.highest_pc == Some(pc)
            &&& after.locked_pc == Some(pc)
            &&& after.newest_block == tree.highest_committed_block
            &&& !after.children.contains_key(frontier)
            &&& after.local_tip is None
            &&& after.highest_tc is None
            &&& after.speculative_commits.len() == 0
            &&& after.blocks.contains_key(block) <==> tree.blocks.contains_key(block)
                && !is_uncommitted(tree, block)
            &&& after.pending_app_state.contains_key(block)
                <==> tree.pending_app_state.contains_key(block) && !is_uncommitted(tree, block)
            &&& after.validator_set_updates.contains_key(block)
                <==> tree.validator_set_updates.contains_key(block) && !is_uncommitted(tree, block)
            &&& is_uncommitted(tree, block) || is_hole(tree, block)
                ==> !after.children.contains_key(block)
            &&& after.update_height == tree.update_height
            &&& after.update_decided == tree.update_decided
            &&& after.reputation == tree.reputation
            &&& after.evidence == tree.evidence
        }),
{
}

/// What an inspection comes to. A committed block that is still indexed is never taken for
/// uncommitted. Every block of the tree that a committed block lists as a child, that is the newest
/// one, or that is speculatively committed, is uncommitted unless it is committed; and so is every
/// block of the tree that an uncommitted block lists as a child or rests on. A block that an
/// uncommitted block rests on and that is neither committed nor in the tree is a hole.
pub proof fn law_inspection_finds_what_is_uncommitted(
    tree: TreeView,
    block: CryptoHash,
    next: CryptoHash,
)
    ensures
        is_retained(tree, block) ==> !is_uncommitted(tree, block),
        is_root(tree, block) && tree.blocks.contains_key(block) && !is_retained(tree, block)
            && block != types::genesis_hash() ==> is_uncommitted(tree, block),
        is_uncommitted(tree, block) && tree.blocks.contains_key(next) && !is_retained(tree, next)
            && next != types::genesis_hash() && (children_of(tree, block).contains(next) || (
        !tree.blocks[block].justify.is_genesis() && tree.blocks[block].justify.block == next))
            ==> is_uncommitted(tree, next),
        is_uncommitted(tree, block) && !tree.blocks[block].justify.is_genesis()
            && tree.blocks[block].justify.block == next && !is_retained(tree, next)
            && !tree.blocks.contains_key(next) ==> is_hole(tree, next),
{
    if is_root(tree, block) {
        let path = seq![block];
        assert(is_walk(tree, path));
        assert(path.last() == block);
    }
    if is_uncommitted(tree, block) && (children_of(tree, block).contains(next) || (
    !tree.blocks[block].justify.is_genesis() && tree.blocks[block].justify.block == next)) {
        let path = choose|path: Seq<CryptoHash>| #[trigger]
            is_walk(tree, path) && path.last() == block;
        let longer = path.push(next);
        assert(is_walk(tree, longer)) by {
            assert(longer[0] == path[0]);
            assert forall|i: int| 0 <= i < longer.len() - 1 implies #[trigger] leads_to(
                tree,
                longer[i],
                longer[i + 1],
            ) by {
                if i < path.len() - 1 {
                    assert(leads_to(tree, path[i], path[i + 1]));
                } else {
                    assert(longer[i] == block);
                }
            }
        }
        assert(longer.last() == next);
    }
    if is_uncommitted(tree, block) {
        assert(misses(tree, block, next) ==> is_hole(tree, next));
    }
}

} // verus!
