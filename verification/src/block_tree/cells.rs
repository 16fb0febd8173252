//! How the block tree is kept in a key-value store.
//!
//! Every variable of the block tree has a cell, or several, in the store. The key of a cell is a
//! byte that names the variable, then what the variable belongs to. A block is kept in a cell for
//! its height, its justification, the hash of its data, the number of its data's items, and each
//! of those items.

use vstd::prelude::*;

use crate::block_tree::store;
use crate::block_tree::store::TreeView;
use crate::block_tree::write_batch::{Change, WriteOp};
use crate::hotstuff::reputation::LeaderReputationEntry;
use crate::types::block::Block;
use crate::types::data_types::{BlockHeight, CryptoHash, DataLen, Datum};
use crate::wire;
use crate::wire::Wire;

verus! {

/// A cell of the store.
pub enum Cell {
    BlockHeight(CryptoHash),
    BlockJustify(CryptoHash),
    BlockDataHash(CryptoHash),
    BlockDataLen(CryptoHash),
    BlockDatum(CryptoHash, u32),
    BlockAtHeight(BlockHeight),
    Children(CryptoHash),
    AppState(Seq<u8>),
    PendingAppStateUpdates(CryptoHash),
    ValidatorSetUpdatesStatus(CryptoHash),
    CommittedValidatorSet,
    PreviousValidatorSet,
    ValidatorSetUpdateHeight,
    ValidatorSetUpdateDecided,
    LockedPC,
    HighestPC,
    HighestViewEntered,
    HighestViewPhaseVoted,
    HighestCommittedBlock,
    NewestBlock,
    HighestTC,
    LocalTip,
    LastVotedProposal,
    SpeculativeCommits,
    EquivocationEvidence,
    LeaderReputation,
    PrunedHeight,
    AppFedHeight,
}

// The bytes that name the variables.
pub const BLOCKS: u8 = 0;

pub const BLOCK_AT_HEIGHT: u8 = 1;

pub const BLOCK_TO_CHILDREN: u8 = 2;

pub const COMMITTED_APP_STATE: u8 = 3;

pub const PENDING_APP_STATE_UPDATES: u8 = 4;

pub const COMMITTED_VALIDATOR_SET: u8 = 5;

pub const VALIDATOR_SET_UPDATES_STATUS: u8 = 6;

pub const LOCKED_PC: u8 = 7;

pub const HIGHEST_VIEW_ENTERED: u8 = 8;

pub const HIGHEST_PC: u8 = 9;

pub const HIGHEST_COMMITTED_BLOCK: u8 = 10;

pub const NEWEST_BLOCK: u8 = 11;

pub const HIGHEST_TC: u8 = 12;

pub const PREVIOUS_VALIDATOR_SET: u8 = 13;

pub const VALIDATOR_SET_UPDATE_BLOCK_HEIGHT: u8 = 14;

pub const VALIDATOR_SET_UPDATE_DECIDED: u8 = 15;

pub const HIGHEST_VIEW_PHASE_VOTED: u8 = 16;

pub const LOCAL_TIP: u8 = 17;

pub const LAST_VOTED_PROPOSAL: u8 = 18;

pub const SPECULATIVE_COMMITS: u8 = 19;

pub const EQUIVOCATION_EVIDENCE: u8 = 20;

pub const LEADER_REPUTATION: u8 = 21;

pub const BLOCK_TREE_PRUNED_HEIGHT: u8 = 22;

pub const APP_FED_BLOCK_HEIGHT: u8 = 23;

// The bytes that name the parts of a block.
pub const BLOCK_HEIGHT: u8 = 0;

pub const BLOCK_JUSTIFY: u8 = 1;

pub const BLOCK_DATA_HASH: u8 = 2;

pub const BLOCK_DATA_LEN: u8 = 3;

pub const BLOCK_DATA: u8 = 4;

/// The byte that names the variable of a cell.
pub open spec fn cell_tag(cell: Cell) -> u8 {
    match cell {
        Cell::BlockHeight(_) => BLOCKS,
        Cell::BlockJustify(_) => BLOCKS,
        Cell::BlockDataHash(_) => BLOCKS,
        Cell::BlockDataLen(_) => BLOCKS,
        Cell::BlockDatum(_, _) => BLOCKS,
        Cell::BlockAtHeight(_) => BLOCK_AT_HEIGHT,
        Cell::Children(_) => BLOCK_TO_CHILDREN,
        Cell::AppState(_) => COMMITTED_APP_STATE,
        Cell::PendingAppStateUpdates(_) => PENDING_APP_STATE_UPDATES,
        Cell::ValidatorSetUpdatesStatus(_) => VALIDATOR_SET_UPDATES_STATUS,
        Cell::CommittedValidatorSet => COMMITTED_VALIDATOR_SET,
        Cell::PreviousValidatorSet => PREVIOUS_VALIDATOR_SET,
        Cell::ValidatorSetUpdateHeight => VALIDATOR_SET_UPDATE_BLOCK_HEIGHT,
        Cell::ValidatorSetUpdateDecided => VALIDATOR_SET_UPDATE_DECIDED,
        Cell::LockedPC => LOCKED_PC,
        Cell::HighestPC => HIGHEST_PC,
        Cell::HighestViewEntered => HIGHEST_VIEW_ENTERED,
        Cell::HighestViewPhaseVoted => HIGHEST_VIEW_PHASE_VOTED,
        Cell::HighestCommittedBlock => HIGHEST_COMMITTED_BLOCK,
        Cell::NewestBlock => NEWEST_BLOCK,
        Cell::HighestTC => HIGHEST_TC,
        Cell::LocalTip => LOCAL_TIP,
        Cell::LastVotedProposal => LAST_VOTED_PROPOSAL,
        Cell::SpeculativeCommits => SPECULATIVE_COMMITS,
        Cell::EquivocationEvidence => EQUIVOCATION_EVIDENCE,
        Cell::LeaderReputation => LEADER_REPUTATION,
        Cell::PrunedHeight => BLOCK_TREE_PRUNED_HEIGHT,
        Cell::AppFedHeight => APP_FED_BLOCK_HEIGHT,
    }
}

/// What the variable of a cell belongs to.
pub open spec fn cell_owner(cell: Cell) -> Seq<u8> {
    match cell {
        Cell::BlockHeight(block) => block.bytes@ + seq![BLOCK_HEIGHT],
        Cell::BlockJustify(block) => block.bytes@ + seq![BLOCK_JUSTIFY],
        Cell::BlockDataHash(block) => block.bytes@ + seq![BLOCK_DATA_HASH],
        Cell::BlockDataLen(block) => block.bytes@ + seq![BLOCK_DATA_LEN],
        Cell::BlockDatum(block, index) => block.bytes@ + (seq![BLOCK_DATA] + index.encoding()),
        Cell::BlockAtHeight(height) => height.0.encoding(),
        Cell::Children(block) => block.bytes@,
        Cell::AppState(key) => key,
        Cell::PendingAppStateUpdates(block) => block.bytes@,
        Cell::ValidatorSetUpdatesStatus(block) => block.bytes@,
        _ => Seq::empty(),
    }
}

/// The key of a cell.
pub open spec fn cell_key(cell: Cell) -> Seq<u8> {
    seq![cell_tag(cell)] + cell_owner(cell)
}

/// Which part of a block a cell holds, and the hash of that block.
spec fn block_part(cell: Cell) -> Option<(CryptoHash, u8)> {
    match cell {
        Cell::BlockHeight(block) => Some((block, BLOCK_HEIGHT)),
        Cell::BlockJustify(block) => Some((block, BLOCK_JUSTIFY)),
        Cell::BlockDataHash(block) => Some((block, BLOCK_DATA_HASH)),
        Cell::BlockDataLen(block) => Some((block, BLOCK_DATA_LEN)),
        Cell::BlockDatum(block, _) => Some((block, BLOCK_DATA)),
        _ => None,
    }
}

/// Hashes with the same bytes are the same.
proof fn lemma_same_hash(a: CryptoHash, b: CryptoHash)
    requires
        a.bytes@ == b.bytes@,
    ensures
        a == b,
{
    assert(a.bytes =~= b.bytes);
}

/// The key of a part of a block tells the block and the part.
proof fn lemma_block_key(cell: Cell)
    requires
        block_part(cell) is Some,
    ensures
        cell_owner(cell).len() >= 33,
        cell_owner(cell).take(32) == (block_part(cell)->0).0.bytes@,
        cell_owner(cell)[32] == (block_part(cell)->0).1,
        cell is BlockDatum ==> cell_owner(cell).skip(33) == cell->BlockDatum_1.encoding(),
{
    let block = (block_part(cell)->0).0;
    assert(block.bytes@.len() == 32);
    assert(cell_owner(cell).take(32) =~= block.bytes@);
    if cell is BlockDatum {
        assert(cell_owner(cell).skip(33) =~= cell->BlockDatum_1.encoding());
    }
}

/// Two cells never share a key.
pub proof fn law_cells_have_distinct_keys(a: Cell, b: Cell)
    requires
        cell_key(a) == cell_key(b),
    ensures
        a == b,
{
    wire::lemma_head(seq![cell_tag(a)], cell_owner(a), seq![cell_tag(b)], cell_owner(b));
    assert(seq![cell_tag(a)][0] == seq![cell_tag(b)][0]);
    if block_part(a) is Some {
        lemma_block_key(a);
        lemma_block_key(b);
        lemma_same_hash((block_part(a)->0).0, (block_part(b)->0).0);
        if a is BlockDatum {
            wire::lemma_u32(a->BlockDatum_1, b->BlockDatum_1);
        }
    } else {
        match (a, b) {
            (Cell::BlockAtHeight(x), Cell::BlockAtHeight(y)) => {
                wire::lemma_u64(x.0, y.0);
            },
            (Cell::Children(x), Cell::Children(y)) => {
                lemma_same_hash(x, y);
            },
            (Cell::PendingAppStateUpdates(x), Cell::PendingAppStateUpdates(y)) => {
                lemma_same_hash(x, y);
            },
            (Cell::ValidatorSetUpdatesStatus(x), Cell::ValidatorSetUpdatesStatus(y)) => {
                lemma_same_hash(x, y);
            },
            _ => {},
        }
    }
}

/// What is written to a cell: a value, or nothing where the cell is emptied.
pub type CellWrite = (Cell, Option<Seq<u8>>);

/// The writes that keep an item of a block's data.
pub open spec fn datum_write(block: CryptoHash, data: Seq<Datum>, index: int) -> CellWrite {
    (Cell::BlockDatum(block, index as u32), Some(data[index].bytes@))
}

/// The writes that keep a block.
pub open spec fn block_writes(block: Block) -> Seq<CellWrite> {
    seq![
        (Cell::BlockHeight(block.hash), Some(block.height.0.encoding())),
        (Cell::BlockJustify(block.hash), Some(block.justify.encoding())),
        (Cell::BlockDataHash(block.hash), Some(block.data_hash.encoding())),
        (Cell::BlockDataLen(block.hash), Some((block.data@.len() as u32).encoding())),
    ] + Seq::new(block.data@.len(), |i: int| datum_write(block.hash, block.data@, i))
}

/// The writes that drop a block with so many items of data.
pub open spec fn block_deletes(block: CryptoHash, data_len: DataLen) -> Seq<CellWrite> {
    seq![
        (Cell::BlockHeight(block), None::<Seq<u8>>),
        (Cell::BlockJustify(block), None),
        (Cell::BlockDataHash(block), None),
        (Cell::BlockDataLen(block), None),
    ] + Seq::new(data_len.0 as nat, |i: int| (Cell::BlockDatum(block, i as u32), None::<Seq<u8>>))
}

/// The encoding of leader records.
pub open spec fn reputation_bytes(
    entries: Seq<([u8; 32], LeaderReputationEntry)>,
    window_size: u32,
) -> Seq<u8> {
    wire::vector_bytes(entries) + window_size.encoding()
}

/// The write that sets a cell.
pub open spec fn sets(cell: Cell, value: Seq<u8>) -> Seq<CellWrite> {
    seq![(cell, Some(value))]
}

/// The write that empties a cell.
pub open spec fn empties(cell: Cell) -> Seq<CellWrite> {
    seq![(cell, None::<Seq<u8>>)]
}

/// The writes that make a change.
pub open spec fn change_writes(change: Change) -> Seq<CellWrite> {
    match change {
        Change::Children(block, children) => sets(
            Cell::Children(block),
            wire::vector_bytes(children),
        ),
        Change::CommittedValidators(set) => sets(
            Cell::CommittedValidatorSet,
            wire::vector_bytes(set),
        ),
        Change::PreviousValidators(set) => sets(
            Cell::PreviousValidatorSet,
            wire::vector_bytes(set),
        ),
        Change::SpeculativeCommits(commits) => sets(
            Cell::SpeculativeCommits,
            wire::vector_bytes(commits),
        ),
        Change::Evidence(evidence) => sets(
            Cell::EquivocationEvidence,
            wire::vector_bytes(evidence),
        ),
        Change::Reputation(entries, window_size) => sets(
            Cell::LeaderReputation,
            reputation_bytes(entries, window_size),
        ),
        Change::Plain(op) => match op {
            WriteOp::SetBlock(block) => block_writes(block),
            WriteOp::DeleteBlock(block, data_len) => block_deletes(block, data_len),
            WriteOp::SetBlockAtHeight(height, block) => sets(
                Cell::BlockAtHeight(height),
                block.encoding(),
            ),
            WriteOp::DeleteBlockAtHeight(height) => empties(Cell::BlockAtHeight(height)),
            WriteOp::SetPrunedHeight(height) => sets(Cell::PrunedHeight, height.0.encoding()),
            WriteOp::SetAppFedHeight(height) => sets(Cell::AppFedHeight, height.0.encoding()),
            WriteOp::DeleteChildren(block) => empties(Cell::Children(block)),
            WriteOp::SetAppState(key, value) => sets(Cell::AppState(key@), value@),
            WriteOp::DeleteAppState(key) => empties(Cell::AppState(key@)),
            WriteOp::SetPendingAppStateUpdates(block, updates) => sets(
                Cell::PendingAppStateUpdates(block),
                updates.encoding(),
            ),
            WriteOp::DeletePendingAppStateUpdates(block) => empties(
                Cell::PendingAppStateUpdates(block),
            ),
            WriteOp::SetValidatorSetUpdates(block, status) => sets(
                Cell::ValidatorSetUpdatesStatus(block),
                status.encoding(),
            ),
            WriteOp::DeleteValidatorSetUpdates(block) => empties(
                Cell::ValidatorSetUpdatesStatus(block),
            ),
            WriteOp::SetValidatorSetUpdateHeight(height) => sets(
                Cell::ValidatorSetUpdateHeight,
                height.0.encoding(),
            ),
            WriteOp::SetValidatorSetUpdateDecided(decided) => sets(
                Cell::ValidatorSetUpdateDecided,
                decided.encoding(),
            ),
            WriteOp::SetLockedPC(pc) => sets(Cell::LockedPC, pc.encoding()),
            WriteOp::SetHighestPC(pc) => sets(Cell::HighestPC, pc.encoding()),
            WriteOp::SetHighestViewEntered(view) => sets(
                Cell::HighestViewEntered,
                view.0.encoding(),
            ),
            WriteOp::SetHighestViewPhaseVoted(view) => sets(
                Cell::HighestViewPhaseVoted,
                view.0.encoding(),
            ),
            WriteOp::SetHighestCommittedBlock(block) => sets(
                Cell::HighestCommittedBlock,
                block.encoding(),
            ),
            WriteOp::SetNewestBlock(block) => sets(Cell::NewestBlock, block.encoding()),
            WriteOp::SetHighestTC(tc) => sets(Cell::HighestTC, tc.encoding()),
            WriteOp::DeleteHighestTC => empties(Cell::HighestTC),
            WriteOp::SetLocalTip(tip) => sets(Cell::LocalTip, tip.encoding()),
            WriteOp::DeleteLocalTip => empties(Cell::LocalTip),
            WriteOp::SetLastVotedProposal(view, block) => sets(
                Cell::LastVotedProposal,
                (view.0, block).encoding(),
            ),
            _ => Seq::empty(),
        },
    }
}

/// Whether all lists in a change are short enough to be encoded.
pub open spec fn change_fits(change: Change) -> bool {
    match change {
        Change::Children(_, children) => wire::vector_fits(children),
        Change::CommittedValidators(set) => wire::vector_fits(set),
        Change::PreviousValidators(set) => wire::vector_fits(set),
        Change::SpeculativeCommits(commits) => wire::vector_fits(commits),
        Change::Evidence(evidence) => wire::vector_fits(evidence),
        Change::Reputation(entries, _) => wire::vector_fits(entries),
        Change::Plain(op) => match op {
            WriteOp::SetBlock(block) => block.justify.fits() && block.data@.len() <= u32::MAX,
            WriteOp::SetPendingAppStateUpdates(_, updates) => updates.fits(),
            WriteOp::SetValidatorSetUpdates(_, status) => status.fits(),
            WriteOp::SetLockedPC(pc) => pc.fits(),
            WriteOp::SetHighestPC(pc) => pc.fits(),
            WriteOp::SetHighestTC(tc) => tc.fits(),
            WriteOp::SetLocalTip(tip) => tip.fits(),
            _ => true,
        },
    }
}

/// The writes that make changes, in order.
pub open spec fn batch_writes(changes: Seq<Change>) -> Seq<CellWrite>
    decreases changes.len(),
{
    if changes.len() == 0 {
        Seq::empty()
    } else {
        batch_writes(changes.drop_last()) + change_writes(changes.last())
    }
}

/// Whether all of `changes` fit.
pub open spec fn batch_fits(changes: Seq<Change>) -> bool {
    forall|i: int| 0 <= i < changes.len() ==> change_fits(#[trigger] changes[i])
}

/// What a store holds.
pub type KeyValues = Map<Seq<u8>, Seq<u8>>;

/// What a store holds in a cell.
pub open spec fn content(kv: KeyValues, cell: Cell) -> Option<Seq<u8>> {
    if kv.contains_key(cell_key(cell)) {
        Some(kv[cell_key(cell)])
    } else {
        None
    }
}

/// A store after a write.
pub open spec fn after_write(kv: KeyValues, write: CellWrite) -> KeyValues {
    match write.1 {
        Some(value) => kv.insert(cell_key(write.0), value),
        None => kv.remove(cell_key(write.0)),
    }
}

/// A store after writes, in order.
pub open spec fn after_writes(kv: KeyValues, writes: Seq<CellWrite>) -> KeyValues
    decreases writes.len(),
{
    if writes.len() == 0 {
        kv
    } else {
        after_write(after_writes(kv, writes.drop_last()), writes.last())
    }
}

/// Whether a cell with `content` holds a value.
pub open spec fn holds<T: Wire>(content: Option<Seq<u8>>, value: T) -> bool {
    content is Some && wire::begins_with(content->0, value)
}

/// Whether a cell holds a list.
pub open spec fn holds_list<T: Wire>(content: Option<Seq<u8>>, list: Seq<T>) -> bool {
    content is Some && wire::begins_with_list(content->0, list)
}

/// Whether bytes begin with an encoding of leader records.
pub open spec fn begins_with_records(
    bytes: Seq<u8>,
    entries: Seq<([u8; 32], LeaderReputationEntry)>,
    window_size: u32,
) -> bool {
    &&& wire::vector_fits(entries)
    &&& bytes == reputation_bytes(entries, window_size) || reputation_bytes(
        entries,
        window_size,
    ).is_prefix_of(bytes)
}

/// Whether a cell holds a value if there is one, and is empty otherwise.
pub open spec fn holds_option<T: Wire>(content: Option<Seq<u8>>, value: Option<T>) -> bool {
    match value {
        Some(value) => holds(content, value),
        None => content is None,
    }
}

/// Whether a cell may hold `content` in a store that keeps `tree`. What a cell holds may go on after
/// the encoding. The cells of a block's parts say nothing where the block is not in the tree. A list
/// that was never written is empty.
pub open spec fn cell_keeps(tree: TreeView, cell: Cell, content: Option<Seq<u8>>) -> bool {
    match cell {
        Cell::BlockHeight(block) => if tree.blocks.contains_key(block) {
            holds(content, tree.blocks[block].height.0)
        } else {
            content is None
        },
        Cell::BlockJustify(block) => tree.blocks.contains_key(block) ==> holds(
            content,
            tree.blocks[block].justify,
        ),
        Cell::BlockDataHash(block) => tree.blocks.contains_key(block) ==> holds(
            content,
            tree.blocks[block].data_hash,
        ),
        Cell::BlockDataLen(block) => tree.blocks.contains_key(block) ==> holds(
            content,
            tree.blocks[block].data@.len() as u32,
        ),
        Cell::BlockDatum(block, index) => tree.blocks.contains_key(block) && index
            < tree.blocks[block].data@.len() ==> content == Some(
            tree.blocks[block].data@[index as int].bytes@,
        ),
        Cell::BlockAtHeight(height) => if tree.block_at_height.contains_key(height) {
            holds(content, tree.block_at_height[height])
        } else {
            content is None
        },
        Cell::Children(block) => if tree.children.contains_key(block) {
            holds_list(content, tree.children[block])
        } else {
            content is None
        },
        Cell::AppState(key) => content == (if tree.app_state.contains_key(key) {
            Some(tree.app_state[key])
        } else {
            None
        }),
        Cell::PendingAppStateUpdates(block) => if tree.pending_app_state.contains_key(block) {
            holds(content, tree.pending_app_state[block])
        } else {
            content is None
        },
        Cell::ValidatorSetUpdatesStatus(block) => if tree.validator_set_updates.contains_key(block) {
            holds(content, tree.validator_set_updates[block])
        } else {
            content is None
        },
        Cell::CommittedValidatorSet => match tree.committed_validators {
            Some(set) => holds_list(content, set),
            None => content is None,
        },
        Cell::PreviousValidatorSet => match tree.previous_validators {
            Some(set) => holds_list(content, set),
            None => content is None,
        },
        Cell::ValidatorSetUpdateHeight => match tree.update_height {
            Some(height) => holds(content, height.0),
            None => content is None,
        },
        Cell::ValidatorSetUpdateDecided => holds_option(content, tree.update_decided),
        Cell::LockedPC => holds_option(content, tree.locked_pc),
        Cell::HighestPC => holds_option(content, tree.highest_pc),
        Cell::HighestViewEntered => match tree.highest_view_entered {
            Some(view) => holds(content, view.0),
            None => content is None,
        },
        Cell::HighestViewPhaseVoted => match tree.highest_view_phase_voted {
            Some(view) => holds(content, view.0),
            None => content is None,
        },
        Cell::HighestCommittedBlock => holds_option(content, tree.highest_committed_block),
        Cell::NewestBlock => holds_option(content, tree.newest_block),
        Cell::HighestTC => holds_option(content, tree.highest_tc),
        Cell::LocalTip => holds_option(content, tree.local_tip),
        Cell::LastVotedProposal => match tree.last_voted_proposal {
            Some((view, block)) => holds(content, (view.0, block)),
            None => content is None,
        },
        Cell::SpeculativeCommits => {
            ||| holds_list(content, tree.speculative_commits)
            ||| content is None && tree.speculative_commits.len() == 0
        },
        Cell::EquivocationEvidence => {
            ||| holds_list(content, tree.evidence)
            ||| content is None && tree.evidence.len() == 0
        },
        Cell::LeaderReputation => match tree.reputation {
            Some((entries, window_size)) => content is Some && begins_with_records(
                content->0,
                entries,
                window_size,
            ),
            None => content is None,
        },
        Cell::PrunedHeight => match tree.pruned_height {
            Some(height) => holds(content, height.0),
            None => content is None,
        },
        Cell::AppFedHeight => match tree.app_fed_height {
            Some(height) => holds(content, height.0),
            None => content is None,
        },
    }
}

/// Whether the blocks of a tree are found by their hashes, and all lists in the tree are short
/// enough to be encoded.
pub open spec fn tree_fits(tree: TreeView) -> bool {
    &&& forall|block: CryptoHash| #[trigger]
        tree.blocks.contains_key(block) ==> tree.blocks[block].hash == block
            && tree.blocks[block].justify.fits() && tree.blocks[block].data@.len() <= u32::MAX
    &&& forall|block: CryptoHash| #[trigger]
        tree.children.contains_key(block) ==> wire::vector_fits(tree.children[block])
    &&& forall|block: CryptoHash| #[trigger]
        tree.pending_app_state.contains_key(block) ==> tree.pending_app_state[block].fits()
    &&& forall|block: CryptoHash| #[trigger]
        tree.validator_set_updates.contains_key(block) ==> tree.validator_set_updates[block].fits()
    &&& tree.committed_validators is Some ==> wire::vector_fits(tree.committed_validators->0)
    &&& tree.previous_validators is Some ==> wire::vector_fits(tree.previous_validators->0)
    &&& tree.locked_pc is Some ==> (tree.locked_pc->0).fits()
    &&& tree.highest_pc is Some ==> (tree.highest_pc->0).fits()
    &&& tree.highest_tc is Some ==> (tree.highest_tc->0).fits()
    &&& tree.local_tip is Some ==> (tree.local_tip->0).fits()
    &&& wire::vector_fits(tree.speculative_commits)
    &&& wire::vector_fits(tree.evidence)
    &&& tree.reputation is Some ==> wire::vector_fits((tree.reputation->0).0)
}

/// Whether a store keeps a tree.
pub open spec fn keeps(kv: KeyValues, tree: TreeView) -> bool {
    &&& tree_fits(tree)
    &&& forall|cell: Cell| cell_keeps(tree, cell, #[trigger] content(kv, cell))
}

/// A write changes its cell and no other.
proof fn lemma_after_write(kv: KeyValues, write: CellWrite, cell: Cell)
    ensures
        content(after_write(kv, write), cell) == (if cell == write.0 {
            write.1
        } else {
            content(kv, cell)
        }),
{
    if cell != write.0 && cell_key(cell) == cell_key(write.0) {
        law_cells_have_distinct_keys(cell, write.0);
    }
}

/// Writes leave the cells alone that they are not to.
proof fn lemma_untouched(kv: KeyValues, writes: Seq<CellWrite>, cell: Cell)
    requires
        forall|i: int| 0 <= i < writes.len() ==> (#[trigger] writes[i]).0 != cell,
    ensures
        content(after_writes(kv, writes), cell) == content(kv, cell),
    decreases writes.len(),
{
    if writes.len() > 0 {
        let fewer = writes.drop_last();
        assert forall|i: int| 0 <= i < fewer.len() implies (#[trigger] fewer[i]).0 != cell by {
            assert(writes[i].0 != cell);
        }
        lemma_untouched(kv, fewer, cell);
        lemma_after_write(after_writes(kv, fewer), writes.last(), cell);
        assert(writes[writes.len() - 1].0 != cell);
    }
}

/// A cell holds what was written to it last.
proof fn lemma_written(kv: KeyValues, writes: Seq<CellWrite>, at: int)
    requires
        0 <= at < writes.len(),
        forall|i: int| at < i < writes.len() ==> (#[trigger] writes[i]).0 != writes[at].0,
    ensures
        content(after_writes(kv, writes), writes[at].0) == writes[at].1,
    decreases writes.len(),
{
    let fewer = writes.drop_last();
    lemma_after_write(after_writes(kv, fewer), writes.last(), writes[at].0);
    if at < fewer.len() {
        assert(writes[writes.len() - 1].0 != writes[at].0);
        assert(fewer[at] == writes[at]);
        assert forall|i: int| at < i < fewer.len() implies (#[trigger] fewer[i]).0 != fewer[at].0 by {
            assert(writes[i].0 != writes[at].0);
        }
        lemma_written(kv, fewer, at);
    }
}

/// Whether a change is to one cell.
pub open spec fn is_single(change: Change) -> bool {
    match change {
        Change::Plain(WriteOp::SetBlock(_)) => false,
        Change::Plain(WriteOp::DeleteBlock(_, _)) => false,
        _ => change_writes(change).len() > 0,
    }
}

/// The keys of all cells of a block.
pub open spec fn block_keys(block: CryptoHash) -> Set<Seq<u8>> {
    Set::new(
        |key: Seq<u8>|
            key.len() >= 33 && key[0] == BLOCKS && key.subrange(1, 33) == block.bytes@,
    )
}

/// The keys whose values a change writes over. Storing or deleting a block does away with all of
/// its cells.
#[verifier::opaque]
pub open spec fn overwritten(change: Change) -> Set<Seq<u8>> {
    match change {
        Change::Plain(WriteOp::SetBlock(block)) => block_keys(block.hash),
        Change::Plain(WriteOp::DeleteBlock(block, _)) => block_keys(block),
        _ => if is_single(change) {
            set![cell_key(changed_cell(change))]
        } else {
            Set::empty()
        },
    }
}

/// The cell that a change is to.
pub open spec fn changed_cell(change: Change) -> Cell {
    match change {
        Change::Children(block, _) => Cell::Children(block),
        Change::CommittedValidators(_) => Cell::CommittedValidatorSet,
        Change::PreviousValidators(_) => Cell::PreviousValidatorSet,
        Change::SpeculativeCommits(_) => Cell::SpeculativeCommits,
        Change::Evidence(_) => Cell::EquivocationEvidence,
        Change::Reputation(_, _) => Cell::LeaderReputation,
        Change::Plain(op) => match op {
            WriteOp::SetBlockAtHeight(height, _) => Cell::BlockAtHeight(height),
            WriteOp::DeleteBlockAtHeight(height) => Cell::BlockAtHeight(height),
            WriteOp::SetPrunedHeight(_) => Cell::PrunedHeight,
            WriteOp::SetAppFedHeight(_) => Cell::AppFedHeight,
            WriteOp::DeleteChildren(block) => Cell::Children(block),
            WriteOp::SetAppState(key, _) => Cell::AppState(key@),
            WriteOp::DeleteAppState(key) => Cell::AppState(key@),
            WriteOp::SetPendingAppStateUpdates(block, _) => Cell::PendingAppStateUpdates(block),
            WriteOp::DeletePendingAppStateUpdates(block) => Cell::PendingAppStateUpdates(block),
            WriteOp::SetValidatorSetUpdates(block, _) => Cell::ValidatorSetUpdatesStatus(block),
            WriteOp::DeleteValidatorSetUpdates(block) => Cell::ValidatorSetUpdatesStatus(block),
            WriteOp::SetValidatorSetUpdateHeight(_) => Cell::ValidatorSetUpdateHeight,
            WriteOp::SetValidatorSetUpdateDecided(_) => Cell::ValidatorSetUpdateDecided,
            WriteOp::SetLockedPC(_) => Cell::LockedPC,
            WriteOp::SetHighestPC(_) => Cell::HighestPC,
            WriteOp::SetHighestViewEntered(_) => Cell::HighestViewEntered,
            WriteOp::SetHighestViewPhaseVoted(_) => Cell::HighestViewPhaseVoted,
            WriteOp::SetHighestCommittedBlock(_) => Cell::HighestCommittedBlock,
            WriteOp::SetNewestBlock(_) => Cell::NewestBlock,
            WriteOp::SetHighestTC(_) => Cell::HighestTC,
            WriteOp::DeleteHighestTC => Cell::HighestTC,
            WriteOp::SetLocalTip(_) => Cell::LocalTip,
            WriteOp::DeleteLocalTip => Cell::LocalTip,
            _ => Cell::LastVotedProposal,
        },
    }
}

/// A change that fits keeps a tree that fits.
proof fn lemma_single_fits(tree: TreeView, change: Change)
    requires
        tree_fits(tree),
        change_fits(change),
        is_single(change),
    ensures
        tree_fits(store::apply_change(tree, change)),
{
}

/// A change to one cell makes that cell say what was written.
proof fn lemma_single_written(tree: TreeView, change: Change)
    requires
        is_single(change),
        change_fits(change),
    ensures
        change_writes(change).len() == 1,
        change_writes(change)[0].0 == changed_cell(change),
        cell_keeps(
            store::apply_change(tree, change),
            change_writes(change)[0].0,
            change_writes(change)[0].1,
        ),
{
}

/// A change to one cell spares the others.
proof fn lemma_single_spares(tree: TreeView, change: Change, cell: Cell, value: Option<Seq<u8>>)
    requires
        !(change is Plain && (change->Plain_0 is SetBlock || change->Plain_0 is DeleteBlock)),
        cell != changed_cell(change),
        cell_keeps(tree, cell, value),
    ensures
        cell_keeps(store::apply_change(tree, change), cell, value),
{
}

/// A change to one cell makes that cell say what was written, and spares the others.
pub(crate) proof fn lemma_single(tree: TreeView, change: Change)
    requires
        tree_fits(tree),
        change_fits(change),
        is_single(change),
    ensures
        change_writes(change).len() == 1,
        tree_fits(store::apply_change(tree, change)),
        cell_keeps(
            store::apply_change(tree, change),
            change_writes(change)[0].0,
            change_writes(change)[0].1,
        ),
        forall|cell: Cell, value: Option<Seq<u8>>|
            cell != change_writes(change)[0].0 && cell_keeps(tree, cell, value)
                ==> #[trigger] cell_keeps(store::apply_change(tree, change), cell, value),
{
    lemma_single_fits(tree, change);
    lemma_single_written(tree, change);
    assert forall|cell: Cell, value: Option<Seq<u8>>|
        cell != change_writes(change)[0].0 && cell_keeps(
            tree,
            cell,
            value,
        ) implies #[trigger] cell_keeps(store::apply_change(tree, change), cell, value) by {
        lemma_single_spares(tree, change, cell, value);
    }
}

/// A change that is written to one cell keeps the store.
proof fn lemma_one_cell(kv: KeyValues, tree: TreeView, change: Change)
    requires
        keeps(kv, tree),
        change_fits(change),
        is_single(change),
    ensures
        keeps(after_writes(kv, change_writes(change)), store::apply_change(tree, change)),
{
    lemma_single(tree, change);
    let after = store::apply_change(tree, change);
    let writes = change_writes(change);
    let write = writes[0];
    assert(writes.drop_last() =~= Seq::<CellWrite>::empty());
    assert(after_writes(kv, writes.drop_last()) == kv);
    assert(after_writes(kv, writes) == after_write(kv, write));
    assert forall|cell: Cell|
        cell_keeps(after, cell, #[trigger] content(after_writes(kv, writes), cell)) by {
        lemma_after_write(kv, write, cell);
        assert(cell_keeps(tree, cell, content(kv, cell)));
    }
}

/// A block that is written is kept.
proof fn lemma_block_set(kv: KeyValues, tree: TreeView, block: Block)
    requires
        keeps(kv, tree),
        block.justify.fits(),
        block.data@.len() <= u32::MAX,
    ensures
        keeps(
            after_writes(kv, block_writes(block)),
            TreeView { blocks: tree.blocks.insert(block.hash, block), ..tree },
        ),
{
    let after = TreeView { blocks: tree.blocks.insert(block.hash, block), ..tree };
    let writes = block_writes(block);
    let kv2 = after_writes(kv, writes);
    let hash = block.hash;
    assert(writes.len() == 4 + block.data@.len());
    assert forall|i: int| 4 <= i < writes.len() implies #[trigger] writes[i] == datum_write(
        hash,
        block.data@,
        i - 4,
    ) by {}
    assert(writes[0].0 == Cell::BlockHeight(hash));
    assert(writes[1].0 == Cell::BlockJustify(hash));
    assert(writes[2].0 == Cell::BlockDataHash(hash));
    assert(writes[3].0 == Cell::BlockDataLen(hash));
    lemma_written(kv, writes, 0);
    lemma_written(kv, writes, 1);
    lemma_written(kv, writes, 2);
    lemma_written(kv, writes, 3);
    assert forall|cell: Cell| cell_keeps(after, cell, #[trigger] content(kv2, cell)) by {
        assert(cell_keeps(tree, cell, content(kv, cell)));
        match cell {
            Cell::BlockDatum(owner, index) if owner == hash => {
                if index < block.data@.len() {
                    assert(writes[4 + index] == datum_write(hash, block.data@, index as int));
                    lemma_written(kv, writes, 4 + index);
                }
            },
            Cell::BlockHeight(owner) if owner == hash => {},
            Cell::BlockJustify(owner) if owner == hash => {},
            Cell::BlockDataHash(owner) if owner == hash => {},
            Cell::BlockDataLen(owner) if owner == hash => {},
            _ => {
                lemma_untouched(kv, writes, cell);
            },
        }
    }
}

/// A block that is dropped is no longer kept.
proof fn lemma_block_deleted(kv: KeyValues, tree: TreeView, block: CryptoHash, data_len: DataLen)
    requires
        keeps(kv, tree),
    ensures
        keeps(
            after_writes(kv, block_deletes(block, data_len)),
            TreeView { blocks: tree.blocks.remove(block), ..tree },
        ),
{
    let after = TreeView { blocks: tree.blocks.remove(block), ..tree };
    let writes = block_deletes(block, data_len);
    let kv2 = after_writes(kv, writes);
    assert(writes.len() == 4 + data_len.0);
    assert forall|i: int| 4 <= i < writes.len() implies (#[trigger] writes[i]).0
        == Cell::BlockDatum(block, (i - 4) as u32) by {}
    assert(writes[0].0 == Cell::BlockHeight(block));
    assert(writes[1].0 == Cell::BlockJustify(block));
    assert(writes[2].0 == Cell::BlockDataHash(block));
    assert(writes[3].0 == Cell::BlockDataLen(block));
    lemma_written(kv, writes, 0);
    assert forall|cell: Cell| cell_keeps(after, cell, #[trigger] content(kv2, cell)) by {
        assert(cell_keeps(tree, cell, content(kv, cell)));
        match cell {
            Cell::BlockDatum(owner, _) if owner == block => {},
            Cell::BlockHeight(owner) if owner == block => {},
            Cell::BlockJustify(owner) if owner == block => {},
            Cell::BlockDataHash(owner) if owner == block => {},
            Cell::BlockDataLen(owner) if owner == block => {},
            _ => {
                lemma_untouched(kv, writes, cell);
            },
        }
    }
}

/// What is unread does not matter to whether a store keeps the variables.
pub(crate) proof fn lemma_same_but_unread(kv: KeyValues, a: TreeView, b: TreeView)
    requires
        keeps(kv, a),
        b == (TreeView { unread: b.unread, ..a }),
    ensures
        keeps(kv, b),
{
    assert forall|cell: Cell| cell_keeps(b, cell, #[trigger] content(kv, cell)) by {
        assert(cell_keeps(a, cell, content(kv, cell)));
    }
}

/// A change without writes leaves the variables as they are.
proof fn lemma_no_writes(kv: KeyValues, tree: TreeView, change: Change)
    requires
        keeps(kv, tree),
        change_writes(change).len() == 0,
        !(change is Plain && (change->Plain_0 is SetBlock || change->Plain_0 is DeleteBlock)),
    ensures
        keeps(after_writes(kv, change_writes(change)), store::apply_change(tree, change)),
{
    lemma_same_but_unread(kv, tree, store::apply_change(tree, change));
}

/// The writes of a block keep the store.
proof fn lemma_block_kept(kv: KeyValues, tree: TreeView, change: Change)
    requires
        keeps(kv, tree),
        change_fits(change),
        change is Plain && (change->Plain_0 is SetBlock || change->Plain_0 is DeleteBlock),
    ensures
        keeps(after_writes(kv, change_writes(change)), store::apply_change(tree, change)),
{
    let after = after_writes(kv, change_writes(change));
    match change->Plain_0 {
        WriteOp::SetBlock(block) => {
            lemma_block_set(kv, tree, block);
            let with = TreeView { blocks: tree.blocks.insert(block.hash, block), ..tree };
            lemma_same_but_unread(after, with, store::apply_change(tree, change));
        },
        WriteOp::DeleteBlock(block, data_len) => {
            lemma_block_deleted(kv, tree, block, data_len);
            let without = TreeView { blocks: tree.blocks.remove(block), ..tree };
            lemma_same_but_unread(after, without, store::apply_change(tree, change));
        },
        _ => {},
    }
}

/// The writes of a change keep the store.
proof fn lemma_change_kept(kv: KeyValues, tree: TreeView, change: Change)
    requires
        keeps(kv, tree),
        change_fits(change),
    ensures
        keeps(after_writes(kv, change_writes(change)), store::apply_change(tree, change)),
{
    if change is Plain && (change->Plain_0 is SetBlock || change->Plain_0 is DeleteBlock) {
        lemma_block_kept(kv, tree, change);
    } else if is_single(change) {
        lemma_one_cell(kv, tree, change);
    } else {
        lemma_no_writes(kv, tree, change);
    }
}

/// What is written is what is read: a store that keeps the tree, and to which the writes of a batch
/// are made, keeps the tree as the batch changes it.
pub proof fn law_writes_keep_the_tree(kv: KeyValues, tree: TreeView, changes: Seq<Change>)
    requires
        keeps(kv, tree),
        batch_fits(changes),
    ensures
        keeps(after_writes(kv, batch_writes(changes)), store::apply_changes(tree, changes)),
    decreases changes.len(),
{
    if changes.len() > 0 {
        let fewer = changes.drop_last();
        assert(batch_fits(fewer)) by {
            assert forall|i: int| 0 <= i < fewer.len() implies change_fits(#[trigger] fewer[i]) by {
                assert(change_fits(changes[i]));
            }
        }
        law_writes_keep_the_tree(kv, tree, fewer);
        assert(change_fits(changes[changes.len() - 1]));
        let middle = after_writes(kv, batch_writes(fewer));
        lemma_change_kept(middle, store::apply_changes(tree, fewer), changes.last());
        lemma_writes_concat(kv, batch_writes(fewer), change_writes(changes.last()));
    }
}

/// Whether a store keeps a tree but for what is unread, which the store holds too.
pub open spec fn keeps_readable(kv: KeyValues, tree: TreeView) -> bool {
    &&& keeps(kv.remove_keys(tree.unread.dom()), tree)
    &&& forall|key: Seq<u8>| #[trigger]
        tree.unread.contains_key(key) ==> kv.contains_key(key) && kv[key] == tree.unread[key]
}

/// What a cell holds that is written to does not depend on what was there before.
proof fn lemma_written_over(a: KeyValues, b: KeyValues, writes: Seq<CellWrite>, at: int)
    requires
        0 <= at < writes.len(),
    ensures
        content(after_writes(a, writes), writes[at].0) == content(
            after_writes(b, writes),
            writes[at].0,
        ),
    decreases writes.len(),
{
    let last = writes.last();
    let cell = writes[at].0;
    lemma_after_write(after_writes(a, writes.drop_last()), last, cell);
    lemma_after_write(after_writes(b, writes.drop_last()), last, cell);
    if cell != last.0 {
        lemma_written_over(a, b, writes.drop_last(), at);
    }
}

/// Writes to cells with other keys leave what is held under a key.
proof fn lemma_keys_untouched(kv: KeyValues, writes: Seq<CellWrite>, key: Seq<u8>)
    requires
        forall|i: int| 0 <= i < writes.len() ==> cell_key((#[trigger] writes[i]).0) != key,
    ensures
        after_writes(kv, writes).contains_key(key) == kv.contains_key(key),
        kv.contains_key(key) ==> after_writes(kv, writes)[key] == kv[key],
    decreases writes.len(),
{
    if writes.len() > 0 {
        assert(cell_key(writes[writes.len() - 1].0) != key);
        assert forall|i: int| 0 <= i < writes.drop_last().len() implies cell_key(
            (#[trigger] writes.drop_last()[i]).0,
        ) != key by {
            assert(cell_key(writes[i].0) != key);
        }
        lemma_keys_untouched(kv, writes.drop_last(), key);
    }
}

/// All that a change writes to is what it writes over.
proof fn lemma_writes_are_overwritten(change: Change, at: int)
    requires
        0 <= at < change_writes(change).len(),
        change_fits(change),
    ensures
        overwritten(change).contains(cell_key(change_writes(change)[at].0)),
{
    reveal(overwritten);
    let cell = change_writes(change)[at].0;
    let key = cell_key(cell);
    match change {
        Change::Plain(WriteOp::SetBlock(block)) => {
            if at >= 4 {
                assert(change_writes(change)[at] == datum_write(block.hash, block.data@, at - 4));
            }
            assert(key.subrange(1, 33) =~= block.hash.bytes@);
        },
        Change::Plain(WriteOp::DeleteBlock(block, _)) => {
            assert(key.subrange(1, 33) =~= block.bytes@);
        },
        _ => {
            lemma_single_written(store::empty_tree(), change);
        },
    }
}

/// Whether a cell is a part of the block that a change is to.
spec fn is_of_changed_block(change: Change, cell: Cell) -> bool {
    match change {
        Change::Plain(WriteOp::SetBlock(block)) => block_part(cell) is Some && (block_part(
            cell,
        )->0).0 == block.hash,
        Change::Plain(WriteOp::DeleteBlock(block, _)) => block_part(cell) is Some && (block_part(
            cell,
        )->0).0 == block,
        _ => false,
    }
}

/// A cell whose key is one of a block's is a part of that block.
proof fn lemma_key_of_block(cell: Cell, hash: CryptoHash)
    requires
        block_keys(hash).contains(cell_key(cell)),
    ensures
        block_part(cell) is Some,
        (block_part(cell)->0).0 == hash,
{
    assert(cell_key(cell)[0] == cell_tag(cell));
    lemma_block_key(cell);
    assert(cell_key(cell).subrange(1, 33) =~= cell_owner(cell).take(32));
    lemma_same_hash((block_part(cell)->0).0, hash);
}

/// A cell that a change writes over is written to, or is a part of the block that the change is to.
proof fn lemma_overwritten_cell(change: Change, cell: Cell)
    requires
        change_fits(change),
        overwritten(change).contains(cell_key(cell)),
        !is_of_changed_block(change, cell),
    ensures
        change_writes(change).len() == 1,
        change_writes(change)[0].0 == cell,
{
    reveal(overwritten);
    match change {
        Change::Plain(WriteOp::SetBlock(block)) => {
            lemma_key_of_block(cell, block.hash);
        },
        Change::Plain(WriteOp::DeleteBlock(block, _)) => {
            lemma_key_of_block(cell, block);
        },
        _ => {
            lemma_single_written(store::empty_tree(), change);
            law_cells_have_distinct_keys(cell, changed_cell(change));
        },
    }
}

/// The parts of a block that a change to the block does not write to say nothing.
proof fn lemma_part_says_nothing(
    tree: TreeView,
    change: Change,
    cell: Cell,
    value: Option<Seq<u8>>,
)
    requires
        is_of_changed_block(change, cell),
        forall|i: int|
            0 <= i < change_writes(change).len() ==> (#[trigger] change_writes(change)[i]).0 != cell,
    ensures
        cell_keeps(store::apply_change(tree, change), cell, value),
{
    let writes = change_writes(change);
    match change {
        Change::Plain(WriteOp::SetBlock(block)) => {
            assert(writes[0].0 == Cell::BlockHeight(block.hash));
            assert(writes[1].0 == Cell::BlockJustify(block.hash));
            assert(writes[2].0 == Cell::BlockDataHash(block.hash));
            assert(writes[3].0 == Cell::BlockDataLen(block.hash));
            if let Cell::BlockDatum(_, index) = cell {
                if index < block.data@.len() {
                    assert(writes[4 + index] == datum_write(block.hash, block.data@, index as int));
                }
            }
        },
        Change::Plain(WriteOp::DeleteBlock(block, _)) => {
            assert(writes[0].0 == Cell::BlockHeight(block));
        },
        _ => {},
    }
}

/// The writes of a change keep a store of which something cannot be read.
proof fn lemma_change_keeps_readable(kv: KeyValues, tree: TreeView, change: Change)
    requires
        keeps_readable(kv, tree),
        change_fits(change),
    ensures
        keeps_readable(after_writes(kv, change_writes(change)), store::apply_change(tree, change)),
{
    let writes = change_writes(change);
    let after = store::apply_change(tree, change);
    let rest = kv.remove_keys(tree.unread.dom());
    let kv2 = after_writes(kv, writes);
    let rest2 = kv2.remove_keys(after.unread.dom());
    lemma_change_kept(rest, tree, change);
    assert(after.unread =~= tree.unread.remove_keys(overwritten(change)));
    assert forall|key: Seq<u8>| #[trigger] after.unread.contains_key(key) implies kv2.contains_key(
        key,
    ) && kv2[key] == after.unread[key] by {
        assert forall|i: int| 0 <= i < writes.len() implies cell_key((#[trigger] writes[i]).0)
            != key by {
            lemma_writes_are_overwritten(change, i);
        }
        lemma_keys_untouched(kv, writes, key);
        assert(tree.unread.contains_key(key));
    }
    assert forall|cell: Cell| cell_keeps(after, cell, #[trigger] content(rest2, cell)) by {
        assert(cell_keeps(after, cell, content(after_writes(rest, writes), cell)));
        if exists|i: int| 0 <= i < writes.len() && (#[trigger] writes[i]).0 == cell {
            let i = choose|i: int| 0 <= i < writes.len() && (#[trigger] writes[i]).0 == cell;
            lemma_writes_are_overwritten(change, i);
            lemma_written_over(kv, rest, writes, i);
        } else if is_of_changed_block(change, cell) {
            lemma_part_says_nothing(tree, change, cell, content(rest2, cell));
        } else {
            if overwritten(change).contains(cell_key(cell)) {
                lemma_overwritten_cell(change, cell);
            }
            lemma_untouched(kv, writes, cell);
            lemma_untouched(rest, writes, cell);
        }
    }
}

/// A store of which something cannot be read stays in step: when the writes of a batch are made, it
/// keeps the tree as the batch changes it, but for what is still unread. What the batch writes over
/// is no longer unread.
pub proof fn law_writes_keep_what_can_be_read(kv: KeyValues, tree: TreeView, changes: Seq<Change>)
    requires
        keeps_readable(kv, tree),
        batch_fits(changes),
    ensures
        keeps_readable(after_writes(kv, batch_writes(changes)), store::apply_changes(tree, changes)),
        forall|i: int, key: Seq<u8>|
            0 <= i < changes.len() && #[trigger] overwritten(changes[i]).contains(key)
                ==> !store::apply_changes(tree, changes).unread.contains_key(key),
    decreases changes.len(),
{
    if changes.len() > 0 {
        let fewer = changes.drop_last();
        assert(batch_fits(fewer)) by {
            assert forall|i: int| 0 <= i < fewer.len() implies change_fits(#[trigger] fewer[i]) by {
                assert(change_fits(changes[i]));
            }
        }
        law_writes_keep_what_can_be_read(kv, tree, fewer);
        assert(change_fits(changes[changes.len() - 1]));
        let middle = after_writes(kv, batch_writes(fewer));
        lemma_change_keeps_readable(middle, store::apply_changes(tree, fewer), changes.last());
        lemma_writes_concat(kv, batch_writes(fewer), change_writes(changes.last()));
        assert forall|i: int, key: Seq<u8>|
            0 <= i < changes.len() && #[trigger] overwritten(changes[i]).contains(
                key,
            ) implies !store::apply_changes(tree, changes).unread.contains_key(key) by {
            if i < fewer.len() {
                assert(overwritten(fewer[i]).contains(key));
            }
        }
    }
}

/// Making writes and then others is making all of them.
proof fn lemma_writes_concat(kv: KeyValues, first: Seq<CellWrite>, second: Seq<CellWrite>)
    ensures
        after_writes(kv, first + second) == after_writes(after_writes(kv, first), second),
    decreases second.len(),
{
    if second.len() == 0 {
        assert(first + second =~= first);
    } else {
        assert((first + second).drop_last() =~= first + second.drop_last());
        lemma_writes_concat(kv, first, second.drop_last());
    }
}

/// A store to which all changes were written since the first keeps the tree.
pub proof fn law_a_store_keeps_all_that_was_written(changes: Seq<Change>)
    requires
        batch_fits(changes),
    ensures
        keeps(
            after_writes(Map::empty(), batch_writes(changes)),
            store::apply_changes(store::empty_tree(), changes),
        ),
{
    law_writes_keep_the_tree(Map::empty(), store::empty_tree(), changes);
}

} // verus!
