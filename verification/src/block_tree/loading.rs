//! Reading the block tree from what a key-value store holds.

use vstd::prelude::*;

use std::sync::Arc;

use crate::block_tree::cells;
use crate::block_tree::cells::{
    Cell, KeyValues, APP_FED_BLOCK_HEIGHT, BLOCKS, BLOCK_AT_HEIGHT, BLOCK_HEIGHT,
    BLOCK_TO_CHILDREN, BLOCK_TREE_PRUNED_HEIGHT, COMMITTED_APP_STATE,
    COMMITTED_VALIDATOR_SET, EQUIVOCATION_EVIDENCE, HIGHEST_COMMITTED_BLOCK, HIGHEST_PC, HIGHEST_TC, HIGHEST_VIEW_ENTERED, HIGHEST_VIEW_PHASE_VOTED, LAST_VOTED_PROPOSAL,
    LEADER_REPUTATION, LOCAL_TIP, LOCKED_PC, NEWEST_BLOCK, PENDING_APP_STATE_UPDATES,
    PREVIOUS_VALIDATOR_SET, SPECULATIVE_COMMITS, VALIDATOR_SET_UPDATES_STATUS,
    VALIDATOR_SET_UPDATE_BLOCK_HEIGHT, VALIDATOR_SET_UPDATE_DECIDED,
};
use crate::block_tree::persisting::{copy_vec, part_key};
use crate::block_tree::reading;
use crate::block_tree::reading::{read_block, RawTable};
use crate::block_tree::store;
use crate::block_tree::store::{Store, TreeView};
use crate::block_tree::write_batch::{Change, EvidenceEntry, WriteOp};
use crate::hotstuff::reputation::{LeaderReputation, LeaderReputationEntry};
use crate::hotstuff::types::PhaseCertificate;
use crate::pacemaker::{TimeoutCertificate, TipInfo};
use crate::types::block::Block;
use crate::types::data_types::{
    BlockHeight, Bytes, ChildrenList, CryptoHash, Power, VerifyingKey, ViewNumber,
};
use crate::types::table::Table;
use crate::types::update_sets::AppStateUpdates;
use crate::types::validator_set::{ValidatorSet, ValidatorSetUpdatesStatus};
use crate::wire;
use crate::wire::{decode_front, decode_vector_front, get_vector, read_hash, read_u64, Wire};

verus! {

/// What a key-value store holds, as a list: a key with its value. Where a key comes twice, the last
/// value is meant.
pub type Entries = Vec<(Vec<u8>, Vec<u8>)>;

/// What a list of entries says.
pub open spec fn contents(entries: Seq<(Vec<u8>, Vec<u8>)>) -> KeyValues
    decreases entries.len(),
{
    if entries.len() == 0 {
        Map::empty()
    } else {
        contents(entries.drop_last()).insert(entries.last().0@, entries.last().1@)
    }
}

/// Put a key with its value into a table.
fn put(table: &mut RawTable, key: Bytes, value: Bytes)
    ensures
        reading::raw(*final(table)) == reading::raw(*old(table)).insert(key@, value@),
{
    table.insert(key, value);
    assert(reading::raw(*table) =~= reading::raw(*old(table)).insert(key@, value@));
}

/// All entries in a table.
fn gather(entries: &Entries) -> (r: RawTable)
    ensures
        reading::raw(r) == contents(entries@),
{
    let mut table: RawTable = Table::new();
    let mut i: usize = 0;
    assert(reading::raw(table) =~= contents(entries@.take(0)));
    while i < entries.len()
        invariant
            i <= entries@.len(),
            reading::raw(table) == contents(entries@.take(i as int)),
        decreases entries@.len() - i,
    {
        let key = Bytes::new(copy_vec(&entries[i].0));
        let value = Bytes::new(copy_vec(&entries[i].1));
        put(&mut table, key, value);
        assert(entries@.take(i + 1).drop_last() =~= entries@.take(i as int));
        i = i + 1;
    }
    assert(entries@.take(i as int) =~= entries@);
    table
}

/// Whether a cell holds a part of a block other than its height. Such a cell is read with the
/// height's.
pub open spec fn is_part(cell: Cell) -> bool {
    cell is BlockJustify || cell is BlockDataHash || cell is BlockDataLen || cell is BlockDatum
}

/// What was read of a cell when the keys `keys` were looked at.
spec fn seen(kv: KeyValues, keys: Set<Seq<u8>>, cell: Cell) -> Option<Seq<u8>> {
    if is_part(cell) || keys.contains(cells::cell_key(cell)) {
        cells::content(kv, cell)
    } else {
        None
    }
}

/// Whether a tree is what the keys `keys` say.
#[verifier::opaque]
spec fn partly(kv: KeyValues, keys: Set<Seq<u8>>, tree: TreeView) -> bool {
    &&& cells::tree_fits(tree)
    &&& forall|cell: Cell| cells::cell_keeps(tree, cell, #[trigger] seen(kv, keys, cell))
}

/// No keys say that there is nothing.
proof fn lemma_nothing_seen(kv: KeyValues)
    ensures
        partly(kv, Set::empty(), store::empty_tree()),
{
    reveal(partly);
}

/// A key that is no cell's says nothing.
proof fn lemma_no_cell(kv: KeyValues, keys: Set<Seq<u8>>, tree: TreeView, key: Seq<u8>)
    requires
        partly(kv, keys, tree),
        forall|cell: Cell| !is_part(cell) ==> #[trigger] cells::cell_key(cell) != key,
    ensures
        partly(kv, keys.insert(key), tree),
{
    reveal(partly);
    assert forall|cell: Cell|
        cells::cell_keeps(tree, cell, #[trigger] seen(kv, keys.insert(key), cell)) by {
        assert(seen(kv, keys.insert(key), cell) == seen(kv, keys, cell));
    }
}

/// Whether an operation sets one cell to a value that `content` begins with.
pub open spec fn op_reads(op: WriteOp, cell: Cell, content: Seq<u8>) -> bool {
    &&& cells::is_single(op@)
    &&& cells::change_fits(op@)
    &&& cells::change_writes(op@)[0].0 == cell
    &&& forall|tree: TreeView| #[trigger]
        cells::cell_keeps(store::apply_change(tree, op@), cell, Some(content))
}

/// A cell is read by the operation that sets it.
proof fn lemma_single_seen(
    kv: KeyValues,
    keys: Set<Seq<u8>>,
    tree: TreeView,
    op: WriteOp,
    cell: Cell,
)
    requires
        partly(kv, keys, tree),
        cells::content(kv, cell) is Some,
        op_reads(op, cell, cells::content(kv, cell)->0),
    ensures
        partly(kv, keys.insert(cells::cell_key(cell)), store::apply_change(tree, op@)),
{
    reveal(partly);
    cells::lemma_single(tree, op@);
    let after = store::apply_change(tree, op@);
    let more = keys.insert(cells::cell_key(cell));
    assert forall|other: Cell| cells::cell_keeps(after, other, #[trigger] seen(kv, more, other)) by {
        if other == cell {
            assert(cells::cell_keeps(after, cell, Some(cells::content(kv, cell)->0)));
        } else {
            if cells::cell_key(other) == cells::cell_key(cell) {
                cells::law_cells_have_distinct_keys(other, cell);
            }
            assert(cells::cell_keeps(tree, other, seen(kv, keys, other)));
        }
    }
}

/// A block is read by the change that writes it.
proof fn lemma_block_seen(kv: KeyValues, keys: Set<Seq<u8>>, tree: TreeView, block: Block)
    requires
        partly(kv, keys, tree),
        reading::block_held(kv, block),
    ensures
        partly(
            kv,
            keys.insert(cells::cell_key(Cell::BlockHeight(block.hash))),
            store::apply_change(tree, Change::Plain(WriteOp::SetBlock(block))),
        ),
{
    reveal(partly);
    let after = store::apply_change(tree, Change::Plain(WriteOp::SetBlock(block)));
    let hash = block.hash;
    let key = cells::cell_key(Cell::BlockHeight(hash));
    assert forall|cell: Cell|
        cells::cell_keeps(after, cell, #[trigger] seen(kv, keys.insert(key), cell)) by {
        assert(cells::cell_keeps(tree, cell, seen(kv, keys, cell)));
        if cells::cell_key(cell) == key {
            cells::law_cells_have_distinct_keys(cell, Cell::BlockHeight(hash));
        }
        match cell {
            Cell::BlockDatum(owner, index) if owner == hash => {
                if index < block.data@.len() {
                    assert(block.data@[index as int].bytes@ == block.data@[index as int].bytes@);
                }
            },
            _ => {},
        }
    }
}

/// Whether what a cell holds is no encoding of what belongs there.
pub open spec fn cell_unreadable(kv: KeyValues, cell: Cell) -> bool {
    &&& !is_part(cell)
    &&& !(cell is BlockHeight)
    &&& cells::content(kv, cell) is Some
    &&& forall|tree: TreeView|
        cells::tree_fits(tree) ==> !#[trigger] cells::cell_keeps(
            tree,
            cell,
            cells::content(kv, cell),
        )
}

/// Whether there is a height of a block, and a part of it is missing or no encoding.
pub open spec fn block_unreadable(kv: KeyValues, hash: CryptoHash) -> bool {
    &&& cells::content(kv, Cell::BlockHeight(hash)) is Some
    &&& forall|block: Block| #[trigger] reading::block_held(kv, block) ==> block.hash != hash
}

/// Whether a key is that of a cell that cannot be read.
spec fn fails(kv: KeyValues, key: Seq<u8>) -> bool {
    ||| exists|cell: Cell| #[trigger] cells::cell_key(cell) == key && cell_unreadable(kv, cell)
    ||| exists|hash: CryptoHash| #[trigger]
        block_unreadable(kv, hash) && cells::cell_key(Cell::BlockHeight(hash)) == key
}

/// Whether a key is that of a cell that cannot be read, or of any part of a block that cannot be
/// read whole.
pub open spec fn left_unread(kv: KeyValues, key: Seq<u8>) -> bool {
    ||| exists|cell: Cell| #[trigger] cells::cell_key(cell) == key && cell_unreadable(kv, cell)
    ||| exists|hash: CryptoHash| #[trigger]
        block_unreadable(kv, hash) && cells::block_keys(hash).contains(key)
}

/// Whether a tree is what a store is read as: the store keeps the tree but for what is left unread,
/// and what is left unread cannot be read. Of a block of which the height is left unread, all parts
/// are.
pub open spec fn loaded(kv: KeyValues, tree: TreeView) -> bool {
    &&& cells::keeps_readable(kv, tree)
    &&& forall|key: Seq<u8>| #[trigger] tree.unread.contains_key(key) ==> left_unread(kv, key)
    &&& forall|hash: CryptoHash, key: Seq<u8>|
        tree.unread.contains_key(cells::cell_key(Cell::BlockHeight(hash))) && kv.contains_key(key)
            && #[trigger] cells::block_keys(hash).contains(key) ==> tree.unread.contains_key(key)
}

/// A value that cannot be read spoils no other: if any one value in a store that keeps a tree is
/// replaced, nothing but that value is left unread, or the parts of the block that it is a part of.
pub proof fn law_damage_does_not_spread(
    kv: KeyValues,
    tree: TreeView,
    key: Seq<u8>,
    value: Seq<u8>,
    damaged: TreeView,
)
    requires
        cells::keeps(kv, tree),
        loaded(kv.insert(key, value), damaged),
    ensures
        forall|other: Seq<u8>| #[trigger]
            damaged.unread.contains_key(other) ==> other == key || exists|hash: CryptoHash|
                cells::block_keys(hash).contains(key) && #[trigger] cells::block_keys(
                    hash,
                ).contains(other),
{
    let now = kv.insert(key, value);
    assert forall|other: Seq<u8>| #[trigger]
        damaged.unread.contains_key(other) && other != key implies exists|hash: CryptoHash|
        cells::block_keys(hash).contains(key) && #[trigger] cells::block_keys(hash).contains(
            other,
        ) by {
        if exists|cell: Cell| #[trigger] cells::cell_key(cell) == other && cell_unreadable(now, cell) {
            let cell = choose|cell: Cell| #[trigger]
                cells::cell_key(cell) == other && cell_unreadable(now, cell);
            assert(cells::content(now, cell) == cells::content(kv, cell));
            assert(cells::cell_keeps(tree, cell, cells::content(kv, cell)));
        } else {
            let hash = choose|hash: CryptoHash| #[trigger]
                block_unreadable(now, hash) && cells::block_keys(hash).contains(other);
            if !cells::block_keys(hash).contains(key) {
                lemma_block_spared(kv, tree, key, value, hash);
            }
        }
    }
}

/// A block that a store keeps is held when a value of another is replaced.
proof fn lemma_block_spared(
    kv: KeyValues,
    tree: TreeView,
    key: Seq<u8>,
    value: Seq<u8>,
    hash: CryptoHash,
)
    requires
        cells::keeps(kv, tree),
        !cells::block_keys(hash).contains(key),
    ensures
        !block_unreadable(kv.insert(key, value), hash),
{
    let now = kv.insert(key, value);
    if block_unreadable(now, hash) {
        lemma_part_key(Cell::BlockHeight(hash));
        lemma_part_key(Cell::BlockJustify(hash));
        lemma_part_key(Cell::BlockDataHash(hash));
        lemma_part_key(Cell::BlockDataLen(hash));
        lemma_block_kept(kv, tree, hash);
        let block = tree.blocks[hash];
        assert forall|i: int| 0 <= i < block.data@.len() implies cells::content(
            now,
            Cell::BlockDatum(block.hash, i as u32),
        ) == Some((#[trigger] block.data@[i]).bytes@) by {
            lemma_part_key(Cell::BlockDatum(hash, i as u32));
        }
        assert(reading::block_held(now, block));
    }
}

/// In a store that keeps a tree, everything can be read.
proof fn lemma_kept_is_readable(kv: KeyValues, tree: TreeView, key: Seq<u8>)
    requires
        cells::keeps(kv, tree),
    ensures
        !left_unread(kv, key),
{
    if left_unread(kv, key) {
        if exists|hash: CryptoHash| #[trigger]
            block_unreadable(kv, hash) && cells::block_keys(hash).contains(key) {
            let hash = choose|hash: CryptoHash| #[trigger]
                block_unreadable(kv, hash) && cells::block_keys(hash).contains(key);
            lemma_block_kept(kv, tree, hash);
        } else {
            let cell = choose|cell: Cell| #[trigger]
                cells::cell_key(cell) == key && cell_unreadable(kv, cell);
            assert(cells::cell_keeps(tree, cell, cells::content(kv, cell)));
        }
    }
}

/// A block that a store keeps is held.
proof fn lemma_block_kept(kv: KeyValues, tree: TreeView, hash: CryptoHash)
    requires
        cells::keeps(kv, tree),
        cells::content(kv, Cell::BlockHeight(hash)) is Some,
    ensures
        tree.blocks.contains_key(hash),
        tree.blocks[hash].hash == hash,
        reading::block_held(kv, tree.blocks[hash]),
{
    let a = Cell::BlockHeight(hash);
    let b = Cell::BlockJustify(hash);
    let c = Cell::BlockDataHash(hash);
    let d = Cell::BlockDataLen(hash);
    assert(cells::cell_keeps(tree, a, cells::content(kv, a)));
    assert(cells::cell_keeps(tree, b, cells::content(kv, b)));
    assert(cells::cell_keeps(tree, c, cells::content(kv, c)));
    assert(cells::cell_keeps(tree, d, cells::content(kv, d)));
    let block = tree.blocks[hash];
    assert forall|i: int| 0 <= i < block.data@.len() implies cells::content(
        kv,
        Cell::BlockDatum(block.hash, i as u32),
    ) == Some((#[trigger] block.data@[i]).bytes@) by {
        let e = Cell::BlockDatum(hash, i as u32);
        assert(cells::cell_keeps(tree, e, cells::content(kv, e)));
    }
}

/// The key of a cell begins with the byte that names its variable. Its length tells how the
/// variable is owned.
proof fn lemma_key_shape(cell: Cell)
    ensures
        cells::cell_key(cell).len() >= 1,
        cells::cell_key(cell)[0] == cells::cell_tag(cell),
        cell is BlockHeight ==> cells::cell_key(cell).len() == 34 && cells::cell_key(cell)[33]
            == BLOCK_HEIGHT,
        cell is BlockAtHeight ==> cells::cell_key(cell).len() == 9,
        (cell is Children || cell is PendingAppStateUpdates || cell is ValidatorSetUpdatesStatus)
            ==> cells::cell_key(cell).len() == 33,
        !is_part(cell) && !(cell is BlockHeight || cell is BlockAtHeight || cell is Children || cell
            is PendingAppStateUpdates || cell is ValidatorSetUpdatesStatus || cell is AppState)
            ==> cells::cell_key(cell).len() == 1,
{
    if cell is BlockAtHeight {
        wire::lemma_u64(cell->BlockAtHeight_0.0, 0);
    }
}

/// What reading a key with its value comes to.
spec fn entry_read(kv: KeyValues, key: Seq<u8>, r: Result<Option<WriteOp>, ()>) -> bool {
    match r {
        Ok(Some(op)) => op_at_key(kv, key, op),
        Ok(None) => forall|cell: Cell| !is_part(cell) ==> #[trigger] cells::cell_key(cell) != key,
        Err(_) => fails(kv, key),
    }
}

/// Whether an operation sets what the key `key` is for to what a store holds.
spec fn op_at_key(kv: KeyValues, key: Seq<u8>, op: WriteOp) -> bool {
    match op {
        WriteOp::SetBlock(block) => reading::block_held(kv, block) && cells::cell_key(
            Cell::BlockHeight(block.hash),
        ) == key,
        _ => exists|cell: Cell| #[trigger]
            cells::cell_key(cell) == key && cells::content(kv, cell) is Some && op_reads(
                op,
                cell,
                cells::content(kv, cell)->0,
            ),
    }
}

/// Leader records from the front of bytes.
fn decode_reputation(bytes: &Vec<u8>) -> (r: Option<LeaderReputation>)
    ensures
        match r {
            Some(reputation) => cells::begins_with_records(
                bytes@,
                reputation.entries@,
                reputation.window_size,
            ),
            None => forall|entries: Seq<([u8; 32], LeaderReputationEntry)>, window_size: u32|
                !#[trigger] cells::begins_with_records(bytes@, entries, window_size),
        },
{
    assert(bytes@.skip(0) =~= bytes@);
    let (entries, next): (Vec<([u8; 32], LeaderReputationEntry)>, usize) = match get_vector(
        bytes,
        0,
    ) {
        Some(found) => found,
        None => {
            assert forall|other: Seq<([u8; 32], LeaderReputationEntry)>, window_size: u32|
                !#[trigger] cells::begins_with_records(bytes@, other, window_size) by {
                if cells::begins_with_records(bytes@, other, window_size) {
                    lemma_records_split(bytes@, other, window_size);
                }
            }
            return None;
        },
    };
    match u32::get(bytes, next) {
        Some((window_size, end)) => {
            proof {
                let head = cells::reputation_bytes(entries@, window_size);
                assert(bytes@ =~= head + bytes@.skip(end as int));
                wire::lemma_prefix(head, bytes@);
            }
            Some(LeaderReputation { entries: Arc::new(entries), window_size })
        },
        None => {
            assert forall|other: Seq<([u8; 32], LeaderReputationEntry)>, window_size: u32|
                !#[trigger] cells::begins_with_records(bytes@, other, window_size) by {
                if cells::begins_with_records(bytes@, other, window_size) {
                    lemma_records_split(bytes@, other, window_size);
                    let rest = bytes@.skip(
                        cells::reputation_bytes(other, window_size).len() as int,
                    );
                    wire::lemma_vector(
                        other,
                        window_size.encoding() + rest,
                        entries@,
                        bytes@.skip(next as int),
                    );
                }
            }
            None
        },
    }
}

/// Leader records at the front of bytes are a list, and a number after it.
proof fn lemma_records_split(
    bytes: Seq<u8>,
    entries: Seq<([u8; 32], LeaderReputationEntry)>,
    window_size: u32,
)
    requires
        cells::begins_with_records(bytes, entries, window_size),
    ensures
        bytes == wire::vector_bytes(entries) + (window_size.encoding() + bytes.skip(
            cells::reputation_bytes(entries, window_size).len() as int,
        )),
{
    let head = cells::reputation_bytes(entries, window_size);
    wire::lemma_prefix(head, bytes);
    assert(bytes =~= wire::vector_bytes(entries) + (window_size.encoding() + bytes.skip(
        head.len() as int,
    )));
}

/// The cell of a variable that there is one of.
spec fn single_cell(tag: u8) -> Option<Cell> {
    if tag == COMMITTED_VALIDATOR_SET {
        Some(Cell::CommittedValidatorSet)
    } else if tag == PREVIOUS_VALIDATOR_SET {
        Some(Cell::PreviousValidatorSet)
    } else if tag == VALIDATOR_SET_UPDATE_BLOCK_HEIGHT {
        Some(Cell::ValidatorSetUpdateHeight)
    } else if tag == VALIDATOR_SET_UPDATE_DECIDED {
        Some(Cell::ValidatorSetUpdateDecided)
    } else if tag == LOCKED_PC {
        Some(Cell::LockedPC)
    } else if tag == HIGHEST_PC {
        Some(Cell::HighestPC)
    } else if tag == HIGHEST_VIEW_ENTERED {
        Some(Cell::HighestViewEntered)
    } else if tag == HIGHEST_VIEW_PHASE_VOTED {
        Some(Cell::HighestViewPhaseVoted)
    } else if tag == HIGHEST_COMMITTED_BLOCK {
        Some(Cell::HighestCommittedBlock)
    } else if tag == NEWEST_BLOCK {
        Some(Cell::NewestBlock)
    } else if tag == HIGHEST_TC {
        Some(Cell::HighestTC)
    } else if tag == LOCAL_TIP {
        Some(Cell::LocalTip)
    } else if tag == LAST_VOTED_PROPOSAL {
        Some(Cell::LastVotedProposal)
    } else if tag == SPECULATIVE_COMMITS {
        Some(Cell::SpeculativeCommits)
    } else if tag == EQUIVOCATION_EVIDENCE {
        Some(Cell::EquivocationEvidence)
    } else if tag == LEADER_REPUTATION {
        Some(Cell::LeaderReputation)
    } else if tag == BLOCK_TREE_PRUNED_HEIGHT {
        Some(Cell::PrunedHeight)
    } else if tag == APP_FED_BLOCK_HEIGHT {
        Some(Cell::AppFedHeight)
    } else {
        None
    }
}

/// The operation that sets a variable that there is one of to what a value encodes. There is none
/// if the value is no encoding.
#[verifier::rlimit(40)]
fn single_op(tag: u8, value: &Vec<u8>, Ghost(cell): Ghost<Cell>) -> (r: Option<WriteOp>)
    requires
        single_cell(tag) == Some(cell),
    ensures
        match r {
            Some(op) => op_reads(op, cell, value@) && !(op is SetBlock),
            None => forall|tree: TreeView|
                cells::tree_fits(tree) ==> !#[trigger] cells::cell_keeps(
                    tree,
                    cell,
                    Some(value@),
                ),
        },
{
    if tag == COMMITTED_VALIDATOR_SET {
        match decode_vector_front::<(VerifyingKey, Power)>(value) {
            Some(set) => Some(WriteOp::SetCommittedValidatorSet(ValidatorSet { entries: Arc::new(set) })),
            None => None,
        }
    } else if tag == PREVIOUS_VALIDATOR_SET {
        match decode_vector_front::<(VerifyingKey, Power)>(value) {
            Some(set) => Some(WriteOp::SetPreviousValidatorSet(ValidatorSet { entries: Arc::new(set) })),
            None => None,
        }
    } else if tag == VALIDATOR_SET_UPDATE_BLOCK_HEIGHT {
        match decode_front::<u64>(value) {
            Some(height) => Some(WriteOp::SetValidatorSetUpdateHeight(BlockHeight(height))),
            None => None,
        }
    } else if tag == VALIDATOR_SET_UPDATE_DECIDED {
        match decode_front::<bool>(value) {
            Some(decided) => Some(WriteOp::SetValidatorSetUpdateDecided(decided)),
            None => None,
        }
    } else if tag == LOCKED_PC {
        match decode_front::<PhaseCertificate>(value) {
            Some(pc) => Some(WriteOp::SetLockedPC(pc)),
            None => None,
        }
    } else if tag == HIGHEST_PC {
        match decode_front::<PhaseCertificate>(value) {
            Some(pc) => Some(WriteOp::SetHighestPC(pc)),
            None => None,
        }
    } else if tag == HIGHEST_VIEW_ENTERED {
        match decode_front::<u64>(value) {
            Some(view) => Some(WriteOp::SetHighestViewEntered(ViewNumber(view))),
            None => None,
        }
    } else if tag == HIGHEST_VIEW_PHASE_VOTED {
        match decode_front::<u64>(value) {
            Some(view) => Some(WriteOp::SetHighestViewPhaseVoted(ViewNumber(view))),
            None => None,
        }
    } else if tag == HIGHEST_COMMITTED_BLOCK {
        match decode_front::<CryptoHash>(value) {
            Some(block) => Some(WriteOp::SetHighestCommittedBlock(block)),
            None => None,
        }
    } else if tag == NEWEST_BLOCK {
        match decode_front::<CryptoHash>(value) {
            Some(block) => Some(WriteOp::SetNewestBlock(block)),
            None => None,
        }
    } else if tag == HIGHEST_TC {
        match decode_front::<TimeoutCertificate>(value) {
            Some(tc) => Some(WriteOp::SetHighestTC(tc)),
            None => None,
        }
    } else if tag == LOCAL_TIP {
        match decode_front::<TipInfo>(value) {
            Some(tip) => Some(WriteOp::SetLocalTip(tip)),
            None => None,
        }
    } else if tag == LAST_VOTED_PROPOSAL {
        match decode_front::<(u64, CryptoHash)>(value) {
            Some((view, block)) => Some(WriteOp::SetLastVotedProposal(ViewNumber(view), block)),
            None => None,
        }
    } else if tag == SPECULATIVE_COMMITS {
        match decode_vector_front::<CryptoHash>(value) {
            Some(commits) => Some(WriteOp::SetSpeculativeCommits(ChildrenList::new(commits))),
            None => None,
        }
    } else if tag == EQUIVOCATION_EVIDENCE {
        match decode_vector_front::<EvidenceEntry>(value) {
            Some(evidence) => Some(WriteOp::SetEquivocationEvidence(Arc::new(evidence))),
            None => None,
        }
    } else if tag == LEADER_REPUTATION {
        match decode_reputation(value) {
            Some(reputation) => Some(WriteOp::SetLeaderReputation(reputation)),
            None => None,
        }
    } else if tag == BLOCK_TREE_PRUNED_HEIGHT {
        match decode_front::<u64>(value) {
            Some(height) => Some(WriteOp::SetPrunedHeight(BlockHeight(height))),
            None => None,
        }
    } else {
        match decode_front::<u64>(value) {
            Some(height) => Some(WriteOp::SetAppFedHeight(BlockHeight(height))),
            None => None,
        }
    }
}

/// Where a key is a byte and a hash, it is that of what the block with the hash owns.
proof fn lemma_hash_key(key: Seq<u8>, owner: CryptoHash)
    requires
        key.len() == 33,
        owner.bytes@ == key.subrange(1, 33),
    ensures
        key == seq![key[0]] + owner.bytes@,
{
    assert(key =~= seq![key[0]] + owner.bytes@);
}

/// Read a key that a block owns a variable by.
fn read_owned(key: &Vec<u8>, value: &Vec<u8>, Ghost(kv): Ghost<KeyValues>) -> (r: Result<
    Option<WriteOp>,
    (),
>)
    requires
        key@.len() == 33,
        kv.contains_key(key@),
        kv[key@] == value@,
        key@[0] == BLOCK_TO_CHILDREN || key@[0] == PENDING_APP_STATE_UPDATES || key@[0]
            == VALIDATOR_SET_UPDATES_STATUS,
    ensures
        entry_read(kv, key@, r),
{
    let owner: CryptoHash = read_hash(key, 1);
    proof {
        lemma_hash_key(key@, owner);
    }
    let tag: u8 = key[0];
    if tag == BLOCK_TO_CHILDREN {
        let ghost cell = Cell::Children(owner);
        match decode_vector_front::<CryptoHash>(value) {
            Some(children) => {
                let op = WriteOp::SetChildren(owner, ChildrenList::new(children));
                proof {
                    assert(op_reads(op, cell, value@));
                }
                Ok(Some(op))
            },
            None => {
                assert(cell_unreadable(kv, cell));
                Err(())
            },
        }
    } else if tag == PENDING_APP_STATE_UPDATES {
        let ghost cell = Cell::PendingAppStateUpdates(owner);
        match decode_front::<AppStateUpdates>(value) {
            Some(updates) => {
                let op = WriteOp::SetPendingAppStateUpdates(owner, updates);
                proof {
                    assert(op_reads(op, cell, value@));
                }
                Ok(Some(op))
            },
            None => {
                assert(cell_unreadable(kv, cell));
                Err(())
            },
        }
    } else {
        let ghost cell = Cell::ValidatorSetUpdatesStatus(owner);
        match decode_front::<ValidatorSetUpdatesStatus>(value) {
            Some(status) => {
                let op = WriteOp::SetValidatorSetUpdates(owner, status);
                proof {
                    assert(op_reads(op, cell, value@));
                }
                Ok(Some(op))
            },
            None => {
                assert(cell_unreadable(kv, cell));
                Err(())
            },
        }
    }
}

/// Read the key of a value of the application's state.
fn read_app_state(key: &Vec<u8>, value: &Vec<u8>, Ghost(kv): Ghost<KeyValues>) -> (r: WriteOp)
    requires
        key@.len() >= 1,
        key@[0] == COMMITTED_APP_STATE,
        kv.contains_key(key@),
        kv[key@] == value@,
    ensures
        entry_read(kv, key@, Ok(Some(r))),
{
    let mut of: Vec<u8> = Vec::new();
    let mut i: usize = 1;
    while i < key.len()
        invariant
            1 <= i <= key@.len(),
            of@ == key@.subrange(1, i as int),
        decreases key@.len() - i,
    {
        of.push(key[i]);
        i = i + 1;
        assert(of@ =~= key@.subrange(1, i as int));
    }
    let op = WriteOp::SetAppState(Bytes::new(of), Bytes::new(copy_vec(value)));
    proof {
        let cell = Cell::AppState(of@);
        assert(cells::cell_key(cell) =~= key@);
        assert(op_reads(op, cell, value@));
    }
    op
}

/// Read the key of a committed block.
fn read_block_at_height(key: &Vec<u8>, value: &Vec<u8>, Ghost(kv): Ghost<KeyValues>) -> (r: Result<
    Option<WriteOp>,
    (),
>)
    requires
        key@.len() == 9,
        key@[0] == BLOCK_AT_HEIGHT,
        kv.contains_key(key@),
        kv[key@] == value@,
    ensures
        entry_read(kv, key@, r),
{
    let height: u64 = read_u64(key, 1);
    let ghost cell = Cell::BlockAtHeight(BlockHeight(height));
    assert(cells::cell_key(cell) =~= key@);
    match decode_front::<CryptoHash>(value) {
        Some(block) => {
            let op = WriteOp::SetBlockAtHeight(BlockHeight(height), block);
            proof {
                assert(op_reads(op, cell, value@));
            }
            Ok(Some(op))
        },
        None => {
            assert(cell_unreadable(kv, cell));
            Err(())
        },
    }
}

/// Read the key of a block.
fn read_block_key(table: &RawTable, key: &Vec<u8>) -> (r: Result<Option<WriteOp>, ()>)
    requires
        key@.len() == 34,
        key@[0] == BLOCKS,
        key@[33] == BLOCK_HEIGHT,
        reading::raw(*table).contains_key(key@),
    ensures
        entry_read(reading::raw(*table), key@, r),
{
    let ghost kv = reading::raw(*table);
    let hash: CryptoHash = read_hash(key, 1);
    let ghost cell = Cell::BlockHeight(hash);
    assert(cells::cell_key(cell) =~= key@);
    match read_block(table, &hash) {
        Ok(Some(block)) => Ok(Some(WriteOp::SetBlock(block))),
        Ok(None) => {
            assert(false);
            Ok(None)
        },
        Err(e) => {
            proof {
                reading::lemma_fault(kv, hash, e);
                assert(block_unreadable(kv, hash));
            }
            Err(())
        },
    }
}

/// Read a key with its value. There is nothing to read if it is no cell's.
fn read_entry(table: &RawTable, key: &Vec<u8>, value: &Vec<u8>) -> (r: Result<Option<WriteOp>, ()>)
    requires
        reading::raw(*table).contains_key(key@),
        reading::raw(*table)[key@] == value@,
    ensures
        entry_read(reading::raw(*table), key@, r),
{
    let ghost kv = reading::raw(*table);
    assert forall|cell: Cell| #[trigger] cells::cell_key(cell) == key@ implies key@.len() >= 1
        && key@[0] == cells::cell_tag(cell) by {
        lemma_key_shape(cell);
    }
    if key.len() == 0 {
        return Ok(None);
    }
    let tag: u8 = key[0];
    if tag == COMMITTED_APP_STATE {
        return Ok(Some(read_app_state(key, value, Ghost(kv))));
    }
    if tag == BLOCKS {
        if key.len() == 34 && key[33] == BLOCK_HEIGHT {
            return read_block_key(table, key);
        }
        assert forall|cell: Cell| !is_part(cell) implies #[trigger] cells::cell_key(cell)
            != key@ by {
            lemma_key_shape(cell);
        }
        return Ok(None);
    }
    if tag == BLOCK_AT_HEIGHT {
        if key.len() == 9 {
            return read_block_at_height(key, value, Ghost(kv));
        }
        assert forall|cell: Cell| !is_part(cell) implies #[trigger] cells::cell_key(cell)
            != key@ by {
            lemma_key_shape(cell);
        }
        return Ok(None);
    }
    if tag == BLOCK_TO_CHILDREN || tag == PENDING_APP_STATE_UPDATES || tag
        == VALIDATOR_SET_UPDATES_STATUS {
        if key.len() == 33 {
            return read_owned(key, value, Ghost(kv));
        }
        assert forall|cell: Cell| !is_part(cell) implies #[trigger] cells::cell_key(cell)
            != key@ by {
            lemma_key_shape(cell);
        }
        return Ok(None);
    }
    if key.len() != 1 || tag > APP_FED_BLOCK_HEIGHT {
        assert forall|cell: Cell| !is_part(cell) implies #[trigger] cells::cell_key(cell)
            != key@ by {
            lemma_key_shape(cell);
        }
        return Ok(None);
    }
    let ghost cell = single_cell(tag)->0;
    assert(single_cell(tag) is Some);
    assert(cells::cell_key(cell) =~= key@);
    match single_op(tag, value, Ghost(cell)) {
        Some(op) => {
            proof {
                assert(op_reads(op, cell, value@));
            }
            Ok(Some(op))
        },
        None => {
            assert(cell_unreadable(kv, cell));
            Err(())
        },
    }
}

/// The keys of the first entries of a table.
spec fn first_keys(table: RawTable, count: int) -> Set<Seq<u8>> {
    Set::new(
        |key: Seq<u8>|
            exists|at: int| 0 <= at < count && (#[trigger] table.spec_entry(at)).0@ == key,
    )
}

/// The keys of the first entries, with one more.
proof fn lemma_one_more(table: RawTable, at: int)
    requires
        0 <= at < table.spec_len(),
    ensures
        first_keys(table, at + 1) == first_keys(table, at).insert(table.spec_entry(at).0@),
        first_keys(table, 0) == Set::<Seq<u8>>::empty(),
{
    assert(first_keys(table, at + 1) =~= first_keys(table, at).insert(table.spec_entry(at).0@));
    assert(first_keys(table, 0) =~= Set::<Seq<u8>>::empty());
}

/// The keys of all entries are all keys.
proof fn lemma_all_keys(table: RawTable)
    ensures
        first_keys(table, table.spec_len()) == reading::raw(table).dom(),
{
    table.lemma_entries();
    assert(first_keys(table, table.spec_len()) =~= reading::raw(table).dom());
}

/// Whether a key is one of `failed`, or that of a part of a block whose height is.
spec fn goes_unread(failed: Set<Seq<u8>>, key: Seq<u8>) -> bool {
    ||| failed.contains(key)
    ||| exists|hash: CryptoHash| #[trigger]
        cells::block_keys(hash).contains(key) && failed.contains(
            cells::cell_key(Cell::BlockHeight(hash)),
        )
}

/// A block is told from the key of a part of it.
proof fn lemma_one_owner(key: Seq<u8>, a: CryptoHash, b: CryptoHash)
    requires
        cells::block_keys(a).contains(key),
        cells::block_keys(b).contains(key),
    ensures
        a == b,
{
    assert(a.bytes =~= b.bytes);
}

/// The key of a part of a block is one of the block's keys.
proof fn lemma_part_key(cell: Cell)
    ensures
        match cell {
            Cell::BlockHeight(hash) => cells::block_keys(hash).contains(cells::cell_key(cell)),
            Cell::BlockJustify(hash) => cells::block_keys(hash).contains(cells::cell_key(cell)),
            Cell::BlockDataHash(hash) => cells::block_keys(hash).contains(cells::cell_key(cell)),
            Cell::BlockDataLen(hash) => cells::block_keys(hash).contains(cells::cell_key(cell)),
            Cell::BlockDatum(hash, _) => cells::block_keys(hash).contains(cells::cell_key(cell)),
            _ => cells::cell_key(cell)[0] != BLOCKS,
        },
{
    let key = cells::cell_key(cell);
    match cell {
        Cell::BlockHeight(hash) => {
            assert(key.subrange(1, 33) =~= hash.bytes@);
        },
        Cell::BlockJustify(hash) => {
            assert(key.subrange(1, 33) =~= hash.bytes@);
        },
        Cell::BlockDataHash(hash) => {
            assert(key.subrange(1, 33) =~= hash.bytes@);
        },
        Cell::BlockDataLen(hash) => {
            assert(key.subrange(1, 33) =~= hash.bytes@);
        },
        Cell::BlockDatum(hash, _) => {
            assert(key.subrange(1, 33) =~= hash.bytes@);
        },
        _ => {},
    }
}

/// What was read without the keys that failed is what the store keeps apart from what is unread.
proof fn lemma_rest_kept(
    kv: KeyValues,
    failed: Set<Seq<u8>>,
    unread: Set<Seq<u8>>,
    tree: TreeView,
)
    requires
        partly(kv, kv.dom().difference(failed), tree),
        forall|key: Seq<u8>| #[trigger]
            unread.contains(key) <==> kv.contains_key(key) && goes_unread(failed, key),
        failed.subset_of(kv.dom()),
        forall|key: Seq<u8>| #[trigger] failed.contains(key) ==> fails(kv, key),
    ensures
        cells::keeps(kv.remove_keys(unread), tree),
{
    reveal(partly);
    let rest = kv.remove_keys(unread);
    let keys = kv.dom().difference(failed);
    assert forall|cell: Cell| cells::cell_keeps(
        tree,
        cell,
        #[trigger] cells::content(rest, cell),
    ) by {
        let key = cells::cell_key(cell);
        assert(cells::cell_keeps(tree, cell, seen(kv, keys, cell)));
        lemma_part_key(cell);
        if is_part(cell) {
            let hash = match cell {
                Cell::BlockJustify(hash) => hash,
                Cell::BlockDataHash(hash) => hash,
                Cell::BlockDataLen(hash) => hash,
                Cell::BlockDatum(hash, _) => hash,
                _ => arbitrary(),
            };
            let height = Cell::BlockHeight(hash);
            lemma_part_key(height);
            assert(cells::cell_keeps(tree, height, seen(kv, keys, height)));
            if tree.blocks.contains_key(hash) && unread.contains(key) {
                if failed.contains(key) {
                    lemma_parts_do_not_fail(kv, cell);
                }
                lemma_not_unread(kv, failed, cell, hash);
            }
        } else if cells::block_keys(cell->BlockHeight_0).contains(key) && cell is BlockHeight {
            if goes_unread(failed, key) && !failed.contains(key) {
                let hash = choose|hash: CryptoHash| #[trigger]
                    cells::block_keys(hash).contains(key) && failed.contains(
                        cells::cell_key(Cell::BlockHeight(hash)),
                    );
                lemma_one_owner(key, hash, cell->BlockHeight_0);
            }
            assert(unread.contains(key) == failed.contains(key) || !kv.contains_key(key));
            assert(cells::content(rest, cell) == seen(kv, keys, cell));
        } else {
            assert(unread.contains(key) == failed.contains(key) || !kv.contains_key(key));
            assert(cells::content(rest, cell) == seen(kv, keys, cell));
        }
    }
}

/// The key of a part of a block is not one that fails by itself.
proof fn lemma_parts_do_not_fail(kv: KeyValues, part: Cell)
    requires
        is_part(part),
    ensures
        !fails(kv, cells::cell_key(part)),
{
    let key = cells::cell_key(part);
    if exists|cell: Cell| #[trigger] cells::cell_key(cell) == key && cell_unreadable(kv, cell) {
        let cell = choose|cell: Cell| #[trigger]
            cells::cell_key(cell) == key && cell_unreadable(kv, cell);
        cells::law_cells_have_distinct_keys(cell, part);
    }
    if exists|hash: CryptoHash| #[trigger]
        block_unreadable(kv, hash) && cells::cell_key(Cell::BlockHeight(hash)) == key {
        let hash = choose|hash: CryptoHash| #[trigger]
            block_unreadable(kv, hash) && cells::cell_key(Cell::BlockHeight(hash)) == key;
        cells::law_cells_have_distinct_keys(Cell::BlockHeight(hash), part);
    }
}

/// The parts of a block whose height did not fail are not unread.
proof fn lemma_not_unread(kv: KeyValues, failed: Set<Seq<u8>>, cell: Cell, hash: CryptoHash)
    requires
        is_part(cell),
        cells::block_keys(hash).contains(cells::cell_key(cell)),
        !failed.contains(cells::cell_key(Cell::BlockHeight(hash))),
        !failed.contains(cells::cell_key(cell)),
    ensures
        !goes_unread(failed, cells::cell_key(cell)),
{
    let key = cells::cell_key(cell);
    if goes_unread(failed, key) {
        let other = choose|other: CryptoHash| #[trigger]
            cells::block_keys(other).contains(key) && failed.contains(
                cells::cell_key(Cell::BlockHeight(other)),
            );
        lemma_one_owner(key, hash, other);
    }
}

impl Store {
    /// The variables that a key-value store keeps. What cannot be read is set aside, and the rest is
    /// read: a value that is no encoding, and all parts of a block of which one is missing or no
    /// encoding. A store that keeps a block tree is read whole.
    pub fn load(entries: &Entries) -> (r: Store)
        ensures
            loaded(contents(entries@), r@),
            store::readable(r@) ==> cells::keeps(contents(entries@), r@),
            forall|tree: TreeView| #[trigger]
                cells::keeps(contents(entries@), tree) ==> store::readable(r@),
    {
        let ghost kv = contents(entries@);
        let table: RawTable = gather(entries);
        let (mut store, failed): (Store, RawTable) = read_all(&table);
        let unread: RawTable = set_aside(&table, &failed);
        let ghost read = store@;
        store.unread = unread;
        proof {
            lemma_rest_kept(kv, reading::raw(failed).dom(), reading::raw(unread).dom(), read);
            cells::lemma_same_but_unread(kv.remove_keys(store@.unread.dom()), read, store@);
            lemma_set_aside(kv, reading::raw(failed), store@.unread);
            if store::readable(store@) {
                assert(kv.remove_keys(store@.unread.dom()) =~= kv);
            }
            assert forall|tree: TreeView| #[trigger]
                cells::keeps(kv, tree) implies store::readable(store@) by {
                assert forall|key: Seq<u8>| !#[trigger] store@.unread.contains_key(key) by {
                    lemma_kept_is_readable(kv, tree, key);
                }
                assert(store@.unread =~= Map::empty());
            }
        }
        store
    }
}

/// What is set aside cannot be read, and blocks are set aside whole.
proof fn lemma_set_aside(kv: KeyValues, failed: KeyValues, unread: KeyValues)
    requires
        forall|key: Seq<u8>| #[trigger] failed.contains_key(key) ==> fails(kv, key),
        forall|key: Seq<u8>| #[trigger]
            unread.contains_key(key) <==> kv.contains_key(key) && goes_unread(failed.dom(), key),
    ensures
        forall|key: Seq<u8>| #[trigger] unread.contains_key(key) ==> left_unread(kv, key),
        forall|hash: CryptoHash, key: Seq<u8>|
            unread.contains_key(cells::cell_key(Cell::BlockHeight(hash))) && kv.contains_key(key)
                && #[trigger] cells::block_keys(hash).contains(key) ==> unread.contains_key(key),
{
    assert forall|key: Seq<u8>| #[trigger] unread.contains_key(key) implies left_unread(kv, key) by {
        if failed.contains_key(key) {
            lemma_fails_is_unread(kv, key);
        } else {
            let hash = choose|hash: CryptoHash| #[trigger]
                cells::block_keys(hash).contains(key) && failed.dom().contains(
                    cells::cell_key(Cell::BlockHeight(hash)),
                );
            let height = Cell::BlockHeight(hash);
            assert(failed.contains_key(cells::cell_key(height)));
            lemma_fails_of_height(kv, hash);
        }
    }
    assert forall|hash: CryptoHash, key: Seq<u8>|
        unread.contains_key(cells::cell_key(Cell::BlockHeight(hash))) && kv.contains_key(key)
            && #[trigger] cells::block_keys(hash).contains(key) implies unread.contains_key(key) by {
        let height = Cell::BlockHeight(hash);
        let at = cells::cell_key(height);
        lemma_part_key(height);
        if !failed.contains_key(at) {
            let other = choose|other: CryptoHash| #[trigger]
                cells::block_keys(other).contains(at) && failed.dom().contains(
                    cells::cell_key(Cell::BlockHeight(other)),
                );
            lemma_one_owner(at, hash, other);
        }
    }
}

/// A height that cannot be read is that of a block that cannot.
proof fn lemma_fails_of_height(kv: KeyValues, hash: CryptoHash)
    requires
        fails(kv, cells::cell_key(Cell::BlockHeight(hash))),
    ensures
        block_unreadable(kv, hash),
{
    let height = Cell::BlockHeight(hash);
    let key = cells::cell_key(height);
    if exists|cell: Cell| #[trigger] cells::cell_key(cell) == key && cell_unreadable(kv, cell) {
        let cell = choose|cell: Cell| #[trigger]
            cells::cell_key(cell) == key && cell_unreadable(kv, cell);
        cells::law_cells_have_distinct_keys(cell, height);
    } else {
        let other = choose|other: CryptoHash| #[trigger]
            block_unreadable(kv, other) && cells::cell_key(Cell::BlockHeight(other)) == key;
        cells::law_cells_have_distinct_keys(Cell::BlockHeight(other), height);
    }
}

/// A key that fails is left unread.
proof fn lemma_fails_is_unread(kv: KeyValues, key: Seq<u8>)
    requires
        fails(kv, key),
    ensures
        left_unread(kv, key),
{
    if !(exists|cell: Cell| #[trigger] cells::cell_key(cell) == key && cell_unreadable(kv, cell)) {
        let hash = choose|hash: CryptoHash| #[trigger]
            block_unreadable(kv, hash) && cells::cell_key(Cell::BlockHeight(hash)) == key;
        lemma_part_key(Cell::BlockHeight(hash));
    }
}

/// Read all keys of a table. Those that cannot be read are handed out with their values.
fn read_all(table: &RawTable) -> (r: (Store, RawTable))
    ensures
        partly(
            reading::raw(*table),
            reading::raw(*table).dom().difference(reading::raw(r.1).dom()),
            r.0@,
        ),
        reading::raw(r.1).dom().subset_of(reading::raw(*table).dom()),
        forall|key: Seq<u8>| #[trigger]
            reading::raw(r.1).contains_key(key) ==> fails(reading::raw(*table), key),
{
    let ghost kv = reading::raw(*table);
    let mut store = Store::new();
    let mut failed: RawTable = Table::new();
    let mut i: usize = 0;
    let count: usize = table.len();
    proof {
        lemma_nothing_seen(kv);
        assert(first_keys(*table, 0) =~= Set::<Seq<u8>>::empty());
        assert(first_keys(*table, 0).difference(reading::raw(failed).dom()) =~= Set::empty());
    }
    while i < count
        invariant
            i <= count,
            count == table.spec_len(),
            kv == reading::raw(*table),
            partly(
                kv,
                first_keys(*table, i as int).difference(reading::raw(failed).dom()),
                store@,
            ),
            forall|key: Seq<u8>| #[trigger]
                reading::raw(failed).contains_key(key) ==> first_keys(*table, i as int).contains(
                    key,
                ) && fails(kv, key),
        decreases count - i,
    {
        let (at, value) = table.entry(i);
        let ghost seen_before = first_keys(*table, i as int);
        let ghost failed_before = reading::raw(failed).dom();
        let ghost keys = seen_before.difference(failed_before);
        let ghost before = store@;
        let ghost key = at@;
        proof {
            lemma_one_more(*table, i as int);
            assert(!seen_before.contains(key));
        }
        match read_entry(table, &*at.bytes, &*value.bytes) {
            Ok(Some(op)) => {
                store.apply_op(&op);
                proof {
                    assert(seen_before.insert(key).difference(failed_before) =~= keys.insert(key));
                    match op {
                        WriteOp::SetBlock(block) => {
                            lemma_block_seen(kv, keys, before, block);
                        },
                        _ => {
                            let cell = choose|cell: Cell| #[trigger]
                                cells::cell_key(cell) == key && cells::content(kv, cell) is Some
                                    && op_reads(op, cell, cells::content(kv, cell)->0);
                            lemma_single_seen(kv, keys, before, op, cell);
                        },
                    }
                }
            },
            Ok(None) => {
                proof {
                    assert(seen_before.insert(key).difference(failed_before) =~= keys.insert(key));
                    lemma_no_cell(kv, keys, before, key);
                }
            },
            Err(_) => {
                put(&mut failed, at.clone(), value.clone());
                proof {
                    assert(seen_before.insert(key).difference(reading::raw(failed).dom()) =~= keys);
                }
            },
        }
        i = i + 1;
    }
    proof {
        lemma_all_keys(*table);
    }
    (store, failed)
}

/// The entries of a table that go unread.
fn set_aside(table: &RawTable, failed: &RawTable) -> (r: RawTable)
    ensures
        forall|key: Seq<u8>| #[trigger]
            reading::raw(r).contains_key(key) <==> reading::raw(*table).contains_key(key)
                && goes_unread(reading::raw(*failed).dom(), key),
        forall|key: Seq<u8>| #[trigger]
            reading::raw(r).contains_key(key) ==> reading::raw(r)[key] == reading::raw(*table)[key],
{
    let ghost gone = reading::raw(*failed).dom();
    let mut unread: RawTable = Table::new();
    let mut i: usize = 0;
    let count: usize = table.len();
    while i < count
        invariant
            i <= count,
            count == table.spec_len(),
            gone == reading::raw(*failed).dom(),
            forall|key: Seq<u8>| #[trigger]
                reading::raw(unread).contains_key(key) <==> first_keys(*table, i as int).contains(
                    key,
                ) && goes_unread(gone, key),
            forall|key: Seq<u8>| #[trigger]
                reading::raw(unread).contains_key(key) ==> reading::raw(unread)[key]
                    == reading::raw(*table)[key],
        decreases count - i,
    {
        let (at, value) = table.entry(i);
        proof {
            lemma_one_more(*table, i as int);
        }
        if is_unread(failed, at) {
            put(&mut unread, at.clone(), value.clone());
        }
        i = i + 1;
    }
    proof {
        lemma_all_keys(*table);
    }
    unread
}

/// Whether a key goes unread.
fn is_unread(failed: &RawTable, key: &Bytes) -> (r: bool)
    ensures
        r == goes_unread(reading::raw(*failed).dom(), key@),
{
    let ghost gone = reading::raw(*failed).dom();
    if failed.contains_key(key) {
        return true;
    }
    let bytes: &Vec<u8> = &*key.bytes;
    if bytes.len() < 33 || bytes[0] != BLOCKS {
        return false;
    }
    let hash: CryptoHash = read_hash(bytes, 1);
    let height: Vec<u8> = part_key(&hash, BLOCK_HEIGHT);
    assert(cells::block_keys(hash).contains(key@));
    assert(height@ == cells::cell_key(Cell::BlockHeight(hash)));
    let r: bool = failed.contains_key(&Bytes::new(height));
    proof {
        if goes_unread(gone, key@) {
            let other = choose|other: CryptoHash| #[trigger]
                cells::block_keys(other).contains(key@) && gone.contains(
                    cells::cell_key(Cell::BlockHeight(other)),
                );
            lemma_one_owner(key@, hash, other);
        }
    }
    r
}

} // verus!
