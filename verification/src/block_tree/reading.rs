//! Reading single values from what a key-value store holds.

use vstd::prelude::*;

use crate::block_tree::cells;
use crate::block_tree::cells::{
    Cell, KeyValues, BLOCK_DATA_HASH, BLOCK_DATA_LEN, BLOCK_HEIGHT, BLOCK_JUSTIFY,
};
use crate::block_tree::errors;
use crate::block_tree::errors::{missing, unreadable, BlockTreeError, Key};
use crate::block_tree::persisting::{copy_vec, datum_key, part_key};
use crate::hotstuff::types::PhaseCertificate;
use crate::types::block::Block;
use crate::types::data_types::{BlockHeight, Bytes, CryptoHash, Data, Datum};
use crate::types::table::Table;
use crate::wire;
use crate::wire::{decode_front, Wire};

verus! {

/// Keys with their values, as a key-value store holds them.
pub type RawTable = Table<Bytes, Bytes>;

/// What a table of keys and values says.
pub open spec fn raw(table: RawTable) -> KeyValues {
    table@.map_values(|value: Bytes| value@)
}

/// Whether bytes do not begin with an encoding of any `T`.
pub open spec fn is_no_encoding<T: Wire>(bytes: Seq<u8>) -> bool {
    forall|value: T| !#[trigger] wire::begins_with(bytes, value)
}

/// What reading a cell with `content`, whose variable is called `key`, comes to: the value that the
/// content begins with, nothing if the cell is empty, and a failure if the content is no encoding.
pub open spec fn is_read<T: Wire>(
    content: Option<Seq<u8>>,
    key: Key,
    r: Result<Option<T>, BlockTreeError>,
) -> bool {
    match (content, r) {
        (None, Ok(None)) => true,
        (Some(bytes), Ok(Some(value))) => wire::begins_with(bytes, value),
        (Some(bytes), Err(e)) => is_no_encoding::<T>(bytes) && e == errors::undecodable(key),
        _ => false,
    }
}

/// What reading a cell that should not be empty comes to.
pub open spec fn is_read_needed<T: Wire>(
    content: Option<Seq<u8>>,
    key: Key,
    r: Result<T, BlockTreeError>,
) -> bool {
    match r {
        Ok(value) => cells::holds(content, value),
        Err(e) => is_fault::<T>(content, key, e),
    }
}

/// Whether reading a cell with `content` that should not be empty fails with `e`.
pub open spec fn is_fault<T: Wire>(content: Option<Seq<u8>>, key: Key, e: BlockTreeError) -> bool {
    match content {
        None => e == errors::not_found(key),
        Some(bytes) => is_no_encoding::<T>(bytes) && e == errors::undecodable(key),
    }
}

/// Whether a store holds all parts of a block.
pub open spec fn block_held(kv: KeyValues, block: Block) -> bool {
    &&& block.justify.fits()
    &&& block.data@.len() <= u32::MAX
    &&& cells::holds(cells::content(kv, Cell::BlockHeight(block.hash)), block.height.0)
    &&& cells::holds(cells::content(kv, Cell::BlockJustify(block.hash)), block.justify)
    &&& cells::holds(cells::content(kv, Cell::BlockDataHash(block.hash)), block.data_hash)
    &&& cells::holds(
        cells::content(kv, Cell::BlockDataLen(block.hash)),
        block.data@.len() as u32,
    )
    &&& forall|i: int|
        0 <= i < block.data@.len() ==> cells::content(
            kv,
            Cell::BlockDatum(block.hash, i as u32),
        ) == Some((#[trigger] block.data@[i]).bytes@)
}

/// Whether a part of the data of a block is missing.
pub open spec fn lacks_datum(kv: KeyValues, block: CryptoHash) -> bool {
    exists|len: u32, i: u32|
        i < len && #[trigger] cells::holds(cells::content(kv, Cell::BlockDataLen(block)), len)
            && #[trigger] cells::content(kv, Cell::BlockDatum(block, i)) is None
}

/// Whether `e` says why a block of which there is a height cannot be read: a part of it that is
/// missing or no encoding.
pub open spec fn block_fault(kv: KeyValues, block: CryptoHash, e: BlockTreeError) -> bool {
    ||| is_fault::<u64>(
        cells::content(kv, Cell::BlockHeight(block)),
        Key::BlockHeight { block },
        e,
    )
    ||| is_fault::<PhaseCertificate>(
        cells::content(kv, Cell::BlockJustify(block)),
        Key::BlockJustify { block },
        e,
    )
    ||| is_fault::<CryptoHash>(
        cells::content(kv, Cell::BlockDataHash(block)),
        Key::BlockDataHash { block },
        e,
    )
    ||| data_fault(kv, block, e)
}

/// Whether `e` says why the data of a block cannot be read.
pub open spec fn data_fault(kv: KeyValues, block: CryptoHash, e: BlockTreeError) -> bool {
    ||| is_fault::<u32>(
        cells::content(kv, Cell::BlockDataLen(block)),
        Key::BlockDataLength { block },
        e,
    )
    ||| lacks_datum(kv, block) && e == errors::not_found(Key::BlockData { block })
}

/// What reading a block comes to. There is none where there is no height.
pub open spec fn is_block_read(
    kv: KeyValues,
    block: CryptoHash,
    r: Result<Option<Block>, BlockTreeError>,
) -> bool {
    match r {
        Ok(Some(found)) => found.hash == block && block_held(kv, found),
        Ok(None) => cells::content(kv, Cell::BlockHeight(block)) is None,
        Err(e) => cells::content(kv, Cell::BlockHeight(block)) is Some && block_fault(kv, block, e),
    }
}

/// What reading the data of a block comes to. There is none where there is no length.
pub open spec fn is_data_read(
    kv: KeyValues,
    block: CryptoHash,
    r: Result<Option<Data>, BlockTreeError>,
) -> bool {
    match r {
        Ok(Some(data)) => {
            &&& data@.len() <= u32::MAX
            &&& cells::holds(cells::content(kv, Cell::BlockDataLen(block)), data@.len() as u32)
            &&& forall|i: int|
                0 <= i < data@.len() ==> cells::content(kv, Cell::BlockDatum(block, i as u32))
                    == Some((#[trigger] data@[i]).bytes@)
        },
        Ok(None) => cells::content(kv, Cell::BlockDataLen(block)) is None,
        Err(e) => cells::content(kv, Cell::BlockDataLen(block)) is Some && data_fault(kv, block, e),
    }
}

/// A block of which a part is at fault is not held.
pub(crate) proof fn lemma_fault(kv: KeyValues, hash: CryptoHash, e: BlockTreeError)
    requires
        block_fault(kv, hash, e),
    ensures
        forall|block: Block| #[trigger] block_held(kv, block) ==> block.hash != hash,
{
    assert forall|block: Block| #[trigger] block_held(kv, block) implies block.hash != hash by {
        if block.hash == hash {
            if lacks_datum(kv, hash) {
                let (len, i) = choose|len: u32, i: u32|
                    i < len && #[trigger] cells::holds(
                        cells::content(kv, Cell::BlockDataLen(hash)),
                        len,
                    ) && #[trigger] cells::content(kv, Cell::BlockDatum(hash, i)) is None;
                lemma_one_length(
                    cells::content(kv, Cell::BlockDataLen(hash))->0,
                    len,
                    block.data@.len() as u32,
                );
                assert(block.data@[i as int].bytes@ == block.data@[i as int].bytes@);
            }
        }
    }
}

/// Bytes begin with the encoding of one number at most.
proof fn lemma_one_length(bytes: Seq<u8>, a: u32, b: u32)
    requires
        wire::begins_with(bytes, a),
        wire::begins_with(bytes, b),
    ensures
        a == b,
{
    wire::lemma_prefix(a.encoding(), bytes);
    wire::lemma_prefix(b.encoding(), bytes);
    wire::lemma_u32(a, b);
    wire::lemma_u32(b, a);
    wire::lemma_head(
        a.encoding(),
        bytes.skip(a.encoding().len() as int),
        b.encoding(),
        bytes.skip(b.encoding().len() as int),
    );
}

/// The bytes under a key.
pub(crate) fn find(table: &RawTable, key: Vec<u8>) -> (r: Option<&Bytes>)
    ensures
        match r {
            Some(value) => raw(*table).contains_key(key@) && raw(*table)[key@] == value@,
            None => !raw(*table).contains_key(key@),
        },
{
    table.get(&Bytes::new(key))
}

/// Read a cell.
pub(crate) fn read_value<T: Wire>(
    table: &RawTable,
    at: Vec<u8>,
    key: Key,
    Ghost(cell): Ghost<Cell>,
) -> (r: Result<Option<T>, BlockTreeError>)
    requires
        at@ == cells::cell_key(cell),
    ensures
        is_read(cells::content(raw(*table), cell), key, r),
{
    match find(table, at) {
        Some(bytes) => match decode_front(&*bytes.bytes) {
            Some(value) => Ok(Some(value)),
            None => Err(unreadable(key)),
        },
        None => Ok(None),
    }
}

/// Read a cell that should not be empty.
pub(crate) fn read_needed<T: Wire>(
    table: &RawTable,
    at: Vec<u8>,
    key: Key,
    Ghost(cell): Ghost<Cell>,
) -> (r: Result<T, BlockTreeError>)
    requires
        at@ == cells::cell_key(cell),
    ensures
        is_read_needed(cells::content(raw(*table), cell), key, r),
{
    match read_value(table, at, key, Ghost(cell)) {
        Ok(Some(value)) => Ok(value),
        Ok(None) => Err(missing(key)),
        Err(e) => Err(e),
    }
}

/// Read the items of a block's data. There is nothing if one is missing.
fn read_items(table: &RawTable, block: &CryptoHash, len: u32) -> (r: Option<Vec<Datum>>)
    ensures
        match r {
            Some(data) => data@.len() == len && forall|i: int|
                0 <= i < len ==> cells::content(raw(*table), Cell::BlockDatum(*block, i as u32))
                    == Some((#[trigger] data@[i]).bytes@),
            None => exists|i: u32|
                i < len && #[trigger] cells::content(raw(*table), Cell::BlockDatum(*block, i)) is None,
        },
{
    let mut data: Vec<Datum> = Vec::new();
    let mut i: u32 = 0;
    while i < len
        invariant
            i <= len,
            data@.len() == i,
            forall|j: int|
                0 <= j < i ==> cells::content(raw(*table), Cell::BlockDatum(*block, j as u32))
                    == Some((#[trigger] data@[j]).bytes@),
        decreases len - i,
    {
        match find(table, datum_key(block, i)) {
            Some(bytes) => {
                data.push(Datum::new(copy_vec(&*bytes.bytes)));
            },
            None => {
                assert(cells::content(raw(*table), Cell::BlockDatum(*block, i)) is None);
                return None;
            },
        }
        i = i + 1;
    }
    Some(data)
}

/// Read the data of a block.
pub(crate) fn read_data(table: &RawTable, block: &CryptoHash) -> (r: Result<
    Option<Data>,
    BlockTreeError,
>)
    ensures
        is_data_read(raw(*table), *block, r),
{
    let len: u32 = match read_value(
        table,
        part_key(block, BLOCK_DATA_LEN),
        Key::BlockDataLength { block: *block },
        Ghost(Cell::BlockDataLen(*block)),
    ) {
        Ok(Some(len)) => len,
        Ok(None) => {
            return Ok(None);
        },
        Err(e) => {
            return Err(e);
        },
    };
    match read_items(table, block, len) {
        Some(items) => {
            let data = Data::new(items);
            assert(data@ == items@);
            Ok(Some(data))
        },
        None => {
            assert(cells::holds(
                cells::content(raw(*table), Cell::BlockDataLen(*block)),
                len,
            ));
            Err(missing(Key::BlockData { block: *block }))
        },
    }
}

/// Read a block.
pub(crate) fn read_block(table: &RawTable, hash: &CryptoHash) -> (r: Result<
    Option<Block>,
    BlockTreeError,
>)
    ensures
        is_block_read(raw(*table), *hash, r),
{
    let height: u64 = match read_value(
        table,
        part_key(hash, BLOCK_HEIGHT),
        Key::BlockHeight { block: *hash },
        Ghost(Cell::BlockHeight(*hash)),
    ) {
        Ok(Some(height)) => height,
        Ok(None) => {
            return Ok(None);
        },
        Err(e) => {
            return Err(e);
        },
    };
    let justify: PhaseCertificate = match read_needed(
        table,
        part_key(hash, BLOCK_JUSTIFY),
        Key::BlockJustify { block: *hash },
        Ghost(Cell::BlockJustify(*hash)),
    ) {
        Ok(justify) => justify,
        Err(e) => {
            return Err(e);
        },
    };
    let data_hash: CryptoHash = match read_needed(
        table,
        part_key(hash, BLOCK_DATA_HASH),
        Key::BlockDataHash { block: *hash },
        Ghost(Cell::BlockDataHash(*hash)),
    ) {
        Ok(data_hash) => data_hash,
        Err(e) => {
            return Err(e);
        },
    };
    match read_data(table, hash) {
        Ok(Some(data)) => Ok(
            Some(Block { height: BlockHeight(height), hash: *hash, justify, data_hash, data }),
        ),
        Ok(None) => Err(missing(Key::BlockDataLength { block: *hash })),
        Err(e) => Err(e),
    }
}

} // verus!
