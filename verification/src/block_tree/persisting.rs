//! The key-value writes that make the changes of a batch.

use vstd::prelude::*;

use crate::block_tree::cells;
use crate::block_tree::cells::{
    Cell, CellWrite, APP_FED_BLOCK_HEIGHT, BLOCKS, BLOCK_AT_HEIGHT, BLOCK_DATA, BLOCK_DATA_HASH,
    BLOCK_DATA_LEN, BLOCK_HEIGHT, BLOCK_JUSTIFY, BLOCK_TO_CHILDREN, BLOCK_TREE_PRUNED_HEIGHT,
    COMMITTED_APP_STATE, COMMITTED_VALIDATOR_SET, EQUIVOCATION_EVIDENCE, HIGHEST_COMMITTED_BLOCK,
    HIGHEST_PC, HIGHEST_TC, HIGHEST_VIEW_ENTERED, HIGHEST_VIEW_PHASE_VOTED, LAST_VOTED_PROPOSAL,
    LEADER_REPUTATION, LOCAL_TIP, LOCKED_PC, NEWEST_BLOCK, PENDING_APP_STATE_UPDATES,
    PREVIOUS_VALIDATOR_SET, SPECULATIVE_COMMITS, VALIDATOR_SET_UPDATES_STATUS,
    VALIDATOR_SET_UPDATE_BLOCK_HEIGHT, VALIDATOR_SET_UPDATE_DECIDED,
};
use crate::block_tree::errors::{KVSetError, Key};
use crate::block_tree::write_batch::{BlockTreeWriteBatch, Change, WriteOp};
use crate::codec::{put_bytes, put_u32, put_u64};
use crate::types::block::Block;
use crate::types::data_types::{same_byte_vec, BlockHeight, Bytes, CryptoHash, DataLen};
use crate::wire::{encode, read_hash, Wire};

verus! {

/// A write to a key-value store: the key gets the value, or is removed where there is none.
#[derive(PartialEq, Eq, Debug)]
pub struct KeyValueWrite {
    pub key: Vec<u8>,
    pub value: Option<Vec<u8>>,
}

impl View for KeyValueWrite {
    type V = (Seq<u8>, Option<Seq<u8>>);

    open spec fn view(&self) -> (Seq<u8>, Option<Seq<u8>>) {
        (
            self.key@,
            match self.value {
                Some(value) => Some(value@),
                None => None,
            },
        )
    }
}

/// What key-value writes say.
pub open spec fn said(writes: Seq<KeyValueWrite>) -> Seq<(Seq<u8>, Option<Seq<u8>>)> {
    writes.map_values(|write: KeyValueWrite| write@)
}

/// Writes to cells as key-value writes.
pub open spec fn keyed(writes: Seq<CellWrite>) -> Seq<(Seq<u8>, Option<Seq<u8>>)> {
    writes.map_values(|write: CellWrite| (cells::cell_key(write.0), write.1))
}

/// The variable that an unencodable change is to.
pub open spec fn unencodable(change: Change) -> Key {
    match change {
        Change::Children(block, _) => Key::BlockChildren { block },
        Change::CommittedValidators(_) => Key::CommittedValidatorSet,
        Change::PreviousValidators(_) => Key::PreviousValidatorSet,
        Change::Plain(WriteOp::SetBlock(block)) => if !block.justify.fits() {
            Key::BlockJustify { block: block.hash }
        } else {
            Key::BlockDataLength { block: block.hash }
        },
        Change::Plain(WriteOp::SetPendingAppStateUpdates(block, _)) => Key::PendingAppStateUpdates {
            block,
        },
        Change::Plain(WriteOp::SetValidatorSetUpdates(block, _)) => Key::ValidatorSetUpdatesStatus {
            block,
        },
        Change::Plain(WriteOp::SetLockedPC(_)) => Key::LockedPC,
        _ => Key::HighestTC,
    }
}

/// Whether `at` is the first of `changes` that cannot be encoded.
pub open spec fn first_unencodable(changes: Seq<Change>, at: int) -> bool {
    &&& 0 <= at < changes.len()
    &&& !cells::change_fits(changes[at])
    &&& forall|i: int| 0 <= i < at ==> cells::change_fits(#[trigger] changes[i])
}

/// The key of a variable that there is one of.
pub(crate) fn single_key(tag: u8) -> (r: Vec<u8>)
    ensures
        r@ == seq![tag] + Seq::<u8>::empty(),
{
    let mut key: Vec<u8> = Vec::new();
    key.push(tag);
    assert(key@ =~= seq![tag] + Seq::<u8>::empty());
    key
}

/// The key of a variable that belongs to a block.
pub(crate) fn hash_key(tag: u8, block: &CryptoHash) -> (r: Vec<u8>)
    ensures
        r@ == seq![tag] + block.bytes@,
{
    let mut key: Vec<u8> = Vec::new();
    key.push(tag);
    put_bytes(&mut key, &block.bytes);
    assert(key@ =~= seq![tag] + block.bytes@);
    key
}

/// The key of a part of a block.
pub(crate) fn part_key(block: &CryptoHash, part: u8) -> (r: Vec<u8>)
    ensures
        r@ == seq![BLOCKS] + (block.bytes@ + seq![part]),
{
    let mut key: Vec<u8> = hash_key(BLOCKS, block);
    key.push(part);
    assert(key@ =~= seq![BLOCKS] + (block.bytes@ + seq![part]));
    key
}

/// The key of an item of a block's data.
pub(crate) fn datum_key(block: &CryptoHash, index: u32) -> (r: Vec<u8>)
    ensures
        r@ == cells::cell_key(Cell::BlockDatum(*block, index)),
{
    let mut key: Vec<u8> = part_key(block, BLOCK_DATA);
    put_u32(&mut key, index);
    assert(key@ =~= cells::cell_key(Cell::BlockDatum(*block, index)));
    key
}

/// The key of a variable that belongs to a height.
pub(crate) fn height_key(tag: u8, height: BlockHeight) -> (r: Vec<u8>)
    ensures
        r@ == seq![tag] + height.0.encoding(),
{
    let mut key: Vec<u8> = Vec::new();
    key.push(tag);
    put_u64(&mut key, height.0);
    assert(key@ =~= seq![tag] + height.0.encoding());
    key
}

/// The key of a value of the application's state.
fn app_state_key(of: &Bytes) -> (r: Vec<u8>)
    ensures
        r@ == seq![COMMITTED_APP_STATE] + of@,
{
    let mut key: Vec<u8> = Vec::new();
    key.push(COMMITTED_APP_STATE);
    let mut rest: Vec<u8> = copy_vec(&*of.bytes);
    key.append(&mut rest);
    assert(key@ =~= seq![COMMITTED_APP_STATE] + of@);
    key
}

/// The same bytes.
pub(crate) fn copy_vec(from: &Vec<u8>) -> (r: Vec<u8>)
    ensures
        r@ == from@,
{
    let mut to: Vec<u8> = Vec::new();
    let mut i: usize = 0;
    while i < from.len()
        invariant
            i <= from@.len(),
            to@ == from@.take(i as int),
        decreases from@.len() - i,
    {
        to.push(from[i]);
        i = i + 1;
        assert(to@ =~= from@.take(i as int));
    }
    assert(from@.take(i as int) =~= from@);
    to
}

/// Write a value under a key.
fn set_bytes(out: &mut Vec<KeyValueWrite>, key: Vec<u8>, value: Vec<u8>)
    ensures
        said(final(out)@) == said(old(out)@).push((key@, Some(value@))),
{
    out.push(KeyValueWrite { key, value: Some(value) });
    assert(said(out@) =~= said(old(out)@).push((key@, Some(value@))));
}

/// Remove a key.
fn remove(out: &mut Vec<KeyValueWrite>, key: Vec<u8>)
    ensures
        said(final(out)@) == said(old(out)@).push((key@, None)),
{
    out.push(KeyValueWrite { key, value: None });
    assert(said(out@) =~= said(old(out)@).push((key@, None)));
}

/// Write an encoded value under a key, if it can be encoded.
fn set<T: Wire>(out: &mut Vec<KeyValueWrite>, key: Vec<u8>, value: &T, name: Key) -> (r: Result<
    (),
    KVSetError,
>)
    ensures
        match r {
            Ok(_) => value.fits() && said(final(out)@) == said(old(out)@).push(
                (key@, Some(value.encoding())),
            ),
            Err(e) => !value.fits() && e == (KVSetError::SerializeValueError { key: name }),
        },
{
    match encode(value) {
        Some(bytes) => {
            set_bytes(out, key, bytes);
            Ok(())
        },
        None => Err(KVSetError::SerializeValueError { key: name }),
    }
}

/// Write a block.
fn set_block(out: &mut Vec<KeyValueWrite>, block: &Block) -> (r: Result<(), KVSetError>)
    ensures
        ({
            let change = Change::Plain(WriteOp::SetBlock(*block));
            match r {
                Ok(_) => cells::change_fits(change) && said(final(out)@) == said(old(out)@) + keyed(
                    cells::block_writes(*block),
                ),
                Err(e) => !cells::change_fits(change) && e == (KVSetError::SerializeValueError {
                    key: unencodable(change),
                }),
            }
        }),
{
    let ghost before = said(out@);
    let ghost writes = cells::block_writes(*block);
    let data = &*block.data.datums;
    let name = Key::BlockJustify { block: block.hash };
    match set(out, part_key(&block.hash, BLOCK_HEIGHT), &block.height.0, name) {
        Err(e) => {
            return Err(e);
        },
        Ok(_) => {},
    }
    match set(out, part_key(&block.hash, BLOCK_JUSTIFY), &block.justify, name) {
        Err(e) => {
            return Err(e);
        },
        Ok(_) => {},
    }
    if data.len() as u64 > u32::MAX as u64 {
        return Err(
            KVSetError::SerializeValueError { key: Key::BlockDataLength { block: block.hash } },
        );
    }
    let len: u32 = data.len() as u32;
    match set(out, part_key(&block.hash, BLOCK_DATA_HASH), &block.data_hash, name) {
        Err(e) => {
            return Err(e);
        },
        Ok(_) => {},
    }
    match set(out, part_key(&block.hash, BLOCK_DATA_LEN), &len, name) {
        Err(e) => {
            return Err(e);
        },
        Ok(_) => {},
    }
    assert(said(out@) =~= before + keyed(writes.take(4)));
    let mut i: u32 = 0;
    while i < len
        invariant
            i <= len,
            len == data@.len(),
            data@ == block.data@,
            writes == cells::block_writes(*block),
            said(out@) == before + keyed(writes.take(4 + i)),
        decreases len - i,
    {
        let key: Vec<u8> = datum_key(&block.hash, i);
        let value: Vec<u8> = copy_vec(&*data[i as usize].bytes.bytes);
        set_bytes(out, key, value);
        assert(writes[4 + i] == cells::datum_write(block.hash, block.data@, i as int));
        assert(writes.take(4 + i + 1) =~= writes.take(4 + i).push(writes[4 + i]));
        i = i + 1;
        assert(said(out@) =~= before + keyed(writes.take(4 + i)));
    }
    assert(writes.take(4 + len) =~= writes);
    Ok(())
}

/// Remove a block.
fn remove_block(out: &mut Vec<KeyValueWrite>, block: &CryptoHash, data_len: DataLen)
    ensures
        said(final(out)@) == said(old(out)@) + keyed(cells::block_deletes(*block, data_len)),
{
    let ghost before = said(out@);
    let ghost writes = cells::block_deletes(*block, data_len);
    remove(out, part_key(block, BLOCK_HEIGHT));
    remove(out, part_key(block, BLOCK_JUSTIFY));
    remove(out, part_key(block, BLOCK_DATA_HASH));
    remove(out, part_key(block, BLOCK_DATA_LEN));
    assert(said(out@) =~= before + keyed(writes.take(4)));
    let mut i: u32 = 0;
    while i < data_len.0
        invariant
            i <= data_len.0,
            writes == cells::block_deletes(*block, data_len),
            said(out@) == before + keyed(writes.take(4 + i)),
        decreases data_len.0 - i,
    {
        remove(out, datum_key(block, i));
        assert(writes[4 + i] == (Cell::BlockDatum(*block, i), None::<Seq<u8>>));
        assert(writes.take(4 + i + 1) =~= writes.take(4 + i).push(writes[4 + i]));
        i = i + 1;
        assert(said(out@) =~= before + keyed(writes.take(4 + i)));
    }
    assert(writes.take(4 + data_len.0) =~= writes);
}

/// What making the writes of a change comes to.
spec fn op_written(
    change: Change,
    before: Seq<KeyValueWrite>,
    after: Seq<KeyValueWrite>,
    r: Result<(), KVSetError>,
) -> bool {
    match r {
        Ok(_) => cells::change_fits(change) && said(after) == said(before) + keyed(
            cells::change_writes(change),
        ),
        Err(e) => !cells::change_fits(change) && e == (KVSetError::SerializeValueError {
            key: unencodable(change),
        }),
    }
}

/// One write is a list of one write.
proof fn lemma_one_write(
    before: Seq<(Seq<u8>, Option<Seq<u8>>)>,
    write: CellWrite,
    after: Seq<(Seq<u8>, Option<Seq<u8>>)>,
)
    requires
        after == before.push((cells::cell_key(write.0), write.1)),
    ensures
        after == before + keyed(seq![write]),
{
    assert(before.push((cells::cell_key(write.0), write.1)) =~= before + keyed(seq![write]));
}

/// Make the writes of an operation.
#[verifier::rlimit(40)]
fn write_op(out: &mut Vec<KeyValueWrite>, op: &WriteOp) -> (r: Result<(), KVSetError>)
    ensures
        op_written(op@, old(out)@, final(out)@, r),
{
    let ghost before = said(out@);
    let ghost writes = cells::change_writes(op@);
    let name = Key::HighestTC;
    let r = match op {
        WriteOp::SetBlock(block) => {
            return set_block(out, block);
        },
        WriteOp::DeleteBlock(block, data_len) => {
            remove_block(out, block, *data_len);
            return Ok(());
        },
        WriteOp::SetBlockAtHeight(height, block) => set(
            out,
            height_key(BLOCK_AT_HEIGHT, *height),
            block,
            name,
        ),
        WriteOp::DeleteBlockAtHeight(height) => {
            remove(out, height_key(BLOCK_AT_HEIGHT, *height));
            Ok(())
        },
        WriteOp::SetPrunedHeight(height) => set(
            out,
            single_key(BLOCK_TREE_PRUNED_HEIGHT),
            &height.0,
            name,
        ),
        WriteOp::SetAppFedHeight(height) => set(
            out,
            single_key(APP_FED_BLOCK_HEIGHT),
            &height.0,
            name,
        ),
        WriteOp::SetChildren(block, children) => set(
            out,
            hash_key(BLOCK_TO_CHILDREN, block),
            &*children.hashes,
            Key::BlockChildren { block: *block },
        ),
        WriteOp::DeleteChildren(block) => {
            remove(out, hash_key(BLOCK_TO_CHILDREN, block));
            Ok(())
        },
        WriteOp::SetAppState(key, value) => {
            set_bytes(out, app_state_key(key), copy_vec(&*value.bytes));
            Ok(())
        },
        WriteOp::DeleteAppState(key) => {
            remove(out, app_state_key(key));
            Ok(())
        },
        WriteOp::SetPendingAppStateUpdates(block, updates) => set(
            out,
            hash_key(PENDING_APP_STATE_UPDATES, block),
            updates,
            Key::PendingAppStateUpdates { block: *block },
        ),
        WriteOp::DeletePendingAppStateUpdates(block) => {
            remove(out, hash_key(PENDING_APP_STATE_UPDATES, block));
            Ok(())
        },
        WriteOp::SetCommittedValidatorSet(set_of) => set(
            out,
            single_key(COMMITTED_VALIDATOR_SET),
            &*set_of.entries,
            Key::CommittedValidatorSet,
        ),
        WriteOp::SetPreviousValidatorSet(set_of) => set(
            out,
            single_key(PREVIOUS_VALIDATOR_SET),
            &*set_of.entries,
            Key::PreviousValidatorSet,
        ),
        WriteOp::SetValidatorSetUpdates(block, status) => set(
            out,
            hash_key(VALIDATOR_SET_UPDATES_STATUS, block),
            status,
            Key::ValidatorSetUpdatesStatus { block: *block },
        ),
        WriteOp::DeleteValidatorSetUpdates(block) => {
            remove(out, hash_key(VALIDATOR_SET_UPDATES_STATUS, block));
            Ok(())
        },
        WriteOp::SetValidatorSetUpdateHeight(height) => set(
            out,
            single_key(VALIDATOR_SET_UPDATE_BLOCK_HEIGHT),
            &height.0,
            name,
        ),
        WriteOp::SetValidatorSetUpdateDecided(decided) => set(
            out,
            single_key(VALIDATOR_SET_UPDATE_DECIDED),
            decided,
            name,
        ),
        WriteOp::SetLockedPC(pc) => set(out, single_key(LOCKED_PC), pc, Key::LockedPC),
        WriteOp::SetHighestPC(pc) => set(out, single_key(HIGHEST_PC), pc, name),
        WriteOp::SetHighestViewEntered(view) => set(
            out,
            single_key(HIGHEST_VIEW_ENTERED),
            &view.0,
            name,
        ),
        WriteOp::SetHighestViewPhaseVoted(view) => set(
            out,
            single_key(HIGHEST_VIEW_PHASE_VOTED),
            &view.0,
            name,
        ),
        WriteOp::SetHighestCommittedBlock(block) => set(
            out,
            single_key(HIGHEST_COMMITTED_BLOCK),
            block,
            name,
        ),
        WriteOp::SetNewestBlock(block) => set(out, single_key(NEWEST_BLOCK), block, name),
        WriteOp::SetHighestTC(tc) => set(out, single_key(HIGHEST_TC), tc, name),
        WriteOp::DeleteHighestTC => {
            remove(out, single_key(HIGHEST_TC));
            Ok(())
        },
        WriteOp::SetLocalTip(tip) => set(out, single_key(LOCAL_TIP), tip, name),
        WriteOp::DeleteLocalTip => {
            remove(out, single_key(LOCAL_TIP));
            Ok(())
        },
        WriteOp::SetLastVotedProposal(view, block) => set(
            out,
            single_key(LAST_VOTED_PROPOSAL),
            &(view.0, *block),
            name,
        ),
        WriteOp::SetSpeculativeCommits(commits) => set(
            out,
            single_key(SPECULATIVE_COMMITS),
            &*commits.hashes,
            name,
        ),
        WriteOp::SetEquivocationEvidence(evidence) => set(
            out,
            single_key(EQUIVOCATION_EVIDENCE),
            &**evidence,
            name,
        ),
        WriteOp::SetLeaderReputation(reputation) => set(
            out,
            single_key(LEADER_REPUTATION),
            reputation,
            name,
        ),
    };
    proof {
        if r is Ok {
            assert(writes =~= seq![writes[0]]);
            lemma_one_write(before, writes[0], said(out@));
        }
    }
    r
}

/// The key of the one cell that an operation is to. An operation on a block is to several.
fn op_key(op: &WriteOp) -> (r: Option<Vec<u8>>)
    ensures
        match r {
            Some(key) => key@ == cells::cell_key(cells::changed_cell(op@)) && !(op@ is Plain && (
            op@->Plain_0 is SetBlock || op@->Plain_0 is DeleteBlock)),
            None => op@ is Plain && (op@->Plain_0 is SetBlock || op@->Plain_0 is DeleteBlock),
        },
{
    let key: Vec<u8> = match op {
        WriteOp::SetBlock(_) => {
            return None;
        },
        WriteOp::DeleteBlock(_, _) => {
            return None;
        },
        WriteOp::SetBlockAtHeight(height, _) => height_key(BLOCK_AT_HEIGHT, *height),
        WriteOp::DeleteBlockAtHeight(height) => height_key(BLOCK_AT_HEIGHT, *height),
        WriteOp::SetPrunedHeight(_) => single_key(BLOCK_TREE_PRUNED_HEIGHT),
        WriteOp::SetAppFedHeight(_) => single_key(APP_FED_BLOCK_HEIGHT),
        WriteOp::SetChildren(block, _) => hash_key(BLOCK_TO_CHILDREN, block),
        WriteOp::DeleteChildren(block) => hash_key(BLOCK_TO_CHILDREN, block),
        WriteOp::SetAppState(key, _) => app_state_key(key),
        WriteOp::DeleteAppState(key) => app_state_key(key),
        WriteOp::SetPendingAppStateUpdates(block, _) => hash_key(PENDING_APP_STATE_UPDATES, block),
        WriteOp::DeletePendingAppStateUpdates(block) => hash_key(PENDING_APP_STATE_UPDATES, block),
        WriteOp::SetCommittedValidatorSet(_) => single_key(COMMITTED_VALIDATOR_SET),
        WriteOp::SetPreviousValidatorSet(_) => single_key(PREVIOUS_VALIDATOR_SET),
        WriteOp::SetValidatorSetUpdates(block, _) => hash_key(VALIDATOR_SET_UPDATES_STATUS, block),
        WriteOp::DeleteValidatorSetUpdates(block) => hash_key(VALIDATOR_SET_UPDATES_STATUS, block),
        WriteOp::SetValidatorSetUpdateHeight(_) => single_key(VALIDATOR_SET_UPDATE_BLOCK_HEIGHT),
        WriteOp::SetValidatorSetUpdateDecided(_) => single_key(VALIDATOR_SET_UPDATE_DECIDED),
        WriteOp::SetLockedPC(_) => single_key(LOCKED_PC),
        WriteOp::SetHighestPC(_) => single_key(HIGHEST_PC),
        WriteOp::SetHighestViewEntered(_) => single_key(HIGHEST_VIEW_ENTERED),
        WriteOp::SetHighestViewPhaseVoted(_) => single_key(HIGHEST_VIEW_PHASE_VOTED),
        WriteOp::SetHighestCommittedBlock(_) => single_key(HIGHEST_COMMITTED_BLOCK),
        WriteOp::SetNewestBlock(_) => single_key(NEWEST_BLOCK),
        WriteOp::SetHighestTC(_) => single_key(HIGHEST_TC),
        WriteOp::DeleteHighestTC => single_key(HIGHEST_TC),
        WriteOp::SetLocalTip(_) => single_key(LOCAL_TIP),
        WriteOp::DeleteLocalTip => single_key(LOCAL_TIP),
        WriteOp::SetLastVotedProposal(_, _) => single_key(LAST_VOTED_PROPOSAL),
        WriteOp::SetSpeculativeCommits(_) => single_key(SPECULATIVE_COMMITS),
        WriteOp::SetEquivocationEvidence(_) => single_key(EQUIVOCATION_EVIDENCE),
        WriteOp::SetLeaderReputation(_) => single_key(LEADER_REPUTATION),
    };
    Some(key)
}

/// Whether a key is that of a cell of a block.
fn is_block_key(key: &Vec<u8>, block: &CryptoHash) -> (r: bool)
    ensures
        r == cells::block_keys(*block).contains(key@),
{
    if key.len() < 33 || key[0] != BLOCKS {
        return false;
    }
    let owner: CryptoHash = read_hash(key, 1);
    if owner == *block {
        true
    } else {
        proof {
            if owner.bytes@ == block.bytes@ {
                assert(owner.bytes =~= block.bytes);
            }
        }
        false
    }
}

/// Whether an operation writes over the value of a key.
pub(crate) fn op_overwrites(op: &WriteOp, key: &Vec<u8>) -> (r: bool)
    ensures
        r == cells::overwritten(op@).contains(key@),
{
    proof {
        reveal(cells::overwritten);
    }
    match op {
        WriteOp::SetBlock(block) => is_block_key(key, &block.hash),
        WriteOp::DeleteBlock(block, _) => is_block_key(key, block),
        _ => match op_key(op) {
            Some(of) => same_byte_vec(&of, key),
            None => false,
        },
    }
}

impl BlockTreeWriteBatch {
    /// The key-value writes that make the changes of the batch, to be made together.
    pub fn key_value_writes(&self) -> (r: Result<Vec<KeyValueWrite>, KVSetError>)
        ensures
            match r {
                Ok(writes) => cells::batch_fits(self@) && said(writes@) == keyed(
                    cells::batch_writes(self@),
                ),
                Err(e) => exists|at: int| #[trigger]
                    first_unencodable(self@, at) && e == (KVSetError::SerializeValueError {
                        key: unencodable(self@[at]),
                    }),
            },
    {
        let mut out: Vec<KeyValueWrite> = Vec::new();
        let ghost changes = self@;
        let mut i: usize = 0;
        assert(changes.take(0) =~= Seq::<Change>::empty());
        assert(said(out@) =~= keyed(cells::batch_writes(changes.take(0))));
        while i < self.ops.len()
            invariant
                i <= self.ops@.len(),
                changes == self@,
                said(out@) == keyed(cells::batch_writes(changes.take(i as int))),
                forall|j: int| 0 <= j < i ==> cells::change_fits(#[trigger] changes[j]),
            decreases self.ops@.len() - i,
        {
            let ghost so_far = cells::batch_writes(changes.take(i as int));
            assert(changes[i as int] == self.ops@[i as int]@);
            match write_op(&mut out, &self.ops[i]) {
                Ok(_) => {
                    assert(changes.take(i + 1).drop_last() =~= changes.take(i as int));
                    let ghost more = cells::change_writes(changes[i as int]);
                    assert(keyed(so_far + more) =~= keyed(so_far) + keyed(more));
                },
                Err(e) => {
                    assert(first_unencodable(changes, i as int));
                    return Err(e);
                },
            }
            i = i + 1;
        }
        assert(changes.take(i as int) =~= changes);
        Ok(out)
    }
}

} // verus!
