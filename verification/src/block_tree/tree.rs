//! The block tree as a replica holds it: its variables, and the list of what is still to be done
//! about them.

use vstd::prelude::*;

use crate::block_tree::cells;
use crate::block_tree::cells::{
    Cell, BLOCK_AT_HEIGHT, BLOCK_DATA_HASH, BLOCK_DATA_LEN, BLOCK_HEIGHT, BLOCK_JUSTIFY,
    BLOCK_TO_CHILDREN, COMMITTED_VALIDATOR_SET, HIGHEST_COMMITTED_BLOCK, HIGHEST_PC, HIGHEST_TC,
    HIGHEST_VIEW_ENTERED, HIGHEST_VIEW_PHASE_VOTED, LEADER_REPUTATION, LOCKED_PC, NEWEST_BLOCK,
    PENDING_APP_STATE_UPDATES, PREVIOUS_VALIDATOR_SET, VALIDATOR_SET_UPDATES_STATUS,
    VALIDATOR_SET_UPDATE_BLOCK_HEIGHT, VALIDATOR_SET_UPDATE_DECIDED,
};
use crate::block_tree::errors;
use crate::block_tree::errors::{missing, BlockTreeError, Key};
use crate::block_tree::persisting::{
    copy_vec, datum_key, hash_key, height_key, part_key, single_key,
};
use crate::block_tree::reading;
use crate::block_tree::reading::{find, read_block, read_data, read_needed, read_value};
use crate::block_tree::retention::Retention;
use crate::block_tree::store;
use crate::block_tree::store::{Store, TreeView};
use crate::block_tree::write_batch::{BlockTreeWriteBatch, Change};
use crate::effects;
use crate::effects::{Deed, Effect};
use crate::events::Event;
use crate::hotstuff::reputation::{LeaderReputation, LeaderReputationEntry};
use crate::hotstuff::types::PhaseCertificate;
use crate::pacemaker::TimeoutCertificate;
use crate::types::block::Block;
use crate::types::data_types::{
    BlockHeight, Bytes, ChildrenList, CryptoHash, Data, DataLen, Datum, ViewNumber,
};
use crate::types::update_sets::AppStateUpdates;
use crate::types::validator_set::{
    ValidatorSet, ValidatorSetState, ValidatorSetUpdatesStatus, ValidatorsView,
};
use crate::wire;
use crate::wire::Wire;

verus! {

/// How often in a row the commit of one block had to be put off for want of an ancestor.
#[derive(Clone, Copy, Debug)]
pub struct GapWatch {
    pub block: CryptoHash,
    pub count: u64,
}

/// A put-off commit is worth a warning each time this many attempts in a row have failed.
pub const GAP_COMMIT_WARN_EVERY: u64 = 50;

/// The watch after one more put-off commit of `block`.
pub open spec fn gap_noted(watch: GapWatch, block: CryptoHash) -> GapWatch {
    if watch.block == block {
        GapWatch {
            block,
            count: if watch.count == u64::MAX {
                u64::MAX
            } else {
                (watch.count + 1) as u64
            },
        }
    } else {
        GapWatch { block, count: 1 }
    }
}

/// Count a put-off commit of `block`. Returns the count when it is time for a warning.
pub fn note_gap_commit_deferral(watch: &mut GapWatch, block: &CryptoHash) -> (r: Option<u64>)
    ensures
        *final(watch) == gap_noted(*old(watch), *block),
        r == (if final(watch).count % GAP_COMMIT_WARN_EVERY == 0 {
            Some(final(watch).count)
        } else {
            None
        }),
{
    if watch.block == *block {
        watch.count = watch.count.saturating_add(1);
    } else {
        watch.block = *block;
        watch.count = 1;
    }
    if watch.count % GAP_COMMIT_WARN_EVERY == 0 {
        Some(watch.count)
    } else {
        None
    }
}

/// The block tree of a replica.
///
/// Every change is made to the variables in `store` and, at the same time, put into `journal` as
/// a batch for the host to persist. Messages and notifications are put into the same journal, so
/// that the order between what is made durable and what is sent is the order of the journal.
pub struct BlockTreeSingleton {
    pub store: Store,
    pub journal: Vec<Effect>,
    pub retention: Retention,
    pub gap_watch: GapWatch,
}

impl View for BlockTreeSingleton {
    type V = TreeView;

    open spec fn view(&self) -> TreeView {
        self.store@
    }
}

/// `tree` after the batches among `done` were written, in order.
pub open spec fn replay(tree: TreeView, done: Seq<Deed>) -> TreeView
    decreases done.len(),
{
    if done.len() == 0 {
        tree
    } else {
        let before = replay(tree, done.drop_last());
        match done.last() {
            Deed::Persist(changes) => store::apply_changes(before, changes),
            Deed::Other(_) => before,
        }
    }
}

/// Replaying a list of deeds and then another is replaying both at once.
pub proof fn lemma_replay_concat(tree: TreeView, first: Seq<Deed>, second: Seq<Deed>)
    ensures
        replay(tree, first + second) == replay(replay(tree, first), second),
    decreases second.len(),
{
    if second.len() == 0 {
        assert(first + second =~= first);
    } else {
        assert((first + second).drop_last() =~= first + second.drop_last());
        lemma_replay_concat(tree, first, second.drop_last());
    }
}

pub proof fn lemma_replay_one(tree: TreeView, deed: Deed)
    ensures
        replay(tree, seq![deed]) == (match deed {
            Deed::Persist(changes) => store::apply_changes(tree, changes),
            Deed::Other(_) => tree,
        }),
        replay(tree, Seq::<Deed>::empty()) == tree,
{
    assert(seq![deed].drop_last() =~= Seq::<Deed>::empty());
    assert(replay(tree, Seq::<Deed>::empty()) == tree);
    assert(seq![deed].last() == deed);
}

/// Whether the tree was initialized, and everything that is stored of it can be read.
pub open spec fn initialized(tree: TreeView) -> bool {
    &&& store::readable(tree)
    &&& tree.committed_validators is Some
    &&& tree.previous_validators is Some
    &&& tree.update_decided is Some
    &&& tree.locked_pc is Some
    &&& tree.highest_pc is Some
    &&& tree.highest_view_entered is Some
}

/// An initialized tree stays initialized, whatever is written.
pub proof fn lemma_changes_keep_initialized(tree: TreeView, changes: Seq<Change>)
    requires
        initialized(tree),
    ensures
        initialized(store::apply_changes(tree, changes)),
    decreases changes.len(),
{
    if changes.len() > 0 {
        lemma_changes_keep_initialized(tree, changes.drop_last());
    }
}

/// An initialized tree stays initialized, whatever is done.
pub proof fn lemma_replay_keeps_initialized(tree: TreeView, done: Seq<Deed>)
    requires
        initialized(tree),
    ensures
        initialized(replay(tree, done)),
    decreases done.len(),
{
    if done.len() > 0 {
        lemma_replay_keeps_initialized(tree, done.drop_last());
        match done.last() {
            Deed::Persist(changes) => {
                lemma_changes_keep_initialized(replay(tree, done.drop_last()), changes);
            },
            Deed::Other(_) => {},
        }
    }
}

/// Whether `after` is `before` with the deeds `done` added to its journal and its variables
/// changed by exactly the batches among them.
pub open spec fn advanced(
    before: BlockTreeSingleton,
    after: BlockTreeSingleton,
    done: Seq<Deed>,
) -> bool {
    &&& after@ == replay(before@, done)
    &&& after.deeds() == before.deeds() + done
    &&& after.retention == before.retention
}

pub proof fn lemma_advanced_trans(
    a: BlockTreeSingleton,
    b: BlockTreeSingleton,
    c: BlockTreeSingleton,
    first: Seq<Deed>,
    second: Seq<Deed>,
)
    requires
        advanced(a, b, first),
        advanced(b, c, second),
    ensures
        advanced(a, c, first + second),
{
    lemma_replay_concat(a@, first, second);
    assert((a.deeds() + first) + second =~= a.deeds() + (first + second));
}

pub proof fn lemma_advanced_refl(a: BlockTreeSingleton)
    ensures
        advanced(a, a, Seq::<Deed>::empty()),
{
    assert(a.deeds() + Seq::<Deed>::empty() =~= a.deeds());
}

/// The validator sets that the tree holds.
pub open spec fn validators_of(tree: TreeView) -> ValidatorsView {
    ValidatorsView {
        committed: tree.committed_validators->0,
        previous: tree.previous_validators->0,
        update_height: tree.update_height,
        update_decided: tree.update_decided->0,
    }
}

/// The height of the highest committed block, if the tree holds that block.
pub open spec fn committed_height(tree: TreeView) -> Option<BlockHeight> {
    match tree.highest_committed_block {
        Some(block) => if tree.blocks.contains_key(block) {
            Some(tree.blocks[block].height)
        } else {
            None
        },
        None => None,
    }
}

/// The validator set updates of a block.
pub open spec fn updates_status(tree: TreeView, block: CryptoHash) -> ValidatorSetUpdatesStatus {
    if tree.validator_set_updates.contains_key(block) {
        tree.validator_set_updates[block]
    } else {
        ValidatorSetUpdatesStatus::NoUpdates
    }
}

/// The leader reputation of a tree; without any record, one with a window of a hundred views.
pub open spec fn reputation_of(tree: TreeView) -> (Seq<([u8; 32], LeaderReputationEntry)>, u32) {
    match tree.reputation {
        Some(reputation) => reputation,
        None => (Seq::<([u8; 32], LeaderReputationEntry)>::empty(), 100),
    }
}

/// What reading a variable gives that may have no value: a failure if its cell cannot be read.
pub open spec fn readable_or<T>(tree: TreeView, cell: Cell, key: Key, value: T) -> Result<
    T,
    BlockTreeError,
> {
    if store::unread_at(tree, cell) {
        Err(errors::undecodable(key))
    } else {
        Ok(value)
    }
}

/// What reading a variable gives that should have a value: a failure if its cell cannot be read, or
/// if it has none.
pub open spec fn needed<T>(tree: TreeView, cell: Cell, key: Key, value: Option<T>) -> Result<
    T,
    BlockTreeError,
> {
    if store::unread_at(tree, cell) {
        Err(errors::undecodable(key))
    } else {
        match value {
            Some(value) => Ok(value),
            None => Err(errors::not_found(key)),
        }
    }
}

/// The height that bytes begin with the encoding of.
pub open spec fn height_in(bytes: Seq<u8>) -> Option<BlockHeight> {
    if exists|height: BlockHeight| #[trigger] wire::begins_with(bytes, height) {
        Some(choose|height: BlockHeight| #[trigger] wire::begins_with(bytes, height))
    } else {
        None
    }
}

/// What is stored as the height of a block, whether or not the rest of the block can be read.
pub open spec fn stored_height(tree: TreeView, block: CryptoHash) -> Result<
    Option<BlockHeight>,
    BlockTreeError,
> {
    if tree.blocks.contains_key(block) {
        Ok(Some(tree.blocks[block].height))
    } else {
        match cells::content(tree.unread, Cell::BlockHeight(block)) {
            Some(bytes) => match height_in(bytes) {
                Some(height) => Ok(Some(height)),
                None => Err(errors::undecodable(Key::BlockHeight { block })),
            },
            None => Ok(None),
        }
    }
}

/// What is stored as the height of the highest committed block.
pub open spec fn frontier_height(tree: TreeView) -> Result<Option<BlockHeight>, BlockTreeError> {
    if store::unread_at(tree, Cell::HighestCommittedBlock) {
        Err(errors::undecodable(Key::HighestCommittedBlock))
    } else {
        match tree.highest_committed_block {
            Some(block) => stored_height(tree, block),
            None => Ok(None),
        }
    }
}

/// A cell is read as the height that it begins with.
proof fn lemma_height_read(
    content: Option<Seq<u8>>,
    key: Key,
    r: Result<Option<BlockHeight>, BlockTreeError>,
)
    requires
        reading::is_read(content, key, r),
    ensures
        r == (match content {
            Some(bytes) => match height_in(bytes) {
                Some(height) => Ok(Some(height)),
                None => Err(errors::undecodable(key)),
            },
            None => Ok(None),
        }),
{
    if let Ok(Some(height)) = r {
        let bytes = content->0;
        assert(wire::begins_with(bytes, height));
        let chosen = height_in(bytes)->0;
        wire::lemma_prefix(height.encoding(), bytes);
        wire::lemma_prefix(chosen.encoding(), bytes);
        wire::lemma_u64(height.0, chosen.0);
        wire::lemma_u64(chosen.0, height.0);
        wire::lemma_head(
            height.encoding(),
            bytes.skip(height.encoding().len() as int),
            chosen.encoding(),
            bytes.skip(chosen.encoding().len() as int),
        );
    }
}

/// Why the validator sets cannot be read, if they cannot.
pub open spec fn validators_fault(tree: TreeView) -> Option<BlockTreeError> {
    if store::unread_at(tree, Cell::CommittedValidatorSet) {
        Some(errors::undecodable(Key::CommittedValidatorSet))
    } else if tree.committed_validators is None {
        Some(errors::not_found(Key::CommittedValidatorSet))
    } else if store::unread_at(tree, Cell::PreviousValidatorSet) {
        Some(errors::undecodable(Key::PreviousValidatorSet))
    } else if tree.previous_validators is None {
        Some(errors::not_found(Key::PreviousValidatorSet))
    } else if store::unread_at(tree, Cell::ValidatorSetUpdateHeight) {
        Some(errors::undecodable(Key::ValidatorSetUpdateHeight))
    } else if store::unread_at(tree, Cell::ValidatorSetUpdateDecided) {
        Some(errors::undecodable(Key::ValidatorSetUpdateDecided))
    } else if tree.update_decided is None {
        Some(errors::not_found(Key::ValidatorSetUpdateDecided))
    } else {
        None
    }
}

impl BlockTreeSingleton {
    /// What the journal says.
    pub open spec fn deeds(&self) -> Seq<Deed> {
        effects::deeds(self.journal@)
    }

    /// A block tree on top of `store`, with nothing to be done and pruning turned off.
    pub fn new(store: Store) -> (r: Self)
        ensures
            r@ == store@,
            r.deeds() == Seq::<Deed>::empty(),
            r.retention.limit is None,
            r.gap_watch.count == 0,
    {
        let r = BlockTreeSingleton {
            store,
            journal: Vec::new(),
            retention: Retention::disabled(),
            gap_watch: GapWatch { block: CryptoHash { bytes: [0u8; 32] }, count: 0 },
        };
        assert(r.deeds() =~= Seq::<Deed>::empty());
        r
    }

    /// A block tree on top of `store`, for callers outside the library.
    pub fn new_unsafe(store: Store) -> (r: Self)
        ensures
            r@ == store@,
            r.deeds() == Seq::<Deed>::empty(),
            r.retention.limit is None,
            r.gap_watch.count == 0,
    {
        Self::new(store)
    }

    /// Put an effect other than a batch into the journal.
    pub fn emit(&mut self, effect: Effect)
        requires
            !(effect is Persist),
        ensures
            advanced(*old(self), *final(self), seq![Deed::Other(effect)]),
            final(self).gap_watch == old(self).gap_watch,
    {
        self.journal.push(effect);
        proof {
            lemma_replay_one(old(self)@, Deed::Other(effect));
            assert(self.deeds() =~= old(self).deeds() + seq![Deed::Other(effect)]);
        }
    }

    /// Put an event into the journal.
    pub fn publish(&mut self, event: Event)
        ensures
            advanced(*old(self), *final(self), seq![Deed::Other(Effect::Publish(event))]),
            final(self).gap_watch == old(self).gap_watch,
    {
        self.emit(Effect::Publish(event));
    }

    /// Hand out the journal and start a new one.
    pub fn take_journal(&mut self) -> (r: Vec<Effect>)
        ensures
            effects::deeds(r@) == old(self).deeds(),
            final(self).deeds() == Seq::<Deed>::empty(),
            final(self)@ == old(self)@,
            final(self).retention == old(self).retention,
            final(self).gap_watch == old(self).gap_watch,
    {
        let mut r: Vec<Effect> = Vec::new();
        std::mem::swap(&mut r, &mut self.journal);
        assert(self.deeds() =~= Seq::<Deed>::empty());
        r
    }

    /// Atomically make the changes of a batch.
    pub fn write(&mut self, write_batch: BlockTreeWriteBatch)
        ensures
            advanced(*old(self), *final(self), seq![Deed::Persist(write_batch@)]),
            final(self)@ == store::apply_changes(old(self)@, write_batch@),
            final(self).gap_watch == old(self).gap_watch,
    {
        self.store.apply(&write_batch);
        let ghost changes = write_batch@;
        self.journal.push(Effect::Persist(write_batch));
        proof {
            lemma_replay_one(old(self)@, Deed::Persist(changes));
            assert(self.deeds() =~= old(self).deeds() + seq![Deed::Persist(changes)]);
        }
    }

    /// The block with hash `block`. It is read part by part where a part cannot be read, or is
    /// missing.
    pub fn block(&self, block: &CryptoHash) -> (r: Result<Option<Block>, BlockTreeError>)
        ensures
            if self@.blocks.contains_key(*block) {
                r == Ok::<Option<Block>, BlockTreeError>(Some(self@.blocks[*block]))
            } else {
                reading::is_block_read(self@.unread, *block, r)
            },
            store::readable(self@) && !self@.blocks.contains_key(*block) ==> r == Ok::<
                Option<Block>,
                BlockTreeError,
            >(None),
    {
        match self.store.blocks.get(block) {
            Some(found) => Ok(Some(found.clone())),
            None => read_block(&self.store.unread, block),
        }
    }

    pub fn block_height(&self, block: &CryptoHash) -> (r: Result<
        Option<BlockHeight>,
        BlockTreeError,
    >)
        ensures
            if self@.blocks.contains_key(*block) {
                r == Ok::<Option<BlockHeight>, BlockTreeError>(Some(self@.blocks[*block].height))
            } else {
                reading::is_read(
                    cells::content(self@.unread, Cell::BlockHeight(*block)),
                    Key::BlockHeight { block: *block },
                    r,
                )
            },
            r == stored_height(self@, *block),
            store::readable(self@) && !self@.blocks.contains_key(*block) ==> r == Ok::<
                Option<BlockHeight>,
                BlockTreeError,
            >(None),
    {
        match self.store.blocks.get(block) {
            Some(found) => Ok(Some(found.height)),
            None => {
                let r = read_value(
                    &self.store.unread,
                    part_key(block, BLOCK_HEIGHT),
                    Key::BlockHeight { block: *block },
                    Ghost(Cell::BlockHeight(*block)),
                );
                proof {
                    lemma_height_read(
                        cells::content(self@.unread, Cell::BlockHeight(*block)),
                        Key::BlockHeight { block: *block },
                        r,
                    );
                }
                r
            },
        }
    }

    pub fn block_data_hash(&self, block: &CryptoHash) -> (r: Result<
        Option<CryptoHash>,
        BlockTreeError,
    >)
        ensures
            if self@.blocks.contains_key(*block) {
                r == Ok::<Option<CryptoHash>, BlockTreeError>(Some(self@.blocks[*block].data_hash))
            } else {
                reading::is_read(
                    cells::content(self@.unread, Cell::BlockDataHash(*block)),
                    Key::BlockDataHash { block: *block },
                    r,
                )
            },
            store::readable(self@) && !self@.blocks.contains_key(*block) ==> r == Ok::<
                Option<CryptoHash>,
                BlockTreeError,
            >(None),
    {
        match self.store.blocks.get(block) {
            Some(found) => Ok(Some(found.data_hash)),
            None => read_value(
                &self.store.unread,
                part_key(block, BLOCK_DATA_HASH),
                Key::BlockDataHash { block: *block },
                Ghost(Cell::BlockDataHash(*block)),
            ),
        }
    }

    pub fn block_justify(&self, block: &CryptoHash) -> (r: Result<PhaseCertificate, BlockTreeError>)
        ensures
            if self@.blocks.contains_key(*block) {
                r == Ok::<PhaseCertificate, BlockTreeError>(self@.blocks[*block].justify)
            } else {
                reading::is_read_needed(
                    cells::content(self@.unread, Cell::BlockJustify(*block)),
                    Key::BlockJustify { block: *block },
                    r,
                )
            },
            store::readable(self@) && !self@.blocks.contains_key(*block) ==> r == Err::<
                PhaseCertificate,
                BlockTreeError,
            >(errors::not_found(Key::BlockJustify { block: *block })),
    {
        match self.store.blocks.get(block) {
            Some(found) => Ok(found.justify.clone()),
            None => read_needed(
                &self.store.unread,
                part_key(block, BLOCK_JUSTIFY),
                Key::BlockJustify { block: *block },
                Ghost(Cell::BlockJustify(*block)),
            ),
        }
    }

    pub fn block_data_len(&self, block: &CryptoHash) -> (r: Result<
        Option<DataLen>,
        BlockTreeError,
    >)
        ensures
            if self@.blocks.contains_key(*block) {
                r == Ok::<Option<DataLen>, BlockTreeError>(Some(data_len_of(self@.blocks[*block])))
            } else {
                reading::is_read(
                    cells::content(self@.unread, Cell::BlockDataLen(*block)),
                    Key::BlockDataLength { block: *block },
                    r,
                )
            },
            store::readable(self@) && !self@.blocks.contains_key(*block) ==> r == Ok::<
                Option<DataLen>,
                BlockTreeError,
            >(None),
    {
        match self.store.blocks.get(block) {
            Some(found) => Ok(
                Some(DataLen(#[verifier::truncate] (found.data.datums.len() as u32))),
            ),
            None => read_value(
                &self.store.unread,
                part_key(block, BLOCK_DATA_LEN),
                Key::BlockDataLength { block: *block },
                Ghost(Cell::BlockDataLen(*block)),
            ),
        }
    }

    pub fn block_data(&self, block: &CryptoHash) -> (r: Result<Option<Data>, BlockTreeError>)
        ensures
            if self@.blocks.contains_key(*block) {
                r == Ok::<Option<Data>, BlockTreeError>(Some(self@.blocks[*block].data))
            } else {
                reading::is_data_read(self@.unread, *block, r)
            },
            store::readable(self@) && !self@.blocks.contains_key(*block) ==> r == Ok::<
                Option<Data>,
                BlockTreeError,
            >(None),
    {
        match self.store.blocks.get(block) {
            Some(found) => Ok(Some(found.data.clone())),
            None => read_data(&self.store.unread, block),
        }
    }

    pub fn block_datum(&self, block: &CryptoHash, datum_index: u32) -> (r: Option<Datum>)
        ensures
            if self@.blocks.contains_key(*block) {
                r == (if datum_index < self@.blocks[*block].data@.len() {
                    Some(self@.blocks[*block].data@[datum_index as int])
                } else {
                    None
                })
            } else {
                cells::content(self@.unread, Cell::BlockDatum(*block, datum_index)) == (match r {
                    Some(datum) => Some(datum.bytes@),
                    None => None,
                })
            },
    {
        match self.store.blocks.get(block) {
            Some(found) => {
                let index: usize = datum_index as usize;
                if index < found.data.datums.len() {
                    Some(found.data.datums[index].clone())
                } else {
                    None
                }
            },
            None => match find(&self.store.unread, datum_key(block, datum_index)) {
                Some(bytes) => Some(Datum::new(copy_vec(&*bytes.bytes))),
                None => None,
            },
        }
    }

    pub fn block_at_height(&self, height: BlockHeight) -> (r: Result<
        Option<CryptoHash>,
        BlockTreeError,
    >)
        ensures
            r == (if store::unread_at(self@, Cell::BlockAtHeight(height)) {
                Err(errors::undecodable(Key::BlockAtHeight { height }))
            } else if self@.block_at_height.contains_key(height) {
                Ok(Some(self@.block_at_height[height]))
            } else {
                Ok(None)
            }),
    {
        match self.store.see_readable(
            height_key(BLOCK_AT_HEIGHT, height),
            Key::BlockAtHeight { height },
            Ghost(Cell::BlockAtHeight(height)),
        ) {
            Ok(()) => match self.store.block_at_height.get(&height) {
                Some(hash) => Ok(Some(*hash)),
                None => Ok(None),
            },
            Err(e) => Err(e),
        }
    }

    pub fn children(&self, block: &CryptoHash) -> (r: Result<ChildrenList, BlockTreeError>)
        ensures
            match r {
                Ok(list) => !store::unread_at(self@, Cell::Children(*block))
                    && self@.children.contains_key(*block) && list@ == self@.children[*block],
                Err(e) => if store::unread_at(self@, Cell::Children(*block)) {
                    e == errors::undecodable(Key::BlockChildren { block: *block })
                } else {
                    !self@.children.contains_key(*block) && e == errors::not_found(
                        Key::BlockChildren { block: *block },
                    )
                },
            },
    {
        match self.store.see_readable(
            hash_key(BLOCK_TO_CHILDREN, block),
            Key::BlockChildren { block: *block },
            Ghost(Cell::Children(*block)),
        ) {
            Ok(()) => match self.store.children.get(block) {
                Some(list) => Ok(list.clone()),
                None => Err(missing(Key::BlockChildren { block: *block })),
            },
            Err(e) => Err(e),
        }
    }

    pub fn committed_app_state(&self, key: &Bytes) -> (r: Option<Bytes>)
        ensures
            match r {
                Some(value) => self@.app_state.contains_key(key@) && value@
                    == self@.app_state[key@],
                None => !self@.app_state.contains_key(key@),
            },
    {
        match self.store.app_state.get(key) {
            Some(value) => Some(value.clone()),
            None => None,
        }
    }

    pub fn pending_app_state_updates(&self, block: &CryptoHash) -> (r: Result<
        Option<AppStateUpdates>,
        BlockTreeError,
    >)
        ensures
            r == (if store::unread_at(self@, Cell::PendingAppStateUpdates(*block)) {
                Err(errors::undecodable(Key::PendingAppStateUpdates { block: *block }))
            } else if self@.pending_app_state.contains_key(*block) {
                Ok(Some(self@.pending_app_state[*block]))
            } else {
                Ok(None)
            }),
    {
        match self.store.see_readable(
            hash_key(PENDING_APP_STATE_UPDATES, block),
            Key::PendingAppStateUpdates { block: *block },
            Ghost(Cell::PendingAppStateUpdates(*block)),
        ) {
            Ok(()) => match self.store.pending_app_state.get(block) {
                Some(updates) => Ok(Some(updates.clone())),
                None => Ok(None),
            },
            Err(e) => Err(e),
        }
    }

    pub fn committed_validator_set(&self) -> (r: Result<ValidatorSet, BlockTreeError>)
        ensures
            match r {
                Ok(set) => !store::unread_at(self@, Cell::CommittedValidatorSet)
                    && self@.committed_validators == Some(set@),
                Err(e) => if store::unread_at(self@, Cell::CommittedValidatorSet) {
                    e == errors::undecodable(Key::CommittedValidatorSet)
                } else {
                    self@.committed_validators is None && e == errors::not_found(
                        Key::CommittedValidatorSet,
                    )
                },
            },
    {
        match self.store.see_readable(
            single_key(COMMITTED_VALIDATOR_SET),
            Key::CommittedValidatorSet,
            Ghost(Cell::CommittedValidatorSet),
        ) {
            Ok(()) => match &self.store.committed_validator_set {
                Some(set) => Ok(set.clone()),
                None => Err(missing(Key::CommittedValidatorSet)),
            },
            Err(e) => Err(e),
        }
    }

    pub fn validator_set_updates_status(&self, block: &CryptoHash) -> (r: Result<
        ValidatorSetUpdatesStatus,
        BlockTreeError,
    >)
        ensures
            r == (if store::unread_at(self@, Cell::ValidatorSetUpdatesStatus(*block)) {
                Err(errors::undecodable(Key::ValidatorSetUpdatesStatus { block: *block }))
            } else {
                Ok(updates_status(self@, *block))
            }),
    {
        match self.store.see_readable(
            hash_key(VALIDATOR_SET_UPDATES_STATUS, block),
            Key::ValidatorSetUpdatesStatus { block: *block },
            Ghost(Cell::ValidatorSetUpdatesStatus(*block)),
        ) {
            Ok(()) => match self.store.validator_set_updates.get(block) {
                Some(status) => Ok(status.clone()),
                None => Ok(ValidatorSetUpdatesStatus::NoUpdates),
            },
            Err(e) => Err(e),
        }
    }

    pub fn locked_pc(&self) -> (r: Result<PhaseCertificate, BlockTreeError>)
        ensures
            r == needed(self@, Cell::LockedPC, Key::LockedPC, self@.locked_pc),
    {
        match self.store.see_readable(single_key(LOCKED_PC), Key::LockedPC, Ghost(Cell::LockedPC)) {
            Ok(()) => match &self.store.locked_pc {
                Some(pc) => Ok(pc.clone()),
                None => Err(missing(Key::LockedPC)),
            },
            Err(e) => Err(e),
        }
    }

    pub fn highest_view_entered(&self) -> (r: Result<ViewNumber, BlockTreeError>)
        ensures
            r == needed(
                self@,
                Cell::HighestViewEntered,
                Key::HighestViewEntered,
                self@.highest_view_entered,
            ),
    {
        match self.store.see_readable(
            single_key(HIGHEST_VIEW_ENTERED),
            Key::HighestViewEntered,
            Ghost(Cell::HighestViewEntered),
        ) {
            Ok(()) => match self.store.highest_view_entered {
                Some(view) => Ok(view),
                None => Err(missing(Key::HighestViewEntered)),
            },
            Err(e) => Err(e),
        }
    }

    pub fn highest_pc(&self) -> (r: Result<PhaseCertificate, BlockTreeError>)
        ensures
            r == needed(self@, Cell::HighestPC, Key::HighestPC, self@.highest_pc),
    {
        match self.store.see_readable(single_key(HIGHEST_PC), Key::HighestPC, Ghost(Cell::HighestPC)) {
            Ok(()) => match &self.store.highest_pc {
                Some(pc) => Ok(pc.clone()),
                None => Err(missing(Key::HighestPC)),
            },
            Err(e) => Err(e),
        }
    }

    pub fn highest_committed_block(&self) -> (r: Result<Option<CryptoHash>, BlockTreeError>)
        ensures
            r == readable_or(
                self@,
                Cell::HighestCommittedBlock,
                Key::HighestCommittedBlock,
                self@.highest_committed_block,
            ),
    {
        match self.store.see_readable(
            single_key(HIGHEST_COMMITTED_BLOCK),
            Key::HighestCommittedBlock,
            Ghost(Cell::HighestCommittedBlock),
        ) {
            Ok(()) => Ok(self.store.highest_committed_block),
            Err(e) => Err(e),
        }
    }

    /// The block that was inserted last.
    pub(crate) fn newest_block(&self) -> (r: Result<Option<CryptoHash>, BlockTreeError>)
        ensures
            r == readable_or(self@, Cell::NewestBlock, Key::NewestBlock, self@.newest_block),
    {
        match self.store.see_readable(
            single_key(NEWEST_BLOCK),
            Key::NewestBlock,
            Ghost(Cell::NewestBlock),
        ) {
            Ok(()) => Ok(self.store.newest_block),
            Err(e) => Err(e),
        }
    }

    pub fn highest_tc(&self) -> (r: Result<Option<TimeoutCertificate>, BlockTreeError>)
        ensures
            r == readable_or(self@, Cell::HighestTC, Key::HighestTC, self@.highest_tc),
    {
        match self.store.see_readable(single_key(HIGHEST_TC), Key::HighestTC, Ghost(Cell::HighestTC)) {
            Ok(()) => match &self.store.highest_tc {
                Some(tc) => Ok(Some(tc.clone())),
                None => Ok(None),
            },
            Err(e) => Err(e),
        }
    }

    /// The validator set before the committed one.
    fn previous_validator_set(&self) -> (r: Result<ValidatorSet, BlockTreeError>)
        ensures
            match r {
                Ok(set) => !store::unread_at(self@, Cell::PreviousValidatorSet)
                    && self@.previous_validators == Some(set@),
                Err(e) => if store::unread_at(self@, Cell::PreviousValidatorSet) {
                    e == errors::undecodable(Key::PreviousValidatorSet)
                } else {
                    self@.previous_validators is None && e == errors::not_found(
                        Key::PreviousValidatorSet,
                    )
                },
            },
    {
        match self.store.see_readable(
            single_key(PREVIOUS_VALIDATOR_SET),
            Key::PreviousValidatorSet,
            Ghost(Cell::PreviousValidatorSet),
        ) {
            Ok(()) => match &self.store.previous_validator_set {
                Some(set) => Ok(set.clone()),
                None => Err(missing(Key::PreviousValidatorSet)),
            },
            Err(e) => Err(e),
        }
    }

    /// The height of the block with the latest change of validators.
    fn validator_set_update_height(&self) -> (r: Result<Option<BlockHeight>, BlockTreeError>)
        ensures
            r == readable_or(
                self@,
                Cell::ValidatorSetUpdateHeight,
                Key::ValidatorSetUpdateHeight,
                self@.update_height,
            ),
    {
        match self.store.see_readable(
            single_key(VALIDATOR_SET_UPDATE_BLOCK_HEIGHT),
            Key::ValidatorSetUpdateHeight,
            Ghost(Cell::ValidatorSetUpdateHeight),
        ) {
            Ok(()) => Ok(self.store.update_height),
            Err(e) => Err(e),
        }
    }

    /// Whether the latest change of validators was decided.
    fn validator_set_update_decided(&self) -> (r: Result<bool, BlockTreeError>)
        ensures
            r == needed(
                self@,
                Cell::ValidatorSetUpdateDecided,
                Key::ValidatorSetUpdateDecided,
                self@.update_decided,
            ),
    {
        match self.store.see_readable(
            single_key(VALIDATOR_SET_UPDATE_DECIDED),
            Key::ValidatorSetUpdateDecided,
            Ghost(Cell::ValidatorSetUpdateDecided),
        ) {
            Ok(()) => match self.store.update_decided {
                Some(decided) => Ok(decided),
                None => Err(missing(Key::ValidatorSetUpdateDecided)),
            },
            Err(e) => Err(e),
        }
    }

    /// The validator sets and the state of the change between them.
    pub fn validator_set_state(&self) -> (r: Result<ValidatorSetState, BlockTreeError>)
        ensures
            match r {
                Ok(state) => state@ == validators_of(self@) && validators_fault(self@) is None,
                Err(e) => validators_fault(self@) == Some(e),
            },
            initialized(self@) ==> r is Ok,
    {
        let committed = match self.committed_validator_set() {
            Ok(set) => set,
            Err(e) => {
                return Err(e);
            },
        };
        let previous = match self.previous_validator_set() {
            Ok(set) => set,
            Err(e) => {
                return Err(e);
            },
        };
        let height = match self.validator_set_update_height() {
            Ok(height) => height,
            Err(e) => {
                return Err(e);
            },
        };
        let decided: bool = match self.validator_set_update_decided() {
            Ok(decided) => decided,
            Err(e) => {
                return Err(e);
            },
        };
        let state = ValidatorSetState::new(committed, previous, height, decided);
        assert(state@ =~= validators_of(self@));
        Ok(state)
    }

    pub fn highest_view_voted(&self) -> (r: Result<Option<ViewNumber>, BlockTreeError>)
        ensures
            r == readable_or(
                self@,
                Cell::HighestViewPhaseVoted,
                Key::HighestViewPhaseVoted,
                self@.highest_view_phase_voted,
            ),
    {
        match self.store.see_readable(
            single_key(HIGHEST_VIEW_PHASE_VOTED),
            Key::HighestViewPhaseVoted,
            Ghost(Cell::HighestViewPhaseVoted),
        ) {
            Ok(()) => Ok(self.store.highest_view_phase_voted),
            Err(e) => Err(e),
        }
    }

    /// Whether the tree holds `block`, and all of it can be read.
    pub fn contains(&self, block: &CryptoHash) -> (r: bool)
        ensures
            r == (self@.blocks.contains_key(*block) || exists|found: Block|
                found.hash == *block && #[trigger] reading::block_held(self@.unread, found)),
            store::readable(self@) ==> r == self@.blocks.contains_key(*block),
    {
        if self.store.blocks.contains_key(block) {
            return true;
        }
        match read_block(&self.store.unread, block) {
            Ok(Some(found)) => {
                assert(reading::block_held(self@.unread, found));
                true
            },
            Ok(None) => false,
            Err(e) => {
                proof {
                    reading::lemma_fault(self@.unread, *block, e);
                }
                false
            },
        }
    }

    /// The height of the highest committed block.
    pub fn highest_committed_block_height(&self) -> (r: Result<
        Option<BlockHeight>,
        BlockTreeError,
    >)
        ensures
            r == frontier_height(self@),
            store::readable(self@) ==> r == Ok::<Option<BlockHeight>, BlockTreeError>(
                committed_height(self@),
            ),
    {
        match self.highest_committed_block() {
            Ok(Some(block)) => self.block_height(&block),
            Ok(None) => Ok(None),
            Err(e) => Err(e),
        }
    }

    /// The leader reputation.
    pub fn leader_reputation(&self) -> (r: Result<LeaderReputation, BlockTreeError>)
        ensures
            match r {
                Ok(reputation) => !store::unread_at(self@, Cell::LeaderReputation)
                    && reputation.entries@ == reputation_of(self@).0 && reputation.window_size
                    == reputation_of(self@).1,
                Err(e) => store::unread_at(self@, Cell::LeaderReputation) && e
                    == errors::undecodable(Key::HighestTC),
            },
    {
        match self.store.see_readable(
            single_key(LEADER_REPUTATION),
            Key::HighestTC,
            Ghost(Cell::LeaderReputation),
        ) {
            Ok(()) => match &self.store.reputation {
                Some(reputation) => Ok(reputation.clone()),
                None => Ok(LeaderReputation::new(100)),
            },
            Err(e) => Err(e),
        }
    }
}

/// The number of datums of a block, as far as a `u32` can hold it.
pub open spec fn data_len_of(block: Block) -> DataLen {
    DataLen(block.data@.len() as u32)
}

} // verus!
