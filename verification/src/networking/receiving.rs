//! Which of the messages that arrive are looked at now, which are kept for a later view, and which
//! are dropped.

use vstd::prelude::*;

use crate::hotstuff::messages::HotStuffMessage;
use crate::networking::messages;
use crate::networking::messages::ProgressMessage;
use crate::pacemaker;
use crate::types::data_types::{BufferSize, ChainID, VerifyingKey, ViewNumber};

verus! {

/// Why no response to a sync request came.
#[derive(Clone, Copy, PartialEq, Eq, Debug)]
pub enum BlockSyncResponseReceiveError {
    Disconnected,
    Timeout,
}

/// Why there is no sync request to serve.
#[derive(Clone, Copy, PartialEq, Eq, Debug)]
pub enum BlockSyncRequestReceiveError {
    Disconnected,
    NotAvailable,
}

/// Why there is no message to process.
#[derive(Clone, Copy, PartialEq, Eq, Debug)]
pub enum ProgressMessageReceiveError {
    Timeout,
    Disconnected,
}

/// A message that is kept for its view.
pub struct Kept {
    pub view: ViewNumber,
    pub sender: VerifyingKey,
    pub message: ProgressMessage,
}

/// The number of bytes that a message takes up in the buffer.
pub open spec fn kept_size(message: ProgressMessage) -> nat {
    vstd::layout::size_of::<VerifyingKey>() + messages::size_of_message(message)
}

/// The number of bytes that kept messages take up.
pub open spec fn kept_bytes(kept: Seq<Kept>) -> nat
    decreases kept.len(),
{
    if kept.len() == 0 {
        0
    } else {
        kept_bytes(kept.drop_last()) + kept_size(kept.last().message)
    }
}

/// Whether messages are in the order of their views.
pub open spec fn in_order(kept: Seq<Kept>) -> bool {
    forall|i: int, j: int| 0 <= i < j < kept.len() ==> kept[i].view.0 <= kept[j].view.0
}

/// Where a message for `view` goes: behind those for the same view and lower ones.
pub open spec fn place_for(kept: Seq<Kept>, view: ViewNumber) -> int
    decreases kept.len(),
{
    if kept.len() == 0 {
        0
    } else if kept.last().view.0 <= view.0 {
        kept.len() as int
    } else {
        place_for(kept.drop_last(), view)
    }
}

/// `kept` without its last messages, as many as it takes to free `bytes` bytes.
pub open spec fn freed(kept: Seq<Kept>, bytes: int) -> Seq<Kept>
    decreases kept.len(),
{
    if bytes <= 0 || kept.len() == 0 {
        kept
    } else {
        freed(kept.drop_last(), bytes - kept_size(kept.last().message))
    }
}

/// The place of the first message for `view`.
pub open spec fn first_for(kept: Seq<Kept>, view: ViewNumber) -> int
    decreases kept.len(),
{
    if kept.len() == 0 {
        0
    } else {
        let before = first_for(kept.drop_last(), view);
        if before < kept.len() - 1 || kept.last().view == view {
            before
        } else {
            kept.len() as int
        }
    }
}

/// How many messages are for views below `view`.
pub open spec fn expired(kept: Seq<Kept>, view: ViewNumber) -> int
    decreases kept.len(),
{
    if kept.len() == 0 {
        0
    } else {
        let before = expired(kept.drop_last(), view);
        if before == kept.len() - 1 && kept.last().view.0 < view.0 {
            kept.len() as int
        } else {
            before
        }
    }
}

/// The outcome of keeping a message within `capacity` bytes: the messages then kept, and whether it
/// is among them. Messages for the highest views make place for one for a lower view.
pub open spec fn keeping(kept: Seq<Kept>, capacity: u64, entry: Kept) -> (Seq<Kept>, bool) {
    let size = kept_size(entry.message);
    let free = capacity - kept_bytes(kept);
    if size > capacity {
        (kept, false)
    } else if size <= free {
        (kept.insert(place_for(kept, entry.view), entry), true)
    } else if kept.len() > 0 && entry.view.0 < kept.last().view.0 {
        let less = freed(kept, size - free);
        (less.insert(place_for(less, entry.view), entry), true)
    } else {
        (kept, false)
    }
}

proof fn lemma_kept_bytes_insert(kept: Seq<Kept>, at: int, entry: Kept)
    requires
        0 <= at <= kept.len(),
    ensures
        kept_bytes(kept.insert(at, entry)) == kept_bytes(kept) + kept_size(entry.message),
    decreases kept.len(),
{
    let longer = kept.insert(at, entry);
    if at == kept.len() {
        assert(longer.drop_last() =~= kept);
    } else {
        assert(longer.drop_last() =~= kept.drop_last().insert(at, entry));
        assert(longer.last() == kept.last());
        lemma_kept_bytes_insert(kept.drop_last(), at, entry);
    }
}

proof fn lemma_kept_bytes_remove(kept: Seq<Kept>, at: int)
    requires
        0 <= at < kept.len(),
    ensures
        kept_bytes(kept.remove(at)) + kept_size(kept[at].message) == kept_bytes(kept),
    decreases kept.len(),
{
    let shorter = kept.remove(at);
    if at == kept.len() - 1 {
        assert(shorter =~= kept.drop_last());
    } else {
        assert(shorter.drop_last() =~= kept.drop_last().remove(at));
        assert(shorter.last() == kept.last());
        lemma_kept_bytes_remove(kept.drop_last(), at);
    }
}

pub(crate) proof fn lemma_place_for(kept: Seq<Kept>, view: ViewNumber)
    requires
        in_order(kept),
    ensures
        0 <= place_for(kept, view) <= kept.len(),
        forall|i: int| 0 <= i < place_for(kept, view) ==> kept[i].view.0 <= view.0,
        forall|i: int| place_for(kept, view) <= i < kept.len() ==> kept[i].view.0 > view.0,
    decreases kept.len(),
{
    if kept.len() > 0 {
        if kept.last().view.0 > view.0 {
            lemma_place_for(kept.drop_last(), view);
            assert forall|i: int| place_for(kept, view) <= i < kept.len() implies kept[i].view.0
                > view.0 by {
                if i < kept.len() - 1 {
                    assert(kept[i] == kept.drop_last()[i]);
                }
            }
            assert forall|i: int| 0 <= i < place_for(kept, view) implies kept[i].view.0
                <= view.0 by {
                assert(kept[i] == kept.drop_last()[i]);
            }
        } else {
            assert forall|i: int| 0 <= i < place_for(kept, view) implies kept[i].view.0
                <= view.0 by {
                assert(kept[i].view.0 <= kept[kept.len() - 1].view.0);
            }
        }
    }
}

proof fn lemma_insert_in_order(kept: Seq<Kept>, entry: Kept)
    requires
        in_order(kept),
    ensures
        in_order(kept.insert(place_for(kept, entry.view), entry)),
{
    let at = place_for(kept, entry.view);
    lemma_place_for(kept, entry.view);
    let after = kept.insert(at, entry);
    assert forall|i: int, j: int| 0 <= i < j < after.len() implies after[i].view.0
        <= after[j].view.0 by {
        let i0 = if i < at {
            i
        } else {
            i - 1
        };
        let j0 = if j < at {
            j
        } else {
            j - 1
        };
        if i != at {
            assert(after[i] == kept[i0]);
        }
        if j != at {
            assert(after[j] == kept[j0]);
        }
    }
}

pub(crate) proof fn lemma_freed(kept: Seq<Kept>, bytes: int)
    ensures
        freed(kept, bytes).len() <= kept.len(),
        freed(kept, bytes) == kept.take(freed(kept, bytes).len() as int),
        kept_bytes(freed(kept, bytes)) <= kept_bytes(kept),
        bytes <= kept_bytes(kept) ==> kept_bytes(freed(kept, bytes)) + bytes <= kept_bytes(kept),
    decreases kept.len(),
{
    if bytes <= 0 || kept.len() == 0 {
        assert(kept.take(kept.len() as int) =~= kept);
    } else {
        let size = kept_size(kept.last().message);
        lemma_freed(kept.drop_last(), bytes - size);
        let less = freed(kept, bytes);
        assert(kept.drop_last().take(less.len() as int) =~= kept.take(less.len() as int));
    }
}

/// Messages that are kept for later views, within a number of bytes. When space runs out, messages
/// for the highest views go first.
pub struct ProgressMessageBuffer {
    pub buffer_capacity: BufferSize,
    /// The messages in the order of their views, those for one view in the order of their arrival.
    pub buffer: Vec<Kept>,
    pub buffer_size: BufferSize,
}

impl ProgressMessageBuffer {
    /// Whether the bytes are accounted for, the capacity is respected, and the messages are in the
    /// order of their views.
    pub open spec fn wf(&self) -> bool {
        &&& in_order(self.buffer@)
        &&& self.buffer_size.0 == kept_bytes(self.buffer@)
        &&& self.buffer_size.0 <= self.buffer_capacity.0
    }

    /// An empty buffer.
    pub fn new(buffer_capacity: BufferSize) -> (r: Self)
        ensures
            r.wf(),
            r.buffer_capacity == buffer_capacity,
            r.buffer@ == Seq::<Kept>::empty(),
    {
        ProgressMessageBuffer { buffer_capacity, buffer: Vec::new(), buffer_size: BufferSize(0) }
    }

    /// How many messages are kept for `view`.
    pub fn queued(&self, view: &ViewNumber) -> (r: usize)
        ensures
            r == self.buffer@.filter(|kept: Kept| kept.view == *view).len(),
    {
        let ghost is_for = |kept: Kept| kept.view == *view;
        let mut count: usize = 0;
        let mut i: usize = 0;
        proof {
            reveal(Seq::filter);
            assert(self.buffer@.take(0).filter(is_for) =~= Seq::<Kept>::empty());
        }
        while i < self.buffer.len()
            invariant
                i <= self.buffer@.len(),
                is_for == (|kept: Kept| kept.view == *view),
                count == self.buffer@.take(i as int).filter(is_for).len(),
                count <= i,
            decreases self.buffer@.len() - i,
        {
            proof {
                reveal(Seq::filter);
                assert(self.buffer@.take(i + 1).drop_last() =~= self.buffer@.take(i as int));
            }
            if self.buffer[i].view.0 == view.0 {
                count = count + 1;
            }
            i = i + 1;
        }
        assert(self.buffer@.take(i as int) =~= self.buffer@);
        count
    }

    /// Try to keep a message. Returns whether it is kept.
    pub fn insert(&mut self, view: ViewNumber, message: ProgressMessage, sender: VerifyingKey) -> (r:
        bool)
        requires
            old(self).wf(),
        ensures
            final(self).wf(),
            final(self).buffer_capacity == old(self).buffer_capacity,
            final(self).buffer@ == keeping(
                old(self).buffer@,
                old(self).buffer_capacity.0,
                (Kept { view, sender, message }),
            ).0,
            r == keeping(
                old(self).buffer@,
                old(self).buffer_capacity.0,
                (Kept { view, sender, message }),
            ).1,
    {
        let key_size: u64 = std::mem::size_of::<VerifyingKey>() as u64;
        let bytes_requested: u64 = match key_size.checked_add(message.size()) {
            Some(bytes) => bytes,
            None => {
                return false;
            },
        };
        if bytes_requested > self.buffer_capacity.0 {
            return false;
        }
        let free_bytes: u64 = self.buffer_capacity.0 - self.buffer_size.0;
        if bytes_requested > free_bytes {
            let count: usize = self.buffer.len();
            if count == 0 || view.0 >= self.buffer[count - 1].view.0 {
                return false;
            }
            self.remove_highest_viewed_msgs(bytes_requested - free_bytes);
            proof {
                lemma_freed(old(self).buffer@, bytes_requested - free_bytes);
            }
        }
        self.put(Kept { view, sender, message }, bytes_requested);
        true
    }

    fn put(&mut self, entry: Kept, bytes: u64)
        requires
            old(self).wf(),
            bytes == kept_size(entry.message),
            old(self).buffer_size.0 + bytes <= old(self).buffer_capacity.0,
        ensures
            final(self).wf(),
            final(self).buffer_capacity == old(self).buffer_capacity,
            final(self).buffer@ == old(self).buffer@.insert(
                place_for(old(self).buffer@, entry.view),
                entry,
            ),
    {
        let at = self.find_place(entry.view);
        proof {
            lemma_place_for(self.buffer@, entry.view);
            lemma_kept_bytes_insert(self.buffer@, at as int, entry);
            lemma_insert_in_order(self.buffer@, entry);
        }
        self.buffer.insert(at, entry);
        self.buffer_size = BufferSize(self.buffer_size.0 + bytes);
    }

    fn find_place(&self, view: ViewNumber) -> (r: usize)
        ensures
            r == place_for(self.buffer@, view),
            r <= self.buffer@.len(),
    {
        let mut at: usize = self.buffer.len();
        assert(self.buffer@.take(at as int) =~= self.buffer@);
        while at > 0 && self.buffer[at - 1].view.0 > view.0
            invariant
                at <= self.buffer@.len(),
                place_for(self.buffer@, view) == place_for(self.buffer@.take(at as int), view),
            decreases at,
        {
            assert(self.buffer@.take(at as int).drop_last() =~= self.buffer@.take(at - 1));
            at = at - 1;
        }
        at
    }

    /// Take out the first message for `view`.
    pub fn get_msg(&mut self, view: &ViewNumber) -> (r: Option<(VerifyingKey, ProgressMessage)>)
        requires
            old(self).wf(),
        ensures
            final(self).wf(),
            final(self).buffer_capacity == old(self).buffer_capacity,
            ({
                let at = first_for(old(self).buffer@, *view);
                if at < old(self).buffer@.len() {
                    &&& r == Some((old(self).buffer@[at].sender, old(self).buffer@[at].message))
                    &&& final(self).buffer@ == old(self).buffer@.remove(at)
                } else {
                    &&& r is None
                    &&& final(self).buffer@ == old(self).buffer@
                }
            }),
    {
        let mut at: usize = 0;
        assert(self.buffer@.take(0) =~= Seq::<Kept>::empty());
        while at < self.buffer.len()
            invariant
                at <= self.buffer@.len(),
                *self == *old(self),
                old(self).wf(),
                first_for(self.buffer@.take(at as int), *view) == at,
            decreases self.buffer@.len() - at,
        {
            assert(self.buffer@.take(at + 1).drop_last() =~= self.buffer@.take(at as int));
            if self.buffer[at].view.0 == view.0 {
                proof {
                    lemma_first_for_early(self.buffer@, *view, at + 1);
                    lemma_kept_bytes_remove(self.buffer@, at as int);
                    let before = self.buffer@;
                    let after = before.remove(at as int);
                    assert forall|i: int, j: int| 0 <= i < j < after.len() implies after[i].view.0
                        <= after[j].view.0 by {
                        let i0 = if i < at { i } else { i + 1 };
                        let j0 = if j < at { j } else { j + 1 };
                        assert(after[i] == before[i0]);
                        assert(after[j] == before[j0]);
                    }
                }
                let kept = self.buffer.remove(at);
                let key_size: u64 = std::mem::size_of::<VerifyingKey>() as u64;
                let size: u64 = kept.message.size();
                self.buffer_size = BufferSize(self.buffer_size.0 - size - key_size);
                return Some((kept.sender, kept.message));
            }
            at = at + 1;
        }
        assert(self.buffer@.take(at as int) =~= self.buffer@);
        None
    }

    /// Drop messages for the highest views, the latest first, until `bytes_to_remove` bytes are
    /// free.
    fn remove_highest_viewed_msgs(&mut self, bytes_to_remove: u64)
        requires
            old(self).wf(),
        ensures
            final(self).wf(),
            final(self).buffer_capacity == old(self).buffer_capacity,
            final(self).buffer@ == freed(old(self).buffer@, bytes_to_remove as int),
    {
        let key_size: u64 = std::mem::size_of::<VerifyingKey>() as u64;
        let mut bytes_removed: u64 = 0;
        while bytes_removed < bytes_to_remove && self.buffer.len() > 0
            invariant
                self.wf(),
                self.buffer_capacity == old(self).buffer_capacity,
                key_size == vstd::layout::size_of::<VerifyingKey>(),
                freed(self.buffer@, bytes_to_remove - bytes_removed) == freed(
                    old(self).buffer@,
                    bytes_to_remove as int,
                ),
                bytes_removed + self.buffer_size.0 <= old(self).buffer_size.0,
            decreases self.buffer@.len(),
        {
            let ghost before = self.buffer@;
            match self.buffer.pop() {
                Some(kept) => {
                    assert(self.buffer@ =~= before.drop_last());
                    assert(kept == before.last());
                    let size: u64 = kept.message.size();
                    assert(kept_bytes(before) == kept_bytes(self.buffer@) + size + key_size);
                    bytes_removed = bytes_removed + size + key_size;
                    self.buffer_size = BufferSize(self.buffer_size.0 - size - key_size);
                },
                None => {},
            }
        }
    }

    /// Drop the messages for views below `cur_view`.
    pub fn remove_expired_msgs(&mut self, cur_view: ViewNumber)
        requires
            old(self).wf(),
        ensures
            final(self).wf(),
            final(self).buffer_capacity == old(self).buffer_capacity,
            final(self).buffer@ == old(self).buffer@.skip(expired(old(self).buffer@, cur_view)),
    {
        let key_size: u64 = std::mem::size_of::<VerifyingKey>() as u64;
        let ghost all = self.buffer@;
        let ghost mut dropped: int = 0;
        assert(all.skip(0) =~= all);
        assert(all.take(0) =~= Seq::<Kept>::empty());
        while self.buffer.len() > 0 && self.buffer[0].view.0 < cur_view.0
            invariant
                self.wf(),
                self.buffer_capacity == old(self).buffer_capacity,
                key_size == vstd::layout::size_of::<VerifyingKey>(),
                old(self).buffer@ == all,
                0 <= dropped <= all.len(),
                self.buffer@ == all.skip(dropped),
                expired(all.take(dropped), cur_view) == dropped,
            decreases self.buffer@.len(),
        {
            let ghost before = self.buffer@;
            let kept = self.buffer.remove(0);
            proof {
                assert(self.buffer@ =~= before.remove(0));
                assert(self.buffer@ =~= all.skip(dropped + 1));
                assert(all.take(dropped + 1).drop_last() =~= all.take(dropped));
                assert(all[dropped] == before[0]);
                lemma_kept_bytes_remove(before, 0);
                dropped = dropped + 1;
            }
            let size: u64 = kept.message.size();
            self.buffer_size = BufferSize(self.buffer_size.0 - size - key_size);
        }
        proof {
            lemma_expired_stops(all, cur_view, dropped);
        }
    }
}

proof fn lemma_first_for_early(kept: Seq<Kept>, view: ViewNumber, upto: int)
    requires
        0 <= upto <= kept.len(),
        first_for(kept.take(upto), view) < upto,
    ensures
        first_for(kept, view) == first_for(kept.take(upto), view),
    decreases kept.len() - upto,
{
    if upto < kept.len() {
        assert(kept.take(upto + 1).drop_last() =~= kept.take(upto));
        lemma_first_for_early(kept, view, upto + 1);
    } else {
        assert(kept.take(upto) =~= kept);
    }
}

proof fn lemma_expired_stops(kept: Seq<Kept>, view: ViewNumber, upto: int)
    requires
        0 <= upto <= kept.len(),
        expired(kept.take(upto), view) == upto,
        upto < kept.len() ==> kept[upto].view.0 >= view.0,
    ensures
        expired(kept, view) == upto,
{
    if upto < kept.len() {
        lemma_expired_stays(kept, view, upto, kept.len() as int);
    }
    assert(kept.take(kept.len() as int) =~= kept);
}

proof fn lemma_expired_stays(kept: Seq<Kept>, view: ViewNumber, upto: int, end: int)
    requires
        0 <= upto < end <= kept.len(),
        expired(kept.take(upto), view) == upto,
        kept[upto].view.0 >= view.0,
    ensures
        expired(kept.take(end), view) == upto,
    decreases end,
{
    assert(kept.take(end).drop_last() =~= kept.take(end - 1));
    if end > upto + 1 {
        lemma_expired_stays(kept, view, upto, end - 1);
    }
}

/// Whether a message is the body of a chain's first block, which names no chain: its certificate is
/// the genesis certificate, which is the same on every chain.
pub open spec fn is_genesis_body(message: ProgressMessage) -> bool {
    match message {
        ProgressMessage::HotStuffMessage(HotStuffMessage::BlockDataResponse(response)) => {
            &&& response.block.height.0 == 0
            &&& response.block.justify.is_genesis()
            &&& response.block.hash_matches()
        },
        _ => false,
    }
}

/// Whether a message is the body of a chain's first block.
pub fn is_chain_neutral_genesis_body(message: &ProgressMessage) -> (r: bool)
    ensures
        r == is_genesis_body(*message),
{
    match message {
        ProgressMessage::HotStuffMessage(HotStuffMessage::BlockDataResponse(response)) => {
            response.block.height.0 == 0 && response.block.justify.is_genesis_pc()
                && response.block.is_hash_correct()
        },
        _ => false,
    }
}

/// Whether a message is for this chain.
pub open spec fn concerns_chain(message: ProgressMessage, chain_id: ChainID) -> bool {
    messages::chain_of(message) == chain_id || is_genesis_body(message)
}

/// Whether a message is for a view later than `view`.
pub open spec fn is_early(message: ProgressMessage, view: ViewNumber) -> bool {
    match messages::view_of(message) {
        Some(of) => of.0 > view.0,
        None => false,
    }
}

/// Whether a message is processed in `view`: a HotStuff message for this view, or about block
/// bodies; a pacemaker message for this view or a later one; any advertisement.
pub open spec fn is_processed_in(message: ProgressMessage, view: ViewNumber) -> bool {
    match message {
        ProgressMessage::HotStuffMessage(m) => {
            ||| crate::hotstuff::messages::message_view(m) == view
            ||| crate::hotstuff::messages::carries_block_data(m)
        },
        ProgressMessage::PacemakerMessage(m) => {
            pacemaker::progress_view(m.progress_certificate).0 >= view.0
        },
        ProgressMessage::BlockSyncAdvertiseMessage(_) => true,
    }
}

/// What a poll before body retries is to do next.
#[derive(Clone, Copy, PartialEq, Eq, Structural, Debug)]
pub enum BeforeRetryAction {
    /// Take an envelope if one is ready.
    TakeReady,
    /// Wait for an envelope until the deadline.
    Wait,
    /// Go on without a message.
    GiveUp,
}

/// The receiving end of messages that make a replica progress.
///
/// A HotStuff message for a later view is kept until that view. A pacemaker message for a later
/// view is both kept and processed at once. An advertisement is processed at once.
pub struct ProgressMessageStub {
    pub msg_buffer: ProgressMessageBuffer,
}

/// How many envelopes are looked at before body retries.
pub const MAX_BEFORE_RETRY_ENVELOPES: usize = 8;

/// The messages kept after `message` arrived in `view`.
pub open spec fn kept_after(
    kept: Seq<Kept>,
    capacity: u64,
    chain_id: ChainID,
    view: ViewNumber,
    sender: VerifyingKey,
    message: ProgressMessage,
) -> Seq<Kept> {
    if concerns_chain(message, chain_id) && is_early(message, view) {
        keeping(kept, capacity, Kept { view: messages::view_of(message)->0, sender, message }).0
    } else {
        kept
    }
}

impl ProgressMessageStub {
    /// A receiving end with nothing kept.
    pub fn new(msg_buffer_capacity: BufferSize) -> (r: Self)
        ensures
            r.msg_buffer.wf(),
            r.msg_buffer.buffer_capacity == msg_buffer_capacity,
            r.msg_buffer.buffer@ == Seq::<Kept>::empty(),
    {
        ProgressMessageStub { msg_buffer: ProgressMessageBuffer::new(msg_buffer_capacity) }
    }

    /// Begin to receive in `cur_view`: drop the messages of past views, and take out one that was
    /// kept for this view.
    pub fn take_buffered(&mut self, cur_view: ViewNumber) -> (r: Option<
        (VerifyingKey, ProgressMessage),
    >)
        requires
            old(self).msg_buffer.wf(),
        ensures
            final(self).msg_buffer.wf(),
            final(self).msg_buffer.buffer_capacity == old(self).msg_buffer.buffer_capacity,
            ({
                let kept = old(self).msg_buffer.buffer@.skip(
                    expired(old(self).msg_buffer.buffer@, cur_view),
                );
                let at = first_for(kept, cur_view);
                if at < kept.len() {
                    &&& r == Some((kept[at].sender, kept[at].message))
                    &&& final(self).msg_buffer.buffer@ == kept.remove(at)
                } else {
                    &&& r is None
                    &&& final(self).msg_buffer.buffer@ == kept
                }
            }),
    {
        self.msg_buffer.remove_expired_msgs(cur_view);
        self.msg_buffer.get_msg(&cur_view)
    }

    /// Look at an envelope that arrived in `cur_view`: keep the message if it is for a later view,
    /// and hand it out if it is to be processed now.
    pub fn take_arrival(
        &mut self,
        chain_id: ChainID,
        cur_view: ViewNumber,
        sender: VerifyingKey,
        message: ProgressMessage,
    ) -> (r: Option<(VerifyingKey, ProgressMessage)>)
        requires
            old(self).msg_buffer.wf(),
        ensures
            final(self).msg_buffer.wf(),
            final(self).msg_buffer.buffer_capacity == old(self).msg_buffer.buffer_capacity,
            final(self).msg_buffer.buffer@ == kept_after(
                old(self).msg_buffer.buffer@,
                old(self).msg_buffer.buffer_capacity.0,
                chain_id,
                cur_view,
                sender,
                message,
            ),
            r == (if concerns_chain(message, chain_id) && is_processed_in(message, cur_view) {
                Some((sender, message))
            } else {
                None
            }),
    {
        if message.chain_id().0 != chain_id.0 && !is_chain_neutral_genesis_body(&message) {
            return None;
        }
        match &message {
            ProgressMessage::HotStuffMessage(m) => {
                let view = m.view();
                if view.0 > cur_view.0 {
                    let _ = self.msg_buffer.insert(
                        view,
                        ProgressMessage::HotStuffMessage(m.clone()),
                        sender,
                    );
                }
                if view.0 == cur_view.0 || m.is_block_data_msg() {
                    Some((sender, message))
                } else {
                    None
                }
            },
            ProgressMessage::PacemakerMessage(m) => {
                let view = m.view();
                if view.0 > cur_view.0 {
                    let _ = self.msg_buffer.insert(
                        view,
                        ProgressMessage::PacemakerMessage(m.clone()),
                        sender,
                    );
                }
                if view.0 >= cur_view.0 {
                    Some((sender, message))
                } else {
                    None
                }
            },
            ProgressMessage::BlockSyncAdvertiseMessage(_) => Some((sender, message)),
        }
    }

    /// What a poll before body retries does next, after `examined` envelopes, `found_empty` if
    /// the last attempt found none ready. The number of envelopes is bounded whatever they hold, and
    /// the poll waits only for the first.
    pub fn before_retry_action(
        examined: usize,
        found_empty: bool,
        now: u64,
        deadline: u64,
    ) -> (r: BeforeRetryAction)
        ensures
            r == (if examined >= MAX_BEFORE_RETRY_ENVELOPES {
                BeforeRetryAction::GiveUp
            } else if !found_empty {
                BeforeRetryAction::TakeReady
            } else if examined == 0 && now < deadline {
                BeforeRetryAction::Wait
            } else {
                BeforeRetryAction::GiveUp
            }),
    {
        if examined >= MAX_BEFORE_RETRY_ENVELOPES {
            BeforeRetryAction::GiveUp
        } else if !found_empty {
            BeforeRetryAction::TakeReady
        } else if examined == 0 && now < deadline {
            BeforeRetryAction::Wait
        } else {
            BeforeRetryAction::GiveUp
        }
    }
}

} // verus!
