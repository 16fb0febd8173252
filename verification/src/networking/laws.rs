//! Messages that are kept for a view are handed out in the order in which they came.

use vstd::prelude::*;

use crate::networking::messages;
use crate::networking::messages::ProgressMessage;
use crate::networking::receiving;
use crate::networking::receiving::Kept;
use crate::pacemaker;
use crate::types::data_types::{ChainID, VerifyingKey, ViewNumber};

verus! {

/// The messages that are kept for a view, in the order in which they came.
pub open spec fn kept_for(kept: Seq<Kept>, view: ViewNumber) -> Seq<Kept> {
    kept.filter(|entry: Kept| entry.view == view)
}

/// What is kept for a view in two parts.
proof fn lemma_kept_for_concat(first: Seq<Kept>, second: Seq<Kept>, view: ViewNumber)
    ensures
        kept_for(first + second, view) == kept_for(first, view) + kept_for(second, view),
{
    Seq::filter_distributes_over_add(first, second, |entry: Kept| entry.view == view);
}

/// Of one message.
proof fn lemma_kept_for_one(entry: Kept, view: ViewNumber)
    ensures
        kept_for(seq![entry], view) == (if entry.view == view {
            seq![entry]
        } else {
            Seq::empty()
        }),
{
    reveal(Seq::filter);
    assert(seq![entry].drop_last() =~= Seq::<Kept>::empty());
    assert(kept_for(Seq::<Kept>::empty(), view) =~= Seq::<Kept>::empty());
}

/// Of messages that are all for other views.
proof fn lemma_kept_for_none(kept: Seq<Kept>, view: ViewNumber)
    requires
        forall|i: int| 0 <= i < kept.len() ==> (#[trigger] kept[i]).view != view,
    ensures
        kept_for(kept, view) == Seq::<Kept>::empty(),
    decreases kept.len(),
{
    reveal(Seq::filter);
    if kept.len() > 0 {
        assert forall|i: int| 0 <= i < kept.drop_last().len() implies (
        #[trigger] kept.drop_last()[i]).view != view by {
            assert(kept[i].view != view);
        }
        lemma_kept_for_none(kept.drop_last(), view);
        assert(kept[kept.len() - 1].view != view);
    }
}

/// What a message that finds its place adds to what is kept for a view.
proof fn lemma_placed(kept: Seq<Kept>, entry: Kept, view: ViewNumber)
    requires
        receiving::in_order(kept),
    ensures
        kept_for(kept.insert(receiving::place_for(kept, entry.view), entry), view) == (if entry.view == view {
            kept_for(kept, view).push(entry)
        } else {
            kept_for(kept, view)
        }),
{
    let at = receiving::place_for(kept, entry.view);
    receiving::lemma_place_for(kept, entry.view);
    let before = kept.take(at);
    let behind = kept.skip(at);
    assert(kept =~= before + behind);
    assert(kept.insert(at, entry) =~= before + seq![entry] + behind);
    lemma_kept_for_concat(before, behind, view);
    lemma_kept_for_concat(before, seq![entry], view);
    lemma_kept_for_concat(before + seq![entry], behind, view);
    lemma_kept_for_one(entry, view);
    if entry.view == view {
        assert forall|i: int| 0 <= i < behind.len() implies (#[trigger] behind[i]).view
            != view by {
            assert(kept[at + i].view.0 > entry.view.0);
        }
        lemma_kept_for_none(behind, view);
        assert(kept_for(before, view) + seq![entry] + Seq::<Kept>::empty() =~= kept_for(
            before,
            view,
        ).push(entry));
        assert(kept_for(before, view) + Seq::<Kept>::empty() =~= kept_for(before, view));
    } else {
        assert(kept_for(before, view) + Seq::<Kept>::empty() + kept_for(behind, view) =~= kept_for(
            before,
            view,
        ) + kept_for(behind, view));
    }
}

/// A message that is kept comes behind the messages for its view that came before it. Where there
/// is place for it, all of them stay, and so does everything that is kept for other views. Where
/// there is not, the latest ones are given up.
pub proof fn law_kept_messages_queue_up(
    kept: Seq<Kept>,
    capacity: u64,
    entry: Kept,
    view: ViewNumber,
)
    requires
        receiving::in_order(kept),
        receiving::keeping(kept, capacity, entry).1,
    ensures
        ({
            let after = kept_for(receiving::keeping(kept, capacity, entry).0, view);
            let fits = receiving::kept_bytes(kept) + receiving::kept_size(entry.message) <= capacity;
            &&& entry.view == view ==> after.len() > 0 && after.last() == entry
                && after.drop_last().is_prefix_of(kept_for(kept, view))
            &&& entry.view != view ==> after.is_prefix_of(kept_for(kept, view))
            &&& fits && entry.view == view ==> after == kept_for(kept, view).push(entry)
            &&& fits && entry.view != view ==> after == kept_for(kept, view)
        }),
{
    let size = receiving::kept_size(entry.message);
    let free = capacity - receiving::kept_bytes(kept);
    if size <= free {
        lemma_placed(kept, entry, view);
        assert(kept_for(kept, view).push(entry).drop_last() =~= kept_for(kept, view));
        assert(kept_for(kept, view).subrange(0, kept_for(kept, view).len() as int) =~= kept_for(
            kept,
            view,
        ));
    } else {
        let less = receiving::freed(kept, size - free);
        receiving::lemma_freed(kept, size - free);
        assert(receiving::in_order(less)) by {
            assert forall|i: int, j: int| 0 <= i < j < less.len() implies less[i].view.0
                <= less[j].view.0 by {
                assert(less[i] == kept[i] && less[j] == kept[j]);
            }
        }
        lemma_placed(less, entry, view);
        let gone = kept.skip(less.len() as int);
        assert(kept =~= less + gone);
        lemma_kept_for_concat(less, gone, view);
        let left = kept_for(less, view);
        assert(left.push(entry).drop_last() =~= left);
        assert(kept_for(kept, view).subrange(0, left.len() as int) =~= left);
    }
}

/// The message that is handed out for a view is the first that was kept for it, and the others stay
/// in their order. None is handed out exactly where none is kept.
pub proof fn law_kept_messages_are_handed_out_in_order(kept: Seq<Kept>, view: ViewNumber)
    ensures
        ({
            let at = receiving::first_for(kept, view);
            let all = kept_for(kept, view);
            &&& 0 <= at <= kept.len()
            &&& at < kept.len() <==> all.len() > 0
            &&& at < kept.len() ==> kept[at] == all[0] && kept_for(kept.remove(at), view)
                == all.drop_first()
        }),
    decreases kept.len(),
{
    reveal(Seq::filter);
    if kept.len() > 0 {
        let fewer = kept.drop_last();
        let last = kept.last();
        law_kept_messages_are_handed_out_in_order(fewer, view);
        let before = receiving::first_for(fewer, view);
        let all = kept_for(fewer, view);
        if before < fewer.len() {
            let shorter = kept.remove(before);
            assert(shorter.drop_last() =~= fewer.remove(before));
            assert(shorter.last() == last);
            assert(fewer[before] == kept[before]);
            assert(all.push(last).drop_first() =~= all.drop_first().push(last));
        } else if last.view == view {
            assert(all =~= Seq::<Kept>::empty());
            assert(kept.remove(before) =~= fewer);
            assert(all.push(last).drop_first() =~= Seq::<Kept>::empty());
        }
    }
}

/// When place is made, messages are given up from the end, those for the highest views first: what
/// stays is the front. No more are given up than it takes: with the last message that was given up
/// still there, too little would have been freed.
pub proof fn law_no_more_is_given_up_than_needed(kept: Seq<Kept>, bytes: int)
    ensures
        ({
            let left = receiving::freed(kept, bytes);
            let n = left.len() as int;
            &&& n <= kept.len()
            &&& left == kept.take(n)
            &&& bytes <= 0 ==> left == kept
            &&& n > 0 && bytes > 0 ==> receiving::kept_bytes(kept) - receiving::kept_bytes(left)
                >= bytes
            &&& n < kept.len() ==> receiving::kept_bytes(kept) - receiving::kept_bytes(
                kept.take(n + 1),
            ) < bytes
        }),
    decreases kept.len(),
{
    let left = receiving::freed(kept, bytes);
    let n = left.len() as int;
    if bytes <= 0 || kept.len() == 0 {
        assert(kept.take(kept.len() as int) =~= kept);
    } else {
        let fewer = kept.drop_last();
        let size = receiving::kept_size(kept.last().message);
        law_no_more_is_given_up_than_needed(fewer, bytes - size);
        assert(fewer.take(n) =~= kept.take(n));
        if n < fewer.len() {
            assert(fewer.take(n + 1) =~= kept.take(n + 1));
        } else {
            assert(kept.take(n + 1) =~= kept);
        }
    }
}

/// A message is kept exactly if it fits the capacity at all, and either there is place for it or a
/// message for a higher view can make place.
pub proof fn law_which_messages_are_kept(kept: Seq<Kept>, capacity: u64, entry: Kept)
    requires
        receiving::in_order(kept),
        receiving::kept_bytes(kept) <= capacity,
    ensures
        ({
            let size = receiving::kept_size(entry.message);
            let (after, is_kept) = receiving::keeping(kept, capacity, entry);
            &&& is_kept <==> size <= capacity && (receiving::kept_bytes(kept) + size <= capacity
                || exists|i: int|
                0 <= i < kept.len() && (#[trigger] kept[i]).view.0 > entry.view.0)
            &&& !is_kept ==> after == kept
        }),
{
    if exists|i: int| 0 <= i < kept.len() && (#[trigger] kept[i]).view.0 > entry.view.0 {
        let i = choose|i: int| 0 <= i < kept.len() && (#[trigger] kept[i]).view.0 > entry.view.0;
        if i < kept.len() - 1 {
            assert(kept[i].view.0 <= kept[kept.len() - 1].view.0);
        }
    }
    if kept.len() > 0 {
        assert(kept[kept.len() - 1] == kept.last());
    }
}

/// The messages for views below a view expire, and no others: what is dropped when the view is
/// entered is the front of the list up to the first message for that view or a later one.
pub proof fn law_past_messages_expire(kept: Seq<Kept>, view: ViewNumber)
    requires
        receiving::in_order(kept),
    ensures
        ({
            let n = receiving::expired(kept, view);
            &&& 0 <= n <= kept.len()
            &&& forall|i: int| 0 <= i < n ==> (#[trigger] kept[i]).view.0 < view.0
            &&& forall|i: int| n <= i < kept.len() ==> (#[trigger] kept[i]).view.0 >= view.0
        }),
    decreases kept.len(),
{
    if kept.len() > 0 {
        let fewer = kept.drop_last();
        assert(receiving::in_order(fewer)) by {
            assert forall|i: int, j: int| 0 <= i < j < fewer.len() implies fewer[i].view.0
                <= fewer[j].view.0 by {
                assert(fewer[i] == kept[i] && fewer[j] == kept[j]);
            }
        }
        law_past_messages_expire(fewer, view);
        let before = receiving::expired(fewer, view);
        let n = receiving::expired(kept, view);
        assert forall|i: int| 0 <= i < n implies (#[trigger] kept[i]).view.0 < view.0 by {
            if i < before {
                assert(fewer[i] == kept[i]);
            }
        }
        assert forall|i: int| n <= i < kept.len() implies (#[trigger] kept[i]).view.0 >= view.0 by {
            if i < fewer.len() {
                assert(fewer[i] == kept[i]);
            } else if before < fewer.len() {
                assert(fewer[before] == kept[before]);
                assert(kept[before].view.0 <= kept[i].view.0);
            }
        }
    }
}

/// A message for this chain and a later view is kept for it; any other message leaves what is kept. A
/// message for another chain is neither kept nor processed, but for the body of a first block. In its
/// own view a message of the HotStuff subprotocol is processed; requests and responses for bodies and
/// headers are processed in any view, and one of a past view is not otherwise. A message of the
/// pacemaker is processed unless it is of a past view, and an advertisement always.
pub proof fn law_when_messages_are_kept_and_processed(
    kept: Seq<Kept>,
    capacity: u64,
    chain_id: ChainID,
    view: ViewNumber,
    sender: VerifyingKey,
    message: ProgressMessage,
)
    ensures
        ({
            let after = receiving::kept_after(kept, capacity, chain_id, view, sender, message);
            let ours = receiving::concerns_chain(message, chain_id);
            &&& !ours ==> after == kept
            &&& messages::chain_of(message) == chain_id ==> ours
            &&& messages::chain_of(message) != chain_id && ours ==> (message matches
                ProgressMessage::HotStuffMessage(m) && m is BlockDataResponse)
            &&& match message {
                ProgressMessage::HotStuffMessage(m) => {
                    let of = crate::hotstuff::messages::message_view(m);
                    let always = m is BlockDataRequest || m is BlockDataResponse || m
                        is ProposalHeader;
                    &&& of.0 <= view.0 ==> after == kept
                    &&& ours && of.0 > view.0 ==> after == receiving::keeping(
                        kept,
                        capacity,
                        Kept { view: of, sender, message },
                    ).0
                    &&& receiving::is_processed_in(message, view) <==> of == view || always
                },
                ProgressMessage::PacemakerMessage(m) => {
                    let of = pacemaker::progress_view(m.progress_certificate);
                    &&& of.0 <= view.0 ==> after == kept
                    &&& ours && of.0 > view.0 ==> after == receiving::keeping(
                        kept,
                        capacity,
                        Kept { view: of, sender, message },
                    ).0
                    &&& receiving::is_processed_in(message, view) <==> of.0 >= view.0
                },
                ProgressMessage::BlockSyncAdvertiseMessage(_) => after == kept
                    && receiving::is_processed_in(message, view),
            }
        }),
{
}

} // verus!
