//! What holds of the turns of a replica.

use vstd::prelude::*;

use crate::algorithm;
use crate::algorithm::{
    Algorithm, Receive, TurnInput, BUSY_RECEIVE_WAIT, FEED_RECONCILE_INTERVAL,
};
use crate::block_sync::laws;
use crate::block_sync::session;
use crate::block_sync::session::{SyncRun, WorkerPoll};
use crate::block_sync::worker::SyncResult;
use crate::block_tree::tree;
use crate::committed_feed;
use crate::effects::{Deed, Effect};
use crate::hotstuff::entering;
use crate::hotstuff::messages::{HotStuffMessage, NewView};
use crate::hotstuff::state::HotStuffError;
use crate::hotstuff::step_laws;
use crate::hotstuff::types::PhaseCertificate;
use crate::networking::messages::ProgressMessage;
use crate::pacemaker::{PacemakerMessage, ViewInfo};
use crate::roles::Roles;
use crate::types::block::Block;
use crate::types::data_types::VerifyingKey;

verus! {

/// A replica never waits for a message beyond the end of its view. With nothing else to do it waits
/// until then; with a session, a put-off proposal or a fetch in progress it waits only for a short
/// while.
pub proof fn law_receiving_ends_with_the_view(replica: Algorithm, view_info: ViewInfo, now: u64)
    ensures
        ({
            let until = algorithm::receive_deadline(replica, view_info, now);
            let is_busy = replica.block_sync_client@.session is Some
                || replica.hotstuff@.proposal_deferred || replica.hotstuff@.body_fetches.len() > 0
                || replica.hotstuff@.justify_fetches.len() > 0;
            &&& until <= view_info.deadline
            &&& !is_busy ==> until == view_info.deadline
            &&& is_busy ==> until <= now + BUSY_RECEIVE_WAIT
            &&& is_busy && until < view_info.deadline ==> until == now + BUSY_RECEIVE_WAIT
        }),
{
}

/// A message of the pacemaker is handed to the pacemaker, and changes nothing in the replica. No other
/// message is handed to it.
pub proof fn law_pacemaker_messages_go_to_the_pacemaker<R: Roles>(
    before: Algorithm,
    origin: VerifyingKey,
    message: ProgressMessage,
    now: u64,
    roles: R,
    after: Algorithm,
    for_pacemaker: Option<PacemakerMessage>,
)
    requires
        algorithm::dispatched(before, origin, message, now, roles, after, for_pacemaker),
    ensures
        match message {
            ProgressMessage::PacemakerMessage(m) => for_pacemaker == Some(m) && after == before,
            _ => for_pacemaker is None,
        },
        message is BlockSyncAdvertiseMessage ==> after.hotstuff == before.hotstuff,
        after.chain_id == before.chain_id,
        after.pm_stub == before.pm_stub,
{
    reveal(algorithm::dispatched);
}

/// After a call for block sync was taken up there is none any more. If there was one, and no session
/// was in progress, then a session is, if any peer can serve.
pub proof fn law_calls_for_sync_start_a_session(before: Algorithm, now: u64, after: Algorithm)
    requires
        algorithm::sync_taken_up(before, now, after),
    ensures
        !after.hotstuff@.sync_needed,
        before.hotstuff@.sync_needed && before.block_sync_client@.session is None
            && session::candidates(
            session::sync_begin(before.block_sync_client, before.block_tree),
        ).len() > 0 ==> after.block_sync_client@.session is Some,
        !before.hotstuff@.sync_needed ==> after.block_sync_client == before.block_sync_client,
{
    if before.hotstuff@.sync_needed {
        let run = session::sync_begin(before.block_sync_client, before.block_tree);
        let end = choose|end: SyncRun| #[trigger]
            session::triggers_sync(run, now, end) && session::sync_reached(
                before.block_tree,
                after.block_sync_client,
                after.block_tree,
                end,
            );
        if run.client.session is None {
            laws::law_calls_for_a_session_are_answered(run, now, end);
        }
    }
}

/// A replica is in the pacemaker's view once it followed it. If it was in another view before, the
/// first thing that it did is to send the first of the next leaders its highest certificate with the
/// view that it left.
pub proof fn law_replicas_follow_the_pacemaker<R: Roles>(
    before: Algorithm,
    view_info: ViewInfo,
    roles: R,
    after: Algorithm,
)
    requires
        algorithm::view_followed(before, view_info, roles, after),
    ensures
        after.hotstuff@.view_info.view == view_info.view,
        view_info.view != before.hotstuff@.view_info.view ==> ({
            let new_view = NewView {
                chain_id: before.hotstuff@.chain_id,
                view: before.hotstuff@.view_info.view,
                highest_pc: before.block_tree@.highest_pc->0,
            };
            let first = roles.next_leaders(
                new_view,
                tree::validators_of(before.block_tree@),
                tree::reputation_of(before.block_tree@).0,
            ).0;
            let n = before.block_tree.deeds().len() as int;
            &&& n < after.block_tree.deeds().len()
            &&& after.block_tree.deeds()[n] == Deed::Other(
                Effect::Send(first, HotStuffMessage::NewView(new_view)),
            )
        }),
{
    reveal(algorithm::view_followed);
    if view_info.view != before.hotstuff@.view_info.view
        || before.hotstuff@.proposal_deferred {
        let result = choose|result: Result<(), HotStuffError>| #[trigger]
            entering::view_entered(
                before.hotstuff,
                before.block_tree,
                after.hotstuff,
                after.block_tree,
                roles,
                view_info,
                result,
            );
        step_laws::law_entered_views_are_current(
            before.hotstuff,
            before.block_tree,
            after.hotstuff,
            after.block_tree,
            roles,
            view_info,
            result,
        );
        if view_info.view != before.hotstuff@.view_info.view {
            step_laws::law_entering_a_view_first_tells_the_next_leaders(
                before.hotstuff,
                before.block_tree,
                after.hotstuff,
                after.block_tree,
                roles,
                view_info,
                result,
            );
        }
    }
}

/// The feed of committed blocks is checked again once the interval has passed since it was last
/// checked: a pass of the feed is made, and the time is noted. Before that nothing is done.
pub proof fn law_the_feed_is_checked_regularly(
    before: Algorithm,
    now: u64,
    after: Algorithm,
    delivered: Option<u64>,
)
    requires
        algorithm::feed_reconciled(before, now, after, delivered),
    ensures
        now >= before.last_feed_reconcile + FEED_RECONCILE_INTERVAL ==> {
            &&& after.block_tree.deeds() == before.block_tree.deeds() + committed_feed::feed_deeds(
                before.block_tree@,
            )
            &&& after.last_feed_reconcile == now
            &&& delivered is Some
        },
        now < before.last_feed_reconcile + FEED_RECONCILE_INTERVAL ==> after == before
            && delivered is None,
{
}

/// At the start of a turn a replica comes to be in the pacemaker's view. What its sync worker reports,
/// and the fetched blocks that it looks at, leave the HotStuff subprotocol as it is.
pub proof fn law_turns_start_in_the_view<R: Roles>(
    states: Seq<Algorithm>,
    input: TurnInput,
    roles: R,
)
    requires
        algorithm::is_turn_before_bodies(states, input, roles),
    ensures
        states[1].hotstuff@.view_info.view == input.view_info.view,
        states[3].hotstuff == states[1].hotstuff,
        states[3].pm_stub == states[0].pm_stub,
        states[3].chain_id == states[0].chain_id,
{
    law_replicas_follow_the_pacemaker(states[0], input.view_info, roles, states[1]);
    reveal(algorithm::view_followed);
    reveal(algorithm::worker_heard);
    reveal(algorithm::fetched_blocks_processed);
}

/// The blocks that the worker fetched from the peer of the session wait to be looked at, in order,
/// behind those that waited.
pub proof fn law_fetched_blocks_are_taken_from_the_worker(
    before: Algorithm,
    peer: VerifyingKey,
    blocks: Vec<Block>,
    highest_pc: PhaseCertificate,
    now: u64,
    after: Algorithm,
)
    requires
        algorithm::worker_heard(
            before,
            WorkerPoll::Report(SyncResult::Blocks { peer, blocks, highest_pc }),
            now,
            after,
        ),
        before.block_sync_client@.session is Some,
        (before.block_sync_client@.session->0).awaiting_fetch,
        (before.block_sync_client@.session->0).peer == peer,
    ensures
        after.block_sync_client@.session is Some,
        (after.block_sync_client@.session->0).pending_blocks == (
        before.block_sync_client@.session->0).pending_blocks + blocks@,
        !(after.block_sync_client@.session->0).awaiting_fetch,
        after.block_tree.deeds() == before.block_tree.deeds(),
{
    reveal(algorithm::worker_heard);
    let run = session::sync_begin(before.block_sync_client, before.block_tree);
    laws::law_fetched_blocks_come_from_the_session_peer(run, peer, blocks, highest_pc, now);
    assert(before.block_tree.deeds() + Seq::<Deed>::empty() =~= before.block_tree.deeds());
}

/// A replica receives before it checks its fetches exactly if it is told to and has any; otherwise it
/// checks them first.
pub proof fn law_fetches_are_checked_before_or_after_receiving(
    before: Algorithm,
    body_before_expiry: bool,
    now: u64,
    after: Algorithm,
    receive: Receive,
)
    requires
        algorithm::is_turn_before_receive(before, body_before_expiry, now, after, receive),
    ensures
        ({
            let has_fetches = before.hotstuff@.body_fetches.len() > 0
                || before.hotstuff@.justify_fetches.len() > 0;
            &&& body_before_expiry && has_fetches <==> receive == Receive::BeforeRetry
            &&& receive == Receive::BeforeRetry ==> after == before
            &&& receive == Receive::AfterRetry ==> algorithm::fetches_maintained(
                before,
                now,
                after,
            )
        }),
{
}

/// After its fetches were checked and what they call for was taken up, a replica does not call for
/// block sync, and is in the view that it was in.
pub proof fn law_checked_fetches_leave_no_call(before: Algorithm, now: u64, after: Algorithm)
    requires
        algorithm::fetches_maintained(before, now, after),
    ensures
        !after.hotstuff@.sync_needed,
        after.hotstuff@.view_info == before.hotstuff@.view_info,
        after.pm_stub == before.pm_stub,
        after.chain_id == before.chain_id,
{
    reveal(algorithm::fetches_maintained);
    let middle = choose|middle: Algorithm| #[trigger]
        algorithm::fetches_checked(before, now, middle) && algorithm::sync_taken_up(
            middle,
            now,
            after,
        );
    law_calls_for_sync_start_a_session(middle, now, after);
}

} // verus!
