//! How the parts of a replica work together: what is done when a view changes, when messages
//! arrive, and when time passes. The host receives, keeps time and carries out what the journal of
//! the block tree asks for.

use vstd::prelude::*;

use crate::app::App;
use crate::block_sync::session;
use crate::block_sync::session::{
    BlockSyncClient, BlockSyncClientConfiguration, BlockSyncClientError, SyncRun, WorkerPoll,
};
use crate::block_tree::errors::BlockTreeError;
use crate::block_tree::store::TreeView;
use crate::block_tree::tree;
use crate::block_tree::tree::BlockTreeSingleton;
use crate::block_tree::variables;
use crate::committed_feed;
use crate::committed_feed::feed_committed_blocks_to_app;
use crate::hotstuff::bodies;
use crate::hotstuff::collectors;
use crate::hotstuff::entering;
use crate::hotstuff::fetching;
use crate::hotstuff::handlers;
use crate::hotstuff::messages::BlockDataResponse;
use crate::hotstuff::state;
use crate::hotstuff::state::{HotStuff, HotStuffConfiguration, HotStuffError, HsView};
use crate::networking::messages::ProgressMessage;
use crate::networking::receiving::ProgressMessageStub;
use crate::pacemaker::{PacemakerMessage, ViewInfo};
use crate::roles::Roles;
use crate::types::data_types::{BufferSize, ChainID, VerifyingKey, ViewNumber};

verus! {

/// How many fetched blocks are looked at in one go.
pub const MAX_SYNC_BLOCKS_PER_TICK: usize = 128;

/// How often the application's feed is checked, in milliseconds.
pub const FEED_RECONCILE_INTERVAL: u64 = 1000;

/// How long to wait for messages at most while there is other work, in milliseconds.
pub const BUSY_RECEIVE_WAIT: u64 = 10;

/// Whether a setting asks for messages to be received before fetches of bodies expire: only `1`
/// does.
pub fn body_before_expiry_enabled(value: Option<&str>) -> (r: bool)
    ensures
        r == (value is Some && value->0@ == seq!['1']),
{
    match value {
        Some(text) => {
            if text.unicode_len() == 1 {
                let only = text.get_char(0);
                assert(only == '1' ==> text@ =~= seq!['1']);
                assert(text@ == seq!['1'] ==> only == '1');
                only == '1'
            } else {
                assert(text@.len() != seq!['1'].len());
                false
            }
        },
        None => false,
    }
}

/// The view in which a replica starts.
pub open spec fn starting_view(tree: TreeView) -> int {
    if variables::view_with_progress(tree) == 0 {
        0
    } else {
        variables::view_with_progress(tree) + 1
    }
}

/// The view in which a replica starts: the one after the highest in which it made progress.
pub fn initial_view(block_tree: &BlockTreeSingleton) -> (r: Result<ViewNumber, BlockTreeError>)
    requires
        tree::initialized(block_tree@),
        starting_view(block_tree@) <= u64::MAX,
    ensures
        r is Ok,
        r->Ok_0.0 == starting_view(block_tree@),
{
    match block_tree.highest_view_with_progress() {
        Ok(view) => {
            if view.0 == 0 {
                Ok(ViewNumber(0))
            } else {
                Ok(ViewNumber(view.0 + 1))
            }
        },
        Err(e) => Err(e),
    }
}

/// The parts of a replica.
pub struct Algorithm {
    pub chain_id: ChainID,
    pub pm_stub: ProgressMessageStub,
    pub block_tree: BlockTreeSingleton,
    pub hotstuff: HotStuff,
    pub block_sync_client: BlockSyncClient,
    /// When the application's feed was last checked, in milliseconds.
    pub last_feed_reconcile: u64,
}

/// Whether two replicas differ at most in their tree, their protocol state and their sync client.
pub open spec fn same_surroundings(before: Algorithm, after: Algorithm) -> bool {
    &&& after.chain_id == before.chain_id
    &&& after.pm_stub == before.pm_stub
    &&& after.last_feed_reconcile == before.last_feed_reconcile
}

/// The call for block sync taken up: a session is started if one is called for.
pub open spec fn sync_taken_up(before: Algorithm, now: u64, after: Algorithm) -> bool {
    &&& same_surroundings(before, after)
    &&& after.hotstuff@ == (HsView { sync_needed: false, ..before.hotstuff@ })
    &&& if before.hotstuff@.sync_needed {
        exists|end: SyncRun| #[trigger]
            session::triggers_sync(session::sync_begin(before.block_sync_client, before.block_tree), now, end)
                && session::sync_reached(
                before.block_tree,
                after.block_sync_client,
                after.block_tree,
                end,
            )
    } else {
        after.block_sync_client == before.block_sync_client && after.block_tree == before.block_tree
    }
}

/// The three checks of outstanding fetches made, one after the other.
pub open spec fn fetches_checked(before: Algorithm, now: u64, after: Algorithm) -> bool {
    &&& same_surroundings(before, after)
    &&& after.block_sync_client == before.block_sync_client
    &&& exists|first: (HotStuff, BlockTreeSingleton), second: (HotStuff, BlockTreeSingleton)|
        #![trigger
            state::reached(
                before.block_tree,
                first.0,
                first.1,
                fetching::bodies_ticked(state::begin(before.hotstuff, before.block_tree), now),
            ),
            state::reached(
                first.1,
                second.0,
                second.1,
                fetching::justifies_ticked(state::begin(first.0, first.1), now),
            )]
        {
            &&& state::reached(
                before.block_tree,
                first.0,
                first.1,
                fetching::bodies_ticked(state::begin(before.hotstuff, before.block_tree), now),
            )
            &&& state::reached(
                first.1,
                second.0,
                second.1,
                fetching::justifies_ticked(state::begin(first.0, first.1), now),
            )
            &&& state::reached(
                second.1,
                after.hotstuff,
                after.block_tree,
                fetching::missing_pc_checked(state::begin(second.0, second.1), now),
            )
        }
}

/// The outstanding fetches checked, and a session started if that calls for one.
#[verifier::opaque]
pub open spec fn fetches_maintained(before: Algorithm, now: u64, after: Algorithm) -> bool {
    exists|middle: Algorithm| #[trigger]
        fetches_checked(before, now, middle) && sync_taken_up(middle, now, after)
}

/// Whether handling a message led from `before` to `after`. A message for the pacemaker is handed
/// to it.
#[verifier::opaque]
pub open spec fn dispatched<R: Roles>(
    before: Algorithm,
    origin: VerifyingKey,
    message: ProgressMessage,
    now: u64,
    roles: R,
    after: Algorithm,
    for_pacemaker: Option<PacemakerMessage>,
) -> bool {
    match message {
        ProgressMessage::HotStuffMessage(message) => {
            &&& for_pacemaker is None
            &&& exists|middle: Algorithm, result: Result<(), HotStuffError>|
                #![trigger handlers::message_received(
                    before.hotstuff,
                    before.block_tree,
                    middle.hotstuff,
                    middle.block_tree,
                    roles,
                    message,
                    origin,
                    now,
                    result,
                )]
                handlers::message_received(
                    before.hotstuff,
                    before.block_tree,
                    middle.hotstuff,
                    middle.block_tree,
                    roles,
                    message,
                    origin,
                    now,
                    result,
                ) && same_surroundings(before, middle) && middle.block_sync_client
                    == before.block_sync_client && sync_taken_up(middle, now, after)
        },
        ProgressMessage::PacemakerMessage(message) => after == before && for_pacemaker == Some(
            message,
        ),
        ProgressMessage::BlockSyncAdvertiseMessage(message) => {
            &&& for_pacemaker is None
            &&& same_surroundings(before, after)
            &&& after.hotstuff == before.hotstuff
            &&& exists|end: SyncRun| #[trigger]
                session::advertisement_received(
                    session::sync_begin(before.block_sync_client, before.block_tree),
                    message,
                    origin,
                    now,
                    end,
                ) && session::sync_reached(
                    before.block_tree,
                    after.block_sync_client,
                    after.block_tree,
                    end,
                )
        },
    }
}

/// Whether looking at one fetched block led from `before` to `after`.
#[verifier::opaque]
pub open spec fn sync_stepped<R: Roles>(
    before: (BlockSyncClient, BlockTreeSingleton),
    after: (BlockSyncClient, BlockTreeSingleton),
    roles: R,
    now: u64,
    result: Result<bool, BlockSyncClientError>,
) -> bool {
    session::block_processed(
        session::sync_begin(before.0, before.1),
        roles,
        now,
        before.1,
        after.0,
        after.1,
        result,
    )
}

/// Whether looking at the fetched block at a place led from the state there to the next.
pub open spec fn is_sync_step<R: Roles>(
    states: Seq<(BlockSyncClient, BlockTreeSingleton)>,
    results: Seq<Result<bool, BlockSyncClientError>>,
    roles: R,
    now: u64,
    at: int,
) -> bool {
    sync_stepped(states[at], states[at + 1], roles, now, results[at])
}

/// Whether `states` are what a client and a tree go through as fetched blocks are looked at one by
/// one, with `results`.
pub open spec fn is_sync_chain<R: Roles>(
    states: Seq<(BlockSyncClient, BlockTreeSingleton)>,
    results: Seq<Result<bool, BlockSyncClientError>>,
    roles: R,
    now: u64,
) -> bool {
    &&& states.len() == results.len() + 1
    &&& forall|i: int|
        0 <= i < results.len() ==> #[trigger] is_sync_step(states, results, roles, now, i)
    &&& forall|i: int|
        0 <= i < results.len() - 1 ==> #[trigger] results[i] == Ok::<bool, BlockSyncClientError>(
            true,
        )
}

/// One more step makes a longer chain.
proof fn lemma_sync_chain_push<R: Roles>(
    states: Seq<(BlockSyncClient, BlockTreeSingleton)>,
    results: Seq<Result<bool, BlockSyncClientError>>,
    roles: R,
    now: u64,
    state: (BlockSyncClient, BlockTreeSingleton),
    result: Result<bool, BlockSyncClientError>,
)
    requires
        is_sync_chain(states, results, roles, now),
        results.len() > 0 ==> results.last() == Ok::<bool, BlockSyncClientError>(true),
        sync_stepped(states.last(), state, roles, now, result),
    ensures
        is_sync_chain(states.push(state), results.push(result), roles, now),
{
    let longer = states.push(state);
    let more = results.push(result);
    assert forall|i: int| 0 <= i < more.len() implies #[trigger] is_sync_step(
        longer,
        more,
        roles,
        now,
        i,
    ) by {
        if i < results.len() {
            assert(is_sync_step(states, results, roles, now, i));
            assert(states[i] == longer[i] && states[i + 1] == longer[i + 1]);
        }
    }
}

/// Whether looking at fetched blocks led from `before` to `after`: it goes on until there is
/// nothing to do, a block is refused, or enough have been looked at.
#[verifier::opaque]
pub open spec fn fetched_blocks_processed<R: Roles>(
    before: Algorithm,
    roles: R,
    now: u64,
    after: Algorithm,
) -> bool {
    &&& same_surroundings(before, after)
    &&& after.hotstuff == before.hotstuff
    &&& exists|
        states: Seq<(BlockSyncClient, BlockTreeSingleton)>,
        results: Seq<Result<bool, BlockSyncClientError>>,
    | #[trigger]
        is_sync_chain(states, results, roles, now) && states[0] == (
            before.block_sync_client,
            before.block_tree,
        ) && states.last() == (after.block_sync_client, after.block_tree) && 0 < results.len()
            <= MAX_SYNC_BLOCKS_PER_TICK && (results.len() < MAX_SYNC_BLOCKS_PER_TICK
            ==> results.last() != Ok::<bool, BlockSyncClientError>(true))
}

/// Whether the replica entered the pacemaker's view where that was called for.
#[verifier::opaque]
pub open spec fn view_followed<R: Roles>(
    before: Algorithm,
    view_info: ViewInfo,
    roles: R,
    after: Algorithm,
) -> bool {
    if view_info.view != before.hotstuff@.view_info.view || before.hotstuff@.proposal_deferred {
        &&& same_surroundings(before, after)
        &&& after.block_sync_client == before.block_sync_client
        &&& exists|result: Result<(), HotStuffError>| #[trigger]
            entering::view_entered(
                before.hotstuff,
                before.block_tree,
                after.hotstuff,
                after.block_tree,
                roles,
                view_info,
                result,
            )
    } else {
        after == before
    }
}

/// Whether the sync client took what its worker reports.
#[verifier::opaque]
pub open spec fn worker_heard(
    before: Algorithm,
    poll: WorkerPoll,
    now: u64,
    after: Algorithm,
) -> bool {
    &&& same_surroundings(before, after)
    &&& after.hotstuff == before.hotstuff
    &&& session::sync_reached(
        before.block_tree,
        after.block_sync_client,
        after.block_tree,
        session::worker_polled(
            session::sync_begin(before.block_sync_client, before.block_tree),
            poll,
            now,
        ),
    )
}

/// Whether the bodies that came over the block-data channel were taken.
#[verifier::opaque]
pub open spec fn block_data_taken<R: Roles>(
    before: Algorithm,
    responses: Seq<BlockDataResponse>,
    roles: R,
    after: Algorithm,
) -> bool {
    &&& same_surroundings(before, after)
    &&& after.block_sync_client == before.block_sync_client
    &&& bodies::bodies_received(
        before.hotstuff,
        before.block_tree,
        after.hotstuff,
        after.block_tree,
        roles,
        responses,
    )
}

/// Whether time passed for the sync client.
#[verifier::opaque]
pub open spec fn sync_ticked(before: Algorithm, now: u64, after: Algorithm) -> bool {
    &&& same_surroundings(before, after)
    &&& after.hotstuff == before.hotstuff
    &&& exists|end: SyncRun| #[trigger]
        session::sync_ticks(
            session::sync_begin(before.block_sync_client, before.block_tree),
            now,
            end,
        ) && session::sync_reached(
            before.block_tree,
            after.block_sync_client,
            after.block_tree,
            end,
        )
}

/// Whether the application's feed was checked if it was time to, with `delivered` told if it was.
pub open spec fn feed_reconciled(
    before: Algorithm,
    now: u64,
    after: Algorithm,
    delivered: Option<u64>,
) -> bool {
    &&& after.hotstuff == before.hotstuff
    &&& after.block_sync_client == before.block_sync_client
    &&& after.pm_stub == before.pm_stub
    &&& after.chain_id == before.chain_id
    &&& if session::has_passed(before.last_feed_reconcile, now, FEED_RECONCILE_INTERVAL as int) {
        &&& delivered == Some(
            committed_feed::saturated(committed_feed::deliveries(before.block_tree@).len()),
        )
        &&& after.last_feed_reconcile == now
        &&& tree::advanced(
            before.block_tree,
            after.block_tree,
            committed_feed::feed_deeds(before.block_tree@),
        )
    } else {
        delivered is None && after == before
    }
}

/// What a replica is given at the start of a turn.
pub struct TurnInput {
    /// The pacemaker's view.
    pub view_info: ViewInfo,
    /// What the sync worker reports.
    pub poll: WorkerPoll,
    pub now: u64,
}

/// How the host is to receive a message in a turn.
#[derive(Clone, Copy, PartialEq, Eq, Structural, Debug)]
pub enum Receive {
    /// Look at a few messages that are ready; outstanding fetches are checked afterwards.
    BeforeRetry,
    /// Wait for a message until the time that [`Algorithm::recv_deadline`] gives when the host comes
    /// to wait; outstanding fetches have been checked.
    AfterRetry,
}

/// Whether to receive a message before fetches are checked.
pub open spec fn is_receiving_first(replica: Algorithm, body_before_expiry: bool) -> bool {
    body_before_expiry && (replica.hotstuff@.body_fetches.len() > 0
        || replica.hotstuff@.justify_fetches.len() > 0)
}

/// Until when to wait for a message: the end of the view, or a short while if there is other work.
pub open spec fn receive_deadline(replica: Algorithm, view_info: ViewInfo, now: u64) -> u64 {
    let is_busy = replica.block_sync_client@.session is Some || replica.hotstuff@.proposal_deferred
        || replica.hotstuff@.body_fetches.len() > 0 || replica.hotstuff@.justify_fetches.len() > 0;
    if is_busy && now + BUSY_RECEIVE_WAIT < view_info.deadline {
        (now + BUSY_RECEIVE_WAIT) as u64
    } else {
        view_info.deadline
    }
}

/// Whether `states` are what a replica goes through at the start of a turn: it enters the view,
/// hears the sync worker and looks at fetched blocks.
pub open spec fn is_turn_before_bodies<R: Roles>(
    states: Seq<Algorithm>,
    input: TurnInput,
    roles: R,
) -> bool {
    &&& states.len() == 4
    &&& view_followed(states[0], input.view_info, roles, states[1])
    &&& worker_heard(states[1], input.poll, input.now, states[2])
    &&& fetched_blocks_processed(states[2], roles, input.now, states[3])
}

/// What a replica does in a turn before it receives, after it took the bodies that had come: it
/// checks its fetches unless it receives first.
pub open spec fn is_turn_before_receive(
    before: Algorithm,
    body_before_expiry: bool,
    now: u64,
    after: Algorithm,
    receive: Receive,
) -> bool {
    if is_receiving_first(before, body_before_expiry) {
        receive == Receive::BeforeRetry && after == before
    } else {
        receive == Receive::AfterRetry && fetches_maintained(before, now, after)
    }
}

/// Whether `states` are what a replica goes through in a turn after it handled what it received: it
/// checks its fetches if it received first, and lets time pass for the sync client and the feed.
pub open spec fn is_turn_after_receive(
    states: Seq<Algorithm>,
    receive: Receive,
    now: u64,
    delivered: Option<u64>,
) -> bool {
    &&& states.len() == 4
    &&& if receive == Receive::BeforeRetry {
        fetches_maintained(states[0], now, states[1])
    } else {
        states[1] == states[0]
    }
    &&& sync_ticked(states[1], now, states[2])
    &&& feed_reconciled(states[2], now, states[3], delivered)
}

impl Algorithm {
    /// Whether the replica is in good order.
    pub open spec fn wf(&self) -> bool {
        &&& self.hotstuff.wf()
        &&& self.pm_stub.msg_buffer.wf()
        &&& tree::initialized(self.block_tree@)
    }

    /// A replica that starts in the view that `view_info` tells.
    pub fn new(
        chain_id: ChainID,
        hotstuff_config: HotStuffConfiguration,
        block_sync_client_config: BlockSyncClientConfiguration,
        block_tree: BlockTreeSingleton,
        progress_msg_buffer_capacity: BufferSize,
        view_info: ViewInfo,
        now: u64,
    ) -> (r: Result<Self, BlockTreeError>)
        requires
            tree::initialized(block_tree@),
        ensures
            r is Ok,
            r->Ok_0.wf(),
            r->Ok_0.chain_id == chain_id,
            r->Ok_0.pm_stub.msg_buffer.buffer_capacity == progress_msg_buffer_capacity,
            r->Ok_0.pm_stub.msg_buffer.buffer@.len() == 0,
            r->Ok_0.block_tree == block_tree,
            r->Ok_0.hotstuff@ == state::fresh_participant(
                hotstuff_config,
                view_info,
                collectors::fresh_collectors(
                    hotstuff_config.chain_id,
                    view_info.view,
                    tree::validators_of(block_tree@),
                ),
            ),
            r->Ok_0.block_sync_client@.config == block_sync_client_config,
            r->Ok_0.block_sync_client@.session is None,
            r->Ok_0.last_feed_reconcile == now,
    {
        let validators = match block_tree.validator_set_state() {
            Ok(validators) => validators,
            Err(e) => {
                return Err(e);
            },
        };
        Ok(
            Algorithm {
                chain_id,
                pm_stub: ProgressMessageStub::new(progress_msg_buffer_capacity),
                hotstuff: HotStuff::new(hotstuff_config, view_info, validators),
                block_sync_client: BlockSyncClient::new(block_sync_client_config, now),
                block_tree,
                last_feed_reconcile: now,
            },
        )
    }

    /// Deliver to the application what was committed and never delivered. The result is how much
    /// that was.
    pub fn reconcile_at_boot(&mut self) -> (r: Result<u64, BlockTreeError>)
        requires
            old(self).wf(),
        ensures
            final(self).wf(),
            r == Ok::<u64, BlockTreeError>(committed_feed::saturated(committed_feed::deliveries(old(self).block_tree@).len())),
            tree::advanced(
                old(self).block_tree,
                final(self).block_tree,
                committed_feed::feed_deeds(old(self).block_tree@),
            ),
            same_surroundings(*old(self), *final(self)),
            final(self).hotstuff == old(self).hotstuff,
            final(self).block_sync_client == old(self).block_sync_client,
    {
        let ghost before = self.block_tree@;
        let fed = feed_committed_blocks_to_app(&mut self.block_tree);
        proof {
            tree::lemma_replay_keeps_initialized(before, committed_feed::feed_deeds(before));
        }
        fed
    }

    /// Check the application's feed if it is time to. The result is how much was delivered, if it
    /// was time.
    pub fn reconcile(&mut self, now: u64) -> (r: Option<u64>)
        requires
            old(self).wf(),
        ensures
            final(self).wf(),
            feed_reconciled(*old(self), now, *final(self), r),
    {
        let since: u64 = if now >= self.last_feed_reconcile {
            now - self.last_feed_reconcile
        } else {
            0
        };
        if since < FEED_RECONCILE_INTERVAL {
            return None;
        }
        self.last_feed_reconcile = now;
        let ghost before = self.block_tree@;
        let fed = feed_committed_blocks_to_app(&mut self.block_tree);
        proof {
            tree::lemma_replay_keeps_initialized(before, committed_feed::feed_deeds(before));
        }
        match fed {
            Ok(count) => Some(count),
            Err(_) => Some(0),
        }
    }

    /// Enter the pacemaker's view if it is a new one, or if a proposal waits.
    pub fn follow_view<R: Roles, A: App>(
        &mut self,
        view_info: ViewInfo,
        app: &mut A,
        roles: &R,
    )
        requires
            old(self).wf(),
        ensures
            final(self).wf(),
            view_followed(*old(self), view_info, *roles, *final(self)),
    {
        proof {
            reveal(view_followed);
        }
        if self.hotstuff.is_view_outdated(&view_info) || self.hotstuff.has_deferred_proposal() {
            let _ = self.hotstuff.enter_view(view_info, &mut self.block_tree, app, roles);
        }
    }

    /// Take what the sync worker reports.
    pub fn poll_worker_results(&mut self, poll: WorkerPoll, now: u64)
        requires
            old(self).wf(),
        ensures
            final(self).wf(),
            worker_heard(*old(self), poll, now, *final(self)),
    {
        proof {
            reveal(worker_heard);
        }
        self.block_sync_client.poll_worker_results(poll, now, &mut self.block_tree);
    }

    /// Look at fetched blocks, as many as there are and up to a limit.
    pub fn process_fetched_blocks<R: Roles, A: App>(&mut self, now: u64, app: &mut A, roles: &R)
        requires
            old(self).wf(),
        ensures
            final(self).wf(),
            fetched_blocks_processed(*old(self), *roles, now, *final(self)),
    {
        proof {
            reveal(fetched_blocks_processed);
        }
        let ghost before = *self;
        let ghost mut states: Seq<(BlockSyncClient, BlockTreeSingleton)> = seq![
            (self.block_sync_client, self.block_tree),
        ];
        let ghost mut results: Seq<Result<bool, BlockSyncClientError>> = Seq::empty();
        let mut looked_at: usize = 0;
        loop
            invariant_except_break
                looked_at < MAX_SYNC_BLOCKS_PER_TICK,
                results.len() > 0 ==> results.last() == Ok::<bool, BlockSyncClientError>(true),
            invariant
                looked_at == results.len(),
                self.wf(),
                same_surroundings(before, *self),
                self.hotstuff == before.hotstuff,
                is_sync_chain(states, results, *roles, now),
                states[0] == (before.block_sync_client, before.block_tree),
                states.last() == (self.block_sync_client, self.block_tree),
            ensures
                0 < results.len() <= MAX_SYNC_BLOCKS_PER_TICK,
                results.len() < MAX_SYNC_BLOCKS_PER_TICK ==> results.last() != Ok::<
                    bool,
                    BlockSyncClientError,
                >(true),
            decreases MAX_SYNC_BLOCKS_PER_TICK - looked_at,
        {
            let result = self.block_sync_client.process_pending_block(
                now,
                &mut self.block_tree,
                app,
                roles,
            );
            looked_at = looked_at + 1;
            proof {
                let state = (self.block_sync_client, self.block_tree);
                reveal(sync_stepped);
                lemma_sync_chain_push(states, results, *roles, now, state, result);
                states = states.push(state);
                results = results.push(result);
            }
            let goes_on = match result {
                Ok(goes_on) => goes_on,
                Err(_) => false,
            };
            if !goes_on || looked_at >= MAX_SYNC_BLOCKS_PER_TICK {
                break;
            }
        }
    }

    /// Take the bodies that came over the block-data channel.
    pub fn take_block_data<R: Roles, A: App>(
        &mut self,
        responses: Vec<BlockDataResponse>,
        app: &mut A,
        roles: &R,
    ) -> (r: Result<(), HotStuffError>)
        requires
            old(self).wf(),
        ensures
            final(self).wf(),
            r is Ok,
            block_data_taken(*old(self), responses@, *roles, *final(self)),
    {
        proof {
            reveal(block_data_taken);
        }
        self.hotstuff.poll_block_data_responses(responses, &mut self.block_tree, app, roles)
    }

    /// Start a session if the protocol calls for one.
    fn take_up_sync(&mut self, now: u64)
        requires
            old(self).wf(),
        ensures
            final(self).wf(),
            sync_taken_up(*old(self), now, *final(self)),
    {
        if self.hotstuff.take_sync_needed() {
            let _ = self.block_sync_client.trigger_sync(now, &mut self.block_tree);
        }
    }

    /// Check the outstanding fetches, and start a session if that calls for one.
    pub fn maintain_fetches(&mut self, now: u64)
        requires
            old(self).wf(),
        ensures
            final(self).wf(),
            fetches_maintained(*old(self), now, *final(self)),
    {
        proof {
            reveal(fetches_maintained);
        }
        let ghost before = *self;
        self.hotstuff.tick_pending_body_retries(now, &mut self.block_tree);
        let ghost first = (self.hotstuff, self.block_tree);
        self.hotstuff.tick_justify_fetch_retries(now, &mut self.block_tree);
        let ghost second = (self.hotstuff, self.block_tree);
        let _ = self.hotstuff.tick_missing_pc_block_fetch(now, &mut self.block_tree);
        let ghost middle = *self;
        proof {
            assert(state::reached(
                before.block_tree,
                first.0,
                first.1,
                fetching::bodies_ticked(state::begin(before.hotstuff, before.block_tree), now),
            ));
            assert(state::reached(
                first.1,
                second.0,
                second.1,
                fetching::justifies_ticked(state::begin(first.0, first.1), now),
            ));
            assert(fetches_checked(before, now, middle));
        }
        self.take_up_sync(now);
    }

    /// Whether to receive a message before fetches are checked, so that a body that has arrived is
    /// taken before its fetch expires.
    pub fn receives_first(&self, body_before_expiry: bool) -> (r: bool)
        ensures
            r == is_receiving_first(*self, body_before_expiry),
    {
        body_before_expiry && (self.hotstuff.has_pending_body_fetches()
            || self.hotstuff.has_pending_justify_fetches())
    }

    /// Until when to wait for a message that the host comes to wait for at the time `now`: the end of
    /// the view, or a short while if there is other work.
    pub fn recv_deadline(&self, view_info: &ViewInfo, now: u64) -> (r: u64)
        ensures
            r == receive_deadline(*self, *view_info, now),
    {
        let is_busy = self.block_sync_client.has_pending_sync()
            || self.hotstuff.has_deferred_proposal() || self.hotstuff.has_pending_body_fetches()
            || self.hotstuff.has_pending_justify_fetches();
        if is_busy && now < view_info.deadline && view_info.deadline - now > BUSY_RECEIVE_WAIT {
            now + BUSY_RECEIVE_WAIT
        } else {
            view_info.deadline
        }
    }

    /// Handle a message that was received. One for the pacemaker is handed back, for the host to have
    /// it handled before the turn goes on.
    pub fn dispatch<R: Roles, A: App>(
        &mut self,
        origin: VerifyingKey,
        message: ProgressMessage,
        now: u64,
        app: &mut A,
        roles: &R,
    ) -> (r: Option<PacemakerMessage>)
        requires
            old(self).wf(),
        ensures
            final(self).wf(),
            dispatched(*old(self), origin, message, now, *roles, *final(self), r),
    {
        proof {
            reveal(dispatched);
        }
        match message {
            ProgressMessage::HotStuffMessage(message) => {
                let ghost before = *self;
                let ghost said = message;
                let result = self.hotstuff.on_receive_msg(
                    message,
                    &origin,
                    now,
                    &mut self.block_tree,
                    app,
                    roles,
                );
                let ghost middle = *self;
                assert(handlers::message_received(
                    before.hotstuff,
                    before.block_tree,
                    middle.hotstuff,
                    middle.block_tree,
                    *roles,
                    said,
                    origin,
                    now,
                    result,
                ));
                self.take_up_sync(now);
                None
            },
            ProgressMessage::PacemakerMessage(message) => Some(message),
            ProgressMessage::BlockSyncAdvertiseMessage(message) => {
                let _ = self.block_sync_client.on_receive_msg(
                    message,
                    &origin,
                    now,
                    &mut self.block_tree,
                );
                None
            },
        }
    }

    /// Let time pass for the sync client.
    pub fn tick_sync(&mut self, now: u64) -> (r: Result<(), BlockSyncClientError>)
        requires
            old(self).wf(),
        ensures
            final(self).wf(),
            r is Ok,
            sync_ticked(*old(self), now, *final(self)),
    {
        proof {
            reveal(sync_ticked);
        }
        self.block_sync_client.tick(now, &mut self.block_tree)
    }

    /// Do what is to be done in a turn before the bodies are taken that have come over the block-data
    /// channel.
    pub fn turn_before_bodies<R: Roles, A: App>(
        &mut self,
        input: TurnInput,
        app: &mut A,
        roles: &R,
    )
        requires
            old(self).wf(),
        ensures
            final(self).wf(),
            exists|states: Seq<Algorithm>| #[trigger]
                is_turn_before_bodies(states, input, *roles) && states[0] == *old(self)
                    && states.last() == *final(self),
    {
        let ghost given = input;
        let now: u64 = input.now;
        let ghost s0 = *self;
        self.follow_view(input.view_info, app, roles);
        let ghost s1 = *self;
        self.poll_worker_results(input.poll, now);
        let ghost s2 = *self;
        self.process_fetched_blocks(now, app, roles);
        proof {
            let states = seq![s0, s1, s2, *self];
            assert(is_turn_before_bodies(states, given, *roles));
        }
    }

    /// Do what is to be done in a turn after bodies were taken and before the host receives a
    /// message, and say how it is to receive one.
    pub fn turn_before_receive(&mut self, body_before_expiry: bool, now: u64) -> (r: Receive)
        requires
            old(self).wf(),
        ensures
            final(self).wf(),
            is_turn_before_receive(*old(self), body_before_expiry, now, *final(self), r),
    {
        if self.receives_first(body_before_expiry) {
            Receive::BeforeRetry
        } else {
            self.maintain_fetches(now);
            Receive::AfterRetry
        }
    }

    /// Do what is to be done in a turn after a message was received and handled, or none was. The
    /// result is how much was delivered to the application if its feed was checked. The host then
    /// gives the application its periodic tick.
    pub fn turn_after_receive(&mut self, receive: Receive, now: u64) -> (r: Option<u64>)
        requires
            old(self).wf(),
        ensures
            final(self).wf(),
            exists|states: Seq<Algorithm>| #[trigger]
                is_turn_after_receive(states, receive, now, r) && states[0] == *old(self)
                    && states.last() == *final(self),
    {
        let ghost s0 = *self;
        if receive == Receive::BeforeRetry {
            self.maintain_fetches(now);
        }
        let ghost s1 = *self;
        let _ = self.tick_sync(now);
        let ghost s2 = *self;
        let delivered = self.reconcile(now);
        proof {
            let states = seq![s0, s1, s2, *self];
            assert(is_turn_after_receive(states, receive, now, delivered));
        }
        delivered
    }
}

} // verus!
