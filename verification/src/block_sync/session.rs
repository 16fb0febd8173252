//! The state of a sync client, and how its steps change it.

use vstd::prelude::*;

use crate::app::ValidateBlockResponse;
use crate::block_sync::messages::{AdvertiseBlock, BlockSyncAdvertiseMessage};
use crate::block_sync::policy;
use crate::block_sync::policy::RequestOutcome;
use crate::block_sync::worker::{SyncCommand, SyncResult};
use crate::block_tree::commit;
use crate::block_tree::errors::BlockTreeError;
use crate::block_tree::invariants;
use crate::block_tree::retention::Retention;
use crate::block_tree::store::TreeView;
use crate::block_tree::tree;
use crate::block_tree::tree::{BlockTreeSingleton, GapWatch};
use crate::block_tree::updates;
use crate::effects::{Deed, Effect};
use crate::events::Event;
use crate::hotstuff::acting;
use crate::hotstuff::certificates;
use crate::hotstuff::types::PhaseCertificate;
use crate::roles::Roles;
use crate::types::block::Block;
use crate::types::data_types::{BlockHeight, ChainID, CryptoHash, VerifyingKey, ViewNumber};
use crate::types::validator_set;
use crate::types::validator_set::ValidatorSetUpdatesStatus;

verus! {

/// How many batches a session fetches at most.
pub const MAX_SYNC_ITERATIONS: u32 = 1000;

/// How long a session lasts at most, in milliseconds.
pub const SYNC_SESSION_TIMEOUT: u64 = 30000;

/// How soon to repeat an attempt that found no peer, in milliseconds.
pub const NO_SERVER_RETRY_INTERVAL: u64 = 2000;

/// How often to warn that a gap cannot be filled, in milliseconds.
pub const BACKFILL_STUCK_LOG_INTERVAL: u64 = 30000;

/// How soon to repeat an attempt to fill a gap, in milliseconds.
pub const BACKFILL_RETRY_INTERVAL: u64 = 5000;

/// The ways in which a step of the client can fail.
#[derive(PartialEq, Eq, Debug)]
pub enum BlockSyncClientError {
    BlockTreeError(BlockTreeError),
    /// A fetched block contradicts the committed chain.
    ConflictingCommittedChain {
        height: BlockHeight,
        local: Option<CryptoHash>,
        synced: CryptoHash,
    },
}

impl From<BlockTreeError> for BlockSyncClientError {
    fn from(value: BlockTreeError) -> (r: Self) {
        BlockSyncClientError::BlockTreeError(value)
    }
}

impl vstd::std_specs::convert::FromSpecImpl<BlockTreeError> for BlockSyncClientError {
    open spec fn obeys_from_spec() -> bool {
        true
    }

    open spec fn from_spec(value: BlockTreeError) -> Self {
        BlockSyncClientError::BlockTreeError(value)
    }
}

/// The configuration of a client. Times are in milliseconds.
#[derive(Clone, Copy, Debug)]
pub struct BlockSyncClientConfiguration {
    pub chain_id: ChainID,
    /// How many blocks to ask for at once.
    pub request_limit: u32,
    /// How long to wait for a response.
    pub response_timeout: u64,
    /// For how long a peer is shunned.
    pub blacklist_expiry_time: u64,
    /// By how many views a peer has to be ahead to sync from it at once.
    pub block_sync_trigger_min_view_difference: u64,
    /// How long to go without progress before syncing.
    pub block_sync_trigger_timeout: u64,
}

/// A peer that advertised the height up to which it serves blocks.
#[derive(Clone, Copy, Debug)]
pub struct SyncServer {
    pub key: VerifyingKey,
    pub height: BlockHeight,
}

/// A peer that is shunned, and until when.
#[derive(Clone, Copy, Debug)]
pub struct Shunned {
    pub key: VerifyingKey,
    pub until: u64,
}

/// A session with a peer.
pub struct PendingSyncSession {
    pub peer: VerifyingKey,
    /// The blocks that were fetched and not yet looked at, oldest first.
    pub pending_blocks: Vec<Block>,
    pub highest_pc: Option<PhaseCertificate>,
    pub blocks_synced: u64,
    /// The height below the first block that was asked for.
    pub init_height: BlockHeight,
    pub fetch_iterations: u32,
    pub session_start: u64,
    pub awaiting_fetch: bool,
    pub last_fetch_start_height: Option<BlockHeight>,
    /// Whether the session fills a gap below the committed frontier.
    pub is_backfill: bool,
}

/// What a [`PendingSyncSession`] holds.
#[verifier::ext_equal]
pub struct SessionView {
    pub peer: VerifyingKey,
    pub pending_blocks: Seq<Block>,
    pub highest_pc: Option<PhaseCertificate>,
    pub blocks_synced: u64,
    pub init_height: BlockHeight,
    pub fetch_iterations: u32,
    pub session_start: u64,
    pub awaiting_fetch: bool,
    pub last_start: Option<BlockHeight>,
    pub is_backfill: bool,
}

impl View for PendingSyncSession {
    type V = SessionView;

    open spec fn view(&self) -> SessionView {
        SessionView {
            peer: self.peer,
            pending_blocks: self.pending_blocks@,
            highest_pc: self.highest_pc,
            blocks_synced: self.blocks_synced,
            init_height: self.init_height,
            fetch_iterations: self.fetch_iterations,
            session_start: self.session_start,
            awaiting_fetch: self.awaiting_fetch,
            last_start: self.last_fetch_start_height,
            is_backfill: self.is_backfill,
        }
    }
}

/// Which peers can serve, which are shunned, and when to sync next.
pub struct BlockSyncClientState {
    pub available_sync_servers: Vec<SyncServer>,
    /// The shunned peers, in the order in which they are forgiven.
    pub blacklist: Vec<Shunned>,
    pub last_progress_or_sync_time: u64,
    pub highest_pc_view: ViewNumber,
    pub last_committed_height: Option<BlockHeight>,
    /// How many sessions in a row brought no block.
    pub consecutive_futile_sessions: u32,
    pub no_server_retry_at: Option<u64>,
    pub consecutive_no_progress_backfill: u32,
    pub last_backfill_stuck_log: Option<u64>,
    /// The height up to which the committed blocks are known to be without a gap.
    pub backfill_contiguous_through: Option<BlockHeight>,
    pub next_backfill_attempt_at: Option<u64>,
}

/// A client that fetches blocks from peers to catch up with them.
pub struct BlockSyncClient {
    pub config: BlockSyncClientConfiguration,
    pub state: BlockSyncClientState,
    pub pending_sync: Option<PendingSyncSession>,
}

/// What a [`BlockSyncClient`] holds.
#[verifier::ext_equal]
pub struct ClientView {
    pub config: BlockSyncClientConfiguration,
    pub servers: Seq<SyncServer>,
    pub blacklist: Seq<Shunned>,
    pub last_progress: u64,
    pub highest_pc_view: ViewNumber,
    pub last_committed: Option<BlockHeight>,
    pub futile: u32,
    pub no_server_retry_at: Option<u64>,
    pub no_progress: u32,
    pub last_stuck_log: Option<u64>,
    pub contiguous: Option<BlockHeight>,
    pub next_backfill_at: Option<u64>,
    pub session: Option<SessionView>,
}

/// What an optional session holds.
pub open spec fn session_view(session: Option<PendingSyncSession>) -> Option<SessionView> {
    match session {
        Some(session) => Some(session@),
        None => None,
    }
}

impl View for BlockSyncClient {
    type V = ClientView;

    open spec fn view(&self) -> ClientView {
        ClientView {
            config: self.config,
            servers: self.state.available_sync_servers@,
            blacklist: self.state.blacklist@,
            last_progress: self.state.last_progress_or_sync_time,
            highest_pc_view: self.state.highest_pc_view,
            last_committed: self.state.last_committed_height,
            futile: self.state.consecutive_futile_sessions,
            no_server_retry_at: self.state.no_server_retry_at,
            no_progress: self.state.consecutive_no_progress_backfill,
            last_stuck_log: self.state.last_backfill_stuck_log,
            contiguous: self.state.backfill_contiguous_through,
            next_backfill_at: self.state.next_backfill_attempt_at,
            session: session_view(self.pending_sync),
        }
    }
}

/// Where a step of the client stands: the client, the block tree, and what has been done since the
/// step began.
pub struct SyncRun {
    pub client: ClientView,
    pub tree: TreeView,
    pub watch: GapWatch,
    pub retention: Retention,
    pub done: Seq<Deed>,
}

/// A step that begins.
pub open spec fn sync_begin(client: BlockSyncClient, tree: BlockTreeSingleton) -> SyncRun {
    SyncRun {
        client: client@,
        tree: tree@,
        watch: tree.gap_watch,
        retention: tree.retention,
        done: Seq::empty(),
    }
}

/// `run` with the deeds `deeds` done.
pub open spec fn sync_did(run: SyncRun, deeds: Seq<Deed>) -> SyncRun {
    SyncRun { tree: tree::replay(run.tree, deeds), done: run.done + deeds, ..run }
}

/// `run` with the client changed to `client`.
pub open spec fn client_now(run: SyncRun, client: ClientView) -> SyncRun {
    SyncRun { client, ..run }
}

/// Whether the client and the tree, with what was added to the tree's journal since it was
/// `start`, are where `run` says.
pub open spec fn sync_reached(
    start: BlockTreeSingleton,
    client: BlockSyncClient,
    tree: BlockTreeSingleton,
    run: SyncRun,
) -> bool {
    &&& client@ == run.client
    &&& tree@ == run.tree
    &&& tree.deeds() == start.deeds() + run.done
    &&& tree.gap_watch == run.watch
    &&& tree.retention == run.retention
}

/// A step of the tree carries a run on.
pub proof fn lemma_sync_did(
    start: BlockTreeSingleton,
    client: BlockSyncClient,
    tree: BlockTreeSingleton,
    after: BlockTreeSingleton,
    run: SyncRun,
    deeds: Seq<Deed>,
)
    requires
        sync_reached(start, client, tree, run),
        tree::advanced(tree, after, deeds),
    ensures
        sync_reached(
            start,
            client,
            after,
            SyncRun { watch: after.gap_watch, ..sync_did(run, deeds) },
        ),
        after.gap_watch == tree.gap_watch ==> sync_reached(
            start,
            client,
            after,
            sync_did(run, deeds),
        ),
        tree::initialized(run.tree) ==> tree::initialized(sync_did(run, deeds).tree),
{
    assert((start.deeds() + run.done) + deeds =~= start.deeds() + (run.done + deeds));
    if tree::initialized(run.tree) {
        tree::lemma_replay_keeps_initialized(run.tree, deeds);
    }
}

/// A step begins where it begins.
pub proof fn lemma_sync_begin(client: BlockSyncClient, tree: BlockTreeSingleton)
    ensures
        sync_reached(tree, client, tree, sync_begin(client, tree)),
{
    assert(tree.deeds() + Seq::<Deed>::empty() =~= tree.deeds());
}

/// The time `delay` after `now`, as far as it fits.
pub open spec fn after_delay(now: u64, delay: u64) -> u64 {
    if now <= u64::MAX - delay {
        (now + delay) as u64
    } else {
        u64::MAX
    }
}

/// Whether `delay` has passed between `then` and `now`.
pub open spec fn has_passed(then: u64, now: u64, delay: int) -> bool {
    (if now >= then {
        now - then
    } else {
        0
    }) >= delay
}

/// The lowest height from `from` to `highest` without a committed block.
pub open spec fn lowest_gap(tree: TreeView, from: int, highest: int) -> Option<u64>
    decreases highest - from + 1,
{
    if from > highest {
        None
    } else if !tree.block_at_height.contains_key(BlockHeight(from as u64)) {
        Some(from as u64)
    } else {
        lowest_gap(tree, from + 1, highest)
    }
}

/// Where the scan for gaps starts: above the heights that are known to be without one, and above
/// the pruned ones.
pub open spec fn scan_start(client: ClientView, tree: TreeView) -> u64 {
    let known = match (client.contiguous, tree.pruned_height) {
        (Some(through), Some(pruned)) => Some(
            if through.0 >= pruned.0 {
                through
            } else {
                pruned
            },
        ),
        (Some(through), None) => Some(through),
        (None, pruned) => pruned,
    };
    match known {
        Some(height) => if height.0 < u64::MAX {
            (height.0 + 1) as u64
        } else {
            u64::MAX
        },
        None => 0,
    }
}

/// What the scan for gaps learns: up to which height there are none.
pub open spec fn scanned(client: ClientView, tree: TreeView) -> ClientView {
    match tree::committed_height(tree) {
        None => client,
        Some(top) => {
            let from = scan_start(client, tree);
            let reached = match lowest_gap(tree, from as int, top.0 as int) {
                Some(gap) => if gap > from {
                    Some((gap - 1) as u64)
                } else {
                    None
                },
                None => if from <= top.0 {
                    Some(top.0)
                } else {
                    None
                },
            };
            let known = match client.contiguous {
                Some(height) => height.0,
                None => 0,
            };
            match reached {
                Some(height) => if height > known {
                    ClientView { contiguous: Some(BlockHeight(height)), ..client }
                } else {
                    client
                },
                None => client,
            }
        },
    }
}

/// Where the next fetch starts, and whether it fills a gap.
pub open spec fn sync_start(client: ClientView, tree: TreeView) -> (BlockHeight, bool) {
    let (start, is_backfill) = match tree::committed_height(tree) {
        None => (0, false),
        Some(top) => policy::start_height(
            Some(top.0),
            lowest_gap(tree, scan_start(client, tree) as int, top.0 as int),
        ),
    };
    (BlockHeight(start), is_backfill)
}

/// The peers that serve blocks up to the committed frontier.
pub open spec fn fit_servers(servers: Seq<SyncServer>, frontier: Option<BlockHeight>) -> Seq<
    VerifyingKey,
>
    decreases servers.len(),
{
    if servers.len() == 0 {
        Seq::empty()
    } else {
        let before = fit_servers(servers.drop_last(), frontier);
        match frontier {
            Some(frontier) => if servers.last().height.0 >= frontier.0 {
                before.push(servers.last().key)
            } else {
                before
            },
            None => before.push(servers.last().key),
        }
    }
}

/// Whether `choice` is one of `keys`, or none if there are none.
pub open spec fn is_choice(keys: Seq<VerifyingKey>, choice: Option<VerifyingKey>) -> bool {
    match choice {
        Some(key) => keys.contains(key),
        None => keys.len() == 0,
    }
}

/// A failed attempt counted, and a warning noted when it is due.
pub open spec fn stuck(client: ClientView, now: u64) -> ClientView {
    let is_due = match client.last_stuck_log {
        None => true,
        Some(last) => has_passed(last, now, BACKFILL_STUCK_LOG_INTERVAL as int),
    };
    ClientView {
        no_progress: if client.no_progress < u32::MAX {
            (client.no_progress + 1) as u32
        } else {
            u32::MAX
        },
        last_stuck_log: if is_due {
            Some(now)
        } else {
            client.last_stuck_log
        },
        ..client
    }
}

/// The deed of telling observers of `event`.
pub open spec fn sync_told(event: Event) -> Seq<Deed> {
    seq![Deed::Other(Effect::Publish(event))]
}

/// The deed of having the worker fetch blocks.
pub open spec fn fetch_deed(
    config: BlockSyncClientConfiguration,
    peer: VerifyingKey,
    start_height: BlockHeight,
) -> Seq<Deed> {
    seq![
        Deed::Other(
            Effect::FetchBlocks(
                SyncCommand::Fetch {
                    peer,
                    chain_id: config.chain_id,
                    start_height,
                    limit: config.request_limit,
                },
            ),
        ),
    ]
}

/// An attempt to start a session, with the peer that was chosen.
pub open spec fn session_requested(run: SyncRun, choice: Option<VerifyingKey>, now: u64) -> (
    SyncRun,
    RequestOutcome,
) {
    if run.client.session is Some {
        (run, RequestOutcome::AlreadyPending)
    } else {
        let client = scanned(run.client, run.tree);
        let (start, is_backfill) = sync_start(run.client, run.tree);
        match choice {
            None => (
                client_now(
                    run,
                    stuck(
                        ClientView {
                            no_server_retry_at: Some(after_delay(now, NO_SERVER_RETRY_INTERVAL)),
                            ..client
                        },
                        now,
                    ),
                ),
                RequestOutcome::NoServer,
            ),
            Some(peer) => {
                let session = SessionView {
                    peer,
                    pending_blocks: Seq::empty(),
                    highest_pc: None,
                    blocks_synced: 0,
                    init_height: BlockHeight(
                        if start.0 > 0 {
                            (start.0 - 1) as u64
                        } else {
                            0
                        },
                    ),
                    fetch_iterations: 1,
                    session_start: now,
                    awaiting_fetch: true,
                    last_start: Some(start),
                    is_backfill,
                };
                let started = sync_did(
                    sync_did(run, sync_told(Event::StartSync { peer })),
                    fetch_deed(run.client.config, peer, start),
                );
                (
                    client_now(
                        started,
                        ClientView {
                            no_server_retry_at: None,
                            session: Some(session),
                            ..client
                        },
                    ),
                    RequestOutcome::Started,
                )
            },
        }
    }
}

/// The peers that an attempt to start a session chooses from.
pub open spec fn candidates(run: SyncRun) -> Seq<VerifyingKey> {
    fit_servers(run.client.servers, tree::committed_height(run.tree))
}

/// Whether an attempt to start a session leads from `run` to `after` with `outcome`, whichever of
/// the peers that can serve is chosen.
pub open spec fn requests_session(
    run: SyncRun,
    now: u64,
    after: SyncRun,
    outcome: RequestOutcome,
) -> bool {
    exists|choice: Option<VerifyingKey>| #[trigger]
        is_choice(candidates(run), choice) && (after, outcome) == session_requested(
            run,
            choice,
            now,
        )
}

/// A session ended: one that brought nothing counts against the next, one that brought blocks
/// clears the record.
pub open spec fn session_ended(run: SyncRun, now: u64) -> SyncRun {
    match run.client.session {
        None => run,
        Some(session) => {
            let client = ClientView { session: None, ..run.client };
            let settled = if session.blocks_synced > 0 {
                ClientView {
                    futile: 0,
                    no_progress: 0,
                    next_backfill_at: None,
                    no_server_retry_at: None,
                    ..client
                }
            } else {
                let counted = ClientView {
                    futile: if client.futile < u32::MAX {
                        (client.futile + 1) as u32
                    } else {
                        u32::MAX
                    },
                    ..client
                };
                if session.is_backfill {
                    stuck(
                        ClientView {
                            next_backfill_at: Some(after_delay(now, BACKFILL_RETRY_INTERVAL)),
                            ..counted
                        },
                        now,
                    )
                } else {
                    counted
                }
            };
            client_now(
                sync_did(
                    run,
                    sync_told(
                        Event::EndSync {
                            peer: session.peer,
                            blocks_synced: session.blocks_synced,
                        },
                    ),
                ),
                settled,
            )
        },
    }
}

/// The test that a server is not `key`.
pub open spec fn is_other_server(key: VerifyingKey) -> spec_fn(SyncServer) -> bool {
    |server: SyncServer| server.key != key
}

/// A peer shunned.
pub open spec fn shunned(client: ClientView, key: VerifyingKey, now: u64) -> ClientView {
    ClientView {
        servers: client.servers.filter(is_other_server(key)),
        blacklist: client.blacklist.push(
            Shunned { key, until: after_delay(now, client.config.blacklist_expiry_time) },
        ),
        ..client
    }
}

/// The height that a peer advertised.
pub open spec fn advertised(servers: Seq<SyncServer>, key: VerifyingKey) -> Option<BlockHeight>
    decreases servers.len(),
{
    if servers.len() == 0 {
        None
    } else if servers.last().key == key {
        Some(servers.last().height)
    } else {
        advertised(servers.drop_last(), key)
    }
}

/// Whether a peer brought fewer blocks than it advertised. A session that fills a gap is not held
/// against the peer.
pub open spec fn fell_short(client: ClientView, session: SessionView) -> bool {
    match advertised(client.servers, session.peer) {
        Some(height) => !session.is_backfill && session.blocks_synced < height.0
            - session.init_height.0,
        None => false,
    }
}

/// A session ended by the peer, which is shunned if it fell short.
pub open spec fn session_closed(run: SyncRun, now: u64) -> SyncRun {
    match run.client.session {
        None => run,
        Some(session) => if fell_short(run.client, session) {
            session_ended(client_now(run, shunned(run.client, session.peer, now)), now)
        } else {
            session_ended(run, now)
        },
    }
}

/// The next batch asked for, unless the session has gone on too long or would fetch the same blocks
/// again.
pub open spec fn batch_requested(run: SyncRun, now: u64) -> SyncRun {
    match run.client.session {
        None => run,
        Some(session) => if session.awaiting_fetch {
            run
        } else if session.fetch_iterations >= MAX_SYNC_ITERATIONS {
            session_ended(run, now)
        } else {
            let counted = client_now(
                run,
                ClientView {
                    session: Some(
                        SessionView {
                            fetch_iterations: (session.fetch_iterations + 1) as u32,
                            ..session
                        },
                    ),
                    ..run.client
                },
            );
            if now >= session.session_start + SYNC_SESSION_TIMEOUT {
                session_ended(counted, now)
            } else {
                let known = client_now(counted, scanned(counted.client, run.tree));
                let start = sync_start(run.client, run.tree).0;
                if session.last_start == Some(start) {
                    session_ended(known, now)
                } else {
                    let asked = client_now(
                        known,
                        ClientView {
                            session: Some(
                                SessionView {
                                    fetch_iterations: (session.fetch_iterations + 1) as u32,
                                    last_start: Some(start),
                                    awaiting_fetch: true,
                                    ..session
                                },
                            ),
                            ..known.client
                        },
                    );
                    sync_did(asked, fetch_deed(run.client.config, session.peer, start))
                }
            }
        },
    }
}

/// What the worker's channel gives.
pub enum WorkerPoll {
    Report(SyncResult),
    Nothing,
    Disconnected,
}

/// The worker's channel polled.
pub open spec fn worker_polled(run: SyncRun, poll: WorkerPoll, now: u64) -> SyncRun {
    match run.client.session {
        None => run,
        Some(session) => if !session.awaiting_fetch {
            run
        } else {
            match poll {
                WorkerPoll::Report(SyncResult::Blocks { peer, blocks, highest_pc }) => if peer
                    != session.peer {
                    run
                } else {
                    client_now(
                        run,
                        ClientView {
                            session: Some(
                                SessionView {
                                    pending_blocks: session.pending_blocks + blocks@,
                                    highest_pc: Some(highest_pc),
                                    awaiting_fetch: false,
                                    ..session
                                },
                            ),
                            ..run.client
                        },
                    )
                },
                WorkerPoll::Report(SyncResult::Empty { peer }) => if peer != session.peer {
                    run
                } else {
                    session_closed(run, now)
                },
                WorkerPoll::Report(SyncResult::Error { peer }) => if peer != session.peer {
                    run
                } else {
                    session_closed(run, now)
                },
                WorkerPoll::Nothing => run,
                WorkerPoll::Disconnected => session_ended(run, now),
            }
        },
    }
}

/// `blocks` without the first ones that the tree holds.
pub open spec fn unknown_blocks(tree: TreeView, blocks: Seq<Block>) -> Seq<Block>
    decreases blocks.len(),
{
    if blocks.len() > 0 && tree.blocks.contains_key(blocks[0].hash) {
        unknown_blocks(tree, blocks.skip(1))
    } else {
        blocks
    }
}

/// What there is to do about fetched blocks.
pub enum SyncWork {
    /// There is no block to look at.
    Nothing,
    /// What there was to do has been done.
    Handled,
    /// A block was refused.
    Refused(BlockSyncClientError),
    /// A block is to be put before the application.
    Validate(Block),
}

/// The client with other blocks to look at.
pub open spec fn with_pending(client: ClientView, blocks: Seq<Block>) -> ClientView {
    match client.session {
        Some(session) => ClientView {
            session: Some(SessionView { pending_blocks: blocks, ..session }),
            ..client
        },
        None => client,
    }
}

/// The next fetched block looked at. A block that is not correct speaks against the peer; one that
/// contradicts the committed chain is fatal.
pub open spec fn block_taken_up(run: SyncRun, now: u64) -> (SyncRun, SyncWork) {
    match run.client.session {
        None => (run, SyncWork::Nothing),
        Some(session) => if session.awaiting_fetch {
            (run, SyncWork::Nothing)
        } else if session.pending_blocks.len() == 0 {
            (batch_requested(run, now), SyncWork::Nothing)
        } else {
            let unknown = unknown_blocks(run.tree, session.pending_blocks);
            if unknown.len() == 0 {
                (
                    batch_requested(
                        client_now(run, with_pending(run.client, Seq::empty())),
                        now,
                    ),
                    SyncWork::Handled,
                )
            } else {
                let block = unknown[0];
                let taken = client_now(run, with_pending(run.client, unknown.skip(1)));
                if !invariants::block_correct(run.tree, block) {
                    (
                        session_ended(
                            client_now(taken, shunned(taken.client, session.peer, now)),
                            now,
                        ),
                        SyncWork::Handled,
                    )
                } else if run.tree.block_at_height.contains_key(block.height)
                    && run.tree.block_at_height[block.height] != block.hash {
                    (
                        session_ended(
                            sync_did(taken, seq![Deed::Other(Effect::FatalSafetyViolation)]),
                            now,
                        ),
                        SyncWork::Refused(
                            BlockSyncClientError::ConflictingCommittedChain {
                                height: block.height,
                                local: Some(run.tree.block_at_height[block.height]),
                                synced: block.hash,
                            },
                        ),
                    )
                } else {
                    (taken, SyncWork::Validate(block))
                }
            }
        },
    }
}

/// The tree acting on a certificate.
pub open spec fn sync_acted<R: Roles>(run: SyncRun, roles: R, justify: PhaseCertificate) -> SyncRun {
    SyncRun {
        watch: updates::watch_after(run.tree, justify, run.watch),
        ..sync_did(run, acting::act_deeds(run.tree, roles, justify, run.retention))
    }
}

/// One more block of the session counted.
pub open spec fn one_more_synced(client: ClientView) -> ClientView {
    match client.session {
        Some(session) => ClientView {
            session: Some(
                SessionView {
                    blocks_synced: if session.blocks_synced < u64::MAX {
                        (session.blocks_synced + 1) as u64
                    } else {
                        u64::MAX
                    },
                    ..session
                },
            ),
            ..client
        },
        None => client,
    }
}

/// The certificate that came with the blocks, if the tree can act on it.
pub open spec fn usable_highest_pc(run: SyncRun) -> Option<PhaseCertificate> {
    match run.client.session {
        Some(session) => match session.highest_pc {
            Some(pc) => if certificates::pc_correct(run.tree, pc) && invariants::pc_safe(
                run.tree,
                pc,
                run.client.config.chain_id,
            ) {
                Some(pc)
            } else {
                None
            },
            None => None,
        },
        None => None,
    }
}

/// What follows the application's verdict on a fetched block: a valid one is put into the tree,
/// which acts on its certificate and on the one that came with it; an invalid one speaks against
/// the peer; one whose data is missing ends the session.
pub open spec fn fetched_settled<R: Roles>(
    run: SyncRun,
    roles: R,
    block: Block,
    response: ValidateBlockResponse,
    now: u64,
) -> SyncRun {
    match response {
        ValidateBlockResponse::Valid { app_state_updates, validator_set_updates } => {
            let inserted = sync_did(
                sync_did(
                    run,
                    seq![
                        Deed::Persist(
                            updates::insertion(
                                run.tree,
                                block,
                                app_state_updates,
                                validator_set_updates,
                            ),
                        ),
                    ],
                ),
                sync_told(Event::InsertBlock { block }),
            );
            let acted = sync_acted(inserted, roles, block.justify);
            let counted = client_now(acted, one_more_synced(acted.client));
            match usable_highest_pc(counted) {
                Some(pc) => sync_acted(counted, roles, pc),
                None => counted,
            }
        },
        ValidateBlockResponse::Invalid => match run.client.session {
            Some(session) => session_ended(
                client_now(run, shunned(run.client, session.peer, now)),
                now,
            ),
            None => run,
        },
        ValidateBlockResponse::MissingData => session_ended(run, now),
    }
}

/// Whether a replica may serve blocks: it is a validator, or a block above the committed frontier
/// makes it one.
pub open spec fn may_serve(tree: TreeView, key: VerifyingKey) -> bool {
    ||| validator_set::has_validator(tree.committed_validators->0, key)
    ||| tree.highest_committed_block is Some && branch_makes_validator(
        tree,
        tree.highest_committed_block->0,
        key,
    )
}

/// Whether a block of a branch makes a replica a validator.
pub open spec fn branch_makes_validator(
    tree: TreeView,
    root: CryptoHash,
    key: VerifyingKey,
) -> bool {
    exists|i: int|
        0 <= i < commit::branch_of(tree, root).len() && makes_validator(
            tree,
            #[trigger] commit::branch_of(tree, root)[i],
            key,
        )
}

/// Whether a block that is not committed makes a replica a validator.
pub open spec fn makes_validator(tree: TreeView, block: CryptoHash, key: VerifyingKey) -> bool {
    match tree::updates_status(tree, block) {
        ValidatorSetUpdatesStatus::Pending(updates) => validator_set::power_of(updates.inserts@, key) is Some,
        _ => false,
    }
}

/// Whether a peer is shunned.
pub open spec fn is_shunned(blacklist: Seq<Shunned>, key: VerifyingKey) -> bool {
    exists|i: int| 0 <= i < blacklist.len() && (#[trigger] blacklist[i]).key == key
}

/// A server known with its newest height.
pub open spec fn registered(client: ClientView, key: VerifyingKey, height: BlockHeight) -> ClientView {
    ClientView {
        servers: client.servers.filter(is_other_server(key)).push(SyncServer { key, height }),
        ..client
    }
}

/// `blacklist` without the first peers whose time is over.
pub open spec fn forgiven(blacklist: Seq<Shunned>, now: u64) -> Seq<Shunned>
    decreases blacklist.len(),
{
    if blacklist.len() > 0 && blacklist[0].until <= now {
        forgiven(blacklist.skip(1), now)
    } else {
        blacklist
    }
}

/// Time passing: shunned peers are forgiven, and progress is noted.
pub open spec fn time_noted(run: SyncRun, now: u64) -> SyncRun {
    let view = (run.tree.highest_pc->0).view;
    let committed = tree::committed_height(run.tree);
    let aware = ClientView {
        blacklist: forgiven(run.client.blacklist, now),
        highest_pc_view: if view.0 > run.client.highest_pc_view.0 {
            view
        } else {
            run.client.highest_pc_view
        },
        ..run.client
    };
    client_now(
        run,
        if committed != run.client.last_committed {
            ClientView { last_committed: committed, last_progress: now, futile: 0, ..aware }
        } else {
            aware
        },
    )
}

/// Whether it is time to start a session: nothing was committed for too long, an attempt that found
/// no peer is to be repeated, or there is a gap and it is time to try to fill it.
pub open spec fn is_sync_due(run: SyncRun, now: u64) -> bool {
    let client = run.client;
    let timeout_due = has_passed(
        client.last_progress,
        now,
        client.config.block_sync_trigger_timeout * policy::backoff(client.futile),
    );
    let retry_due = client.no_server_retry_at is Some && now >= client.no_server_retry_at->0;
    let backfill_due = (client.next_backfill_at is None || now >= client.next_backfill_at->0)
        && sync_start(client, run.tree).1;
    client.session is None && (timeout_due || retry_due || backfill_due)
}

/// The client after time has passed: what it has learnt of gaps is kept if it looked for them.
pub open spec fn looked_for_gap(run: SyncRun, now: u64) -> SyncRun {
    let client = run.client;
    if client.session is None && (client.next_backfill_at is None || now
        >= client.next_backfill_at->0) {
        client_now(run, scanned(client, run.tree))
    } else {
        run
    }
}

/// The cadence of attempts after one of them.
pub open spec fn cadence_set(run: SyncRun, outcome: RequestOutcome, now: u64) -> SyncRun {
    let next = Some(after_delay(now, BACKFILL_RETRY_INTERVAL));
    match outcome {
        RequestOutcome::Started => client_now(
            run,
            ClientView { last_progress: now, next_backfill_at: next, ..run.client },
        ),
        RequestOutcome::NoServer => client_now(
            run,
            ClientView { next_backfill_at: next, ..run.client },
        ),
        RequestOutcome::AlreadyPending => run,
    }
}

/// An attempt to start a session whose success counts as progress.
pub open spec fn triggers_sync(run: SyncRun, now: u64, end: SyncRun) -> bool {
    if run.client.session is Some {
        end == run
    } else {
        exists|after: SyncRun, outcome: RequestOutcome| #[trigger]
            requests_session(run, now, after, outcome) && end == (
            if outcome == RequestOutcome::Started {
                client_now(after, ClientView { last_progress: now, ..after.client })
            } else {
                after
            })
    }
}

/// Time passing for the client: an attempt to start a session when it is due.
pub open spec fn sync_ticks(run: SyncRun, now: u64, end: SyncRun) -> bool {
    let noted = time_noted(run, now);
    let looked = looked_for_gap(noted, now);
    if is_sync_due(noted, now) {
        exists|after: SyncRun, outcome: RequestOutcome| #[trigger]
            requests_session(looked, now, after, outcome) && end == cadence_set(
                after,
                outcome,
                now,
            )
    } else {
        end == looked
    }
}

/// Whether an advertised certificate calls for a session: it is correct, and far ahead.
pub open spec fn calls_for_sync(run: SyncRun, pc: PhaseCertificate, origin: VerifyingKey) -> bool {
    &&& !is_shunned(run.client.blacklist, origin)
    &&& pc.view.0 - (run.tree.highest_pc->0).view.0
        >= run.client.config.block_sync_trigger_min_view_difference
    &&& pc.view.0 >= (run.tree.highest_pc->0).view.0
    &&& certificates::pc_correct(run.tree, pc)
}

/// What an advertisement of a served height makes of a client: a peer that may serve and is not
/// shunned is known as a server.
pub open spec fn height_advertised(
    client: ClientView,
    tree: TreeView,
    advertisement: AdvertiseBlock,
    origin: VerifyingKey,
) -> ClientView {
    if advertisement.chain_id == client.config.chain_id && advertisement.signed_by(origin)
        && may_serve(tree, origin) && !is_shunned(client.blacklist, origin) {
        registered(client, origin, advertisement.highest_committed_block_height)
    } else {
        client
    }
}

/// Whether an advertisement can lead from `run` to `end`.
pub open spec fn advertisement_received(
    run: SyncRun,
    message: BlockSyncAdvertiseMessage,
    origin: VerifyingKey,
    now: u64,
    end: SyncRun,
) -> bool {
    match message {
        BlockSyncAdvertiseMessage::AdvertiseBlock(advertisement) => end == client_now(
            run,
            height_advertised(run.client, run.tree, advertisement, origin),
        ),
        BlockSyncAdvertiseMessage::AdvertisePC(advertisement) => if calls_for_sync(
            run,
            advertisement.highest_pc,
            origin,
        ) {
            triggers_sync(run, now, end)
        } else {
            end == run
        },
    }
}

/// Whether looking at one fetched block led to `client` and `tree` with the result `result`,
/// whatever the application said of the block.
pub open spec fn block_processed<R: Roles>(
    run: SyncRun,
    roles: R,
    now: u64,
    start: BlockTreeSingleton,
    client: BlockSyncClient,
    tree: BlockTreeSingleton,
    result: Result<bool, BlockSyncClientError>,
) -> bool {
    let (taken, work) = block_taken_up(run, now);
    match work {
        SyncWork::Nothing => result == Ok::<bool, BlockSyncClientError>(false) && sync_reached(
            start,
            client,
            tree,
            taken,
        ),
        SyncWork::Handled => result == Ok::<bool, BlockSyncClientError>(true) && sync_reached(
            start,
            client,
            tree,
            taken,
        ),
        SyncWork::Refused(e) => result == Err::<bool, BlockSyncClientError>(e) && sync_reached(
            start,
            client,
            tree,
            taken,
        ),
        SyncWork::Validate(block) => {
            &&& result == Ok::<bool, BlockSyncClientError>(true)
            &&& exists|response: ValidateBlockResponse| #[trigger]
                sync_reached(
                    start,
                    client,
                    tree,
                    fetched_settled(taken, roles, block, response, now),
                )
        },
    }
}

} // verus!
