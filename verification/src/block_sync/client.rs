//! The steps of the sync client.

use vstd::prelude::*;

use rand::seq::IteratorRandom;

use crate::app::{App, ValidateBlockResponse};
use crate::block_sync::messages::{AdvertiseBlock, AdvertisePC, BlockSyncAdvertiseMessage};
use crate::block_sync::policy;
use crate::block_sync::policy::{
    conflicts_with_committed, futile_backoff_multiplier, no_server_retry_due, refetch_would_repeat,
    scan_first_gap, select_start_height, warrants_blacklist, GapScan, RequestOutcome,
};
use crate::block_sync::session;
use crate::block_sync::session::{
    BlockSyncClient, BlockSyncClientConfiguration, BlockSyncClientError, BlockSyncClientState,
    ClientView, PendingSyncSession, SessionView, Shunned, SyncRun, SyncServer, SyncWork, WorkerPoll,
    BACKFILL_RETRY_INTERVAL, BACKFILL_STUCK_LOG_INTERVAL, MAX_SYNC_ITERATIONS,
    NO_SERVER_RETRY_INTERVAL, SYNC_SESSION_TIMEOUT,
};
use crate::block_sync::worker::{SyncCommand, SyncResult};
use crate::block_tree::commit;
use crate::block_tree::invariants::safe_pc;
use crate::block_tree::store::TreeView;
use crate::block_tree::store;
use crate::block_tree::tree;
use crate::block_tree::tree::BlockTreeSingleton;
use crate::block_tree::updates;
use crate::effects::{Deed, Effect};
use crate::events::Event;
use crate::hotstuff::acting;
use crate::hotstuff::acting::act_on_certificate;
use crate::hotstuff::state::HotStuff;
use crate::hotstuff::types::PhaseCertificate;
use crate::roles::Roles;
use crate::types::block::Block;
use crate::types::data_types::{BlockHeight, VerifyingKey, ViewNumber};
use crate::types::validator_set::ValidatorSetUpdatesStatus;

verus! {

/// [`IteratorRandom::choose`] with [`rand::thread_rng`] on the keys: which one comes out is left to
/// chance; none does exactly where there is none.
#[verifier::external_body]
fn choose_key(keys: &Vec<VerifyingKey>) -> (r: Option<VerifyingKey>)
    ensures
        session::is_choice(keys@, r),
{
    keys.iter().choose(&mut rand::thread_rng()).copied()
}

/// The time `delay` after `now`, as far as it fits.
fn later(now: u64, delay: u64) -> (r: u64)
    ensures
        r == session::after_delay(now, delay),
{
    if now <= u64::MAX - delay {
        now + delay
    } else {
        u64::MAX
    }
}

/// How long it is since `then`.
fn elapsed(then: u64, now: u64) -> (r: u64)
    ensures
        forall|delay: int| #[trigger] session::has_passed(then, now, delay) == (r >= delay),
{
    if now >= then {
        now - then
    } else {
        0
    }
}

/// A scan that passes gap-free heights finds the same as one that starts above them.
proof fn lemma_lowest_gap_above(tree: TreeView, from: int, gap: int, highest: int)
    requires
        0 <= from <= gap <= highest + 1,
        highest <= u64::MAX,
        forall|h: u64| from <= h < gap ==> #[trigger] tree.block_at_height.contains_key(
            BlockHeight(h),
        ),
    ensures
        session::lowest_gap(tree, from, highest) == session::lowest_gap(tree, gap, highest),
    decreases gap - from,
{
    if from < gap {
        assert(tree.block_at_height.contains_key(BlockHeight(from as u64)));
        lemma_lowest_gap_above(tree, from + 1, gap, highest);
    }
}

/// `servers` without one of them.
fn servers_without(servers: &Vec<SyncServer>, key: &VerifyingKey) -> (r: Vec<SyncServer>)
    ensures
        r@ == servers@.filter(session::is_other_server(*key)),
{
    let mut r: Vec<SyncServer> = Vec::new();
    let mut i: usize = 0;
    let ghost keep = session::is_other_server(*key);
    proof {
        reveal(Seq::filter);
        assert(servers@.take(0).filter(keep) =~= Seq::<SyncServer>::empty());
    }
    while i < servers.len()
        invariant
            i <= servers@.len(),
            r@ == servers@.take(i as int).filter(keep),
            keep == session::is_other_server(*key),
        decreases servers@.len() - i,
    {
        proof {
            reveal(Seq::filter);
            assert(servers@.take(i as int + 1).drop_last() =~= servers@.take(i as int));
        }
        if servers[i].key != *key {
            r.push(servers[i]);
        }
        i = i + 1;
    }
    assert(servers@.take(servers@.len() as int) =~= servers@);
    r
}

/// The height that a peer advertised.
fn advertised_height(servers: &Vec<SyncServer>, key: &VerifyingKey) -> (r: Option<BlockHeight>)
    ensures
        r == session::advertised(servers@, *key),
{
    let mut i: usize = servers.len();
    assert(servers@.take(servers@.len() as int) =~= servers@);
    while i > 0
        invariant
            i <= servers@.len(),
            session::advertised(servers@, *key) == session::advertised(servers@.take(i as int), *key),
        decreases i,
    {
        assert(servers@.take(i as int).drop_last() =~= servers@.take(i as int - 1));
        if servers[i - 1].key == *key {
            return Some(servers[i - 1].height);
        }
        i = i - 1;
    }
    None
}

impl BlockSyncClientState {
    /// The state of a client that has just started.
    pub fn initialize(now: u64) -> (r: Self)
        ensures
            r.available_sync_servers@ == Seq::<SyncServer>::empty(),
            r.blacklist@ == Seq::<Shunned>::empty(),
            r.last_progress_or_sync_time == now,
            r.highest_pc_view == ViewNumber(0),
            r.last_committed_height is None,
            r.consecutive_futile_sessions == 0,
            r.no_server_retry_at is None,
            r.consecutive_no_progress_backfill == 0,
            r.last_backfill_stuck_log is None,
            r.backfill_contiguous_through is None,
            r.next_backfill_attempt_at is None,
    {
        BlockSyncClientState {
            available_sync_servers: Vec::new(),
            blacklist: Vec::new(),
            last_progress_or_sync_time: now,
            highest_pc_view: ViewNumber(0),
            last_committed_height: None,
            consecutive_futile_sessions: 0,
            no_server_retry_at: None,
            consecutive_no_progress_backfill: 0,
            last_backfill_stuck_log: None,
            backfill_contiguous_through: None,
            next_backfill_attempt_at: None,
        }
    }

    /// Whether a peer is shunned.
    pub fn blacklist_contains_server_address(&self, sync_server: &VerifyingKey) -> (r: bool)
        ensures
            r == session::is_shunned(self.blacklist@, *sync_server),
    {
        let mut i: usize = 0;
        while i < self.blacklist.len()
            invariant
                i <= self.blacklist@.len(),
                forall|j: int| 0 <= j < i ==> (#[trigger] self.blacklist@[j]).key != *sync_server,
            decreases self.blacklist@.len() - i,
        {
            if self.blacklist[i].key == *sync_server {
                assert(self.blacklist@[i as int].key == *sync_server);
                return true;
            }
            i = i + 1;
        }
        false
    }

    /// One of the peers that serve blocks up to a height, as chance has it.
    pub fn random_sync_server(&self, min_highest_committed_block_height: &Option<BlockHeight>) -> (r:
        Option<VerifyingKey>)
        ensures
            session::is_choice(
                session::fit_servers(self.available_sync_servers@, *min_highest_committed_block_height),
                r,
            ),
    {
        let ghost servers = self.available_sync_servers@;
        let ghost frontier = *min_highest_committed_block_height;
        let mut keys: Vec<VerifyingKey> = Vec::new();
        let mut i: usize = 0;
        while i < self.available_sync_servers.len()
            invariant
                i <= self.available_sync_servers@.len(),
                servers == self.available_sync_servers@,
                frontier == *min_highest_committed_block_height,
                keys@ == session::fit_servers(servers.take(i as int), frontier),
            decreases self.available_sync_servers@.len() - i,
        {
            assert(servers.take(i as int + 1).drop_last() =~= servers.take(i as int));
            let server = self.available_sync_servers[i];
            match min_highest_committed_block_height {
                Some(min_height) => {
                    if server.height.0 >= min_height.0 {
                        keys.push(server.key);
                    }
                },
                None => {
                    keys.push(server.key);
                },
            }
            i = i + 1;
        }
        assert(servers.take(servers.len() as int) =~= servers);
        choose_key(&keys)
    }
}

impl BlockSyncClient {
    /// A client that has just started.
    pub fn new(config: BlockSyncClientConfiguration, now: u64) -> (r: Self)
        ensures
            r@ == (ClientView {
                config,
                servers: Seq::empty(),
                blacklist: Seq::empty(),
                last_progress: now,
                highest_pc_view: ViewNumber(0),
                last_committed: None,
                futile: 0,
                no_server_retry_at: None,
                no_progress: 0,
                last_stuck_log: None,
                contiguous: None,
                next_backfill_at: None,
                session: None,
            }),
    {
        BlockSyncClient { config, state: BlockSyncClientState::initialize(now), pending_sync: None }
    }

    /// Whether a session is in progress.
    pub fn has_pending_sync(&self) -> (r: bool)
        ensures
            r == (self@.session is Some),
    {
        self.pending_sync.is_some()
    }

    /// Whether the worker is to report on a fetch.
    pub fn awaits_worker(&self) -> (r: bool)
        ensures
            r == (self@.session is Some && (self@.session->0).awaiting_fetch),
    {
        match &self.pending_sync {
            Some(session) => session.awaiting_fetch,
            None => false,
        }
    }

    /// Know a server with its newest height.
    pub fn register_or_update_sync_server(
        &mut self,
        sync_server: VerifyingKey,
        highest_committed_block_height: BlockHeight,
    )
        ensures
            final(self)@ == session::registered(old(self)@, sync_server, highest_committed_block_height),
    {
        let mut servers = servers_without(&self.state.available_sync_servers, &sync_server);
        servers.push(SyncServer { key: sync_server, height: highest_committed_block_height });
        self.state.available_sync_servers = servers;
    }

    /// Shun a peer.
    pub fn blacklist_sync_server(&mut self, sync_server: VerifyingKey, now: u64)
        ensures
            final(self)@ == session::shunned(old(self)@, sync_server, now),
    {
        let servers = servers_without(&self.state.available_sync_servers, &sync_server);
        self.state.available_sync_servers = servers;
        let until: u64 = later(now, self.config.blacklist_expiry_time);
        self.state.blacklist.push(Shunned { key: sync_server, until });
    }

    /// Forgive the peers whose time is over.
    pub fn remove_expired_blacklisted_servers(&mut self, now: u64)
        ensures
            final(self)@ == (ClientView {
                blacklist: session::forgiven(old(self)@.blacklist, now),
                ..old(self)@
            }),
    {
        let ghost before = self@;
        while self.state.blacklist.len() > 0 && self.state.blacklist[0].until <= now
            invariant
                self@ == (ClientView { blacklist: self@.blacklist, ..before }),
                session::forgiven(self@.blacklist, now) == session::forgiven(before.blacklist, now),
            decreases self@.blacklist.len(),
        {
            let ghost held = self.state.blacklist@;
            let _ = self.state.blacklist.remove(0);
            assert(self.state.blacklist@ =~= held.skip(1));
        }
    }

    /// Count a failed attempt, and note when a warning is due.
    fn note_backfill_stuck(&mut self, now: u64)
        ensures
            final(self)@ == session::stuck(old(self)@, now),
    {
        if self.state.consecutive_no_progress_backfill < u32::MAX {
            self.state.consecutive_no_progress_backfill =
            self.state.consecutive_no_progress_backfill + 1;
        }
        let is_due = match self.state.last_backfill_stuck_log {
            None => true,
            Some(last) => elapsed(last, now) >= BACKFILL_STUCK_LOG_INTERVAL,
        };
        if is_due {
            self.state.last_backfill_stuck_log = Some(now);
        }
    }

    /// Where the next fetch starts, and whether it fills a gap. The heights that turn out to be
    /// without a gap are remembered.
    pub fn compute_sync_start(&mut self, block_tree: &BlockTreeSingleton) -> (r: Result<
        (BlockHeight, bool),
        BlockSyncClientError,
    >)
        requires
            store::readable(block_tree@),
        ensures
            r == Ok::<(BlockHeight, bool), BlockSyncClientError>(
                session::sync_start(old(self)@, block_tree@),
            ),
            final(self)@ == session::scanned(old(self)@, block_tree@),
    {
        let highest = match block_tree.highest_committed_block_height() {
            Ok(highest) => highest,
            Err(e) => {
                return Err(BlockSyncClientError::from(e));
            },
        };
        let floor = match block_tree.block_tree_pruned_height() {
            Ok(floor) => floor,
            Err(e) => {
                return Err(BlockSyncClientError::from(e));
            },
        };
        let known = match (self.state.backfill_contiguous_through, floor) {
            (Some(through), Some(pruned)) => {
                if through.0 >= pruned.0 {
                    Some(through)
                } else {
                    Some(pruned)
                }
            },
            (Some(through), None) => Some(through),
            (None, pruned) => pruned,
        };
        let scan_from: u64 = match known {
            Some(height) => {
                if height.0 < u64::MAX {
                    height.0 + 1
                } else {
                    u64::MAX
                }
            },
            None => 0,
        };
        match highest {
            None => Ok((BlockHeight(0), false)),
            Some(top) => {
                let scan = Self::scan_tree(block_tree, scan_from, top.0);
                if let Some(through) = scan.contiguous_through {
                    let previous: u64 = match self.state.backfill_contiguous_through {
                        Some(height) => height.0,
                        None => 0,
                    };
                    if through > previous {
                        self.state.backfill_contiguous_through = Some(BlockHeight(through));
                    }
                }
                let (start, is_backfill) = select_start_height(Some(top.0), scan.first_gap);
                Ok((BlockHeight(start), is_backfill))
            },
        }
    }

    /// Scan the committed heights of a tree for the lowest gap.
    fn scan_tree(block_tree: &BlockTreeSingleton, scan_from: u64, highest: u64) -> (r: GapScan)
        requires
            store::readable(block_tree@),
        ensures
            r.first_gap == session::lowest_gap(block_tree@, scan_from as int, highest as int),
            r.contiguous_through == (match r.first_gap {
                Some(gap) => if gap > scan_from {
                    Some((gap - 1) as u64)
                } else {
                    None
                },
                None => if scan_from <= highest {
                    Some(highest)
                } else {
                    None
                },
            }),
    {
        let present = |height: u64| -> (is_present: bool)
            ensures
                is_present == block_tree@.block_at_height.contains_key(BlockHeight(height)),
            {
                match block_tree.block_at_height(BlockHeight(height)) {
                    Ok(found) => found.is_some(),
                    Err(_) => false,
                }
            };
        let scan = scan_first_gap(scan_from, highest, present);
        proof {
            let said = |h: u64, b: bool| present.ensures((h,), b);
            assert(policy::is_gap_scan(scan, scan_from, highest, said));
            match scan.first_gap {
                Some(gap) => {
                    assert(said(gap, false));
                    assert forall|h: u64| scan_from <= h < gap implies
                        #[trigger] block_tree@.block_at_height.contains_key(BlockHeight(h)) by {
                        assert(said(h, true));
                    }
                    lemma_lowest_gap_above(
                        block_tree@,
                        scan_from as int,
                        gap as int,
                        highest as int,
                    );
                },
                None => {
                    if scan_from <= highest {
                        assert forall|h: u64| scan_from <= h < highest + 1 implies
                            #[trigger] block_tree@.block_at_height.contains_key(BlockHeight(h)) by {
                            assert(said(h, true));
                        }
                        lemma_lowest_gap_above(
                            block_tree@,
                            scan_from as int,
                            highest + 1,
                            highest as int,
                        );
                    }
                },
            }
        }
        scan
    }

    /// End the session in progress.
    fn end_session(
        &mut self,
        now: u64,
        block_tree: &mut BlockTreeSingleton,
        Ghost(start): Ghost<BlockTreeSingleton>,
        Ghost(run): Ghost<SyncRun>,
    )
        requires
            session::sync_reached(start, *old(self), *old(block_tree), run),
        ensures
            session::sync_reached(start, *final(self), *final(block_tree), session::session_ended(run, now)),
            tree::initialized(run.tree) ==> tree::initialized(session::session_ended(run, now).tree),
    {
        match self.pending_sync.take() {
            None => {},
            Some(session) => {
                if session.blocks_synced == 0 {
                    if self.state.consecutive_futile_sessions < u32::MAX {
                        self.state.consecutive_futile_sessions =
                        self.state.consecutive_futile_sessions + 1;
                    }
                    if session.is_backfill {
                        self.state.next_backfill_attempt_at = Some(
                            later(now, BACKFILL_RETRY_INTERVAL),
                        );
                        self.note_backfill_stuck(now);
                    }
                } else {
                    self.state.consecutive_futile_sessions = 0;
                    self.state.consecutive_no_progress_backfill = 0;
                    self.state.next_backfill_attempt_at = None;
                    self.state.no_server_retry_at = None;
                }
                let ghost before = *block_tree;
                let ghost told = session::sync_told(
                    Event::EndSync { peer: session.peer, blocks_synced: session.blocks_synced },
                );
                block_tree.publish(
                    Event::EndSync { peer: session.peer, blocks_synced: session.blocks_synced },
                );
                proof {
                    session::lemma_sync_did(
                        start,
                        *self,
                        before,
                        *block_tree,
                        session::client_now(run, self@),
                        told,
                    );
                }
            },
        }
    }

    /// End the session in progress, and shun the peer if it fell short of what it advertised.
    fn check_commitment_and_end_session(
        &mut self,
        now: u64,
        block_tree: &mut BlockTreeSingleton,
        Ghost(start): Ghost<BlockTreeSingleton>,
        Ghost(run): Ghost<SyncRun>,
    )
        requires
            session::sync_reached(start, *old(self), *old(block_tree), run),
        ensures
            session::sync_reached(start, *final(self), *final(block_tree), session::session_closed(run, now)),
            tree::initialized(run.tree) ==> tree::initialized(session::session_closed(run, now).tree),
    {
        let mut to_shun: Option<VerifyingKey> = None;
        if let Some(session) = &self.pending_sync {
            if !session.is_backfill {
                if let Some(height) = advertised_height(
                    &self.state.available_sync_servers,
                    &session.peer,
                ) {
                    if height.0 > session.init_height.0 && session.blocks_synced < height.0
                        - session.init_height.0 {
                        to_shun = Some(session.peer);
                    }
                }
            }
        }
        match to_shun {
            Some(peer) => {
                self.blacklist_sync_server(peer, now);
                self.end_session(
                    now,
                    block_tree,
                    Ghost(start),
                    Ghost(session::client_now(run, session::shunned(run.client, peer, now))),
                );
            },
            None => {
                self.end_session(now, block_tree, Ghost(start), Ghost(run));
            },
        }
    }

    /// Have the worker fetch blocks.
    fn fetch(
        &self,
        peer: VerifyingKey,
        start_height: BlockHeight,
        block_tree: &mut BlockTreeSingleton,
    )
        ensures
            tree::advanced(
                *old(block_tree),
                *final(block_tree),
                session::fetch_deed(self.config, peer, start_height),
            ),
            final(block_tree).gap_watch == old(block_tree).gap_watch,
    {
        block_tree.emit(
            Effect::FetchBlocks(
                SyncCommand::Fetch {
                    peer,
                    chain_id: self.config.chain_id,
                    start_height,
                    limit: self.config.request_limit,
                },
            ),
        );
    }

    /// Start a session with `choice`, unless one is in progress.
    fn begin_session(
        &mut self,
        choice: Option<VerifyingKey>,
        now: u64,
        block_tree: &mut BlockTreeSingleton,
        Ghost(start): Ghost<BlockTreeSingleton>,
        Ghost(run): Ghost<SyncRun>,
    ) -> (r: Result<RequestOutcome, BlockSyncClientError>)
        requires
            store::readable(old(block_tree)@),
            session::sync_reached(start, *old(self), *old(block_tree), run),
        ensures
            session::sync_reached(
                start,
                *final(self),
                *final(block_tree),
                session::session_requested(run, choice, now).0,
            ),
            r == Ok::<RequestOutcome, BlockSyncClientError>(session::session_requested(run, choice, now).1),
            tree::initialized(run.tree) ==> tree::initialized(session::session_requested(run, choice, now).0.tree),
    {
        if self.pending_sync.is_some() {
            return Ok(RequestOutcome::AlreadyPending);
        }
        let (start_height, is_backfill) = match self.compute_sync_start(block_tree) {
            Ok(found) => found,
            Err(e) => {
                return Err(e);
            },
        };
        let peer = match choice {
            Some(peer) => peer,
            None => {
                self.state.no_server_retry_at = Some(later(now, NO_SERVER_RETRY_INTERVAL));
                self.note_backfill_stuck(now);
                return Ok(RequestOutcome::NoServer);
            },
        };
        self.state.no_server_retry_at = None;
        let init_height = BlockHeight(
            if start_height.0 > 0 {
                start_height.0 - 1
            } else {
                0
            },
        );
        let ghost told = session::sync_told(Event::StartSync { peer });
        let ghost asked = session::fetch_deed(self.config, peer, start_height);
        let ghost before = *block_tree;
        block_tree.publish(Event::StartSync { peer });
        let ghost between = *block_tree;
        self.fetch(peer, start_height, block_tree);
        self.pending_sync = Some(
            PendingSyncSession {
                peer,
                pending_blocks: Vec::new(),
                highest_pc: None,
                blocks_synced: 0,
                init_height,
                fetch_iterations: 1,
                session_start: now,
                awaiting_fetch: true,
                last_fetch_start_height: Some(start_height),
                is_backfill,
            },
        );
        proof {
            let known = session::client_now(run, self@);
            session::lemma_sync_did(start, *self, before, between, known, told);
            session::lemma_sync_did(start, *self, between, *block_tree, session::sync_did(known, told), asked);
        }
        Ok(RequestOutcome::Started)
    }

    /// Start a session with a peer left to chance.
    fn try_session(
        &mut self,
        now: u64,
        block_tree: &mut BlockTreeSingleton,
        Ghost(start): Ghost<BlockTreeSingleton>,
        Ghost(run): Ghost<SyncRun>,
    ) -> (r: (Result<RequestOutcome, BlockSyncClientError>, Ghost<SyncRun>))
        requires
            store::readable(old(block_tree)@),
            session::sync_reached(start, *old(self), *old(block_tree), run),
        ensures
            r.0 is Ok,
            session::requests_session(run, now, r.1@, r.0->Ok_0),
            session::sync_reached(start, *final(self), *final(block_tree), r.1@),
            r.1@.client.session is Some || r.0->Ok_0 == RequestOutcome::NoServer,
            tree::initialized(run.tree) ==> tree::initialized(r.1@.tree),
    {
        let frontier = match block_tree.highest_committed_block_height() {
            Ok(frontier) => frontier,
            Err(e) => {
                return (Err(BlockSyncClientError::from(e)), Ghost(run));
            },
        };
        let choice = self.state.random_sync_server(&frontier);
        let ghost after = session::session_requested(run, choice, now);
        assert(session::is_choice(session::candidates(run), choice));
        let outcome = self.begin_session(choice, now, block_tree, Ghost(start), Ghost(run));
        (outcome, Ghost(after.0))
    }

    /// Start a session whose success counts as progress.
    fn trigger(
        &mut self,
        now: u64,
        block_tree: &mut BlockTreeSingleton,
        Ghost(start): Ghost<BlockTreeSingleton>,
        Ghost(run): Ghost<SyncRun>,
    ) -> (r: (Result<(), BlockSyncClientError>, Ghost<SyncRun>))
        requires
            store::readable(old(block_tree)@),
            session::sync_reached(start, *old(self), *old(block_tree), run),
        ensures
            r.0 is Ok,
            session::triggers_sync(run, now, r.1@),
            session::sync_reached(start, *final(self), *final(block_tree), r.1@),
            tree::initialized(run.tree) ==> tree::initialized(r.1@.tree),
    {
        if self.pending_sync.is_some() {
            return (Ok(()), Ghost(run));
        }
        let (outcome, Ghost(after)) = self.try_session(now, block_tree, Ghost(start), Ghost(run));
        match outcome {
            Ok(outcome) => {
                if outcome == RequestOutcome::Started {
                    self.state.last_progress_or_sync_time = now;
                    (Ok(()), Ghost(session::client_now(after, self@)))
                } else {
                    (Ok(()), Ghost(after))
                }
            },
            Err(e) => (Err(e), Ghost(after)),
        }
    }

    /// Ask for the next batch of blocks.
    fn request_next_batch(
        &mut self,
        now: u64,
        block_tree: &mut BlockTreeSingleton,
        Ghost(start): Ghost<BlockTreeSingleton>,
        Ghost(run): Ghost<SyncRun>,
    ) -> (r: Result<(), BlockSyncClientError>)
        requires
            store::readable(old(block_tree)@),
            session::sync_reached(start, *old(self), *old(block_tree), run),
        ensures
            r is Ok,
            session::sync_reached(start, *final(self), *final(block_tree), session::batch_requested(run, now)),
            tree::initialized(run.tree) ==> tree::initialized(session::batch_requested(run, now).tree),
    {
        let mut session = match self.pending_sync.take() {
            None => {
                return Ok(());
            },
            Some(session) => session,
        };
        if session.awaiting_fetch {
            self.pending_sync = Some(session);
            return Ok(());
        }
        if session.fetch_iterations >= MAX_SYNC_ITERATIONS {
            self.pending_sync = Some(session);
            self.end_session(now, block_tree, Ghost(start), Ghost(run));
            return Ok(());
        }
        session.fetch_iterations = session.fetch_iterations + 1;
        let is_overdue = now as u128 >= session.session_start as u128
            + SYNC_SESSION_TIMEOUT as u128;
        let peer = session.peer;
        let last_start: Option<u64> = match session.last_fetch_start_height {
            Some(height) => Some(height.0),
            None => None,
        };
        self.pending_sync = Some(session);
        if is_overdue {
            self.end_session(now, block_tree, Ghost(start), Ghost(session::client_now(run, self@)));
            return Ok(());
        }
        let ghost counted = session::client_now(run, self@);
        let start_height = match self.compute_sync_start(block_tree) {
            Ok((start_height, _)) => start_height,
            Err(e) => {
                return Err(e);
            },
        };
        let ghost known = session::client_now(counted, session::scanned(counted.client, run.tree));
        if refetch_would_repeat(last_start, start_height.0) {
            self.end_session(now, block_tree, Ghost(start), Ghost(known));
            return Ok(());
        }
        let mut session = match self.pending_sync.take() {
            None => {
                return Ok(());
            },
            Some(session) => session,
        };
        session.last_fetch_start_height = Some(start_height);
        session.awaiting_fetch = true;
        self.pending_sync = Some(session);
        let ghost before = *block_tree;
        self.fetch(peer, start_height, block_tree);
        proof {
            session::lemma_sync_did(
                start,
                *self,
                before,
                *block_tree,
                session::client_now(run, self@),
                session::fetch_deed(self.config, peer, start_height),
            );
        }
        Ok(())
    }

    /// Start a session with `choice`, unless one is in progress.
    pub fn request_sync_from(
        &mut self,
        choice: Option<VerifyingKey>,
        now: u64,
        block_tree: &mut BlockTreeSingleton,
    ) -> (r: Result<RequestOutcome, BlockSyncClientError>)
        requires
            store::readable(old(block_tree)@),
        ensures
            session::sync_reached(
                *old(block_tree),
                *final(self),
                *final(block_tree),
                session::session_requested(session::sync_begin(*old(self), *old(block_tree)), choice, now).0,
            ),
            r == Ok::<RequestOutcome, BlockSyncClientError>(
                session::session_requested(session::sync_begin(*old(self), *old(block_tree)), choice, now).1,
            ),
            tree::initialized(old(block_tree)@) ==> tree::initialized(final(block_tree)@),
    {
        proof {
            session::lemma_sync_begin(*self, *block_tree);
        }
        self.begin_session(
            choice,
            now,
            block_tree,
            Ghost(*block_tree),
            Ghost(session::sync_begin(*self, *block_tree)),
        )
    }

    /// Start a session with one of the peers that can serve, unless one is in progress.
    pub fn request_sync(&mut self, now: u64, block_tree: &mut BlockTreeSingleton) -> (r: Result<
        RequestOutcome,
        BlockSyncClientError,
    >)
        requires
            store::readable(old(block_tree)@),
        ensures
            r is Ok,
            exists|after: SyncRun| #[trigger]
                session::requests_session(
                    session::sync_begin(*old(self), *old(block_tree)),
                    now,
                    after,
                    r->Ok_0,
                ) && session::sync_reached(*old(block_tree), *final(self), *final(block_tree), after),
            tree::initialized(old(block_tree)@) ==> tree::initialized(final(block_tree)@),
    {
        proof {
            session::lemma_sync_begin(*self, *block_tree);
        }
        let (outcome, Ghost(after)) = self.try_session(
            now,
            block_tree,
            Ghost(*block_tree),
            Ghost(session::sync_begin(*self, *block_tree)),
        );
        outcome
    }

    /// Start a session because a block that the chain needs is not at hand.
    pub fn trigger_sync(&mut self, now: u64, block_tree: &mut BlockTreeSingleton) -> (r: Result<
        (),
        BlockSyncClientError,
    >)
        requires
            store::readable(old(block_tree)@),
        ensures
            r is Ok,
            exists|end: SyncRun| #[trigger]
                session::triggers_sync(
                    session::sync_begin(*old(self), *old(block_tree)),
                    now,
                    end,
                ) && session::sync_reached(
                    *old(block_tree),
                    *final(self),
                    *final(block_tree),
                    end,
                ),
            tree::initialized(old(block_tree)@) ==> tree::initialized(final(block_tree)@),
    {
        proof {
            session::lemma_sync_begin(*self, *block_tree);
        }
        let (done, Ghost(end)) = self.trigger(
            now,
            block_tree,
            Ghost(*block_tree),
            Ghost(session::sync_begin(*self, *block_tree)),
        );
        done
    }

    /// Let time pass: forgive peers, note progress, and start a session when it is due.
    pub fn tick(&mut self, now: u64, block_tree: &mut BlockTreeSingleton) -> (r: Result<
        (),
        BlockSyncClientError,
    >)
        requires
            tree::initialized(old(block_tree)@),
        ensures
            r is Ok,
            exists|end: SyncRun| #[trigger]
                session::sync_ticks(
                    session::sync_begin(*old(self), *old(block_tree)),
                    now,
                    end,
                ) && session::sync_reached(
                    *old(block_tree),
                    *final(self),
                    *final(block_tree),
                    end,
                ),
            tree::initialized(final(block_tree)@),
    {
        let ghost start = *block_tree;
        let ghost run = session::sync_begin(*self, *block_tree);
        proof {
            session::lemma_sync_begin(*self, *block_tree);
        }
        self.remove_expired_blacklisted_servers(now);
        let view = match block_tree.highest_pc() {
            Ok(pc) => pc.view,
            Err(e) => {
                return Err(BlockSyncClientError::from(e));
            },
        };
        if view.0 > self.state.highest_pc_view.0 {
            self.state.highest_pc_view = view;
        }
        let committed = match block_tree.highest_committed_block_height() {
            Ok(committed) => committed,
            Err(e) => {
                return Err(BlockSyncClientError::from(e));
            },
        };
        if committed != self.state.last_committed_height {
            self.state.last_committed_height = committed;
            self.state.last_progress_or_sync_time = now;
            self.state.consecutive_futile_sessions = 0;
        }
        let ghost noted = session::time_noted(run, now);
        assert(self@ == noted.client);
        if self.pending_sync.is_some() {
            assert(session::sync_ticks(run, now, noted));
            return Ok(());
        }
        let multiplier: u32 = futile_backoff_multiplier(self.state.consecutive_futile_sessions);
        assert(self.config.block_sync_trigger_timeout * multiplier <= u64::MAX * 8)
            by (nonlinear_arith)
            requires
                self.config.block_sync_trigger_timeout <= u64::MAX,
                multiplier <= 8,
        ;
        let is_timeout_due = elapsed(self.state.last_progress_or_sync_time, now) as u128
            >= self.config.block_sync_trigger_timeout as u128 * multiplier as u128;
        let is_retry_due = no_server_retry_due(self.state.no_server_retry_at, now);
        let may_backfill = match self.state.next_backfill_attempt_at {
            None => true,
            Some(at) => now >= at,
        };
        let mut is_backfill_due = false;
        if may_backfill {
            match self.compute_sync_start(block_tree) {
                Ok((_, is_backfill)) => {
                    is_backfill_due = is_backfill;
                },
                Err(e) => {
                    return Err(e);
                },
            }
        }
        let ghost looked = session::looked_for_gap(noted, now);
        assert(self@ == looked.client);
        let is_due = is_timeout_due || is_retry_due || is_backfill_due;
        assert(is_due == session::is_sync_due(noted, now));
        if !is_due {
            assert(session::sync_ticks(run, now, looked));
            return Ok(());
        }
        let (outcome, Ghost(after)) = self.try_session(
            now,
            block_tree,
            Ghost(start),
            Ghost(looked),
        );
        let outcome = match outcome {
            Ok(outcome) => outcome,
            Err(e) => {
                return Err(e);
            },
        };
        match outcome {
            RequestOutcome::Started => {
                self.state.last_progress_or_sync_time = now;
                self.state.next_backfill_attempt_at = Some(later(now, BACKFILL_RETRY_INTERVAL));
            },
            RequestOutcome::NoServer => {
                self.state.next_backfill_attempt_at = Some(later(now, BACKFILL_RETRY_INTERVAL));
            },
            RequestOutcome::AlreadyPending => {},
        }
        assert(session::sync_ticks(run, now, session::cadence_set(after, outcome, now)));
        Ok(())
    }

    /// Take what the worker reports.
    pub fn poll_worker_results(
        &mut self,
        poll: WorkerPoll,
        now: u64,
        block_tree: &mut BlockTreeSingleton,
    )
        requires
            store::readable(old(block_tree)@),
        ensures
            session::sync_reached(
                *old(block_tree),
                *final(self),
                *final(block_tree),
                session::worker_polled(session::sync_begin(*old(self), *old(block_tree)), poll, now),
            ),
            tree::initialized(old(block_tree)@) ==> tree::initialized(final(block_tree)@),
    {
        let ghost start = *block_tree;
        let ghost run = session::sync_begin(*self, *block_tree);
        proof {
            session::lemma_sync_begin(*self, *block_tree);
        }
        let mut session = match self.pending_sync.take() {
            None => {
                return;
            },
            Some(session) => session,
        };
        if !session.awaiting_fetch {
            self.pending_sync = Some(session);
            return;
        }
        let peer_in_session = session.peer;
        match poll {
            WorkerPoll::Report(SyncResult::Blocks { peer, blocks, highest_pc }) => {
                if peer == peer_in_session {
                    let mut blocks = blocks;
                    session.pending_blocks.append(&mut blocks);
                    session.highest_pc = Some(highest_pc);
                    session.awaiting_fetch = false;
                }
                self.pending_sync = Some(session);
            },
            WorkerPoll::Report(SyncResult::Empty { peer }) => {
                self.pending_sync = Some(session);
                if peer == peer_in_session {
                    self.check_commitment_and_end_session(
                        now,
                        block_tree,
                        Ghost(start),
                        Ghost(run),
                    );
                }
            },
            WorkerPoll::Report(SyncResult::Error { peer }) => {
                self.pending_sync = Some(session);
                if peer == peer_in_session {
                    self.check_commitment_and_end_session(
                        now,
                        block_tree,
                        Ghost(start),
                        Ghost(run),
                    );
                }
            },
            WorkerPoll::Nothing => {
                self.pending_sync = Some(session);
            },
            WorkerPoll::Disconnected => {
                self.pending_sync = Some(session);
                self.end_session(now, block_tree, Ghost(start), Ghost(run));
            },
        }
    }

    /// Look at the next fetched block.
    fn take_up(
        &mut self,
        now: u64,
        block_tree: &mut BlockTreeSingleton,
        Ghost(start): Ghost<BlockTreeSingleton>,
        Ghost(run): Ghost<SyncRun>,
    ) -> (r: SyncWork)
        requires
            session::sync_reached(start, *old(self), *old(block_tree), run),
            tree::initialized(run.tree),
        ensures
            r == session::block_taken_up(run, now).1,
            session::sync_reached(start, *final(self), *final(block_tree), session::block_taken_up(run, now).0),
            tree::initialized(session::block_taken_up(run, now).0.tree),
    {
        let mut session = match self.pending_sync.take() {
            None => {
                return SyncWork::Nothing;
            },
            Some(session) => session,
        };
        if session.awaiting_fetch {
            self.pending_sync = Some(session);
            return SyncWork::Nothing;
        }
        if session.pending_blocks.len() == 0 {
            self.pending_sync = Some(session);
            let _ = self.request_next_batch(now, block_tree, Ghost(start), Ghost(run));
            return SyncWork::Nothing;
        }
        let ghost held = session@;
        while session.pending_blocks.len() > 0 && block_tree.contains(
            &session.pending_blocks[0].hash,
        )
            invariant
                session@ == (SessionView { pending_blocks: session.pending_blocks@, ..held }),
                block_tree@ == run.tree,
                store::readable(run.tree),
                session::unknown_blocks(run.tree, session.pending_blocks@) == session::unknown_blocks(
                    run.tree,
                    held.pending_blocks,
                ),
            decreases session.pending_blocks@.len(),
        {
            let ghost before = session.pending_blocks@;
            let _ = session.pending_blocks.remove(0);
            assert(session.pending_blocks@ =~= before.skip(1));
        }
        let ghost unknown = session::unknown_blocks(run.tree, held.pending_blocks);
        assert(session.pending_blocks@ == unknown);
        if session.pending_blocks.len() == 0 {
            self.pending_sync = Some(session);
            assert(unknown =~= Seq::<Block>::empty());
            let _ = self.request_next_batch(
                now,
                block_tree,
                Ghost(start),
                Ghost(session::client_now(run, self@)),
            );
            return SyncWork::Handled;
        }
        let peer = session.peer;
        let block = session.pending_blocks.remove(0);
        assert(session.pending_blocks@ =~= unknown.skip(1));
        self.pending_sync = Some(session);
        let ghost taken = session::client_now(run, session::with_pending(run.client, unknown.skip(1)));
        assert(self@ == taken.client);
        let is_correct = match block.is_correct(block_tree) {
            Ok(is_correct) => is_correct,
            Err(e) => {
                return SyncWork::Refused(BlockSyncClientError::from(e));
            },
        };
        if !is_correct {
            self.blacklist_sync_server(peer, now);
            self.end_session(
                now,
                block_tree,
                Ghost(start),
                Ghost(session::client_now(taken, session::shunned(taken.client, peer, now))),
            );
            return SyncWork::Handled;
        }
        let committed = match block_tree.block_at_height(block.height) {
            Ok(committed) => committed,
            Err(e) => {
                return SyncWork::Refused(BlockSyncClientError::from(e));
            },
        };
        if conflicts_with_committed(committed, block.hash) {
            let ghost fatal = seq![Deed::Other(Effect::FatalSafetyViolation)];
            let ghost before = *block_tree;
            block_tree.emit(Effect::FatalSafetyViolation);
            proof {
                session::lemma_sync_did(start, *self, before, *block_tree, taken, fatal);
            }
            self.end_session(now, block_tree, Ghost(start), Ghost(session::sync_did(taken, fatal)));
            return SyncWork::Refused(
                BlockSyncClientError::ConflictingCommittedChain {
                    height: block.height,
                    local: committed,
                    synced: block.hash,
                },
            );
        }
        SyncWork::Validate(block)
    }

    /// Act on a certificate, as far as the tree lets it.
    fn act<R: Roles>(
        &self,
        justify: &PhaseCertificate,
        block_tree: &mut BlockTreeSingleton,
        roles: &R,
        Ghost(start): Ghost<BlockTreeSingleton>,
        Ghost(run): Ghost<SyncRun>,
    )
        requires
            session::sync_reached(start, *self, *old(block_tree), run),
            tree::initialized(run.tree),
        ensures
            session::sync_reached(start, *self, *final(block_tree), session::sync_acted(run, *roles, *justify)),
            tree::initialized(session::sync_acted(run, *roles, *justify).tree),
    {
        let ghost before = *block_tree;
        act_on_certificate(block_tree, justify, roles);
        proof {
            session::lemma_sync_did(
                start,
                *self,
                before,
                *block_tree,
                run,
                acting::act_deeds(run.tree, *roles, *justify, run.retention),
            );
        }
    }

    /// Put a valid fetched block into the tree.
    fn adopt<R: Roles>(
        &mut self,
        block: &Block,
        response: ValidateBlockResponse,
        now: u64,
        block_tree: &mut BlockTreeSingleton,
        roles: &R,
        Ghost(start): Ghost<BlockTreeSingleton>,
        Ghost(run): Ghost<SyncRun>,
    )
        requires
            session::sync_reached(start, *old(self), *old(block_tree), run),
            tree::initialized(run.tree),
        ensures
            session::sync_reached(
                start,
                *final(self),
                *final(block_tree),
                session::fetched_settled(run, *roles, *block, response, now),
            ),
            tree::initialized(session::fetched_settled(run, *roles, *block, response, now).tree),
    {
        let should_blacklist = warrants_blacklist(&response);
        match response {
            ValidateBlockResponse::Valid { app_state_updates, validator_set_updates } => {
                let ghost insertion_deed = seq![
                    Deed::Persist(
                        updates::insertion(
                            run.tree,
                            *block,
                            app_state_updates,
                            validator_set_updates,
                        ),
                    ),
                ];
                let ghost told = session::sync_told(Event::InsertBlock { block: *block });
                let ghost before = *block_tree;
                let _ = block_tree.insert(
                    block,
                    app_state_updates.as_ref(),
                    validator_set_updates.as_ref(),
                );
                let ghost between = *block_tree;
                block_tree.publish(Event::InsertBlock { block: block.clone() });
                let ghost inserted = session::sync_did(session::sync_did(run, insertion_deed), told);
                proof {
                    session::lemma_sync_did(start, *self, before, between, run, insertion_deed);
                    session::lemma_sync_did(
                        start,
                        *self,
                        between,
                        *block_tree,
                        session::sync_did(run, insertion_deed),
                        told,
                    );
                }
                self.act(&block.justify, block_tree, roles, Ghost(start), Ghost(inserted));
                let ghost acted = session::sync_acted(inserted, *roles, block.justify);
                let mut highest_pc: Option<PhaseCertificate> = None;
                match self.pending_sync.take() {
                    None => {},
                    Some(mut session) => {
                        if session.blocks_synced < u64::MAX {
                            session.blocks_synced = session.blocks_synced + 1;
                        }
                        highest_pc = session.highest_pc.clone();
                        self.pending_sync = Some(session);
                    },
                }
                let ghost counted = session::client_now(acted, session::one_more_synced(acted.client));
                assert(self@ == counted.client);
                if let Some(pc) = highest_pc {
                    let is_correct = match pc.is_correct(block_tree) {
                        Ok(is_correct) => is_correct,
                        Err(_) => false,
                    };
                    if is_correct {
                        let is_safe = match safe_pc(&pc, block_tree, self.config.chain_id) {
                            Ok(is_safe) => is_safe,
                            Err(_) => false,
                        };
                        if is_safe {
                            self.act(&pc, block_tree, roles, Ghost(start), Ghost(counted));
                        }
                    }
                }
            },
            _ => {
                if should_blacklist {
                    let peer = match &self.pending_sync {
                        Some(session) => Some(session.peer),
                        None => None,
                    };
                    if let Some(peer) = peer {
                        self.blacklist_sync_server(peer, now);
                        self.end_session(
                            now,
                            block_tree,
                            Ghost(start),
                            Ghost(session::client_now(run, session::shunned(run.client, peer, now))),
                        );
                    }
                } else {
                    self.end_session(now, block_tree, Ghost(start), Ghost(run));
                }
            },
        }
    }

    /// Look at the next fetched block, up to where the application is to be asked.
    pub fn next_work(&mut self, now: u64, block_tree: &mut BlockTreeSingleton) -> (r: SyncWork)
        requires
            tree::initialized(old(block_tree)@),
        ensures
            r == session::block_taken_up(session::sync_begin(*old(self), *old(block_tree)), now).1,
            session::sync_reached(
                *old(block_tree),
                *final(self),
                *final(block_tree),
                session::block_taken_up(session::sync_begin(*old(self), *old(block_tree)), now).0,
            ),
            tree::initialized(final(block_tree)@),
    {
        proof {
            session::lemma_sync_begin(*self, *block_tree);
        }
        self.take_up(now, block_tree, Ghost(*block_tree), Ghost(session::sync_begin(*self, *block_tree)))
    }

    /// Take the application's verdict on a fetched block.
    pub fn settle_synced_block<R: Roles>(
        &mut self,
        block: &Block,
        response: ValidateBlockResponse,
        now: u64,
        block_tree: &mut BlockTreeSingleton,
        roles: &R,
    )
        requires
            tree::initialized(old(block_tree)@),
        ensures
            session::sync_reached(
                *old(block_tree),
                *final(self),
                *final(block_tree),
                session::fetched_settled(
                    session::sync_begin(*old(self), *old(block_tree)),
                    *roles,
                    *block,
                    response,
                    now,
                ),
            ),
            tree::initialized(final(block_tree)@),
    {
        proof {
            session::lemma_sync_begin(*self, *block_tree);
        }
        self.adopt(
            block,
            response,
            now,
            block_tree,
            roles,
            Ghost(*block_tree),
            Ghost(session::sync_begin(*self, *block_tree)),
        )
    }

    /// Look at one fetched block. The result says whether there was anything to do.
    pub fn process_pending_block<A: App, R: Roles>(
        &mut self,
        now: u64,
        block_tree: &mut BlockTreeSingleton,
        app: &mut A,
        roles: &R,
    ) -> (r: Result<bool, BlockSyncClientError>)
        requires
            tree::initialized(old(block_tree)@),
        ensures
            session::block_processed(
                session::sync_begin(*old(self), *old(block_tree)),
                *roles,
                now,
                *old(block_tree),
                *final(self),
                *final(block_tree),
                r,
            ),
            tree::initialized(final(block_tree)@),
    {
        let ghost start = *block_tree;
        let ghost run = session::sync_begin(*self, *block_tree);
        proof {
            session::lemma_sync_begin(*self, *block_tree);
        }
        match self.take_up(now, block_tree, Ghost(start), Ghost(run)) {
            SyncWork::Nothing => Ok(false),
            SyncWork::Handled => Ok(true),
            SyncWork::Refused(e) => Err(e),
            SyncWork::Validate(block) => {
                let response = match HotStuff::validation_request(&block, block_tree) {
                    Ok(request) => app.validate_block_for_sync(request),
                    Err(e) => {
                        return Err(BlockSyncClientError::from(e));
                    },
                };
                let ghost answer = response;
                let ghost taken = session::block_taken_up(run, now).0;
                self.adopt(&block, response, now, block_tree, roles, Ghost(start), Ghost(taken));
                assert(session::sync_reached(
                    start,
                    *self,
                    *block_tree,
                    session::fetched_settled(taken, *roles, block, answer, now),
                ));
                Ok(true)
            },
        }
    }

    /// Take an advertisement of a served height.
    fn on_receive_advertise_block(
        &mut self,
        advertise_block: AdvertiseBlock,
        origin: &VerifyingKey,
        block_tree: &BlockTreeSingleton,
    ) -> (r: Result<(), BlockSyncClientError>)
        requires
            tree::initialized(block_tree@),
        ensures
            r is Ok,
            final(self)@ == session::height_advertised(old(self)@, block_tree@, advertise_block, *origin),
    {
        if advertise_block.chain_id != self.config.chain_id || !advertise_block.is_correct(origin) {
            return Ok(());
        }
        match is_sync_server_address(origin, block_tree) {
            Ok(may_serve) => {
                if !may_serve {
                    return Ok(());
                }
            },
            Err(e) => {
                return Err(e);
            },
        }
        if self.state.blacklist_contains_server_address(origin) {
            return Ok(());
        }
        self.register_or_update_sync_server(
            *origin,
            advertise_block.highest_committed_block_height,
        );
        Ok(())
    }

    /// Take an advertisement of a certificate.
    fn on_receive_advertise_pc(
        &mut self,
        advertise_pc: AdvertisePC,
        origin: &VerifyingKey,
        now: u64,
        block_tree: &mut BlockTreeSingleton,
        Ghost(start): Ghost<BlockTreeSingleton>,
        Ghost(run): Ghost<SyncRun>,
    ) -> (r: (Result<(), BlockSyncClientError>, Ghost<SyncRun>))
        requires
            session::sync_reached(start, *old(self), *old(block_tree), run),
            tree::initialized(run.tree),
        ensures
            r.0 is Ok,
            session::sync_reached(start, *final(self), *final(block_tree), r.1@),
            if session::calls_for_sync(run, advertise_pc.highest_pc, *origin) {
                session::triggers_sync(run, now, r.1@)
            } else {
                r.1@ == run
            },
            tree::initialized(r.1@.tree),
    {
        let local_view = match block_tree.highest_pc() {
            Ok(pc) => pc.view,
            Err(e) => {
                return (Err(BlockSyncClientError::from(e)), Ghost(run));
            },
        };
        if self.state.blacklist_contains_server_address(origin) {
            return (Ok(()), Ghost(run));
        }
        let pc = advertise_pc.highest_pc;
        if pc.view.0 < local_view.0 {
            return (Ok(()), Ghost(run));
        }
        if self.pending_sync.is_some() {
            return (Ok(()), Ghost(run));
        }
        if pc.view.0 - local_view.0 < self.config.block_sync_trigger_min_view_difference {
            return (Ok(()), Ghost(run));
        }
        let is_correct = match pc.is_correct(block_tree) {
            Ok(is_correct) => is_correct,
            Err(e) => {
                return (Err(BlockSyncClientError::from(e)), Ghost(run));
            },
        };
        if !is_correct {
            return (Ok(()), Ghost(run));
        }
        self.trigger(now, block_tree, Ghost(start), Ghost(run))
    }

    /// Take an advertisement of a peer.
    pub fn on_receive_msg(
        &mut self,
        msg: BlockSyncAdvertiseMessage,
        origin: &VerifyingKey,
        now: u64,
        block_tree: &mut BlockTreeSingleton,
    ) -> (r: Result<(), BlockSyncClientError>)
        requires
            tree::initialized(old(block_tree)@),
        ensures
            r is Ok,
            exists|end: SyncRun| #[trigger]
                session::advertisement_received(
                    session::sync_begin(*old(self), *old(block_tree)),
                    msg,
                    *origin,
                    now,
                    end,
                ) && session::sync_reached(*old(block_tree), *final(self), *final(block_tree), end),
            tree::initialized(final(block_tree)@),
    {
        let ghost start = *block_tree;
        let ghost run = session::sync_begin(*self, *block_tree);
        proof {
            session::lemma_sync_begin(*self, *block_tree);
        }
        let ghost said = msg;
        match msg {
            BlockSyncAdvertiseMessage::AdvertiseBlock(advertise_block) => {
                let done = self.on_receive_advertise_block(advertise_block, origin, block_tree);
                assert(session::advertisement_received(
                    run,
                    said,
                    *origin,
                    now,
                    session::client_now(run, self@),
                ));
                assert(session::sync_reached(start, *self, *block_tree, session::client_now(run, self@)));
                done
            },
            BlockSyncAdvertiseMessage::AdvertisePC(advertise_pc) => {
                let (done, Ghost(end)) = self.on_receive_advertise_pc(
                    advertise_pc,
                    origin,
                    now,
                    block_tree,
                    Ghost(start),
                    Ghost(run),
                );
                assert(session::advertisement_received(run, said, *origin, now, end));
                done
            },
        }
    }
}

/// Whether a replica may serve blocks.
pub fn is_sync_server_address(
    verifying_key: &VerifyingKey,
    block_tree: &BlockTreeSingleton,
) -> (r: Result<bool, BlockSyncClientError>)
    requires
        tree::initialized(block_tree@),
    ensures
        r == Ok::<bool, BlockSyncClientError>(session::may_serve(block_tree@, *verifying_key)),
{
    let validators = match block_tree.committed_validator_set() {
        Ok(validators) => validators,
        Err(e) => {
            return Err(BlockSyncClientError::from(e));
        },
    };
    if validators.contains(verifying_key) {
        return Ok(true);
    }
    let committed = match block_tree.highest_committed_block() {
        Ok(committed) => committed,
        Err(e) => {
            return Err(BlockSyncClientError::from(e));
        },
    };
    let block = match committed {
        Some(block) => block,
        None => {
            return Ok(false);
        },
    };
    let branch = block_tree.blocks_in_branch(block);
    let mut i: usize = 0;
    while i < branch.len()
        invariant
            i <= branch@.len(),
            store::readable(block_tree@),
            branch@ == commit::branch_of(block_tree@, block),
            block_tree@.highest_committed_block == Some(block),
            forall|j: int|
                0 <= j < i ==> !session::makes_validator(
                    block_tree@,
                    #[trigger] branch@[j],
                    *verifying_key,
                ),
        decreases branch@.len() - i,
    {
        if let Ok(ValidatorSetUpdatesStatus::Pending(updates)) =
            block_tree.validator_set_updates_status(&branch[i]) {
            if updates.get_insert(verifying_key).is_some() {
                assert(commit::branch_of(block_tree@, block)[i as int] == branch@[i as int]);
                assert(session::makes_validator(block_tree@, branch@[i as int], *verifying_key));
                return Ok(true);
            }
        }
        i = i + 1;
    }
    Ok(false)
}

} // verus!
