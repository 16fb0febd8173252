//! The sync client: when it starts a session, where it fetches from, and whom it shuns.

use hotstuff_rs::app::{
    App, ProduceBlockRequest, ProduceBlockResponse, ValidateBlockRequest, ValidateBlockResponse,
};
use hotstuff_rs::block_sync::client::is_sync_server_address;
use hotstuff_rs::block_sync::messages::{BlockSyncAdvertiseMessage, BlockSyncResponse};
use hotstuff_rs::block_sync::policy::{
    conflicts_with_committed, futile_backoff_multiplier, no_server_retry_due, refetch_would_repeat,
    scan_first_gap, select_start_height, warrants_blacklist, GapScan, RequestOutcome,
};
use hotstuff_rs::block_sync::session::{
    BlockSyncClient, BlockSyncClientConfiguration, BlockSyncClientError, PendingSyncSession,
    SyncWork, WorkerPoll, BACKFILL_RETRY_INTERVAL, MAX_SYNC_ITERATIONS, NO_SERVER_RETRY_INTERVAL,
};
use hotstuff_rs::block_sync::worker::{SyncCommand, SyncResult};
use hotstuff_rs::block_tree::store::Store;
use hotstuff_rs::block_tree::tree::BlockTreeSingleton;
use hotstuff_rs::block_tree::write_batch::BlockTreeWriteBatch;
use hotstuff_rs::effects::Effect;
use hotstuff_rs::events::Event;
use hotstuff_rs::hotstuff::messages::PhaseVote;
use hotstuff_rs::hotstuff::types::{Phase, PhaseCertificate};
use hotstuff_rs::networking::receiving::BlockSyncResponseReceiveError;
use hotstuff_rs::roles::RoundRobin;
use hotstuff_rs::types::block::Block;
use hotstuff_rs::types::crypto_primitives::{Keypair, SigningKey};
use hotstuff_rs::types::data_types::{
    BlockHeight, ChainID, CryptoHash, Data, Power, SignatureSet, VerifyingKey, ViewNumber,
};
use hotstuff_rs::types::update_sets::AppStateUpdates;
use hotstuff_rs::types::validator_set::{ValidatorSet, ValidatorSetState, ValidatorSetUpdates};

const CHAIN_ID: ChainID = ChainID(0);

fn keypair(seed: u8) -> Keypair {
    Keypair::new(SigningKey::from_bytes(&[seed; 32]))
}

fn key(seed: u8) -> VerifyingKey {
    SigningKey::from_bytes(&[seed; 32]).verifying_key()
}

fn validator_set() -> ValidatorSet {
    let mut vs = ValidatorSet::new();
    vs.put(&key(1), Power::new(1));
    vs
}

fn fresh_tree() -> BlockTreeSingleton {
    let set = validator_set();
    let vss = ValidatorSetState::new(set.clone(), set, None, true);
    let mut block_tree = BlockTreeSingleton::new(Store::new());
    block_tree.initialize(&AppStateUpdates::new(), &vss).expect("block tree init");
    let _ = block_tree.take_journal();
    block_tree
}

fn client() -> BlockSyncClient {
    BlockSyncClient::new(
        BlockSyncClientConfiguration {
            chain_id: CHAIN_ID,
            request_limit: 32,
            response_timeout: 1_000,
            blacklist_expiry_time: 1_000,
            block_sync_trigger_min_view_difference: 2,
            block_sync_trigger_timeout: 60_000,
        },
        0,
    )
}

fn session(peer: VerifyingKey, blocks: Vec<Block>) -> PendingSyncSession {
    PendingSyncSession {
        peer,
        pending_blocks: blocks,
        highest_pc: None,
        blocks_synced: 0,
        init_height: BlockHeight::new(0),
        fetch_iterations: 1,
        session_start: 0,
        awaiting_fetch: false,
        last_fetch_start_height: None,
        is_backfill: false,
    }
}

fn block(height: u64, seed: u8) -> Block {
    Block::new(
        BlockHeight::new(height),
        PhaseCertificate::genesis_pc(),
        CryptoHash::new([seed; 32]),
        Data::new(vec![]),
    )
}

/// A certificate that the only validator signed.
fn certificate(view: u64, block: CryptoHash) -> PhaseCertificate {
    let vote =
        PhaseVote::new(&keypair(1), CHAIN_ID, ViewNumber::new(view), block, Phase::Generic);
    let mut signatures = SignatureSet::new(1);
    signatures.set(0, Some(vote.signature));
    PhaseCertificate {
        chain_id: CHAIN_ID,
        view: ViewNumber::new(view),
        block,
        phase: Phase::Generic,
        signatures,
    }
}

/// The fetches among what the tree was told to do.
fn fetches(block_tree: &mut BlockTreeSingleton) -> Vec<SyncCommand> {
    let mut found = Vec::new();
    for effect in block_tree.take_journal() {
        if let Effect::FetchBlocks(command) = effect {
            found.push(command);
        }
    }
    found
}

/// Says one thing of every fetched block.
struct FixedApp {
    verdict: ValidateBlockResponse,
    asked: u32,
}

impl FixedApp {
    fn new(verdict: ValidateBlockResponse) -> FixedApp {
        FixedApp { verdict, asked: 0 }
    }

    fn accepting() -> FixedApp {
        FixedApp::new(ValidateBlockResponse::Valid {
            app_state_updates: None,
            validator_set_updates: None,
        })
    }
}

impl App for FixedApp {
    fn produce_block(&mut self, _request: ProduceBlockRequest<'_>) -> ProduceBlockResponse {
        unreachable!("a sync client never produces")
    }

    fn validate_block(&mut self, _request: ValidateBlockRequest<'_>) -> ValidateBlockResponse {
        unreachable!("fetched blocks are validated for sync")
    }

    fn validate_block_for_sync(
        &mut self,
        _request: ValidateBlockRequest<'_>,
    ) -> ValidateBlockResponse {
        self.asked += 1;
        match &self.verdict {
            ValidateBlockResponse::Valid { app_state_updates, validator_set_updates } => {
                ValidateBlockResponse::Valid {
                    app_state_updates: app_state_updates.clone(),
                    validator_set_updates: validator_set_updates.clone(),
                }
            }
            ValidateBlockResponse::Invalid => ValidateBlockResponse::Invalid,
            ValidateBlockResponse::MissingData => ValidateBlockResponse::MissingData,
        }
    }
}

#[test]
fn repeat_fetch_ends_session() {
    assert!(!refetch_would_repeat(None, 25813));
    assert!(!refetch_would_repeat(Some(25813), 25941));
    assert!(refetch_would_repeat(Some(25813), 25813));
}

#[test]
fn futile_sessions_back_off_capped() {
    assert_eq!(futile_backoff_multiplier(0), 1, "healthy: base trigger");
    assert_eq!(futile_backoff_multiplier(1), 2);
    assert_eq!(futile_backoff_multiplier(2), 4);
    assert_eq!(futile_backoff_multiplier(3), 8);
    assert_eq!(futile_backoff_multiplier(10), 8, "capped");
    assert_eq!(futile_backoff_multiplier(u32::MAX), 8, "no shift overflow");
}

#[test]
fn conflict_criterion_is_conflict_with_committed_not_extension() {
    let synced = CryptoHash::new([7u8; 32]);
    assert!(!conflicts_with_committed(None, synced), "catching up is no conflict");
    assert!(!conflicts_with_committed(Some(synced), synced), "a duplicate is no conflict");
    let other = CryptoHash::new([8u8; 32]);
    assert!(conflicts_with_committed(Some(other), synced));
}

#[test]
fn scan_finds_lowest_hole_below_frontier() {
    let present = |h: u64| !(180..=238).contains(&h);
    assert_eq!(
        scan_first_gap(0, 179, present),
        GapScan { first_gap: None, contiguous_through: Some(179) }
    );
    assert_eq!(
        scan_first_gap(0, 239, present),
        GapScan { first_gap: Some(180), contiguous_through: Some(179) }
    );
    assert_eq!(
        scan_first_gap(0, 179, |_h| true),
        GapScan { first_gap: None, contiguous_through: Some(179) }
    );
}

#[test]
fn scan_respects_floor_and_cursor() {
    let present = |h: u64| h >= 100;
    assert_eq!(
        scan_first_gap(150, 200, present),
        GapScan { first_gap: None, contiguous_through: Some(200) }
    );
    assert_eq!(
        scan_first_gap(201, 200, present),
        GapScan { first_gap: None, contiguous_through: None }
    );
}

#[test]
fn start_height_prefers_the_hole_then_the_tip() {
    assert_eq!(select_start_height(Some(239), Some(180)), (180, true));
    assert_eq!(select_start_height(Some(179), None), (180, false));
    assert_eq!(select_start_height(None, None), (0, false));
    let (start, is_backfill) = select_start_height(Some(239), Some(180));
    assert!(is_backfill);
    assert_eq!(start - 1, 179, "the parent of the first block is committed");
}

#[test]
fn no_server_retry_fires_after_the_short_interval() {
    let now: u64 = 1_000_000;
    assert!(!no_server_retry_due(None, now));
    let retry_at = now + 2_000;
    assert!(!no_server_retry_due(Some(retry_at), now));
    assert!(no_server_retry_due(Some(retry_at), retry_at));
    assert!(no_server_retry_due(Some(retry_at), retry_at + 1));
}

#[test]
fn missing_body_does_not_blacklist() {
    assert!(!warrants_blacklist(&ValidateBlockResponse::MissingData));
    assert!(!warrants_blacklist(&ValidateBlockResponse::Valid {
        app_state_updates: None,
        validator_set_updates: None,
    }));
    assert!(warrants_blacklist(&ValidateBlockResponse::Invalid));
}

#[test]
fn committed_conflict_invokes_fatal_callback() {
    let mut block_tree = fresh_tree();
    let committed_hash = CryptoHash::new([99u8; 32]);
    let mut wb = BlockTreeWriteBatch::new();
    wb.set_block_at_height(BlockHeight::new(5), &committed_hash).expect("seed");
    block_tree.write(wb);
    let _ = block_tree.take_journal();

    let synced = Block::new(
        BlockHeight::new(5),
        PhaseCertificate::genesis_pc(),
        CryptoHash::new([7u8; 32]),
        Data::new(vec![]),
    );
    let synced_hash = synced.hash;
    assert_ne!(synced_hash, committed_hash);

    let mut cli = client();
    cli.pending_sync = Some(PendingSyncSession {
        init_height: BlockHeight::new(5),
        ..session(key(1), vec![synced])
    });

    let mut app = FixedApp::accepting();
    let result = cli.process_pending_block(10, &mut block_tree, &mut app, &RoundRobin);
    assert_eq!(
        result,
        Err(BlockSyncClientError::ConflictingCommittedChain {
            height: BlockHeight::new(5),
            local: Some(committed_hash),
            synced: synced_hash,
        })
    );
    assert_eq!(app.asked, 0, "the application is not asked about a conflicting block");
    let journal = block_tree.take_journal();
    assert!(journal.contains(&Effect::FatalSafetyViolation));
    assert!(!cli.has_pending_sync(), "the session is over");
    assert!(!block_tree.contains(&synced_hash), "the block is refused");
}

#[test]
fn no_server_trigger_does_not_go_silent() {
    let mut block_tree = fresh_tree();
    let mut cli = client();
    let outcome = cli.request_sync(500, &mut block_tree).expect("no error on an empty server set");
    assert_eq!(outcome, RequestOutcome::NoServer);
    assert!(cli.pending_sync.is_none());
    assert_eq!(cli.state.no_server_retry_at, Some(500 + NO_SERVER_RETRY_INTERVAL));
}

#[test]
fn compute_sync_start_targets_interior_hole() {
    let mut block_tree = fresh_tree();
    let mut wb = BlockTreeWriteBatch::new();
    let mut top_hash = CryptoHash::new([0u8; 32]);
    for h in 0u64..=9 {
        if h == 6 {
            continue;
        }
        let block = block(h, h as u8);
        wb.set_block(&block).expect("seed block");
        wb.set_block_at_height(BlockHeight::new(h), &block.hash).expect("seed height");
        if h == 9 {
            top_hash = block.hash;
        }
    }
    wb.set_highest_committed_block(&top_hash).expect("seed frontier");
    block_tree.write(wb);

    let mut cli = client();
    let (start, is_backfill) = cli.compute_sync_start(&block_tree).expect("start");
    assert_eq!(start.value(), 6);
    assert!(is_backfill);
    assert_eq!(cli.state.backfill_contiguous_through, Some(BlockHeight::new(5)));
}

#[test]
fn pruned_heights_are_no_holes() {
    let mut block_tree = fresh_tree();
    let top = block(9, 9);
    let mut wb = BlockTreeWriteBatch::new();
    wb.set_block(&top).expect("seed block");
    wb.set_block_at_height(BlockHeight::new(9), &top.hash).expect("seed height");
    wb.set_highest_committed_block(&top.hash).expect("seed frontier");
    wb.set_block_tree_pruned_height(BlockHeight::new(8)).expect("seed floor");
    block_tree.write(wb);

    let mut cli = client();
    assert_eq!(cli.compute_sync_start(&block_tree), Ok((BlockHeight::new(10), false)));
    // A cursor below the floor does not bring the pruned heights back.
    cli.state.backfill_contiguous_through = Some(BlockHeight::new(3));
    assert_eq!(cli.compute_sync_start(&block_tree), Ok((BlockHeight::new(10), false)));
}

#[test]
fn a_session_fetches_from_a_server_that_is_ahead() {
    let mut block_tree = fresh_tree();
    let mut cli = client();
    cli.register_or_update_sync_server(key(1), BlockHeight::new(4));
    assert_eq!(cli.request_sync(7, &mut block_tree), Ok(RequestOutcome::Started));
    assert!(cli.has_pending_sync());
    let journal = block_tree.take_journal();
    assert!(journal.contains(&Effect::Publish(Event::StartSync { peer: key(1) })));
    assert!(journal.contains(&Effect::FetchBlocks(SyncCommand::Fetch {
        peer: key(1),
        chain_id: CHAIN_ID,
        start_height: BlockHeight::new(0),
        limit: 32,
    })));
    assert_eq!(cli.request_sync(8, &mut block_tree), Ok(RequestOutcome::AlreadyPending));
}

#[test]
fn only_servers_that_reach_the_frontier_are_chosen() {
    let mut cli = client();
    assert_eq!(cli.state.random_sync_server(&None), None);
    cli.register_or_update_sync_server(key(2), BlockHeight::new(3));
    cli.register_or_update_sync_server(key(3), BlockHeight::new(8));
    for _ in 0..32 {
        assert_eq!(cli.state.random_sync_server(&Some(BlockHeight::new(8))), Some(key(3)));
        let any = cli.state.random_sync_server(&None);
        assert!(any == Some(key(2)) || any == Some(key(3)));
    }
    assert_eq!(cli.state.random_sync_server(&Some(BlockHeight::new(9))), None);
}

#[test]
fn a_server_is_known_by_its_newest_height() {
    let mut cli = client();
    cli.register_or_update_sync_server(key(2), BlockHeight::new(3));
    cli.register_or_update_sync_server(key(2), BlockHeight::new(5));
    assert_eq!(cli.state.available_sync_servers.len(), 1);
    assert_eq!(cli.state.available_sync_servers[0].height, BlockHeight::new(5));
}

#[test]
fn shunned_servers_are_forgiven_in_time() {
    let mut cli = client();
    cli.register_or_update_sync_server(key(2), BlockHeight::new(3));
    cli.blacklist_sync_server(key(2), 100);
    assert!(cli.state.blacklist_contains_server_address(&key(2)));
    assert!(cli.state.available_sync_servers.is_empty());
    cli.remove_expired_blacklisted_servers(1_099);
    assert!(cli.state.blacklist_contains_server_address(&key(2)));
    cli.remove_expired_blacklisted_servers(1_100);
    assert!(!cli.state.blacklist_contains_server_address(&key(2)));
}

#[test]
fn a_block_with_a_wrong_hash_speaks_against_the_peer() {
    let mut block_tree = fresh_tree();
    let mut cli = client();
    let mut wrong = block(0, 1);
    wrong.hash = CryptoHash::new([42u8; 32]);
    cli.pending_sync = Some(session(key(1), vec![wrong]));
    let mut app = FixedApp::accepting();
    assert_eq!(
        cli.process_pending_block(5, &mut block_tree, &mut app, &RoundRobin),
        Ok(true)
    );
    assert_eq!(app.asked, 0);
    assert!(cli.state.blacklist_contains_server_address(&key(1)));
    assert!(!cli.has_pending_sync());
}

#[test]
fn an_invalid_block_speaks_against_the_peer() {
    let mut block_tree = fresh_tree();
    let mut cli = client();
    cli.pending_sync = Some(session(key(1), vec![block(0, 1)]));
    let mut app = FixedApp::new(ValidateBlockResponse::Invalid);
    assert_eq!(
        cli.process_pending_block(5, &mut block_tree, &mut app, &RoundRobin),
        Ok(true)
    );
    assert!(cli.state.blacklist_contains_server_address(&key(1)));
    assert!(!cli.has_pending_sync());
    assert_eq!(cli.state.consecutive_futile_sessions, 1);
}

#[test]
fn missing_data_ends_the_session_and_shuns_nobody() {
    let mut block_tree = fresh_tree();
    let mut cli = client();
    cli.pending_sync = Some(session(key(1), vec![block(0, 1)]));
    let mut app = FixedApp::new(ValidateBlockResponse::MissingData);
    assert_eq!(
        cli.process_pending_block(5, &mut block_tree, &mut app, &RoundRobin),
        Ok(true)
    );
    assert!(!cli.state.blacklist_contains_server_address(&key(1)));
    assert!(!cli.has_pending_sync());
}

#[test]
fn fetched_blocks_are_inserted_in_turn() {
    let mut block_tree = fresh_tree();
    let mut cli = client();
    let first = block(0, 1);
    let second = Block::new(
        BlockHeight::new(1),
        certificate(1, first.hash),
        CryptoHash::new([2u8; 32]),
        Data::new(vec![]),
    );
    let third = Block::new(
        BlockHeight::new(2),
        certificate(2, second.hash),
        CryptoHash::new([3u8; 32]),
        Data::new(vec![]),
    );
    cli.pending_sync = Some(session(key(1), vec![first.clone(), second.clone(), third.clone()]));
    let mut app = FixedApp::accepting();
    for _ in 0..3 {
        assert_eq!(
            cli.process_pending_block(5, &mut block_tree, &mut app, &RoundRobin),
            Ok(true)
        );
    }
    assert_eq!(app.asked, 3);
    assert!(block_tree.contains(&first.hash));
    assert!(block_tree.contains(&second.hash));
    assert!(block_tree.contains(&third.hash));
    assert_eq!(block_tree.highest_committed_block(), Ok(Some(first.hash)));
    let synced = cli.pending_sync.as_ref().expect("the session goes on").blocks_synced;
    assert_eq!(synced, 3);

    // The batch is used up: the next one starts above what is committed.
    let _ = block_tree.take_journal();
    assert_eq!(
        cli.process_pending_block(6, &mut block_tree, &mut app, &RoundRobin),
        Ok(false)
    );
    assert_eq!(
        fetches(&mut block_tree),
        vec![SyncCommand::Fetch {
            peer: key(1),
            chain_id: CHAIN_ID,
            start_height: BlockHeight::new(1),
            limit: 32,
        }]
    );
}

#[test]
fn a_session_that_would_fetch_the_same_again_ends() {
    let mut block_tree = fresh_tree();
    let mut cli = client();
    cli.pending_sync = Some(PendingSyncSession {
        last_fetch_start_height: Some(BlockHeight::new(0)),
        ..session(key(1), vec![])
    });
    let work = cli.next_work(5, &mut block_tree);
    assert!(matches!(work, SyncWork::Nothing));
    assert!(!cli.has_pending_sync());
    assert!(fetches(&mut block_tree).is_empty());
}

#[test]
fn a_session_ends_after_its_time_or_its_batches() {
    let mut block_tree = fresh_tree();
    let mut cli = client();
    cli.pending_sync = Some(session(key(1), vec![]));
    let _ = cli.next_work(30_000, &mut block_tree);
    assert!(!cli.has_pending_sync(), "out of time");

    cli.pending_sync = Some(PendingSyncSession {
        fetch_iterations: MAX_SYNC_ITERATIONS,
        ..session(key(1), vec![])
    });
    let _ = cli.next_work(5, &mut block_tree);
    assert!(!cli.has_pending_sync(), "out of batches");
}

#[test]
fn what_the_worker_reports_is_taken_up() {
    let mut block_tree = fresh_tree();
    let mut cli = client();
    cli.pending_sync =
        Some(PendingSyncSession { awaiting_fetch: true, ..session(key(1), vec![]) });
    cli.poll_worker_results(WorkerPoll::Nothing, 5, &mut block_tree);
    assert!(cli.pending_sync.as_ref().expect("waiting").awaiting_fetch);

    // Blocks of another peer are not taken.
    cli.poll_worker_results(
        WorkerPoll::Report(SyncResult::Blocks {
            peer: key(9),
            blocks: vec![block(0, 1)],
            highest_pc: PhaseCertificate::genesis_pc(),
        }),
        5,
        &mut block_tree,
    );
    assert!(cli.pending_sync.as_ref().expect("waiting").awaiting_fetch);

    cli.poll_worker_results(
        WorkerPoll::Report(SyncResult::Blocks {
            peer: key(1),
            blocks: vec![block(0, 1)],
            highest_pc: PhaseCertificate::genesis_pc(),
        }),
        5,
        &mut block_tree,
    );
    let taken = cli.pending_sync.as_ref().expect("going on");
    assert!(!taken.awaiting_fetch);
    assert_eq!(taken.pending_blocks, vec![block(0, 1)]);
    assert_eq!(taken.highest_pc, Some(PhaseCertificate::genesis_pc()));
}

#[test]
fn a_peer_that_falls_short_is_shunned_unless_it_fills_a_gap() {
    let mut block_tree = fresh_tree();
    let mut cli = client();
    cli.register_or_update_sync_server(key(1), BlockHeight::new(9));
    cli.pending_sync =
        Some(PendingSyncSession { awaiting_fetch: true, ..session(key(1), vec![]) });
    cli.poll_worker_results(
        WorkerPoll::Report(SyncResult::Empty { peer: key(1) }),
        5,
        &mut block_tree,
    );
    assert!(cli.state.blacklist_contains_server_address(&key(1)));

    let mut cli = client();
    cli.register_or_update_sync_server(key(1), BlockHeight::new(9));
    cli.pending_sync = Some(PendingSyncSession {
        awaiting_fetch: true,
        is_backfill: true,
        ..session(key(1), vec![])
    });
    cli.poll_worker_results(
        WorkerPoll::Report(SyncResult::Error { peer: key(1) }),
        5,
        &mut block_tree,
    );
    assert!(!cli.state.blacklist_contains_server_address(&key(1)));
    assert!(!cli.has_pending_sync());
    assert_eq!(cli.state.consecutive_no_progress_backfill, 1);
    assert_eq!(cli.state.next_backfill_attempt_at, Some(5 + BACKFILL_RETRY_INTERVAL));
}

#[test]
fn a_lost_worker_ends_the_session() {
    let mut block_tree = fresh_tree();
    let mut cli = client();
    cli.pending_sync =
        Some(PendingSyncSession { awaiting_fetch: true, ..session(key(1), vec![]) });
    cli.poll_worker_results(WorkerPoll::Disconnected, 5, &mut block_tree);
    assert!(!cli.has_pending_sync());
    assert!(!cli.state.blacklist_contains_server_address(&key(1)));
}

#[test]
fn time_without_progress_starts_a_session() {
    let mut block_tree = fresh_tree();
    let mut cli = client();
    cli.register_or_update_sync_server(key(1), BlockHeight::new(4));
    cli.tick(59_999, &mut block_tree).expect("tick");
    assert!(!cli.has_pending_sync());
    cli.tick(60_000, &mut block_tree).expect("tick");
    assert!(cli.has_pending_sync());
    assert_eq!(cli.state.last_progress_or_sync_time, 60_000);
}

#[test]
fn futile_sessions_put_the_next_one_off() {
    let mut block_tree = fresh_tree();
    let mut cli = client();
    cli.register_or_update_sync_server(key(1), BlockHeight::new(4));
    cli.state.consecutive_futile_sessions = 1;
    cli.tick(119_999, &mut block_tree).expect("tick");
    assert!(!cli.has_pending_sync());
    cli.tick(120_000, &mut block_tree).expect("tick");
    assert!(cli.has_pending_sync());
}

#[test]
fn a_search_for_a_server_is_repeated_soon() {
    let mut block_tree = fresh_tree();
    let mut cli = client();
    cli.trigger_sync(100, &mut block_tree).expect("trigger");
    assert!(!cli.has_pending_sync());
    cli.register_or_update_sync_server(key(1), BlockHeight::new(4));
    cli.tick(2_099, &mut block_tree).expect("tick");
    assert!(!cli.has_pending_sync());
    cli.tick(2_100, &mut block_tree).expect("tick");
    assert!(cli.has_pending_sync());
}

#[test]
fn validators_that_advertise_become_servers() {
    let mut block_tree = fresh_tree();
    let mut cli = client();
    let advertisement =
        BlockSyncAdvertiseMessage::advertise_block(&keypair(1), CHAIN_ID, BlockHeight::new(6));
    cli.on_receive_msg(advertisement, &key(1), 5, &mut block_tree).expect("advertisement");
    assert_eq!(cli.state.available_sync_servers.len(), 1);
    assert_eq!(cli.state.available_sync_servers[0].height, BlockHeight::new(6));

    // A replica that is no validator does not become one.
    let stranger =
        BlockSyncAdvertiseMessage::advertise_block(&keypair(2), CHAIN_ID, BlockHeight::new(6));
    cli.on_receive_msg(stranger, &key(2), 5, &mut block_tree).expect("advertisement");
    assert_eq!(cli.state.available_sync_servers.len(), 1);

    // Nor does one whose signature is someone else's, or that speaks of another chain.
    let mut cli = client();
    let forged =
        BlockSyncAdvertiseMessage::advertise_block(&keypair(2), CHAIN_ID, BlockHeight::new(6));
    cli.on_receive_msg(forged, &key(1), 5, &mut block_tree).expect("advertisement");
    let foreign =
        BlockSyncAdvertiseMessage::advertise_block(&keypair(1), ChainID(7), BlockHeight::new(6));
    cli.on_receive_msg(foreign, &key(1), 5, &mut block_tree).expect("advertisement");
    assert!(cli.state.available_sync_servers.is_empty());

    // Nor a shunned one.
    cli.blacklist_sync_server(key(1), 5);
    let late =
        BlockSyncAdvertiseMessage::advertise_block(&keypair(1), CHAIN_ID, BlockHeight::new(6));
    cli.on_receive_msg(late, &key(1), 5, &mut block_tree).expect("advertisement");
    assert!(cli.state.available_sync_servers.is_empty());
}

#[test]
fn a_certificate_far_ahead_starts_a_session() {
    let mut block_tree = fresh_tree();
    let mut cli = client();
    cli.register_or_update_sync_server(key(1), BlockHeight::new(6));
    let near = BlockSyncAdvertiseMessage::advertise_pc(certificate(1, CryptoHash::new([5u8; 32])));
    cli.on_receive_msg(near, &key(1), 5, &mut block_tree).expect("advertisement");
    assert!(!cli.has_pending_sync());

    // One that is far ahead but not signed is not believed.
    let mut unsigned = certificate(2, CryptoHash::new([5u8; 32]));
    unsigned.signatures = SignatureSet::new(1);
    let unsigned = BlockSyncAdvertiseMessage::advertise_pc(unsigned);
    cli.on_receive_msg(unsigned, &key(1), 5, &mut block_tree).expect("advertisement");
    assert!(!cli.has_pending_sync());

    let far = BlockSyncAdvertiseMessage::advertise_pc(certificate(2, CryptoHash::new([5u8; 32])));
    cli.on_receive_msg(far, &key(1), 5, &mut block_tree).expect("advertisement");
    assert!(cli.has_pending_sync());
}

#[test]
fn validators_to_be_may_serve() {
    let mut block_tree = fresh_tree();
    assert_eq!(is_sync_server_address(&key(1), &block_tree), Ok(true));
    assert_eq!(is_sync_server_address(&key(2), &block_tree), Ok(false));

    let first = block(0, 1);
    block_tree.insert(&first, None, None).expect("insert");
    let mut wb = BlockTreeWriteBatch::new();
    block_tree.commit(&mut wb, &first.hash).expect("commit");
    block_tree.write(wb);
    let mut updates = ValidatorSetUpdates::new();
    updates.insert(key(2), Power::new(1));
    let second = Block::new(
        BlockHeight::new(1),
        certificate(1, first.hash),
        CryptoHash::new([2u8; 32]),
        Data::new(vec![]),
    );
    block_tree.insert(&second, None, Some(&updates)).expect("insert");
    assert_eq!(is_sync_server_address(&key(2), &block_tree), Ok(true));
    assert_eq!(is_sync_server_address(&key(3), &block_tree), Ok(false));
}

#[test]
fn the_worker_reports_what_came_of_a_request() {
    let command = SyncCommand::Fetch {
        peer: key(1),
        chain_id: CHAIN_ID,
        start_height: BlockHeight::new(4),
        limit: 3,
    };
    let (peer, request) = command.request();
    assert_eq!(peer, key(1));
    assert_eq!(request.start_height, BlockHeight::new(4));
    assert_eq!(request.limit, 3);

    let empty = SyncResult::of_response(
        key(1),
        Ok(BlockSyncResponse { blocks: vec![], highest_pc: PhaseCertificate::genesis_pc() }),
    );
    assert!(matches!(empty, SyncResult::Empty { .. }));
    let full = SyncResult::of_response(
        key(1),
        Ok(BlockSyncResponse {
            blocks: vec![block(0, 1)],
            highest_pc: PhaseCertificate::genesis_pc(),
        }),
    );
    assert!(matches!(full, SyncResult::Blocks { .. }));
    let failed = SyncResult::of_response(key(1), Err(BlockSyncResponseReceiveError::Timeout));
    assert!(matches!(failed, SyncResult::Error { .. }));
}
