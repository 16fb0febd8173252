//! The turns of the main loop.

use std::collections::VecDeque;

use hotstuff_rs::algorithm::{
    body_before_expiry_enabled, initial_view, Algorithm, Receive, TurnInput, BUSY_RECEIVE_WAIT,
};
use hotstuff_rs::app::{
    App, ProduceBlockRequest, ProduceBlockResponse, ValidateBlockRequest, ValidateBlockResponse,
};
use hotstuff_rs::block_sync::messages::BlockSyncAdvertiseMessage;
use hotstuff_rs::block_sync::session::{BlockSyncClientConfiguration, WorkerPoll};
use hotstuff_rs::block_tree::store::Store;
use hotstuff_rs::block_tree::tree::BlockTreeSingleton;
use hotstuff_rs::block_tree::write_batch::BlockTreeWriteBatch;
use hotstuff_rs::codec::encode_vote_message;
use hotstuff_rs::effects::Effect;
use hotstuff_rs::hotstuff::fetching::MAX_BODY_RETRIES;
use hotstuff_rs::hotstuff::messages::{
    BlockDataRequest, BlockDataResponse, HotStuffMessage, ProposalHeader,
};
use hotstuff_rs::hotstuff::state::HotStuffConfiguration;
use hotstuff_rs::hotstuff::types::{Phase, PhaseCertificate};
use hotstuff_rs::networking::messages::ProgressMessage;
use hotstuff_rs::networking::receiving::{
    BeforeRetryAction, ProgressMessageStub, MAX_BEFORE_RETRY_ENVELOPES,
};
use hotstuff_rs::pacemaker::{PacemakerMessage, ProgressCertificate, ViewInfo};
use hotstuff_rs::roles::{Roles, RoundRobin};
use hotstuff_rs::types::block::Block;
use hotstuff_rs::types::crypto_primitives::{Keypair, SigningKey};
use hotstuff_rs::types::data_types::{
    BlockHeight, BufferSize, ChainID, CryptoHash, Data, Power, SignatureSet, VerifyingKey,
    ViewNumber,
};
use hotstuff_rs::types::update_sets::AppStateUpdates;
use hotstuff_rs::types::validator_set::{ValidatorSet, ValidatorSetState};

const CHAIN_ID: ChainID = ChainID(0);

/// The time of the step under test.
const NOW: u64 = 100_000;

struct CountingApp {
    calls: usize,
    valid: bool,
}

impl App for CountingApp {
    fn produce_block(&mut self, _request: ProduceBlockRequest<'_>) -> ProduceBlockResponse {
        panic!("no proposal is produced here")
    }

    fn validate_block(&mut self, _request: ValidateBlockRequest<'_>) -> ValidateBlockResponse {
        self.calls += 1;
        if self.valid {
            ValidateBlockResponse::Valid { app_state_updates: None, validator_set_updates: None }
        } else {
            ValidateBlockResponse::Invalid
        }
    }

    fn validate_block_for_sync(
        &mut self,
        _request: ValidateBlockRequest<'_>,
    ) -> ValidateBlockResponse {
        panic!("an ordinary body is validated in the ordinary way")
    }
}

fn signing_keys(seeds: &[u8]) -> Vec<SigningKey> {
    seeds.iter().map(|s| SigningKey::from_bytes(&[*s; 32])).collect()
}

fn validator_set(keys: &[SigningKey]) -> ValidatorSet {
    let mut vs = ValidatorSet::new();
    for k in keys {
        vs.put(&k.verifying_key(), Power::new(1));
    }
    vs
}

fn generic_pc(
    view: ViewNumber,
    block: CryptoHash,
    signers: &[SigningKey],
    set: &ValidatorSet,
) -> PhaseCertificate {
    let message = encode_vote_message(CHAIN_ID, view, &block, Phase::Generic);
    let mut signatures = SignatureSet::new(set.len());
    for sk in signers {
        let pos = set.position(&sk.verifying_key()).expect("signer belongs to the set");
        signatures.set(pos, Some(Keypair::new(*sk).sign(&message)));
    }
    PhaseCertificate { chain_id: CHAIN_ID, view, block, phase: Phase::Generic, signatures }
}

fn proposer_for(
    view: ViewNumber,
    keys: &[SigningKey],
    block_tree: &BlockTreeSingleton,
) -> VerifyingKey {
    let reputation = block_tree.leader_reputation().expect("reputation");
    let vss = block_tree.validator_set_state().expect("validators");
    keys.iter()
        .map(|k| k.verifying_key())
        .find(|vk| RoundRobin.is_proposer_with_reputation(vk, view, &vss, &reputation))
        .expect("one of the validators proposes")
}

fn header(body: &Block, view: ViewNumber) -> ProposalHeader {
    ProposalHeader {
        chain_id: CHAIN_ID,
        view,
        block_hash: body.hash,
        height: body.height,
        data_hash: body.data_hash,
        justify: body.justify.clone(),
        tc: None,
        nec: None,
        has_validator_set_updates: false,
    }
}

fn tree_of(keys: &[SigningKey]) -> BlockTreeSingleton {
    let set = validator_set(keys);
    let vss = ValidatorSetState::new(set.clone(), set, None, true);
    let mut tree = BlockTreeSingleton::new(Store::new());
    tree.initialize(&AppStateUpdates::new(), &vss).expect("block tree initialization");
    let _ = tree.take_journal();
    tree
}

struct Fixture {
    algorithm: Algorithm,
    app: CountingApp,
    messages: VecDeque<(VerifyingKey, ProgressMessage)>,
    origin: VerifyingKey,
    body: Block,
}

fn fixture() -> Fixture {
    let keys = signing_keys(&[1, 2, 3, 4]);
    let tree = tree_of(&keys);
    let view = ViewNumber::new(1);
    let origin = proposer_for(view, &keys, &tree);
    let mut algorithm = Algorithm::new(
        CHAIN_ID,
        HotStuffConfiguration { chain_id: CHAIN_ID, keypair: Keypair::new(keys[0]) },
        BlockSyncClientConfiguration {
            chain_id: CHAIN_ID,
            request_limit: 32,
            response_timeout: 1_000,
            blacklist_expiry_time: 60_000,
            block_sync_trigger_min_view_difference: 10,
            block_sync_trigger_timeout: 60_000,
        },
        tree,
        BufferSize::new(1_000_000),
        ViewInfo::new(view, NOW + 3_600_000),
        NOW,
    )
    .expect("a tree that is initialized");
    // A server is known, so a session can be seen to start.
    let _ = algorithm.dispatch(
        keys[1].verifying_key(),
        ProgressMessage::BlockSyncAdvertiseMessage(BlockSyncAdvertiseMessage::advertise_block(
            &Keypair::new(keys[1]),
            CHAIN_ID,
            BlockHeight::new(10),
        )),
        NOW,
        &mut CountingApp { calls: 0, valid: true },
        &RoundRobin,
    );
    Fixture {
        algorithm,
        app: CountingApp { calls: 0, valid: true },
        messages: VecDeque::new(),
        origin,
        body: Block::new(
            BlockHeight::new(0),
            PhaseCertificate::genesis_pc(),
            CryptoHash::new([91; 32]),
            Data::new(vec![]),
        ),
    }
}

impl Fixture {
    /// Vote on a header whose body has been asked for as often as it may be.
    fn track_expiring_body(&mut self) {
        let _ = self.algorithm.dispatch(
            self.origin,
            ProgressMessage::HotStuffMessage(header(&self.body, ViewNumber::new(1)).into()),
            0,
            &mut self.app,
            &RoundRobin,
        );
        assert!(self.algorithm.hotstuff.has_pending_body_fetches());
        assert_eq!(self.app.calls, 0);
        self.algorithm.hotstuff.body_fetches[0].retries = MAX_BODY_RETRIES;
        self.algorithm.hotstuff.missing_pc_check_at = u64::MAX;
        let _ = self.algorithm.block_tree.take_journal();
    }

    fn queue_body(&mut self, body: Block) {
        self.messages.push_back((
            self.origin,
            ProgressMessage::HotStuffMessage(HotStuffMessage::BlockDataResponse(
                BlockDataResponse { view: ViewNumber::new(1), block: body },
            )),
        ));
    }

    /// Receive as the host does. Time stands still while there are envelopes.
    fn receive(&mut self, how: Receive, deadline: u64) -> Option<(VerifyingKey, ProgressMessage)> {
        let view = ViewNumber::new(1);
        if let Some(kept) = self.algorithm.pm_stub.take_buffered(view) {
            return Some(kept);
        }
        match how {
            Receive::AfterRetry => {
                let view_info = ViewInfo::new(view, deadline);
                if NOW >= self.algorithm.recv_deadline(&view_info, NOW) {
                    return None;
                }
                while let Some((origin, message)) = self.messages.pop_front() {
                    if let Some(taken) =
                        self.algorithm.pm_stub.take_arrival(CHAIN_ID, view, origin, message)
                    {
                        return Some(taken);
                    }
                }
                None
            }
            Receive::BeforeRetry => {
                let mut examined = 0;
                let mut found_empty = false;
                loop {
                    let action = ProgressMessageStub::before_retry_action(
                        examined,
                        found_empty,
                        NOW,
                        deadline,
                    );
                    if action != BeforeRetryAction::TakeReady {
                        return None;
                    }
                    match self.messages.pop_front() {
                        Some((origin, message)) => {
                            examined += 1;
                            if let Some(taken) =
                                self.algorithm.pm_stub.take_arrival(CHAIN_ID, view, origin, message)
                            {
                                return Some(taken);
                            }
                        }
                        None => found_empty = true,
                    }
                }
            }
        }
    }

    /// Receive a message and look after the fetches, in the order that the flag asks for.
    fn step(&mut self, enabled: bool, deadline: u64) {
        if self.algorithm.receives_first(enabled) {
            if let Some((origin, message)) = self.receive(Receive::BeforeRetry, deadline) {
                let _ = self.algorithm.dispatch(origin, message, NOW, &mut self.app, &RoundRobin);
            }
            self.algorithm.maintain_fetches(NOW);
        } else {
            self.algorithm.maintain_fetches(NOW);
            if let Some((origin, message)) = self.receive(Receive::AfterRetry, deadline) {
                let _ = self.algorithm.dispatch(origin, message, NOW, &mut self.app, &RoundRobin);
            }
        }
    }

    fn fetch_commands(&mut self) -> usize {
        self.algorithm
            .block_tree
            .take_journal()
            .iter()
            .filter(|e| matches!(e, Effect::FetchBlocks(_)))
            .count()
    }

    fn assert_sync_started_and_consumed(&mut self) {
        assert!(self.algorithm.block_sync_client.has_pending_sync());
        assert_eq!(self.fetch_commands(), 1);
        assert!(!self.algorithm.hotstuff.take_sync_needed());
    }
}

#[test]
fn body_before_expiry_flag_defaults_off_without_global_environment_mutation() {
    for value in [None, Some(""), Some("0"), Some("true"), Some("01"), Some(" 1")] {
        assert!(!body_before_expiry_enabled(value));
    }
    assert!(body_before_expiry_enabled(Some("1")));
}

#[test]
fn queued_tracked_body_gets_normal_validation_before_expiry_only_when_enabled() {
    for enabled in [false, true] {
        for expired_view_deadline in [false, true] {
            let mut f = fixture();
            f.track_expiring_body();
            f.queue_body(f.body.clone());
            let deadline = if expired_view_deadline { NOW } else { NOW + 1_000 };
            f.step(enabled, deadline);
            assert_eq!(f.algorithm.block_tree.contains(&f.body.hash), enabled);
            assert_eq!(f.app.calls, usize::from(enabled));
            assert!(!f.algorithm.hotstuff.has_pending_body_fetches());
            if enabled {
                assert!(!f.algorithm.block_sync_client.has_pending_sync());
                assert_eq!(f.fetch_commands(), 0);
                assert_eq!(f.algorithm.hotstuff.pushed_body_buffer_len(), 0);
            } else {
                f.assert_sync_started_and_consumed();
                assert_eq!(
                    f.algorithm.hotstuff.pushed_body_buffer_len(),
                    usize::from(!expired_view_deadline)
                );
            }
        }
    }
}

#[test]
fn empty_or_metadata_substituted_body_still_expires_in_the_same_step() {
    for malformed in [false, true] {
        let mut f = fixture();
        f.track_expiring_body();
        if malformed {
            let mut substituted = f.body.clone();
            substituted.height = BlockHeight::new(1);
            f.queue_body(substituted);
        }
        f.step(true, NOW);
        assert!(!f.algorithm.block_tree.contains(&f.body.hash));
        assert_eq!(f.app.calls, 0);
        assert!(!f.algorithm.hotstuff.has_pending_body_fetches());
        f.assert_sync_started_and_consumed();
    }
}

#[test]
fn earlier_receive_never_bypasses_application_rejection() {
    let mut f = fixture();
    f.track_expiring_body();
    f.app.valid = false;
    f.queue_body(f.body.clone());
    f.step(true, NOW);
    assert_eq!(f.app.calls, 1);
    assert!(!f.algorithm.block_tree.contains(&f.body.hash));
    assert_eq!(f.algorithm.hotstuff.header_vote_invalid_count(), 1);
}

#[test]
fn filtered_flood_does_not_postpone_retry_maintenance_or_consume_ninth_message() {
    let mut f = fixture();
    f.track_expiring_body();
    for _ in 0..MAX_BEFORE_RETRY_ENVELOPES {
        f.messages.push_back((
            f.origin,
            ProgressMessage::HotStuffMessage(HotStuffMessage::BlockDataRequest(
                BlockDataRequest {
                    chain_id: ChainID::new(99),
                    view: ViewNumber::new(1),
                    block_hash: f.body.hash,
                },
            )),
        ));
    }
    f.queue_body(f.body.clone());
    f.step(true, NOW + 1_000);
    assert_eq!(f.app.calls, 0);
    f.assert_sync_started_and_consumed();
    assert!(matches!(
        f.receive(Receive::BeforeRetry, NOW),
        Some((_, ProgressMessage::HotStuffMessage(HotStuffMessage::BlockDataResponse(_))))
    ));
}

#[test]
fn treatment_dispatches_one_ordinary_message_and_leaves_next_queued() {
    let mut f = fixture();
    f.track_expiring_body();
    f.queue_body(f.body.clone());
    f.queue_body(f.body.clone());
    f.step(true, NOW);
    assert_eq!(f.app.calls, 1);
    assert!(f.algorithm.block_tree.contains(&f.body.hash));
    assert!(matches!(
        f.receive(Receive::BeforeRetry, NOW),
        Some((_, ProgressMessage::HotStuffMessage(HotStuffMessage::BlockDataResponse(_))))
    ));
}

#[test]
fn handler_and_expiry_sync_requests_are_both_consumed_without_duplicate_sessions() {
    let mut f = fixture();
    f.track_expiring_body();
    let keys = signing_keys(&[1, 2, 3, 4]);
    let set = validator_set(&keys);
    let missing_pc =
        generic_pc(ViewNumber::new(1), CryptoHash::new([55; 32]), &keys[..3], &set);
    let child = Block::new(
        BlockHeight::new(1),
        missing_pc,
        CryptoHash::new([56; 32]),
        Data::new(vec![]),
    );
    let future = ViewNumber::new(2);
    let origin = proposer_for(future, &keys, &f.algorithm.block_tree);
    f.messages
        .push_back((origin, ProgressMessage::HotStuffMessage(header(&child, future).into())));
    f.step(true, NOW);
    assert!(!f.algorithm.hotstuff.has_pending_body_fetches());
    assert!(f.algorithm.hotstuff.has_pending_justify_fetches());
    f.assert_sync_started_and_consumed();
}

#[test]
fn no_pending_fetch_still_arms_missing_pc_before_ordinary_receive() {
    for enabled in [false, true] {
        let mut f = fixture();
        let keys = signing_keys(&[1, 2, 3, 4]);
        let set = validator_set(&keys);
        let pc = generic_pc(ViewNumber::new(1), f.body.hash, &keys[..3], &set);
        f.algorithm.block_tree.advance_highest_pc_from_remote(&pc).unwrap();
        f.algorithm.hotstuff.missing_pc_check_at = 0;
        assert!(!f.algorithm.hotstuff.has_pending_body_fetches());
        assert!(!f.algorithm.hotstuff.has_pending_justify_fetches());
        f.queue_body(f.body.clone());
        f.step(enabled, NOW + 1_000);
        assert_eq!(f.app.calls, 1);
        assert!(f.algorithm.block_tree.contains(&f.body.hash));
        assert_eq!(f.algorithm.hotstuff.pushed_body_buffer_len(), 0);
    }
}

#[test]
fn existing_justify_only_fetch_activates_ready_receive_after_deadline() {
    let mut f = fixture();
    let keys = signing_keys(&[1, 2, 3, 4]);
    let pc =
        generic_pc(ViewNumber::new(1), f.body.hash, &keys[..3], &validator_set(&keys));
    f.algorithm.block_tree.advance_highest_pc_from_remote(&pc).unwrap();
    f.algorithm.hotstuff.missing_pc_check_at = 0;
    f.algorithm
        .hotstuff
        .tick_missing_pc_block_fetch(NOW, &mut f.algorithm.block_tree)
        .unwrap();
    assert!(!f.algorithm.hotstuff.has_pending_body_fetches());
    assert!(f.algorithm.hotstuff.has_pending_justify_fetches());
    f.queue_body(f.body.clone());
    f.step(true, NOW);
    assert!(f.algorithm.block_tree.contains(&f.body.hash));
    assert_eq!(f.app.calls, 1);
    assert!(!f.algorithm.hotstuff.has_pending_justify_fetches());
}

#[test]
fn a_turn_enters_the_view_and_waits_until_it_ends() {
    let mut f = fixture();
    let view_info = ViewInfo::new(ViewNumber::new(2), NOW + 500);
    let keys = signing_keys(&[1, 2, 3, 4]);
    assert_ne!(
        proposer_for(view_info.view, &keys, &f.algorithm.block_tree),
        keys[0].verifying_key(),
        "this replica does not lead"
    );
    f.algorithm.turn_before_bodies(
        TurnInput { view_info, poll: WorkerPoll::Nothing, now: NOW },
        &mut f.app,
        &RoundRobin,
    );
    assert_eq!(f.algorithm.block_tree.highest_view_entered(), Ok(view_info.view));
    let receive = f.algorithm.turn_before_receive(false, NOW);
    assert_eq!(receive, Receive::AfterRetry);
    assert_eq!(f.algorithm.recv_deadline(&view_info, NOW + 7), NOW + 500);
    assert_eq!(f.algorithm.turn_after_receive(receive, NOW + 500), None);
    assert_eq!(f.algorithm.turn_after_receive(receive, NOW + 1_000), Some(0));
}

#[test]
fn a_busy_replica_waits_only_a_little() {
    let mut f = fixture();
    f.track_expiring_body();
    let view_info = ViewInfo::new(ViewNumber::new(1), NOW + 500);
    assert_eq!(f.algorithm.recv_deadline(&view_info, NOW), NOW + BUSY_RECEIVE_WAIT);
    let soon = ViewInfo::new(ViewNumber::new(1), NOW + 3);
    assert_eq!(f.algorithm.recv_deadline(&soon, NOW), NOW + 3);
    // However long the turn took, there is time to look at the channel.
    let late = NOW + 5 * BUSY_RECEIVE_WAIT;
    assert_eq!(f.algorithm.recv_deadline(&view_info, late), late + BUSY_RECEIVE_WAIT);
}

#[test]
fn messages_for_the_pacemaker_are_handed_back() {
    let mut f = fixture();
    let message = PacemakerMessage::advance_view(ProgressCertificate::PhaseCertificate(
        PhaseCertificate::genesis_pc(),
    ));
    let returned = f.algorithm.dispatch(
        f.origin,
        ProgressMessage::PacemakerMessage(message.clone()),
        NOW,
        &mut f.app,
        &RoundRobin,
    );
    assert_eq!(returned, Some(message));
}

#[test]
fn blocks_that_were_committed_but_not_fed_are_fed_now_and_then() {
    let mut f = fixture();
    let mut wb = BlockTreeWriteBatch::new();
    wb.set_block(&f.body).unwrap();
    wb.set_block_at_height(f.body.height, &f.body.hash).unwrap();
    wb.set_highest_committed_block(&f.body.hash).unwrap();
    f.algorithm.block_tree.write(wb);
    assert_eq!(f.algorithm.reconcile(NOW + 999), None, "too soon");
    assert_eq!(f.algorithm.reconcile(NOW + 1_000), Some(1));
    assert_eq!(f.algorithm.reconcile_at_boot(), Ok(0));
}

#[test]
fn a_replica_starts_above_the_views_it_knows() {
    let keys = signing_keys(&[1, 2, 3, 4]);
    let mut tree = tree_of(&keys);
    assert_eq!(initial_view(&tree), Ok(ViewNumber::new(0)));
    tree.set_highest_view_entered(ViewNumber::new(7)).unwrap();
    assert_eq!(initial_view(&tree), Ok(ViewNumber::new(8)));
}
