//! Proposals announced by their headers, and bodies that travel on their own.

use hotstuff_rs::app::{
    App, ProduceBlockRequest, ProduceBlockResponse, ValidateBlockRequest, ValidateBlockResponse,
};
use hotstuff_rs::block_tree::invariants::safe_pc_lock_clause;
use hotstuff_rs::block_tree::store::Store;
use hotstuff_rs::block_tree::tree::BlockTreeSingleton;
use hotstuff_rs::block_tree::write_batch::BlockTreeWriteBatch;
use hotstuff_rs::codec::encode_vote_message;
use hotstuff_rs::effects::Effect;
use hotstuff_rs::events::Event;
use hotstuff_rs::hotstuff::body_push::{
    parse_body_push_max_bytes, should_push_body, BODY_PUSH_HARD_CAP_BYTES, PUSHED_BODY_BUFFER_CAP,
};
use hotstuff_rs::hotstuff::fetching::{
    BODY_RETRY_INTERVAL, MAX_BODY_RETRIES, MISSING_PC_CHECK_INTERVAL,
};
use hotstuff_rs::hotstuff::messages::{
    BlockDataRequest, BlockDataResponse, HotStuffMessage, Proposal, ProposalHeader,
};
use hotstuff_rs::hotstuff::state::{HotStuff, HotStuffConfiguration};
use hotstuff_rs::hotstuff::types::{Phase, PhaseCertificate};
use hotstuff_rs::pacemaker::ViewInfo;
use hotstuff_rs::roles::{Roles, RoundRobin};
use hotstuff_rs::types::block::Block;
use hotstuff_rs::types::crypto_primitives::{Keypair, SigningKey};
use hotstuff_rs::types::data_types::{
    BlockHeight, ChainID, CryptoHash, Data, Datum, Power, SignatureSet, VerifyingKey, ViewNumber,
};
use hotstuff_rs::types::update_sets::AppStateUpdates;
use hotstuff_rs::types::validator_set::{ValidatorSet, ValidatorSetState};

const CHAIN_ID: ChainID = ChainID(0);

struct NullApp;

impl App for NullApp {
    fn produce_block(&mut self, _request: ProduceBlockRequest<'_>) -> ProduceBlockResponse {
        unreachable!("no block is produced on the header path")
    }

    fn validate_block(&mut self, _request: ValidateBlockRequest<'_>) -> ValidateBlockResponse {
        unreachable!("no block is validated on the header path")
    }

    fn validate_block_for_sync(
        &mut self,
        _request: ValidateBlockRequest<'_>,
    ) -> ValidateBlockResponse {
        unreachable!("no block is synced on the header path")
    }
}

struct RejectingApp {
    validate_calls: u32,
}

impl App for RejectingApp {
    fn produce_block(&mut self, _request: ProduceBlockRequest<'_>) -> ProduceBlockResponse {
        unreachable!("no block is produced here")
    }

    fn validate_block(&mut self, _request: ValidateBlockRequest<'_>) -> ValidateBlockResponse {
        self.validate_calls += 1;
        ValidateBlockResponse::Invalid
    }

    fn validate_block_for_sync(
        &mut self,
        _request: ValidateBlockRequest<'_>,
    ) -> ValidateBlockResponse {
        unreachable!("no block is synced here")
    }
}

/// Produces one body, and accepts every block.
struct FixedBodyApp {
    datums: Vec<Vec<u8>>,
}

impl App for FixedBodyApp {
    fn produce_block(&mut self, _request: ProduceBlockRequest<'_>) -> ProduceBlockResponse {
        ProduceBlockResponse {
            data: Data::new(self.datums.iter().cloned().map(Datum::new).collect()),
            data_hash: CryptoHash::new([9u8; 32]),
            app_state_updates: None,
            validator_set_updates: None,
        }
    }

    fn validate_block(&mut self, _request: ValidateBlockRequest<'_>) -> ValidateBlockResponse {
        ValidateBlockResponse::Valid { app_state_updates: None, validator_set_updates: None }
    }

    fn validate_block_for_sync(
        &mut self,
        _request: ValidateBlockRequest<'_>,
    ) -> ValidateBlockResponse {
        unreachable!("no block is synced here")
    }
}

fn signing_keys(seeds: &[u8]) -> Vec<SigningKey> {
    seeds.iter().map(|s| SigningKey::from_bytes(&[*s; 32])).collect()
}

fn validator_set(keys: &[SigningKey]) -> ValidatorSet {
    let mut vs = ValidatorSet::new();
    for k in keys {
        vs.put(&k.verifying_key(), Power::new(1));
    }
    vs
}

fn steady_block_tree(set: &ValidatorSet) -> (BlockTreeSingleton, ValidatorSetState) {
    let vss = ValidatorSetState::new(set.clone(), set.clone(), None, true);
    let mut block_tree = BlockTreeSingleton::new(Store::new());
    block_tree.initialize(&AppStateUpdates::new(), &vss).expect("block tree initialization");
    let _ = block_tree.take_journal();
    (block_tree, vss)
}

fn generic_pc(
    view: ViewNumber,
    block: CryptoHash,
    signers: &[SigningKey],
    set: &ValidatorSet,
) -> PhaseCertificate {
    let message = encode_vote_message(CHAIN_ID, view, &block, Phase::Generic);
    let mut signatures = SignatureSet::new(set.len());
    for sk in signers {
        let pos = set.position(&sk.verifying_key()).expect("signer belongs to the set");
        signatures.set(pos, Some(Keypair::new(*sk).sign(&message)));
    }
    PhaseCertificate { chain_id: CHAIN_ID, view, block, phase: Phase::Generic, signatures }
}

fn header_for(block: &Block, view: ViewNumber) -> ProposalHeader {
    ProposalHeader {
        chain_id: CHAIN_ID,
        view,
        block_hash: block.hash,
        height: block.height,
        data_hash: block.data_hash,
        justify: block.justify.clone(),
        tc: None,
        nec: None,
        has_validator_set_updates: false,
    }
}

fn proposer_for(
    view: ViewNumber,
    keys: &[SigningKey],
    vss: &ValidatorSetState,
    block_tree: &BlockTreeSingleton,
) -> VerifyingKey {
    let reputation = block_tree.leader_reputation().expect("reputation");
    keys.iter()
        .map(|k| k.verifying_key())
        .find(|vk| RoundRobin.is_proposer_with_reputation(vk, view, vss, &reputation))
        .expect("one of the validators proposes")
}

fn hotstuff_at(view: ViewNumber, local: SigningKey, vss: ValidatorSetState) -> HotStuff {
    let config = HotStuffConfiguration { chain_id: CHAIN_ID, keypair: Keypair::new(local) };
    HotStuff::new(config, ViewInfo::new(view, 3_600_000), vss)
}

fn empty_block(seed: u8) -> Block {
    Block::new(
        BlockHeight::new(0),
        PhaseCertificate::genesis_pc(),
        CryptoHash::new([seed; 32]),
        Data::new(vec![]),
    )
}

/// What a replica put on the wire.
struct Wire {
    effects: Vec<Effect>,
}

impl Wire {
    fn full_proposals(&self) -> Vec<Proposal> {
        self.effects
            .iter()
            .filter_map(|e| match e {
                Effect::Broadcast(HotStuffMessage::Proposal(p)) => Some(p.clone()),
                Effect::Send(_, HotStuffMessage::Proposal(p)) => Some(p.clone()),
                _ => None,
            })
            .collect()
    }

    fn headers(&self) -> Vec<ProposalHeader> {
        self.effects
            .iter()
            .filter_map(|e| match e {
                Effect::Broadcast(HotStuffMessage::ProposalHeader(h)) => Some(h.clone()),
                Effect::Send(_, HotStuffMessage::ProposalHeader(h)) => Some(h.clone()),
                _ => None,
            })
            .collect()
    }

    fn pushed_body_responses(&self) -> Vec<(VerifyingKey, BlockDataResponse)> {
        self.effects
            .iter()
            .filter_map(|e| match e {
                Effect::Send(peer, HotStuffMessage::BlockDataResponse(r)) => {
                    Some((*peer, r.clone()))
                }
                _ => None,
            })
            .collect()
    }

    fn body_fetch_count(&self) -> usize {
        self.effects
            .iter()
            .filter(|e| {
                matches!(
                    e,
                    Effect::RequestBlockData(..)
                        | Effect::Send(_, HotStuffMessage::BlockDataRequest(_))
                )
            })
            .count()
    }
}

fn propose_as_leader(
    view: ViewNumber,
    keys: &[SigningKey],
    vss: &ValidatorSetState,
    block_tree: &mut BlockTreeSingleton,
    datums: Vec<Vec<u8>>,
    push_threshold: Option<u64>,
) -> Wire {
    let leader_vk = proposer_for(view, keys, vss, block_tree);
    let leader_key =
        *keys.iter().find(|k| k.verifying_key() == leader_vk).expect("the proposer's key");
    let mut leader = hotstuff_at(view, leader_key, vss.clone());
    if let Some(threshold) = push_threshold {
        leader.set_body_push_max_bytes(threshold);
    }
    let mut app = FixedBodyApp { datums };
    leader
        .enter_view(ViewInfo::new(view, 3_600_000), block_tree, &mut app, &RoundRobin)
        .expect("enter_view as the proposer must not error");
    Wire { effects: block_tree.take_journal() }
}

/// Hand a message to a replica.
fn receive<A: App>(
    hotstuff: &mut HotStuff,
    message: HotStuffMessage,
    origin: &VerifyingKey,
    block_tree: &mut BlockTreeSingleton,
    app: &mut A,
) {
    hotstuff
        .on_receive_msg(message, origin, 0, block_tree, app, &RoundRobin)
        .expect("a message must not error");
}

#[test]
fn pending_justify_bypass_enforces_lock_clause() {
    let keys = signing_keys(&[1, 2, 3, 4]);
    let set = validator_set(&keys);
    let (mut block_tree, vss) = steady_block_tree(&set);

    let view1 = ViewNumber::new(1);
    let mut hotstuff = hotstuff_at(view1, keys[0], vss.clone());
    let mut app = NullApp;

    let b1 = empty_block(42);
    let h1 = header_for(&b1, view1);
    let p1 = proposer_for(view1, &keys, &vss, &block_tree);
    receive(&mut hotstuff, HotStuffMessage::ProposalHeader(h1), &p1, &mut block_tree, &mut app);
    assert_eq!(block_tree.highest_view_voted().expect("read"), Some(view1));
    assert!(!hotstuff.take_sync_needed(), "a safe header must not flag sync");

    let stale_justify = generic_pc(ViewNumber::new(0), b1.hash, &keys[..3], &set);
    let b2 = Block::new(
        BlockHeight::new(1),
        stale_justify,
        CryptoHash::new([43u8; 32]),
        Data::new(vec![]),
    );
    let view2 = ViewNumber::new(2);
    let h2 = header_for(&b2, view2);
    let p2 = proposer_for(view2, &keys, &vss, &block_tree);
    receive(&mut hotstuff, HotStuffMessage::ProposalHeader(h2), &p2, &mut block_tree, &mut app);

    assert!(hotstuff.take_sync_needed(), "the justify block is not in the tree");
    assert_eq!(block_tree.highest_view_voted().expect("read"), Some(view1));
}

#[test]
fn header_vote_on_app_invalid_body_increments_metric() {
    let keys = signing_keys(&[1, 2, 3, 4]);
    let set = validator_set(&keys);
    let (mut block_tree, vss) = steady_block_tree(&set);

    let view1 = ViewNumber::new(1);
    let mut hotstuff = hotstuff_at(view1, keys[0], vss.clone());
    let mut app = RejectingApp { validate_calls: 0 };

    let b1 = empty_block(42);
    let h1 = header_for(&b1, view1);
    let p1 = proposer_for(view1, &keys, &vss, &block_tree);
    receive(&mut hotstuff, HotStuffMessage::ProposalHeader(h1), &p1, &mut block_tree, &mut app);
    assert_eq!(block_tree.highest_view_voted().expect("read"), Some(view1));
    assert_eq!(hotstuff.header_vote_invalid_count(), 0);

    let resp = BlockDataResponse { view: view1, block: b1.clone() };
    receive(
        &mut hotstuff,
        HotStuffMessage::BlockDataResponse(resp),
        &p1,
        &mut block_tree,
        &mut app,
    );
    assert_eq!(app.validate_calls, 1);
    assert_eq!(hotstuff.header_vote_invalid_count(), 1);

    let resp_again = BlockDataResponse { view: view1, block: b1.clone() };
    receive(
        &mut hotstuff,
        HotStuffMessage::BlockDataResponse(resp_again),
        &p1,
        &mut block_tree,
        &mut app,
    );
    assert_eq!(hotstuff.header_vote_invalid_count(), 1);
}

#[test]
fn safe_pc_lock_clause_semantics() {
    let keys = signing_keys(&[1, 2, 3, 4]);
    let set = validator_set(&keys);
    let (mut block_tree, _vss) = steady_block_tree(&set);

    let block_a = CryptoHash::new([7u8; 32]);
    let block_b = CryptoHash::new([8u8; 32]);

    let pc_v1 = generic_pc(ViewNumber::new(1), block_a, &keys[..3], &set);
    assert!(safe_pc_lock_clause(&pc_v1, &block_tree).expect("lock clause must not error"));

    let lock_pc = generic_pc(ViewNumber::new(10), block_a, &keys[..3], &set);
    let mut wb = BlockTreeWriteBatch::new();
    wb.set_locked_pc(&lock_pc).expect("set_locked_pc");
    block_tree.write(wb);

    let pc_v11 = generic_pc(ViewNumber::new(11), block_b, &keys[..3], &set);
    assert!(safe_pc_lock_clause(&pc_v11, &block_tree).expect("lock clause must not error"));

    let pc_on_locked = generic_pc(ViewNumber::new(9), block_a, &keys[..3], &set);
    assert!(safe_pc_lock_clause(&pc_on_locked, &block_tree).expect("lock clause must not error"));

    let pc_conflicting = generic_pc(ViewNumber::new(9), block_b, &keys[..3], &set);
    assert!(
        !safe_pc_lock_clause(&pc_conflicting, &block_tree).expect("lock clause must not error")
    );
}

#[test]
fn header_vote_locks_before_vote() {
    let keys = signing_keys(&[1, 2, 3, 4]);
    let set = validator_set(&keys);
    let (mut block_tree, vss) = steady_block_tree(&set);

    let b1 = empty_block(42);
    block_tree.insert(&b1, None, None).expect("insert parent b1");

    let justify = generic_pc(ViewNumber::new(1), b1.hash, &keys[..3], &set);
    let b2 = Block::new(
        BlockHeight::new(1),
        justify.clone(),
        CryptoHash::new([43u8; 32]),
        Data::new(vec![]),
    );
    let view2 = ViewNumber::new(2);
    let h2 = header_for(&b2, view2);

    let mut hotstuff = hotstuff_at(view2, keys[0], vss.clone());
    let mut app = NullApp;
    let p2 = proposer_for(view2, &keys, &vss, &block_tree);
    let _ = block_tree.take_journal();
    receive(&mut hotstuff, HotStuffMessage::ProposalHeader(h2), &p2, &mut block_tree, &mut app);

    assert_eq!(block_tree.highest_view_voted().expect("read"), Some(view2));
    let locked = block_tree.locked_pc().expect("locked_pc");
    assert!(
        locked.view == justify.view
            && locked.block == justify.block
            && locked.phase == justify.phase
    );

    let journal = block_tree.take_journal();
    let locked_idx = journal
        .iter()
        .position(|e| matches!(e, Effect::Publish(Event::UpdateLockedPC { .. })))
        .expect("an UpdateLockedPC event");
    let vote_idx = journal
        .iter()
        .position(|e| matches!(e, Effect::Publish(Event::PhaseVote { .. })))
        .expect("a PhaseVote event");
    assert!(locked_idx < vote_idx, "the lock comes before the vote");
}

#[test]
fn header_double_vote_window_refused() {
    let keys = signing_keys(&[1, 2, 3, 4]);
    let set = validator_set(&keys);
    let (mut block_tree, vss) = steady_block_tree(&set);

    let a = empty_block(10);
    block_tree.insert(&a, None, None).expect("insert A");
    let qc_a = generic_pc(ViewNumber::new(1), a.hash, &keys[..3], &set);
    let b = Block::new(
        BlockHeight::new(1),
        qc_a.clone(),
        CryptoHash::new([11u8; 32]),
        Data::new(vec![]),
    );
    block_tree.insert(&b, None, None).expect("insert B");
    let qc_b = generic_pc(ViewNumber::new(2), b.hash, &keys[..3], &set);

    let c = Block::new(
        BlockHeight::new(2),
        qc_b.clone(),
        CryptoHash::new([12u8; 32]),
        Data::new(vec![]),
    );
    let view_c = ViewNumber::new(3);
    let hc = header_for(&c, view_c);
    let mut hs1 = hotstuff_at(view_c, keys[0], vss.clone());
    let mut app = NullApp;
    let prop_c = proposer_for(view_c, &keys, &vss, &block_tree);
    receive(&mut hs1, HotStuffMessage::ProposalHeader(hc), &prop_c, &mut block_tree, &mut app);
    assert_eq!(block_tree.highest_view_voted().expect("read"), Some(view_c));
    let locked_after_c = block_tree.locked_pc().expect("locked_pc");
    assert!(
        locked_after_c.view == qc_b.view
            && locked_after_c.block == qc_b.block
            && locked_after_c.phase == qc_b.phase
    );

    let b_prime = Block::new(
        BlockHeight::new(1),
        qc_a.clone(),
        CryptoHash::new([99u8; 32]),
        Data::new(vec![]),
    );
    let view_bp = ViewNumber::new(4);
    let hbp = header_for(&b_prime, view_bp);
    let mut hs2 = hotstuff_at(view_bp, keys[0], vss.clone());
    let prop_bp = proposer_for(view_bp, &keys, &vss, &block_tree);
    receive(&mut hs2, HotStuffMessage::ProposalHeader(hbp), &prop_bp, &mut block_tree, &mut app);

    assert_eq!(block_tree.highest_view_voted().expect("read"), Some(view_c));
}

#[test]
fn body_push_small_block_delivers_body_without_request() {
    let keys = signing_keys(&[1, 2, 3, 4]);
    let set = validator_set(&keys);
    let (mut leader_tree, vss) = steady_block_tree(&set);

    let view1 = ViewNumber::new(1);
    let leader_net = propose_as_leader(
        view1,
        &keys,
        &vss,
        &mut leader_tree,
        vec![],
        Some(BODY_PUSH_HARD_CAP_BYTES),
    );

    let headers = leader_net.headers();
    assert_eq!(headers.len(), 1);
    assert!(leader_net.full_proposals().is_empty());
    let leader_vk = proposer_for(view1, &keys, &vss, &leader_tree);
    let pushes = leader_net.pushed_body_responses();
    assert_eq!(pushes.len(), 3, "one push for each other validator");
    assert!(pushes.iter().all(|(target, _)| *target != leader_vk));
    let header = headers.into_iter().next().unwrap();
    assert!(pushes
        .iter()
        .all(|(_, resp)| resp.block.hash == header.block_hash && resp.view == header.view));

    // The push arrives before the header.
    let (mut follower_tree, _) = steady_block_tree(&set);
    let follower_key = *keys.iter().find(|k| k.verifying_key() != leader_vk).expect("a follower");
    let mut follower = hotstuff_at(view1, follower_key, vss.clone());
    let mut follower_app = FixedBodyApp { datums: vec![] };

    let (_, pushed) = leader_net.pushed_body_responses().into_iter().next().unwrap();
    receive(
        &mut follower,
        HotStuffMessage::BlockDataResponse(pushed),
        &leader_vk,
        &mut follower_tree,
        &mut follower_app,
    );
    assert!(!follower_tree.contains(&header.block_hash));
    assert_eq!(follower.pushed_body_buffer_len(), 1);

    receive(
        &mut follower,
        HotStuffMessage::ProposalHeader(header.clone()),
        &leader_vk,
        &mut follower_tree,
        &mut follower_app,
    );
    assert!(follower_tree.contains(&header.block_hash));
    assert_eq!(follower_tree.highest_view_voted().expect("read"), Some(view1));
    assert_eq!(follower.pushed_body_buffer_len(), 0);

    let (_, dup) = leader_net.pushed_body_responses().into_iter().next().unwrap();
    receive(
        &mut follower,
        HotStuffMessage::BlockDataResponse(dup),
        &leader_vk,
        &mut follower_tree,
        &mut follower_app,
    );
    assert_eq!(follower.pushed_body_buffer_len(), 0);
    let follower_net = Wire { effects: follower_tree.take_journal() };
    assert_eq!(follower_net.body_fetch_count(), 0);
}

#[test]
fn body_push_default_zero_is_byte_identical_header_first() {
    assert_eq!(parse_body_push_max_bytes(None), 0);
    assert_eq!(parse_body_push_max_bytes(Some("".to_string())), 0);
    assert_eq!(parse_body_push_max_bytes(Some("junk".to_string())), 0);
    assert_eq!(parse_body_push_max_bytes(Some(" 4096 ".to_string())), 4096);
    assert!(!should_push_body(0, 0), "0 means off even for an empty body");

    let keys = signing_keys(&[1, 2, 3, 4]);
    let set = validator_set(&keys);
    let (mut leader_tree, vss) = steady_block_tree(&set);

    let view1 = ViewNumber::new(1);
    let leader_net = propose_as_leader(view1, &keys, &vss, &mut leader_tree, vec![], None);
    assert_eq!(leader_net.headers().len(), 1);
    assert!(leader_net.full_proposals().is_empty());
    assert!(leader_net.pushed_body_responses().is_empty());

    let header = leader_net.headers().into_iter().next().unwrap();
    let leader_vk = proposer_for(view1, &keys, &vss, &leader_tree);
    let (mut follower_tree, _) = steady_block_tree(&set);
    let follower_key = *keys.iter().find(|k| k.verifying_key() != leader_vk).expect("a follower");
    let mut follower = hotstuff_at(view1, follower_key, vss.clone());
    let mut follower_app = FixedBodyApp { datums: vec![] };
    receive(
        &mut follower,
        HotStuffMessage::ProposalHeader(header.clone()),
        &leader_vk,
        &mut follower_tree,
        &mut follower_app,
    );
    let follower_net = Wire { effects: follower_tree.take_journal() };
    assert_eq!(follower_net.body_fetch_count(), 1);
    assert!(!follower_tree.contains(&header.block_hash));

    let block = Block::new(
        BlockHeight::new(0),
        PhaseCertificate::genesis_pc(),
        CryptoHash::new([9u8; 32]),
        Data::new(vec![]),
    );
    assert_eq!(block.hash, header.block_hash);
    receive(
        &mut follower,
        HotStuffMessage::BlockDataResponse(BlockDataResponse { view: header.view, block }),
        &leader_vk,
        &mut follower_tree,
        &mut follower_app,
    );
    assert!(follower_tree.contains(&header.block_hash));
    let follower_net = Wire { effects: follower_tree.take_journal() };
    assert_eq!(follower_net.body_fetch_count(), 0, "no additional requests");
}

#[test]
fn body_push_over_threshold_falls_back_to_fetch() {
    assert!(should_push_body(8, 8), "at-threshold must push");
    assert!(!should_push_body(9, 8), "over-threshold must not push");

    let keys = signing_keys(&[1, 2, 3, 4]);
    let set = validator_set(&keys);
    let (mut leader_tree, vss) = steady_block_tree(&set);

    let view1 = ViewNumber::new(1);
    let leader_net = propose_as_leader(
        view1,
        &keys,
        &vss,
        &mut leader_tree,
        vec![vec![0u8; 100]],
        Some(8),
    );
    assert_eq!(leader_net.headers().len(), 1);
    assert!(leader_net.pushed_body_responses().is_empty());
    assert!(leader_net.full_proposals().is_empty());

    let header = leader_net.headers().into_iter().next().unwrap();
    let leader_vk = proposer_for(view1, &keys, &vss, &leader_tree);
    let (mut follower_tree, _) = steady_block_tree(&set);
    let follower_key = *keys.iter().find(|k| k.verifying_key() != leader_vk).expect("a follower");
    let mut follower = hotstuff_at(view1, follower_key, vss.clone());
    let mut follower_app = FixedBodyApp { datums: vec![vec![0u8; 100]] };
    receive(
        &mut follower,
        HotStuffMessage::ProposalHeader(header.clone()),
        &leader_vk,
        &mut follower_tree,
        &mut follower_app,
    );
    let follower_net = Wire { effects: follower_tree.take_journal() };
    assert_eq!(follower_net.body_fetch_count(), 1);
    assert_eq!(follower.pushed_body_buffer_len(), 0);

    let block = Block::new(
        BlockHeight::new(0),
        PhaseCertificate::genesis_pc(),
        CryptoHash::new([9u8; 32]),
        Data::new(vec![Datum::new(vec![0u8; 100])]),
    );
    assert_eq!(block.hash, header.block_hash);
    receive(
        &mut follower,
        HotStuffMessage::BlockDataResponse(BlockDataResponse { view: header.view, block }),
        &leader_vk,
        &mut follower_tree,
        &mut follower_app,
    );
    assert!(follower_tree.contains(&header.block_hash));
}

#[test]
fn body_push_hard_cap_clamps_env() {
    assert_eq!(
        parse_body_push_max_bytes(Some("10485760".to_string())),
        BODY_PUSH_HARD_CAP_BYTES
    );
    assert_eq!(parse_body_push_max_bytes(Some("65535".to_string())), 65535);
    assert_eq!(parse_body_push_max_bytes(Some("65536".to_string())), BODY_PUSH_HARD_CAP_BYTES);
    assert!(should_push_body(BODY_PUSH_HARD_CAP_BYTES, u64::MAX));
    assert!(!should_push_body(BODY_PUSH_HARD_CAP_BYTES + 1, u64::MAX));

    let keys = signing_keys(&[1, 2, 3, 4]);
    let set = validator_set(&keys);
    let view1 = ViewNumber::new(1);

    let (mut tree_a, vss_a) = steady_block_tree(&set);
    let net_a = propose_as_leader(
        view1,
        &keys,
        &vss_a,
        &mut tree_a,
        vec![vec![7u8; BODY_PUSH_HARD_CAP_BYTES as usize]],
        Some(10 * 1024 * 1024),
    );
    assert_eq!(net_a.headers().len(), 1);
    assert_eq!(net_a.pushed_body_responses().len(), 3, "an at-cap body must be pushed");

    let (mut tree_b, vss_b) = steady_block_tree(&set);
    let net_b = propose_as_leader(
        view1,
        &keys,
        &vss_b,
        &mut tree_b,
        vec![vec![7u8; BODY_PUSH_HARD_CAP_BYTES as usize + 1]],
        Some(10 * 1024 * 1024),
    );
    assert_eq!(net_b.headers().len(), 1);
    assert!(net_b.pushed_body_responses().is_empty());
}

#[test]
fn body_push_unsolicited_unknown_header_is_benign() {
    let keys = signing_keys(&[1, 2, 3, 4]);
    let set = validator_set(&keys);
    let (mut tree, vss) = steady_block_tree(&set);

    let view1 = ViewNumber::new(1);
    let mut replica = hotstuff_at(view1, keys[0], vss.clone());
    let mut app = FixedBodyApp { datums: vec![] };
    let sender = keys[1].verifying_key();

    let junk = Block::new(
        BlockHeight::new(0),
        PhaseCertificate::genesis_pc(),
        CryptoHash::new([77u8; 32]),
        Data::new(vec![Datum::new(vec![1, 2, 3])]),
    );
    let send = |block: Block| {
        HotStuffMessage::BlockDataResponse(BlockDataResponse { view: view1, block })
    };
    receive(&mut replica, send(junk.clone()), &sender, &mut tree, &mut app);
    assert!(!tree.contains(&junk.hash));
    assert_eq!(tree.highest_view_voted().expect("read"), None);
    assert_eq!(replica.pushed_body_buffer_len(), 1);

    receive(&mut replica, send(junk.clone()), &sender, &mut tree, &mut app);
    assert_eq!(replica.pushed_body_buffer_len(), 1);

    let mut forged = junk.clone();
    forged.hash = CryptoHash::new([66u8; 32]);
    receive(&mut replica, send(forged), &sender, &mut tree, &mut app);
    assert_eq!(replica.pushed_body_buffer_len(), 1);

    let oversized = Block::new(
        BlockHeight::new(0),
        PhaseCertificate::genesis_pc(),
        CryptoHash::new([55u8; 32]),
        Data::new(vec![Datum::new(vec![0u8; BODY_PUSH_HARD_CAP_BYTES as usize + 1])]),
    );
    receive(&mut replica, send(oversized), &sender, &mut tree, &mut app);
    assert_eq!(replica.pushed_body_buffer_len(), 1);

    for i in 0..(PUSHED_BODY_BUFFER_CAP + 10) {
        let flood = Block::new(
            BlockHeight::new(0),
            PhaseCertificate::genesis_pc(),
            CryptoHash::new([100 + i as u8; 32]),
            Data::new(vec![Datum::new(vec![i as u8])]),
        );
        receive(&mut replica, send(flood), &sender, &mut tree, &mut app);
    }
    assert_eq!(replica.pushed_body_buffer_len(), PUSHED_BODY_BUFFER_CAP);
    let net = Wire { effects: tree.take_journal() };
    assert_eq!(net.body_fetch_count(), 0);
    assert_eq!(tree.highest_view_voted().expect("read"), None);
}

#[test]
fn missing_bodies_are_asked_for_again_and_then_given_up() {
    let keys = signing_keys(&[1, 2, 3, 4]);
    let set = validator_set(&keys);
    let (mut tree, vss) = steady_block_tree(&set);
    let view1 = ViewNumber::new(1);
    let mut replica = hotstuff_at(view1, keys[0], vss.clone());
    let block = empty_block(42);
    let proposer = proposer_for(view1, &keys, &vss, &tree);
    receive(
        &mut replica,
        HotStuffMessage::ProposalHeader(header_for(&block, view1)),
        &proposer,
        &mut tree,
        &mut NullApp,
    );
    assert!(replica.has_pending_body_fetches());
    let _ = tree.take_journal();

    replica.tick_pending_body_retries(BODY_RETRY_INTERVAL - 1, &mut tree);
    assert!(tree.take_journal().is_empty(), "not yet due");

    let mut now = 0;
    let mut asked = 0;
    for _ in 0..MAX_BODY_RETRIES {
        now += BODY_RETRY_INTERVAL;
        replica.tick_pending_body_retries(now, &mut tree);
        asked += Wire { effects: tree.take_journal() }.body_fetch_count();
    }
    assert_eq!(asked, MAX_BODY_RETRIES as usize);
    now += BODY_RETRY_INTERVAL;
    replica.tick_pending_body_retries(now, &mut tree);
    assert!(!replica.has_pending_body_fetches());
    assert!(replica.take_sync_needed(), "what cannot be fetched is synced");
}

#[test]
fn the_block_of_the_highest_certificate_is_fetched() {
    let keys = signing_keys(&[1, 2, 3, 4]);
    let set = validator_set(&keys);
    let (mut tree, vss) = steady_block_tree(&set);
    let mut replica = hotstuff_at(ViewNumber::new(3), keys[0], vss);
    let missing = CryptoHash::new([5u8; 32]);
    tree.advance_highest_pc_from_remote(&generic_pc(ViewNumber::new(2), missing, &keys, &set))
        .expect("advance");
    replica.tick_missing_pc_block_fetch(MISSING_PC_CHECK_INTERVAL, &mut tree).expect("tick");
    assert!(replica.has_pending_justify_fetches());
    replica.tick_justify_fetch_retries(10_000, &mut tree);
    let wire = Wire { effects: tree.take_journal() };
    assert!(wire.body_fetch_count() >= 1);
}

#[test]
fn blocks_of_the_tree_are_served() {
    let keys = signing_keys(&[1, 2, 3, 4]);
    let set = validator_set(&keys);
    let (mut tree, vss) = steady_block_tree(&set);
    let mut replica = hotstuff_at(ViewNumber::new(1), keys[0], vss);
    let block = empty_block(42);
    tree.insert(&block, None, None).expect("insert");
    let _ = tree.take_journal();
    let asker = keys[1].verifying_key();
    let request = BlockDataRequest {
        chain_id: CHAIN_ID,
        view: ViewNumber::new(1),
        block_hash: block.hash,
    };
    receive(
        &mut replica,
        HotStuffMessage::BlockDataRequest(request),
        &asker,
        &mut tree,
        &mut NullApp,
    );
    let served = Wire { effects: tree.take_journal() }.pushed_body_responses();
    assert_eq!(served.len(), 1);
    assert_eq!(served[0].0, asker);
    assert_eq!(served[0].1.block, block);
}

#[test]
fn two_headers_of_one_leader_are_evidence() {
    let keys = signing_keys(&[1, 2, 3, 4]);
    let set = validator_set(&keys);
    let (mut tree, vss) = steady_block_tree(&set);
    let view1 = ViewNumber::new(1);
    let mut replica = hotstuff_at(view1, keys[0], vss.clone());
    let proposer = proposer_for(view1, &keys, &vss, &tree);
    let first = empty_block(1);
    let second = empty_block(2);
    for block in [&first, &second] {
        receive(
            &mut replica,
            HotStuffMessage::ProposalHeader(header_for(block, view1)),
            &proposer,
            &mut tree,
            &mut NullApp,
        );
    }
    let evidence = tree.get_equivocation_evidence().expect("evidence");
    assert_eq!(evidence, vec![(view1, proposer.to_bytes(), first.hash, second.hash)]);
    assert_eq!(tree.last_voted_proposal(), Ok(Some((view1, first.hash))), "one vote in a view");
}
