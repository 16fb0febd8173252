//! What a leader writes and sends, and in which order.

use hotstuff_rs::app::{
    App, ProduceBlockRequest, ProduceBlockResponse, ValidateBlockRequest, ValidateBlockResponse,
};
use hotstuff_rs::block_tree::store::Store;
use hotstuff_rs::block_tree::tree::BlockTreeSingleton;
use hotstuff_rs::block_tree::write_batch::{BlockTreeWriteBatch, WriteOp};
use hotstuff_rs::codec::encode_vote_message;
use hotstuff_rs::effects::Effect;
use hotstuff_rs::hotstuff::messages::{HotStuffMessage, Nudge, Proposal, ProposalHeader};
use hotstuff_rs::hotstuff::state::{HotStuff, HotStuffConfiguration};
use hotstuff_rs::hotstuff::types::{Phase, PhaseCertificate};
use hotstuff_rs::pacemaker::ViewInfo;
use hotstuff_rs::roles::{Roles, RoundRobin};
use hotstuff_rs::types::block::Block;
use hotstuff_rs::types::crypto_primitives::{Keypair, SigningKey};
use hotstuff_rs::types::data_types::{
    BlockHeight, ChainID, CryptoHash, Data, Power, SignatureSet, VerifyingKey, ViewNumber,
};
use hotstuff_rs::types::update_sets::AppStateUpdates;
use hotstuff_rs::types::validator_set::{ValidatorSet, ValidatorSetState, ValidatorSetUpdates};

const CHAIN_ID: ChainID = ChainID(0);

/// Produces an empty block, and accepts every block.
struct LeaderApp {
    data_hash: CryptoHash,
}

impl App for LeaderApp {
    fn produce_block(&mut self, _request: ProduceBlockRequest<'_>) -> ProduceBlockResponse {
        ProduceBlockResponse {
            data: Data::new(vec![]),
            data_hash: self.data_hash,
            app_state_updates: None,
            validator_set_updates: None,
        }
    }

    fn validate_block(&mut self, _request: ValidateBlockRequest<'_>) -> ValidateBlockResponse {
        ValidateBlockResponse::Valid { app_state_updates: None, validator_set_updates: None }
    }

    fn validate_block_for_sync(
        &mut self,
        _request: ValidateBlockRequest<'_>,
    ) -> ValidateBlockResponse {
        unreachable!("no block is synced here")
    }
}

fn signing_keys(seeds: &[u8]) -> Vec<SigningKey> {
    seeds.iter().map(|s| SigningKey::from_bytes(&[*s; 32])).collect()
}

fn validator_set(keys: &[SigningKey]) -> ValidatorSet {
    let mut vs = ValidatorSet::new();
    for k in keys {
        vs.put(&k.verifying_key(), Power::new(1));
    }
    vs
}

fn base_tree() -> (Vec<SigningKey>, ValidatorSet, ValidatorSetState, BlockTreeSingleton) {
    let keys = signing_keys(&[1, 2, 3, 4]);
    let set = validator_set(&keys);
    let vss = ValidatorSetState::new(set.clone(), set.clone(), None, true);
    let mut block_tree = BlockTreeSingleton::new(Store::new());
    block_tree.initialize(&AppStateUpdates::new(), &vss).expect("block tree initialization");
    let _ = block_tree.take_journal();
    (keys, set, vss, block_tree)
}

fn pc(
    view: ViewNumber,
    block: CryptoHash,
    phase: Phase,
    signers: &[SigningKey],
    set: &ValidatorSet,
) -> PhaseCertificate {
    let message = encode_vote_message(CHAIN_ID, view, &block, phase);
    let mut signatures = SignatureSet::new(set.len());
    for sk in signers {
        let pos = set.position(&sk.verifying_key()).expect("signer in set");
        signatures.set(pos, Some(Keypair::new(*sk).sign(&message)));
    }
    PhaseCertificate { chain_id: CHAIN_ID, view, block, phase, signatures }
}

fn generic_pc(
    view: ViewNumber,
    block: CryptoHash,
    signers: &[SigningKey],
    set: &ValidatorSet,
) -> PhaseCertificate {
    pc(view, block, Phase::Generic, signers, set)
}

fn unsigned_pc(view: u64, block: CryptoHash) -> PhaseCertificate {
    PhaseCertificate {
        chain_id: CHAIN_ID,
        view: ViewNumber::new(view),
        block,
        phase: Phase::Generic,
        signatures: SignatureSet::new(0),
    }
}

fn set_highest_pc(block_tree: &mut BlockTreeSingleton, pc: &PhaseCertificate) {
    let mut wb = BlockTreeWriteBatch::new();
    wb.set_highest_pc(pc).expect("set_highest_pc");
    block_tree.write(wb);
}

fn proposer_for(
    view: ViewNumber,
    keys: &[SigningKey],
    vss: &ValidatorSetState,
    block_tree: &BlockTreeSingleton,
) -> SigningKey {
    let reputation = block_tree.leader_reputation().expect("reputation");
    *keys
        .iter()
        .find(|k| {
            RoundRobin.is_proposer_with_reputation(&k.verifying_key(), view, vss, &reputation)
        })
        .expect("one of the validators proposes")
}

fn replica(key: &SigningKey, vss: &ValidatorSetState, view: ViewNumber) -> HotStuff {
    HotStuff::new(
        HotStuffConfiguration { chain_id: CHAIN_ID, keypair: Keypair::new(*key) },
        ViewInfo::new(view, 3_600_000),
        vss.clone(),
    )
}

fn header_of(block: &Block, view: ViewNumber) -> ProposalHeader {
    ProposalHeader {
        chain_id: CHAIN_ID,
        view,
        block_hash: block.hash,
        height: block.height,
        data_hash: block.data_hash,
        justify: block.justify.clone(),
        tc: None,
        nec: None,
        has_validator_set_updates: false,
    }
}

fn is_header(effect: &Effect) -> bool {
    matches!(effect, Effect::Broadcast(HotStuffMessage::ProposalHeader(_)))
}

fn is_vote(effect: &Effect) -> bool {
    matches!(effect, Effect::Send(_, HotStuffMessage::PhaseVote(_)))
}

fn is_feed(effect: &Effect) -> bool {
    matches!(effect, Effect::CommittedBlock(..))
}

/// Whether an effect writes something.
fn writes(effect: &Effect, what: fn(&WriteOp) -> bool) -> bool {
    matches!(effect, Effect::Persist(batch) if batch.ops.iter().any(what))
}

fn index_of(journal: &[Effect], what: fn(&Effect) -> bool) -> usize {
    journal.iter().position(what).unwrap_or_else(|| panic!("missing in {:?}", journal))
}

struct Led {
    journal: Vec<Effect>,
    block_tree: BlockTreeSingleton,
    leader: HotStuff,
    leader_vk: VerifyingKey,
    own_block: Block,
}

/// Enter view 3 as its leader over a chain of two blocks.
fn lead_view_3(defer: bool) -> Led {
    let (keys, set, vss, mut block_tree) = base_tree();
    let g = Block::new(
        BlockHeight::new(0),
        PhaseCertificate::genesis_pc(),
        CryptoHash::new([50u8; 32]),
        Data::new(vec![]),
    );
    block_tree.insert(&g, None, None).expect("insert g");
    let p = Block::new(
        BlockHeight::new(1),
        generic_pc(ViewNumber::new(1), g.hash, &keys[..3], &set),
        CryptoHash::new([51u8; 32]),
        Data::new(vec![]),
    );
    block_tree.insert(&p, None, None).expect("insert p");
    let qc_p = generic_pc(ViewNumber::new(2), p.hash, &keys[..3], &set);
    set_highest_pc(&mut block_tree, &qc_p);
    let _ = block_tree.take_journal();

    let view = ViewNumber::new(3);
    let leader_key = proposer_for(view, &keys, &vss, &block_tree);
    let mut leader = replica(&leader_key, &vss, view);
    leader.set_defer_commit_feed(defer);
    let mut app = LeaderApp { data_hash: CryptoHash::new([9u8; 32]) };
    leader
        .enter_view(ViewInfo::new(view, 3_600_000), &mut block_tree, &mut app, &RoundRobin)
        .expect("enter_view as leader must not error");
    let journal = block_tree.take_journal();
    let own_block = Block::new(
        BlockHeight::new(2),
        qc_p,
        CryptoHash::new([9u8; 32]),
        Data::new(vec![]),
    );
    Led { journal, block_tree, leader, leader_vk: leader_key.verifying_key(), own_block }
}

#[test]
fn deferred_feed_broadcasts_and_self_votes_before_commit_feed() {
    let led = lead_view_3(true);
    let header = index_of(&led.journal, is_header);
    let vote = index_of(&led.journal, is_vote);
    let feed = index_of(&led.journal, is_feed);
    assert!(header < vote && vote < feed);
    assert_eq!(
        led.block_tree.highest_view_voted().expect("highest_view_voted"),
        Some(ViewNumber::new(3))
    );
}

#[test]
fn default_order_runs_commit_feed_before_broadcast() {
    let led = lead_view_3(false);
    assert!(index_of(&led.journal, is_feed) < index_of(&led.journal, is_header));
    assert!(!led.journal.iter().any(is_vote), "the leader votes on the copy that comes back");
}

#[test]
fn loopback_copy_of_inline_header_is_dropped() {
    let mut led = lead_view_3(true);
    assert!(led.block_tree.contains(&led.own_block.hash));
    let header = header_of(&led.own_block, ViewNumber::new(3));
    let mut app = LeaderApp { data_hash: CryptoHash::new([9u8; 32]) };
    led.leader
        .on_receive_msg(
            HotStuffMessage::ProposalHeader(header),
            &led.leader_vk,
            0,
            &mut led.block_tree,
            &mut app,
            &RoundRobin,
        )
        .expect("loopback header must not error");
    assert!(led.block_tree.take_journal().is_empty());
}

/// The lock and the proposed block are written in one batch, before the header leaves.
fn assert_flush_before_send(journal: &[Effect]) {
    let lock = journal
        .iter()
        .position(|e| writes(e, |op| matches!(op, WriteOp::SetLockedPC(_))))
        .expect("a batch with the lock");
    let header = index_of(journal, is_header);
    assert!(lock < header);
    assert!(writes(&journal[lock], |op| matches!(op, WriteOp::SetBlock(_))));
}

#[test]
fn leader_flushes_propose_batch_before_broadcasting_header() {
    let (keys, _set, vss, mut block_tree) = base_tree();
    let b0 = Block::new(
        BlockHeight::new(0),
        PhaseCertificate::genesis_pc(),
        CryptoHash::new([1u8; 32]),
        Data::new(vec![]),
    );
    block_tree.insert(&b0, None, None).unwrap();
    set_highest_pc(&mut block_tree, &unsigned_pc(1, b0.hash));

    let view2 = ViewNumber::new(2);
    let local = proposer_for(view2, &keys, &vss, &block_tree);
    let mut hotstuff = replica(&local, &vss, ViewNumber::new(1));

    let _ = block_tree.take_journal();
    let mut app = LeaderApp { data_hash: CryptoHash::new([42u8; 32]) };
    hotstuff
        .enter_view(ViewInfo::new(view2, 3_600_000), &mut block_tree, &mut app, &RoundRobin)
        .expect("enter_view as leader");

    let journal = block_tree.take_journal();
    assert_flush_before_send(&journal);
    let entered = journal
        .iter()
        .position(|e| writes(e, |op| matches!(op, WriteOp::SetHighestViewEntered(_))))
        .expect("the view entered is written");
    assert!(entered < index_of(&journal, is_header));
}

#[test]
fn deferred_retry_flushes_propose_batch_before_broadcasting_header() {
    let (keys, _set, vss, mut block_tree) = base_tree();
    let b0 = Block::new(
        BlockHeight::new(0),
        PhaseCertificate::genesis_pc(),
        CryptoHash::new([1u8; 32]),
        Data::new(vec![]),
    );
    set_highest_pc(&mut block_tree, &unsigned_pc(1, b0.hash));

    let view2 = ViewNumber::new(2);
    let local = proposer_for(view2, &keys, &vss, &block_tree);
    let mut hotstuff = replica(&local, &vss, ViewNumber::new(1));
    let mut app = LeaderApp { data_hash: CryptoHash::new([42u8; 32]) };

    let _ = block_tree.take_journal();
    hotstuff
        .enter_view(ViewInfo::new(view2, 3_600_000), &mut block_tree, &mut app, &RoundRobin)
        .expect("enter_view with missing parent");
    assert!(hotstuff.has_deferred_proposal());
    assert!(!block_tree.take_journal().iter().any(is_header));

    block_tree.insert(&b0, None, None).unwrap();
    let _ = block_tree.take_journal();
    hotstuff
        .enter_view(ViewInfo::new(view2, 3_600_000), &mut block_tree, &mut app, &RoundRobin)
        .expect("deferred-proposal retry");
    assert_flush_before_send(&block_tree.take_journal());
}

struct Fixture {
    keys: Vec<SigningKey>,
    vss: ValidatorSetState,
    block_tree: BlockTreeSingleton,
    b2: Block,
    view: ViewNumber,
}

fn fixture() -> Fixture {
    let (keys, set, vss, mut block_tree) = base_tree();
    let b1 = Block::new(
        BlockHeight::new(0),
        PhaseCertificate::genesis_pc(),
        CryptoHash::new([42u8; 32]),
        Data::new(vec![]),
    );
    block_tree.insert(&b1, None, None).expect("insert parent b1");
    let justify = generic_pc(ViewNumber::new(1), b1.hash, &keys[..3], &set);
    let b2 = Block::new(
        BlockHeight::new(1),
        justify,
        CryptoHash::new([43u8; 32]),
        Data::new(vec![]),
    );
    let _ = block_tree.take_journal();
    Fixture { keys, vss, block_tree, b2, view: ViewNumber::new(2) }
}

fn assert_persist_before_send(journal: &[Effect]) {
    let persist = journal
        .iter()
        .position(|e| writes(e, |op| matches!(op, WriteOp::SetHighestViewPhaseVoted(_))))
        .expect("the vote is written");
    assert!(persist < index_of(journal, is_vote));
}

#[test]
fn header_path_persists_vote_state_before_sending_vote() {
    let mut f = fixture();
    let header = header_of(&f.b2, f.view);
    let proposer = proposer_for(f.view, &f.keys, &f.vss, &f.block_tree).verifying_key();
    let mut hotstuff = replica(&f.keys[0], &f.vss, f.view);
    hotstuff
        .on_receive_msg(
            HotStuffMessage::ProposalHeader(header),
            &proposer,
            0,
            &mut f.block_tree,
            &mut LeaderApp { data_hash: CryptoHash::new([0u8; 32]) },
            &RoundRobin,
        )
        .expect("processing a safe header must not error");
    assert_persist_before_send(&f.block_tree.take_journal());
}

#[test]
fn proposal_path_persists_vote_state_before_sending_vote() {
    let mut f = fixture();
    let proposal = Proposal {
        chain_id: CHAIN_ID,
        view: f.view,
        block: f.b2.clone(),
        tc: None,
        nec: None,
    };
    let proposer = proposer_for(f.view, &f.keys, &f.vss, &f.block_tree).verifying_key();
    let mut hotstuff = replica(&f.keys[0], &f.vss, f.view);
    hotstuff
        .on_receive_msg(
            HotStuffMessage::Proposal(proposal),
            &proposer,
            0,
            &mut f.block_tree,
            &mut LeaderApp { data_hash: CryptoHash::new([0u8; 32]) },
            &RoundRobin,
        )
        .expect("processing a safe proposal must not error");
    assert_persist_before_send(&f.block_tree.take_journal());
    assert!(f.block_tree.contains(&f.b2.hash));
}

#[test]
fn nudge_path_persists_vote_state_before_sending_vote() {
    let (keys, set, vss, mut block_tree) = base_tree();
    let b1 = Block::new(
        BlockHeight::new(0),
        PhaseCertificate::genesis_pc(),
        CryptoHash::new([44u8; 32]),
        Data::new(vec![]),
    );
    let mut vs_updates = ValidatorSetUpdates::new();
    vs_updates.insert(signing_keys(&[5])[0].verifying_key(), Power::new(1));
    block_tree.insert(&b1, None, Some(&vs_updates)).expect("insert b1");
    let _ = block_tree.take_journal();

    let view = ViewNumber::new(2);
    let nudge = Nudge {
        chain_id: CHAIN_ID,
        view,
        justify: pc(ViewNumber::new(1), b1.hash, Phase::Prepare, &keys[..3], &set),
    };
    let proposer = proposer_for(view, &keys, &vss, &block_tree).verifying_key();
    let mut hotstuff = replica(&keys[0], &vss, view);
    hotstuff
        .on_receive_msg(
            HotStuffMessage::Nudge(nudge),
            &proposer,
            0,
            &mut block_tree,
            &mut LeaderApp { data_hash: CryptoHash::new([0u8; 32]) },
            &RoundRobin,
        )
        .expect("processing a safe nudge must not error");
    assert_persist_before_send(&block_tree.take_journal());
}

#[test]
fn messages_of_other_replicas_than_the_proposer_are_not_acted_on() {
    let mut f = fixture();
    let header = header_of(&f.b2, f.view);
    let proposer = proposer_for(f.view, &f.keys, &f.vss, &f.block_tree).verifying_key();
    let other = f
        .keys
        .iter()
        .map(|k| k.verifying_key())
        .find(|k| *k != proposer)
        .expect("another validator");
    let mut hotstuff = replica(&f.keys[0], &f.vss, f.view);
    hotstuff
        .on_receive_msg(
            HotStuffMessage::ProposalHeader(header),
            &other,
            0,
            &mut f.block_tree,
            &mut LeaderApp { data_hash: CryptoHash::new([0u8; 32]) },
            &RoundRobin,
        )
        .expect("a refused header must not error");
    assert!(!f.block_tree.take_journal().iter().any(is_vote));
    assert_eq!(f.block_tree.highest_view_voted(), Ok(None));
}
