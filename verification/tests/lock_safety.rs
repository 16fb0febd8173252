//! Certificates never move the lock back, and those of the wrong validators are not acted on.

use hotstuff_rs::app::{
    App, ProduceBlockRequest, ProduceBlockResponse, ValidateBlockRequest, ValidateBlockResponse,
};
use hotstuff_rs::block_tree::invariants::{
    block_to_commit, pc_to_lock, repropose_block, safe_nudge, safe_pc,
};
use hotstuff_rs::block_tree::store::Store;
use hotstuff_rs::block_tree::tree::BlockTreeSingleton;
use hotstuff_rs::block_tree::write_batch::BlockTreeWriteBatch;
use hotstuff_rs::codec::encode_vote_message;
use hotstuff_rs::hotstuff::collectors::{ActiveCollectorPair, NECollector, PhaseVoteCollector};
use hotstuff_rs::hotstuff::messages::{
    HotStuffMessage, NEMessage, Nudge, PhaseVote, ProposalHeader,
};
use hotstuff_rs::hotstuff::certificates::is_nec_correctly_signed;
use hotstuff_rs::hotstuff::state::{HotStuff, HotStuffConfiguration};
use hotstuff_rs::hotstuff::types::{Phase, PhaseCertificate};
use hotstuff_rs::pacemaker::ViewInfo;
use hotstuff_rs::roles::{Roles, RoundRobin};
use hotstuff_rs::types::block::Block;
use hotstuff_rs::types::crypto_primitives::{Keypair, SigningKey};
use hotstuff_rs::types::data_types::{
    BlockHeight, ChainID, CryptoHash, Data, Power, SignatureSet, VerifyingKey, ViewNumber,
};
use hotstuff_rs::types::update_sets::AppStateUpdates;
use hotstuff_rs::types::validator_set::{ValidatorSet, ValidatorSetState, ValidatorSetUpdates};

const CHAIN_ID: ChainID = ChainID(0);

struct NullApp;

impl App for NullApp {
    fn produce_block(&mut self, _request: ProduceBlockRequest<'_>) -> ProduceBlockResponse {
        unreachable!("no block is produced here")
    }

    fn validate_block(&mut self, _request: ValidateBlockRequest<'_>) -> ValidateBlockResponse {
        unreachable!("no block is validated here")
    }

    fn validate_block_for_sync(
        &mut self,
        _request: ValidateBlockRequest<'_>,
    ) -> ValidateBlockResponse {
        unreachable!("no block is synced here")
    }
}

fn signing_keys(seeds: &[u8]) -> Vec<SigningKey> {
    seeds.iter().map(|s| SigningKey::from_bytes(&[*s; 32])).collect()
}

fn validator_set(keys: &[SigningKey]) -> ValidatorSet {
    let mut vs = ValidatorSet::new();
    for k in keys {
        vs.put(&k.verifying_key(), Power::new(1));
    }
    vs
}

fn tree_with(vss: &ValidatorSetState) -> BlockTreeSingleton {
    let mut block_tree = BlockTreeSingleton::new(Store::new());
    block_tree.initialize(&AppStateUpdates::new(), vss).expect("block tree initialization");
    block_tree
}

fn steady_block_tree(set: &ValidatorSet) -> (BlockTreeSingleton, ValidatorSetState) {
    let vss = ValidatorSetState::new(set.clone(), set.clone(), None, true);
    (tree_with(&vss), vss)
}

fn transition_block_tree(
    committed: &ValidatorSet,
    previous: &ValidatorSet,
) -> (BlockTreeSingleton, ValidatorSetState) {
    let vss = ValidatorSetState::new(
        committed.clone(),
        previous.clone(),
        Some(BlockHeight::new(1)),
        false,
    );
    (tree_with(&vss), vss)
}

fn signed_pc(
    view: ViewNumber,
    block: CryptoHash,
    phase: Phase,
    signers: &[SigningKey],
    set: &ValidatorSet,
) -> PhaseCertificate {
    let message = encode_vote_message(CHAIN_ID, view, &block, phase);
    let mut signatures = SignatureSet::new(set.len());
    for sk in signers {
        let pos = set.position(&sk.verifying_key()).expect("signer belongs to the set");
        signatures.set(pos, Some(Keypair::new(*sk).sign(&message)));
    }
    PhaseCertificate { chain_id: CHAIN_ID, view, block, phase, signatures }
}

fn generic_pc(
    view: ViewNumber,
    block: CryptoHash,
    signers: &[SigningKey],
    set: &ValidatorSet,
) -> PhaseCertificate {
    signed_pc(view, block, Phase::Generic, signers, set)
}

fn header_for(block: &Block, view: ViewNumber) -> ProposalHeader {
    ProposalHeader {
        chain_id: CHAIN_ID,
        view,
        block_hash: block.hash,
        height: block.height,
        data_hash: block.data_hash,
        justify: block.justify.clone(),
        tc: None,
        nec: None,
        has_validator_set_updates: false,
    }
}

fn proposer_for(
    view: ViewNumber,
    keys: &[SigningKey],
    vss: &ValidatorSetState,
    block_tree: &BlockTreeSingleton,
) -> VerifyingKey {
    let reputation = block_tree.leader_reputation().expect("reputation");
    keys.iter()
        .map(|k| k.verifying_key())
        .find(|vk| RoundRobin.is_proposer_with_reputation(vk, view, vss, &reputation))
        .expect("one of the validators proposes")
}

fn hotstuff_at(view: ViewNumber, local: SigningKey, vss: ValidatorSetState) -> HotStuff {
    let config = HotStuffConfiguration { chain_id: CHAIN_ID, keypair: Keypair::new(local) };
    HotStuff::new(config, ViewInfo::new(view, 3_600_000), vss)
}

fn set_locked_pc(block_tree: &mut BlockTreeSingleton, pc: &PhaseCertificate) {
    let mut wb = BlockTreeWriteBatch::new();
    wb.set_locked_pc(pc).expect("set_locked_pc");
    block_tree.write(wb);
}

fn park_pending_header(
    hotstuff: &mut HotStuff,
    block: &Block,
    view: ViewNumber,
    keys: &[SigningKey],
    vss: &ValidatorSetState,
    block_tree: &mut BlockTreeSingleton,
) {
    let header = header_for(block, view);
    let proposer = proposer_for(view, keys, vss, block_tree);
    hotstuff
        .on_receive_msg(
            HotStuffMessage::ProposalHeader(header),
            &proposer,
            0,
            block_tree,
            &mut NullApp,
            &RoundRobin,
        )
        .expect("a header must not error");
}

fn drive_generic_qc(
    hotstuff: &mut HotStuff,
    block: CryptoHash,
    view: ViewNumber,
    keys: &[SigningKey],
    block_tree: &mut BlockTreeSingleton,
) {
    for sk in keys.iter().take(3) {
        let vote = PhaseVote::new(&Keypair::new(*sk), CHAIN_ID, view, block, Phase::Generic);
        hotstuff
            .on_receive_msg(
                HotStuffMessage::PhaseVote(vote),
                &sk.verifying_key(),
                0,
                block_tree,
                &mut NullApp,
                &RoundRobin,
            )
            .expect("a vote must not error");
    }
}

#[test]
fn pending_qc_violating_lock_clause_is_not_applied() {
    let keys = signing_keys(&[1, 2, 3, 4]);
    let set = validator_set(&keys);
    let (mut block_tree, vss) = steady_block_tree(&set);

    let view1 = ViewNumber::new(1);
    let mut hotstuff = hotstuff_at(view1, keys[0], vss.clone());

    let b = Block::new(
        BlockHeight::new(0),
        PhaseCertificate::genesis_pc(),
        CryptoHash::new([43u8; 32]),
        Data::new(vec![]),
    );
    park_pending_header(&mut hotstuff, &b, view1, &keys, &vss, &mut block_tree);

    let x = CryptoHash::new([77u8; 32]);
    let lock_pc = generic_pc(ViewNumber::new(10), x, &keys[..3], &set);
    set_locked_pc(&mut block_tree, &lock_pc);
    assert_eq!(block_tree.locked_pc().expect("locked_pc").view, ViewNumber::new(10));
    assert!(block_tree.highest_pc().expect("highest_pc").is_genesis_pc());

    drive_generic_qc(&mut hotstuff, b.hash, view1, &keys, &mut block_tree);

    assert_eq!(block_tree.locked_pc().expect("locked_pc").view, ViewNumber::new(10));
    assert!(block_tree.highest_pc().expect("highest_pc").is_genesis_pc());
}

#[test]
fn pending_qc_satisfying_lock_clause_still_applies() {
    let keys = signing_keys(&[1, 2, 3, 4]);
    let set = validator_set(&keys);
    let (mut block_tree, vss) = steady_block_tree(&set);

    let view1 = ViewNumber::new(1);
    let mut hotstuff = hotstuff_at(view1, keys[0], vss.clone());

    let b = Block::new(
        BlockHeight::new(0),
        PhaseCertificate::genesis_pc(),
        CryptoHash::new([44u8; 32]),
        Data::new(vec![]),
    );
    park_pending_header(&mut hotstuff, &b, view1, &keys, &vss, &mut block_tree);
    assert!(block_tree.highest_pc().expect("highest_pc").is_genesis_pc());

    drive_generic_qc(&mut hotstuff, b.hash, view1, &keys, &mut block_tree);

    assert_eq!(block_tree.highest_pc().expect("highest_pc").view, view1);
}

#[test]
fn pc_to_lock_is_view_monotonic() {
    let keys = signing_keys(&[1, 2, 3, 4]);
    let set = validator_set(&keys);
    let (mut block_tree, _vss) = steady_block_tree(&set);

    let x = CryptoHash::new([10u8; 32]);
    let lock_pc = generic_pc(ViewNumber::new(10), x, &keys[..3], &set);
    set_locked_pc(&mut block_tree, &lock_pc);

    let y = CryptoHash::new([20u8; 32]);
    let stale = generic_pc(ViewNumber::new(5), y, &keys[..3], &set);
    assert!(pc_to_lock(&stale, &block_tree).expect("pc_to_lock").is_none());

    let equal_view_sibling = generic_pc(ViewNumber::new(10), y, &keys[..3], &set);
    assert!(pc_to_lock(&equal_view_sibling, &block_tree).expect("pc_to_lock").is_none());

    let z = CryptoHash::new([30u8; 32]);
    let advancing = generic_pc(ViewNumber::new(11), z, &keys[..3], &set);
    let result = pc_to_lock(&advancing, &block_tree).expect("pc_to_lock");
    assert!(result.as_ref().is_some_and(|pc| pc.view == ViewNumber::new(11) && pc.block == z));
}

#[test]
fn update_locks_only_never_regresses_lock() {
    let keys = signing_keys(&[1, 2, 3, 4]);
    let set = validator_set(&keys);
    let (mut block_tree, _vss) = steady_block_tree(&set);

    let x = CryptoHash::new([10u8; 32]);
    let lock_pc = generic_pc(ViewNumber::new(10), x, &keys[..3], &set);
    set_locked_pc(&mut block_tree, &lock_pc);

    let y = CryptoHash::new([20u8; 32]);
    let stale = generic_pc(ViewNumber::new(5), y, &keys[..3], &set);
    block_tree.update_locks_only(&stale, &RoundRobin).expect("update_locks_only");

    assert_eq!(block_tree.locked_pc().expect("locked_pc").view, ViewNumber::new(10));
}

#[test]
fn old_set_decide_pc_is_rejected_by_is_correct() {
    let old_keys = signing_keys(&[1, 2, 3, 4]);
    let new_keys = signing_keys(&[101, 102, 103, 104]);
    let old_set = validator_set(&old_keys);
    let new_set = validator_set(&new_keys);

    let (block_tree, _vss) = transition_block_tree(&new_set, &old_set);

    let view = ViewNumber::new(1);
    let block = CryptoHash::new([9u8; 32]);

    let old_set_decide_pc = signed_pc(view, block, Phase::Decide, &old_keys, &old_set);
    assert!(!old_set_decide_pc.is_correct(&block_tree).expect("is_correct must not error"));

    let new_set_decide_pc = signed_pc(view, block, Phase::Decide, &new_keys, &new_set);
    assert!(new_set_decide_pc.is_correct(&block_tree).expect("is_correct must not error"));
}

#[test]
fn transition_discards_wrong_set_locally_collected_decide_pc() {
    let old_keys = signing_keys(&[1, 2, 3, 4]);
    let new_keys = signing_keys(&[101, 102, 103, 104]);
    let old_set = validator_set(&old_keys);
    let new_set = validator_set(&new_keys);

    let (mut block_tree, vss) = transition_block_tree(&new_set, &old_set);
    assert!(block_tree.highest_pc().expect("highest_pc read").is_genesis_pc());

    let view = ViewNumber::new(1);
    let mut hotstuff = hotstuff_at(view, SigningKey::from_bytes(&[200u8; 32]), vss);
    let block = CryptoHash::new([9u8; 32]);

    for sk in old_keys.iter().take(3) {
        let vote = PhaseVote::new(&Keypair::new(*sk), CHAIN_ID, view, block, Phase::Decide);
        let result = hotstuff.on_receive_msg(
            HotStuffMessage::PhaseVote(vote),
            &sk.verifying_key(),
            0,
            &mut block_tree,
            &mut NullApp,
            &RoundRobin,
        );
        assert!(result.is_ok());
    }

    assert!(block_tree.highest_pc().expect("highest_pc read").is_genesis_pc());
    assert!(!block_tree.validator_set_state().expect("state read").update_decided);
}

#[test]
fn a_quorum_of_votes_makes_a_certificate_once() {
    let keys = signing_keys(&[1, 2, 3, 4]);
    let set = validator_set(&keys);
    let view = ViewNumber::new(3);
    let block = CryptoHash::new([5u8; 32]);
    let mut collector = PhaseVoteCollector::new(CHAIN_ID, view, set.clone());
    let vote = |at: usize| {
        PhaseVote::new(&Keypair::new(keys[at]), CHAIN_ID, view, block, Phase::Generic)
    };
    assert!(collector.collect(&keys[0].verifying_key(), vote(0)).is_none());
    assert!(collector.collect(&keys[0].verifying_key(), vote(0)).is_none(), "counted once");
    assert!(collector.collect(&keys[1].verifying_key(), vote(1)).is_none());
    let pc = collector.collect(&keys[2].verifying_key(), vote(2)).expect("a quorum");
    assert!(pc.is_correctly_signed(&set));
    assert_eq!((pc.view, pc.block, pc.phase), (view, block, Phase::Generic));
}

#[test]
fn both_sets_are_collected_while_the_validators_change() {
    let old_keys = signing_keys(&[1, 2, 3, 4]);
    let new_keys = signing_keys(&[101, 102, 103, 104]);
    let state = ValidatorSetState::new(
        validator_set(&new_keys),
        validator_set(&old_keys),
        Some(BlockHeight::new(1)),
        false,
    );
    let view = ViewNumber::new(3);
    let block = CryptoHash::new([5u8; 32]);
    let mut pair = ActiveCollectorPair::new(CHAIN_ID, view, &state);
    let mut last = None;
    for sk in old_keys.iter().take(3) {
        let vote = PhaseVote::new(&Keypair::new(*sk), CHAIN_ID, view, block, Phase::Prepare);
        last = pair.collect(&sk.verifying_key(), vote);
    }
    assert!(last.expect("a quorum of the old set").is_correctly_signed(&validator_set(&old_keys)));
}

#[test]
fn a_quorum_of_refusals_makes_a_certificate() {
    let keys = signing_keys(&[1, 2, 3, 4]);
    let set = validator_set(&keys);
    let view = ViewNumber::new(3);
    let mut collector = NECollector::new(view, ViewNumber::new(1), set.clone());
    let refusal =
        |at: usize| NEMessage::new(&Keypair::new(keys[at]), CHAIN_ID, view, ViewNumber::new(1));
    for at in 0..2 {
        let ne = refusal(at);
        assert!(collector
            .collect(&keys[at].verifying_key(), ne.view, ne.high_tip_qc_view, ne.signature)
            .is_none());
    }
    let ne = refusal(2);
    let nec = collector
        .collect(&keys[2].verifying_key(), ne.view, ne.high_tip_qc_view, ne.signature)
        .expect("a quorum");
    assert!(is_nec_correctly_signed(&nec, &set));
}

#[test]
fn the_commit_rule_wants_consecutive_views() {
    let keys = signing_keys(&[1, 2, 3, 4]);
    let set = validator_set(&keys);
    let (mut block_tree, _vss) = steady_block_tree(&set);
    let a = Block::new(
        BlockHeight::new(0),
        PhaseCertificate::genesis_pc(),
        CryptoHash::new([1u8; 32]),
        Data::new(vec![]),
    );
    let b = Block::new(
        BlockHeight::new(1),
        generic_pc(ViewNumber::new(1), a.hash, &keys, &set),
        CryptoHash::new([2u8; 32]),
        Data::new(vec![]),
    );
    block_tree.insert(&a, None, None).unwrap();
    block_tree.insert(&b, None, None).unwrap();
    let next = generic_pc(ViewNumber::new(2), b.hash, &keys, &set);
    assert_eq!(block_to_commit(&next, &block_tree), Ok(Some(a.hash)));
    let late = generic_pc(ViewNumber::new(3), b.hash, &keys, &set);
    assert_eq!(block_to_commit(&late, &block_tree), Ok(None));
    let decided = signed_pc(ViewNumber::new(9), b.hash, Phase::Commit, &keys, &set);
    assert_eq!(block_to_commit(&decided, &block_tree), Ok(Some(b.hash)));
}

#[test]
fn a_block_that_waits_for_the_next_phase_is_proposed_again() {
    let keys = signing_keys(&[1, 2, 3, 4]);
    let set = validator_set(&keys);
    let (mut block_tree, _vss) = steady_block_tree(&set);
    let block = CryptoHash::new([1u8; 32]);
    let prepare = signed_pc(ViewNumber::new(4), block, Phase::Prepare, &keys, &set);
    block_tree.advance_highest_pc_from_remote(&prepare).unwrap();
    assert_eq!(repropose_block(ViewNumber::new(5), &block_tree), Ok(None));
    assert_eq!(repropose_block(ViewNumber::new(6), &block_tree), Ok(Some(block)));
}

#[test]
fn a_nudge_is_safe_in_the_next_view_only() {
    let keys = signing_keys(&[1, 2, 3, 4]);
    let set = validator_set(&keys);
    let (mut block_tree, _vss) = steady_block_tree(&set);
    let block = Block::new(
        BlockHeight::new(0),
        PhaseCertificate::genesis_pc(),
        CryptoHash::new([1u8; 32]),
        Data::new(vec![]),
    );
    let mut updates = ValidatorSetUpdates::new();
    updates.insert(SigningKey::from_bytes(&[9u8; 32]).verifying_key(), Power::new(1));
    block_tree.insert(&block, None, Some(&updates)).unwrap();
    let justify = signed_pc(ViewNumber::new(4), block.hash, Phase::Prepare, &keys, &set);
    assert_eq!(safe_pc(&justify, &block_tree, CHAIN_ID), Ok(true));
    let nudge = Nudge::new(CHAIN_ID, ViewNumber::new(5), justify);
    assert_eq!(safe_nudge(&nudge, ViewNumber::new(5), &block_tree, CHAIN_ID), Ok(true));
    assert_eq!(safe_nudge(&nudge, ViewNumber::new(6), &block_tree, CHAIN_ID), Ok(false));
    assert_eq!(safe_nudge(&nudge, ViewNumber::new(5), &block_tree, ChainID(1)), Ok(false));
}
