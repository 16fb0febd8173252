//! Healing a tree whose uncommitted blocks miss an ancestor.

use std::collections::BTreeMap;

use hotstuff_rs::block_tree::errors::{BlockTreeError, KVGetError, Key};
use hotstuff_rs::block_tree::recovery::{
    apply, inject_hole_for_testing, inspect, verify_after, Flaw, RecoveryError,
};
use hotstuff_rs::block_tree::store::Store;
use hotstuff_rs::block_tree::tree::BlockTreeSingleton;
use hotstuff_rs::block_tree::write_batch::BlockTreeWriteBatch;
use hotstuff_rs::codec::encode_vote_message;
use hotstuff_rs::effects::Effect;
use hotstuff_rs::hotstuff::types::{Phase, PhaseCertificate};
use hotstuff_rs::pacemaker::{TimeoutCertificate, TipInfo, VoterMetadata};
use hotstuff_rs::types::block::Block;
use hotstuff_rs::types::crypto_primitives::{Keypair, SigningKey};
use hotstuff_rs::types::data_types::{
    BlockHeight, ChainID, CryptoHash, Data, DataLen, Power, SignatureSet, ViewNumber,
};
use hotstuff_rs::types::update_sets::AppStateUpdates;
use hotstuff_rs::types::validator_set::{
    ValidatorSet, ValidatorSetState, ValidatorSetUpdatesStatus,
};

const CHAIN_ID: ChainID = ChainID(0);

fn signing_keys(seeds: &[u8]) -> Vec<SigningKey> {
    seeds.iter().map(|s| SigningKey::from_bytes(&[*s; 32])).collect()
}

fn validator_set(keys: &[SigningKey]) -> ValidatorSet {
    let mut vs = ValidatorSet::new();
    for k in keys {
        vs.put(&k.verifying_key(), Power::new(1));
    }
    vs
}

fn generic_pc(
    view: u64,
    block: CryptoHash,
    signers: &[SigningKey],
    set: &ValidatorSet,
) -> PhaseCertificate {
    let v = ViewNumber::new(view);
    let message = encode_vote_message(CHAIN_ID, v, &block, Phase::Generic);
    let mut signatures = SignatureSet::new(set.len());
    for sk in signers {
        let pos = set.position(&sk.verifying_key()).expect("signer in set");
        signatures.set(pos, Some(Keypair::new(*sk).sign(&message)));
    }
    PhaseCertificate { chain_id: CHAIN_ID, view: v, block, phase: Phase::Generic, signatures }
}

fn blk(height: u64, justify: PhaseCertificate) -> Block {
    Block::new(
        BlockHeight::new(height),
        justify,
        CryptoHash::new([0u8; 32]),
        Data::new(vec![]),
    )
}

struct Wedged {
    bt: BlockTreeSingleton,
    keys: Vec<SigningKey>,
    vs: ValidatorSet,
    h1: CryptoHash,
    h2: CryptoHash,
    h3: CryptoHash,
    h4p: CryptoHash,
    h5: CryptoHash,
    h6: CryptoHash,
    h7: CryptoHash,
    missing: CryptoHash,
    recovery_pc: PhaseCertificate,
}

/// Committed h1..h3, an uncommitted child h4' of h3, and a branch h5..h7 whose root justifies a
/// block that was never inserted.
fn wedged_tree() -> Wedged {
    let keys = signing_keys(&[1, 2, 3, 4]);
    let vs = validator_set(&keys);
    let mut bt = BlockTreeSingleton::new(Store::new());
    let vss = ValidatorSetState::new(vs.clone(), vs.clone(), None, true);
    bt.initialize(&AppStateUpdates::new(), &vss).expect("initialize");

    let h1 = blk(1, PhaseCertificate::genesis_pc());
    let h2 = blk(2, generic_pc(1, h1.hash, &keys, &vs));
    let h3 = blk(3, generic_pc(2, h2.hash, &keys, &vs));
    bt.insert(&h1, None, None).expect("insert h1");
    bt.insert(&h2, None, None).expect("insert h2");
    bt.insert(&h3, None, None).expect("insert h3");

    let recovery_pc = generic_pc(3, h3.hash, &keys, &vs);
    let h4p = blk(4, recovery_pc.clone());
    bt.insert(&h4p, None, None).expect("insert h4p");
    bt.add_speculative_commit(h4p.hash).expect("spec commit");

    let missing = blk(5, generic_pc(500, h2.hash, &keys, &vs));
    let h5 = blk(6, generic_pc(600, missing.hash, &keys, &vs));
    let h6 = blk(7, generic_pc(700, h5.hash, &keys, &vs));
    let h7 = blk(8, generic_pc(800, h6.hash, &keys, &vs));
    bt.insert(&h5, None, None).expect("insert h5");
    bt.insert(&h6, None, None).expect("insert h6");
    bt.insert(&h7, None, None).expect("insert h7");

    let mut wb = BlockTreeWriteBatch::new_unsafe();
    wb.set_block_at_height(BlockHeight::new(1), &h1.hash).unwrap();
    wb.set_block_at_height(BlockHeight::new(2), &h2.hash).unwrap();
    wb.set_block_at_height(BlockHeight::new(3), &h3.hash).unwrap();
    wb.set_highest_committed_block(&h3.hash).unwrap();
    bt.write(wb);

    let mut wb2 = BlockTreeWriteBatch::new_unsafe();
    wb2.set_highest_pc(&generic_pc(900, h6.hash, &keys, &vs)).unwrap();
    wb2.set_locked_pc(&generic_pc(899, h5.hash, &keys, &vs)).unwrap();
    bt.write(wb2);
    bt.set_highest_view_entered(ViewNumber::new(900)).unwrap();
    bt.set_highest_view_phase_voted(ViewNumber::new(900)).unwrap();
    bt.set_last_voted_proposal(ViewNumber::new(900), h7.hash).unwrap();
    let tip = TipInfo {
        block_hash: h7.hash,
        block_height: h7.height,
        block_justify: h7.justify.clone(),
        block_data_hash: h7.data_hash,
        view: ViewNumber::new(900),
    };
    bt.set_local_tip(&tip).unwrap();
    let tc = TimeoutCertificate {
        chain_id: CHAIN_ID,
        view: ViewNumber::new(900),
        signatures: SignatureSet::new(vs.len()),
        high_tip: Some(tip),
        high_qc: None,
        high_tip_is_winner: false,
        voter_metadata: VoterMetadata::new(vec![]),
    };
    bt.set_highest_tc(&tc).unwrap();

    Wedged {
        bt,
        keys,
        vs,
        h1: h1.hash,
        h2: h2.hash,
        h3: h3.hash,
        h4p: h4p.hash,
        h5: h5.hash,
        h6: h6.hash,
        h7: h7.hash,
        missing: missing.hash,
        recovery_pc,
    }
}

fn sorted(mut v: Vec<CryptoHash>) -> Vec<CryptoHash> {
    v.sort_by_key(|h| h.bytes());
    v
}

#[test]
fn inspect_classifies_wedged_tree() {
    let w = wedged_tree();
    let report = inspect(&w.bt).expect("inspect ok");
    assert_eq!(report.committed_frontier_height, BlockHeight::new(3));
    assert_eq!(report.committed_frontier_hash, w.h3);
    assert_eq!(sorted(report.uncommitted.clone()), sorted(vec![w.h4p, w.h5, w.h6, w.h7]));
    assert_eq!(report.holes, vec![w.missing]);
    assert_eq!(report.pc_candidates, vec![w.recovery_pc.clone()]);
    assert_eq!(report.committed_retained, 3);
}

#[test]
fn prune_removes_only_uncommitted() {
    let mut w = wedged_tree();
    apply(&mut w.bt, &w.recovery_pc).expect("apply ok");
    let bt = &w.bt;

    for h in [w.h4p, w.h5, w.h6, w.h7] {
        assert!(bt.block(&h).unwrap().is_none(), "block gone");
        assert!(bt.children(&h).is_err(), "children gone");
        assert!(bt.pending_app_state_updates(&h).unwrap().is_none(), "pending app state gone");
        assert!(
            matches!(
                bt.validator_set_updates_status(&h).unwrap(),
                ValidatorSetUpdatesStatus::NoUpdates
            ),
            "vs updates gone"
        );
    }
    assert!(bt.block(&w.h1).unwrap().is_some());
    assert!(bt.block(&w.h2).unwrap().is_some());
    assert!(bt.block(&w.h3).unwrap().is_some());
    assert_eq!(bt.block_justify(&w.h3).unwrap().block, w.h2);
    assert!(bt.children(&w.h3).is_err(), "frontier children cleared");
    assert!(bt.children(&w.missing).is_err(), "hole children cleared");
}

#[test]
fn singletons_reset_and_safety_vars_kept() {
    let mut w = wedged_tree();
    apply(&mut w.bt, &w.recovery_pc).expect("apply ok");
    let bt = &w.bt;

    assert_eq!(bt.highest_pc().unwrap(), w.recovery_pc);
    assert_eq!(bt.locked_pc().unwrap(), w.recovery_pc);
    assert_eq!(bt.store.newest_block, Some(w.h3));
    assert!(bt.local_tip().unwrap().is_none());
    assert!(bt.highest_tc().unwrap().is_none());
    assert!(bt.speculative_commits().unwrap().is_empty());

    assert_eq!(bt.highest_view_entered().unwrap(), ViewNumber::new(900));
    assert_eq!(bt.highest_view_voted().unwrap(), Some(ViewNumber::new(900)));
    assert_eq!(bt.last_voted_proposal().unwrap(), Some((ViewNumber::new(900), w.h7)));

    assert!(bt.block_tree_pruned_height().unwrap().is_none());
    assert!(bt.app_fed_block_height().unwrap().is_none());
}

#[test]
fn apply_rejects_bad_pc() {
    let mut w = wedged_tree();

    let pc_wrong_block = generic_pc(3, w.h2, &w.keys, &w.vs);
    assert!(matches!(apply(&mut w.bt, &pc_wrong_block), Err(RecoveryError::PcWrongBlock)));

    let disjoint = signing_keys(&[101, 102, 103, 104]);
    let disjoint_set = validator_set(&disjoint);
    let pc_bad_sig = generic_pc(3, w.h3, &disjoint, &disjoint_set);
    assert!(matches!(apply(&mut w.bt, &pc_bad_sig), Err(RecoveryError::PcBadSignatures)));

    let pc_wrong_phase = PhaseCertificate {
        chain_id: CHAIN_ID,
        view: ViewNumber::new(3),
        block: w.h3,
        phase: Phase::Precommit,
        signatures: SignatureSet::new(w.vs.len()),
    };
    assert!(matches!(apply(&mut w.bt, &pc_wrong_phase), Err(RecoveryError::PcWrongPhase)));
}

#[test]
fn verify_after_ok() {
    let mut w = wedged_tree();
    apply(&mut w.bt, &w.recovery_pc).expect("apply ok");
    verify_after(&w.bt).expect("verify ok after apply");
}

#[test]
fn verify_detects_corruption() {
    let mut w = wedged_tree();
    apply(&mut w.bt, &w.recovery_pc).expect("apply ok");

    let mut wb = BlockTreeWriteBatch::new_unsafe();
    wb.delete_block(&w.h3, DataLen::new(0));
    w.bt.write(wb);

    assert!(verify_after(&w.bt).is_err());
}

#[test]
fn apply_is_idempotent() {
    let mut w = wedged_tree();

    let r1 = apply(&mut w.bt, &w.recovery_pc).expect("first apply ok");
    assert!(r1.pruned > 0, "first apply prunes");

    let r2 = apply(&mut w.bt, &w.recovery_pc).expect("second apply ok");
    assert_eq!(r2.pruned, 0, "second apply prunes nothing");

    verify_after(&w.bt).expect("verify ok");
    assert_eq!(w.bt.highest_pc().unwrap(), w.recovery_pc);
}

#[test]
fn inject_then_unwedge_roundtrip() {
    let keys = signing_keys(&[1, 2, 3, 4]);
    let vs = validator_set(&keys);
    let mut bt = BlockTreeSingleton::new(Store::new());
    let vss = ValidatorSetState::new(vs.clone(), vs.clone(), None, true);
    bt.initialize(&AppStateUpdates::new(), &vss).unwrap();

    let h1 = blk(1, PhaseCertificate::genesis_pc());
    let h2 = blk(2, generic_pc(1, h1.hash, &keys, &vs));
    let h3 = blk(3, generic_pc(2, h2.hash, &keys, &vs));
    let recovery_pc = generic_pc(3, h3.hash, &keys, &vs);
    let h4 = blk(4, recovery_pc.clone());
    let h5 = blk(5, generic_pc(4, h4.hash, &keys, &vs));
    let h6 = blk(6, generic_pc(5, h5.hash, &keys, &vs));
    for b in [&h1, &h2, &h3, &h4, &h5, &h6] {
        bt.insert(b, None, None).unwrap();
    }
    let mut wb = BlockTreeWriteBatch::new_unsafe();
    wb.set_block_at_height(BlockHeight::new(1), &h1.hash).unwrap();
    wb.set_block_at_height(BlockHeight::new(2), &h2.hash).unwrap();
    wb.set_block_at_height(BlockHeight::new(3), &h3.hash).unwrap();
    wb.set_highest_committed_block(&h3.hash).unwrap();
    wb.set_highest_pc(&generic_pc(5, h5.hash, &keys, &vs)).unwrap();
    bt.write(wb);

    let before = inspect(&bt).expect("inspect healthy");
    assert!(before.holes.is_empty(), "healthy tree has no holes");

    let victim = inject_hole_for_testing(&mut bt, None).expect("inject");
    assert_eq!(victim, h5.hash);

    assert!(matches!(
        inject_hole_for_testing(&mut bt, Some(h5.hash)),
        Err(RecoveryError::VerifyFailed(_))
    ));

    let wedged = inspect(&bt).expect("inspect wedged");
    assert_eq!(wedged.holes, vec![h5.hash]);
    assert_eq!(sorted(wedged.uncommitted.clone()), sorted(vec![h4.hash, h6.hash]));
    assert_eq!(wedged.pc_candidates.len(), 1);

    let surgery = apply(&mut bt, &recovery_pc).expect("apply on injected wedge");
    assert_eq!(surgery.pruned, 2);
    verify_after(&bt).expect("clean after surgery");
}

#[test]
fn a_tree_without_commits_cannot_be_healed() {
    let keys = signing_keys(&[1]);
    let vs = validator_set(&keys);
    let mut bt = BlockTreeSingleton::new(Store::new());
    let vss = ValidatorSetState::new(vs.clone(), vs.clone(), None, true);
    bt.initialize(&AppStateUpdates::new(), &vss).unwrap();
    assert!(matches!(inspect(&bt), Err(RecoveryError::NoCommittedBlock)));
    let pc = generic_pc(1, CryptoHash::new([1u8; 32]), &keys, &vs);
    assert_eq!(apply(&mut bt, &pc), Err(RecoveryError::NoCommittedBlock));
}

#[test]
fn what_is_still_wrong_is_named() {
    let w = wedged_tree();
    assert_eq!(
        verify_after(&w.bt),
        Err(RecoveryError::VerifyFailed(Flaw::UncommittedPresent(4)))
    );
}

#[test]
fn only_uncommitted_inner_blocks_can_be_taken_out() {
    let mut w = wedged_tree();
    assert_eq!(
        inject_hole_for_testing(&mut w.bt, Some(w.h2)),
        Err(RecoveryError::VerifyFailed(Flaw::NotUncommitted(w.h2)))
    );
    assert_eq!(
        inject_hole_for_testing(&mut w.bt, Some(w.h4p)),
        Err(RecoveryError::VerifyFailed(Flaw::NotInjectable(w.h4p)))
    );
    assert_eq!(inject_hole_for_testing(&mut w.bt, Some(w.h6)), Ok(w.h6));
    assert!(!w.bt.contains(&w.h6));
}

/// The store of a wedged tree, with some values replaced.
fn damaged(w: &mut Wedged, values: Vec<(Vec<u8>, Vec<u8>)>) -> BlockTreeSingleton {
    let mut held: BTreeMap<Vec<u8>, Vec<u8>> = BTreeMap::new();
    for effect in w.bt.take_journal() {
        if let Effect::Persist(batch) = effect {
            for write in batch.key_value_writes().unwrap() {
                match write.value {
                    Some(value) => held.insert(write.key, value),
                    None => held.remove(&write.key),
                };
            }
        }
    }
    held.extend(values);
    BlockTreeSingleton::new(Store::load(&held.into_iter().collect()))
}

fn owned(tag: u8, block: CryptoHash, part: &[u8]) -> Vec<u8> {
    let mut key = vec![tag];
    key.extend(block.bytes());
    key.extend(part);
    key
}

fn undecodable<T>(key: Key) -> Result<T, RecoveryError> {
    let e = BlockTreeError::KVGetError(KVGetError::DeserializeValueError { key });
    Err(RecoveryError::BlockTree(e))
}

#[test]
fn what_an_inspection_needs_and_cannot_read_is_named() {
    let cases = [
        (vec![11], Key::NewestBlock),
        (vec![10], Key::HighestCommittedBlock),
        (vec![22], Key::HighestCommittedBlock),
        (vec![1, 2, 0, 0, 0, 0, 0, 0, 0], Key::BlockAtHeight { height: BlockHeight::new(2) }),
        (vec![19], Key::HighestTC),
    ];
    for (at, key) in cases {
        let mut w = wedged_tree();
        let mut bt = damaged(&mut w, vec![(at, vec![7])]);
        assert_eq!(inspect(&bt).err(), undecodable::<()>(key).err());
        assert_eq!(verify_after(&bt), undecodable(key));
        assert_eq!(inject_hole_for_testing(&mut bt, None), undecodable(key));
        assert_eq!(apply(&mut bt, &w.recovery_pc), undecodable(key));
        assert!(bt.take_journal().is_empty());
    }
    // The lowest of two heights.
    let mut w = wedged_tree();
    let third = vec![1, 3, 0, 0, 0, 0, 0, 0, 0];
    let first = vec![1, 1, 0, 0, 0, 0, 0, 0, 0];
    let bt = damaged(&mut w, vec![(third, vec![7]), (first, vec![7])]);
    let key = Key::BlockAtHeight { height: BlockHeight::new(1) };
    assert_eq!(inspect(&bt).err(), undecodable::<()>(key).err());
    // The height of the frontier.
    let mut w = wedged_tree();
    let height = owned(0, w.h3, &[0]);
    let bt = damaged(&mut w, vec![(height, vec![7])]);
    assert_eq!(inspect(&bt).err(), undecodable::<()>(Key::BlockHeight { block: w.h3 }).err());
}

#[test]
fn a_block_that_cannot_be_read_is_a_hole() {
    let mut w = wedged_tree();
    let justify = owned(0, w.h6, &[1]);
    let bt = damaged(&mut w, vec![(justify, vec![7])]);
    let report = inspect(&bt).unwrap();
    // What lies below it is not come to: nobody knows its parent.
    assert_eq!(sorted(report.uncommitted), sorted(vec![w.h4p, w.h7]));
    assert_eq!(report.holes, vec![w.h6]);

    // Children that cannot be read are taken as none.
    let mut w = wedged_tree();
    let children = owned(2, w.h3, &[]);
    let bt = damaged(&mut w, vec![(children, vec![7])]);
    let report = inspect(&bt).unwrap();
    assert!(report.uncommitted.contains(&w.h4p), "it is speculatively committed");
}

#[test]
fn surgery_writes_over_what_cannot_be_read() {
    let mut w = wedged_tree();
    let mut bt = damaged(&mut w, vec![(vec![17], vec![7]), (vec![9], vec![7]), (vec![7], vec![7])]);
    assert!(bt.local_tip().is_err() && bt.highest_pc().is_err() && bt.locked_pc().is_err());
    let report = apply(&mut bt, &w.recovery_pc).unwrap();
    assert_eq!(report.pruned, 4);
    assert!(bt.store.is_readable());
    assert_eq!(bt.highest_pc().unwrap(), w.recovery_pc);
    assert_eq!(verify_after(&bt), Ok(()));

    // The certificate cannot be checked without the validators.
    let mut w = wedged_tree();
    let mut bt = damaged(&mut w, vec![(vec![5], vec![7])]);
    assert_eq!(apply(&mut bt, &w.recovery_pc), undecodable(Key::CommittedValidatorSet));
    assert!(bt.take_journal().is_empty());

    // A frontier that is lost but for its height stays so.
    let mut w = wedged_tree();
    let justify = owned(0, w.h3, &[1]);
    let mut bt = damaged(&mut w, vec![(justify, vec![7])]);
    assert_eq!(
        apply(&mut bt, &w.recovery_pc),
        Err(RecoveryError::VerifyFailed(Flaw::FrontierMissing))
    );
    assert_eq!(bt.highest_pc().unwrap(), w.recovery_pc);
}

#[test]
fn what_is_left_unreadable_after_surgery_is_named() {
    let healed = |values: Vec<(Vec<u8>, Vec<u8>)>| {
        let mut w = wedged_tree();
        let pc = w.recovery_pc.clone();
        apply(&mut w.bt, &pc).unwrap();
        verify_after(&damaged(&mut w, values))
    };
    assert_eq!(healed(vec![]), Ok(()));
    assert_eq!(healed(vec![(vec![9], vec![7])]), undecodable(Key::HighestPC));
    assert_eq!(healed(vec![(vec![7], vec![7])]), undecodable(Key::LockedPC));
    assert_eq!(healed(vec![(vec![5], vec![7])]), undecodable(Key::CommittedValidatorSet));
    // The tip is not looked at.
    assert_eq!(healed(vec![(vec![17], vec![7])]), Ok(()));
}
