//! The block tree: committing, pruning, speculation, evidence and leader records.

use hotstuff_rs::block_tree::errors::{BlockTreeError, KVGetError, Key};
use hotstuff_rs::block_tree::retention::{
    block_tree_retention, set_block_tree_retention, MIN_BLOCK_TREE_RETENTION,
};
use hotstuff_rs::block_tree::store::Store;
use hotstuff_rs::block_tree::tree::{
    note_gap_commit_deferral, BlockTreeSingleton, GapWatch, GAP_COMMIT_WARN_EVERY,
};
use hotstuff_rs::block_tree::write_batch::BlockTreeWriteBatch;
use hotstuff_rs::effects::Effect;
use hotstuff_rs::events::Event;
use hotstuff_rs::hotstuff::reputation::{LeaderReputation, LeaderReputationEntry};
use hotstuff_rs::hotstuff::types::{EquivocationEvidence, Phase, PhaseCertificate};
use hotstuff_rs::pacemaker::{TimeoutCertificate, TipInfo, VoterMetadata};
use hotstuff_rs::roles::{Roles, RoundRobin};
use hotstuff_rs::types::block::Block;
use hotstuff_rs::types::crypto_primitives::SigningKey;
use hotstuff_rs::types::data_types::{
    BlockHeight, Bytes, ChainID, CryptoHash, Data, DataLen, Datum, Power, SignatureSet,
    TotalPower, VerifyingKey, ViewNumber,
};
use hotstuff_rs::types::update_sets::AppStateUpdates;
use hotstuff_rs::types::validator_set::{
    ValidatorSet, ValidatorSetState, ValidatorSetUpdates, ValidatorSetUpdatesStatus,
};

fn vk(seed: u8) -> VerifyingKey {
    SigningKey::from_bytes(&[seed; 32]).verifying_key()
}

fn generic_pc(view: u64, block: CryptoHash) -> PhaseCertificate {
    PhaseCertificate {
        chain_id: ChainID::new(0),
        view: ViewNumber::new(view),
        block,
        phase: Phase::Generic,
        signatures: SignatureSet::new(0),
    }
}

fn child(height: u64, justify: PhaseCertificate) -> Block {
    Block::new(
        BlockHeight::new(height),
        justify,
        CryptoHash::new([height as u8; 32]),
        Data::new(vec![]),
    )
}

fn initialized_tree() -> BlockTreeSingleton {
    let mut vs = ValidatorSet::new();
    vs.put(&vk(1), Power::new(1));
    let vss = ValidatorSetState::new(vs.clone(), vs, None, true);
    let mut tree = BlockTreeSingleton::new(Store::new());
    tree.initialize(&AppStateUpdates::new(), &vss).expect("init tree");
    tree
}

/// A committed chain of `len` blocks, from height 0 up.
fn seed_committed_chain(bt: &mut BlockTreeSingleton, len: u64) -> Vec<CryptoHash> {
    let mut hashes = Vec::with_capacity(len as usize);
    let mut justify = PhaseCertificate::genesis_pc();
    for h in 0..len {
        let block = child(h, justify);
        bt.insert(&block, None, None).unwrap();
        hashes.push(block.hash);
        justify = generic_pc(h + 1, block.hash);
    }
    let tip = *hashes.last().unwrap();
    let mut wb = BlockTreeWriteBatch::new();
    bt.commit(&mut wb, &tip).unwrap();
    bt.write(wb);
    hashes
}

fn extend_and_commit(bt: &mut BlockTreeSingleton, height: u64, parent: CryptoHash) -> CryptoHash {
    let block = child(height, generic_pc(height, parent));
    bt.insert(&block, None, None).unwrap();
    let mut wb = BlockTreeWriteBatch::new();
    bt.commit(&mut wb, &block.hash).unwrap();
    bt.write(wb);
    block.hash
}

/// A store that holds what was written to another one.
fn rebuilt(journal: Vec<Effect>) -> Store {
    let mut store = Store::new();
    for effect in journal {
        if let Effect::Persist(batch) = effect {
            store.apply(&batch);
        }
    }
    store
}

#[test]
fn leader_rep_cache_write_through() {
    let mut bt = BlockTreeSingleton::new(Store::new());
    let leader = vk(1);
    bt.record_leader_success(&leader).unwrap();

    let cached = bt.leader_reputation().unwrap();
    let entry =
        cached.entries.iter().find(|(k, _)| *k == leader.to_bytes()).expect("leader recorded");
    assert_eq!((entry.1.successes, entry.1.total), (1, 1));

    // What was written holds the same.
    let stored = BlockTreeSingleton::new(rebuilt(bt.take_journal()));
    assert_eq!(stored.leader_reputation().unwrap(), cached);

    // Reading does not touch what is stored.
    for _ in 0..5 {
        let _ = bt.leader_reputation().unwrap();
    }
    assert!(bt.take_journal().is_empty());
}

#[test]
fn leader_rep_cache_deterministic() {
    let v0 = vk(10);
    let v1 = vk(11);
    let v2 = vk(12);
    let mut validator_set = ValidatorSet::new();
    let mut up = ValidatorSetUpdates::new();
    up.insert(v0, Power::new(100));
    up.insert(v1, Power::new(100));
    up.insert(v2, Power::new(100));
    validator_set.apply_updates(&up);

    let mut bt = BlockTreeSingleton::new(Store::new());
    for i in 0..120u32 {
        if i % 3 == 0 {
            bt.record_leader_timeout(&v1).unwrap();
        } else {
            bt.record_leader_success(&v0).unwrap();
        }
    }
    let warm = bt.leader_reputation().unwrap();

    let cold = BlockTreeSingleton::new(rebuilt(bt.take_journal())).leader_reputation().unwrap();
    assert_eq!(warm, cold);

    for view in [25u64, 99, 333, 1000] {
        let vn = ViewNumber::new(view);
        assert_eq!(
            RoundRobin.select_leader_with_reputation(vn, &validator_set, &warm),
            RoundRobin.select_leader_with_reputation(vn, &validator_set, &cold),
        );
    }

    let e0 = warm.entries.iter().find(|(k, _)| *k == v0.to_bytes()).expect("v0 present");
    assert!(e0.1.total < 80, "decay halved the counters (v0.total={})", e0.1.total);
}

#[test]
fn commit_refuses_to_advance_across_a_hole() {
    let mut bt = BlockTreeSingleton::new(Store::new());
    let hashes = seed_committed_chain(&mut bt, 2);
    assert_eq!(bt.highest_committed_block_height().unwrap(), Some(BlockHeight::new(1)));

    let block2 = child(2, generic_pc(2, hashes[1]));
    let block3 = child(3, generic_pc(3, block2.hash));
    bt.insert(&block3, None, None).unwrap();

    let mut wb = BlockTreeWriteBatch::new();
    let committed = bt.commit(&mut wb, &block3.hash).unwrap();
    bt.write(wb);
    assert!(committed.is_empty());
    assert_eq!(bt.highest_committed_block_height().unwrap(), Some(BlockHeight::new(1)));
    assert!(bt.block_at_height(BlockHeight::new(2)).unwrap().is_none());
    assert!(bt.block_at_height(BlockHeight::new(3)).unwrap().is_none());

    bt.insert(&block2, None, None).unwrap();
    let mut wb2 = BlockTreeWriteBatch::new();
    let committed2 = bt.commit(&mut wb2, &block3.hash).unwrap();
    bt.write(wb2);
    assert_eq!(committed2.len(), 2);
    assert_eq!(bt.highest_committed_block_height().unwrap(), Some(BlockHeight::new(3)));
    assert!(bt.block_at_height(BlockHeight::new(2)).unwrap().is_some());
    assert!(bt.block_at_height(BlockHeight::new(3)).unwrap().is_some());
}

#[test]
fn pruner_removes_old_committed_blocks() {
    let mut bt = BlockTreeSingleton::new(Store::new());
    let hashes = seed_committed_chain(&mut bt, 51);

    let pruned = bt.prune_old_committed_blocks_with(8).unwrap();
    assert_eq!(pruned, 42);

    for h in 0..42u64 {
        assert!(bt.block_at_height(BlockHeight::new(h)).unwrap().is_none());
        assert!(bt.block_height(&hashes[h as usize]).unwrap().is_none());
        assert!(bt.children(&hashes[h as usize]).is_err());
    }
    for h in 42..=50u64 {
        assert!(bt.block_at_height(BlockHeight::new(h)).unwrap().is_some());
    }
    assert_eq!(bt.highest_committed_block().unwrap(), Some(hashes[50]));
    assert_eq!(bt.block_tree_pruned_height().unwrap(), Some(BlockHeight::new(42)));
}

#[test]
fn pruner_bounds_batch_size() {
    let mut bt = BlockTreeSingleton::new(Store::new());
    seed_committed_chain(&mut bt, 200);

    assert_eq!(bt.prune_old_committed_blocks_with(8).unwrap(), 64);
    assert_eq!(bt.prune_old_committed_blocks_with(8).unwrap(), 64);
    assert_eq!(bt.prune_old_committed_blocks_with(8).unwrap(), 63);
    assert_eq!(bt.prune_old_committed_blocks_with(8).unwrap(), 0);

    assert!(bt.block_at_height(BlockHeight::new(190)).unwrap().is_none());
    assert!(bt.block_at_height(BlockHeight::new(191)).unwrap().is_some());
}

#[test]
fn pruner_noop_when_underwater() {
    let mut bt = BlockTreeSingleton::new(Store::new());
    assert_eq!(bt.prune_old_committed_blocks_with(8).unwrap(), 0);

    seed_committed_chain(&mut bt, 10);
    assert_eq!(bt.prune_old_committed_blocks_with(20).unwrap(), 0);
    assert!(bt.block_at_height(BlockHeight::new(0)).unwrap().is_some());
}

#[test]
fn pruner_commit_safe_across_horizon() {
    let mut bt = BlockTreeSingleton::new(Store::new());
    let hashes = seed_committed_chain(&mut bt, 51);
    assert_eq!(bt.prune_old_committed_blocks_with(8).unwrap(), 42);

    let new_tip = extend_and_commit(&mut bt, 51, hashes[50]);
    assert_eq!(bt.highest_committed_block().unwrap(), Some(new_tip));

    assert_eq!(bt.prune_old_committed_blocks_with(8).unwrap(), 1);
    assert!(bt.block_at_height(BlockHeight::new(42)).unwrap().is_none());
    assert!(bt.block_at_height(BlockHeight::new(43)).unwrap().is_some());
}

#[test]
fn pruner_retention_switch_and_wrapper() {
    let mut bt = BlockTreeSingleton::new(Store::new());
    seed_committed_chain(&mut bt, 51);

    set_block_tree_retention(&mut bt.retention, None);
    assert_eq!(block_tree_retention(&bt.retention), None);
    assert_eq!(bt.prune_old_committed_blocks().unwrap(), 0);

    set_block_tree_retention(&mut bt.retention, Some(2));
    assert_eq!(block_tree_retention(&bt.retention), Some(MIN_BLOCK_TREE_RETENTION));

    set_block_tree_retention(&mut bt.retention, Some(0));
    assert_eq!(block_tree_retention(&bt.retention), None);

    set_block_tree_retention(&mut bt.retention, Some(8));
    assert!(bt.prune_old_committed_blocks().unwrap() > 0);
}

#[test]
fn committing_deletes_the_siblings() {
    let mut bt = BlockTreeSingleton::new(Store::new());
    let hashes = seed_committed_chain(&mut bt, 1);
    let kept = child(1, generic_pc(1, hashes[0]));
    let lost = child(1, generic_pc(2, hashes[0]));
    let lost_child = child(2, generic_pc(3, lost.hash));
    bt.insert(&kept, None, None).unwrap();
    bt.insert(&lost, None, None).unwrap();
    bt.insert(&lost_child, None, None).unwrap();
    assert_eq!(bt.blocks_in_branch(lost.hash), vec![lost.hash, lost_child.hash]);

    let mut wb = BlockTreeWriteBatch::new();
    let committed = bt.commit(&mut wb, &kept.hash).unwrap();
    bt.write(wb);
    assert_eq!(committed, vec![(kept.hash, None)]);
    assert!(!bt.contains(&lost.hash));
    assert!(!bt.contains(&lost_child.hash));
    assert!(bt.contains(&kept.hash));
}

#[test]
fn what_is_committed_stays_committed() {
    let mut bt = initialized_tree();
    let mut hashes = seed_committed_chain(&mut bt, 4);
    for height in 4..9u64 {
        let tip = extend_and_commit(&mut bt, height, *hashes.last().unwrap());
        hashes.push(tip);
        assert_eq!(bt.highest_committed_block().unwrap(), Some(tip));
        for (at, hash) in hashes.iter().enumerate() {
            assert_eq!(bt.block_at_height(BlockHeight::new(at as u64)).unwrap(), Some(*hash));
        }
    }
}

#[test]
fn committing_an_unknown_block_commits_nothing() {
    let mut bt = BlockTreeSingleton::new(Store::new());
    seed_committed_chain(&mut bt, 1);
    let unknown = CryptoHash::new([77u8; 32]);
    let mut wb = BlockTreeWriteBatch::new();
    assert_eq!(bt.commit(&mut wb, &unknown), Ok(vec![]));
}

#[test]
fn committing_applies_the_pending_updates() {
    let mut bt = initialized_tree();
    let mut validators = ValidatorSetUpdates::new();
    validators.insert(vk(2), Power::new(5));
    validators.delete(vk(1));
    let state = AppStateUpdates::from_parts(
        vec![(Bytes::new(vec![1]), Bytes::new(vec![10]))],
        vec![],
    );
    let block = child(0, PhaseCertificate::genesis_pc());
    bt.insert(&block, Some(&state), Some(&validators)).unwrap();
    assert_eq!(bt.committed_app_state(&Bytes::new(vec![1])), None);
    assert_eq!(
        bt.validator_set_updates_status(&block.hash),
        Ok(ValidatorSetUpdatesStatus::Pending(validators.clone()))
    );

    let mut wb = BlockTreeWriteBatch::new();
    let committed = bt.commit(&mut wb, &block.hash).unwrap();
    bt.write(wb);
    assert_eq!(committed, vec![(block.hash, Some(validators))]);
    assert_eq!(bt.committed_app_state(&Bytes::new(vec![1])), Some(Bytes::new(vec![10])));
    assert_eq!(bt.pending_app_state_updates(&block.hash), Ok(None));
    let set = bt.committed_validator_set().unwrap();
    assert!(set.contains(&vk(2)));
    assert!(!set.contains(&vk(1)));
    assert_eq!(
        bt.validator_set_updates_status(&block.hash),
        Ok(ValidatorSetUpdatesStatus::Committed)
    );
    let state = bt.validator_set_state().unwrap();
    assert!(state.previous_validator_set.contains(&vk(1)));
    assert_eq!(state.update_height, Some(BlockHeight::new(0)));
    assert!(!state.update_decided);
}

#[test]
fn updates_move_forward_and_are_told_after_they_are_written() {
    let mut bt = initialized_tree();
    let mut blocks = Vec::new();
    let mut justify = PhaseCertificate::genesis_pc();
    for h in 0..3u64 {
        let block = child(h, justify);
        bt.insert(&block, None, None).unwrap();
        justify = generic_pc(h + 1, block.hash);
        blocks.push(block);
    }
    let _ = bt.take_journal();
    bt.update(&justify, &RoundRobin).unwrap();
    assert_eq!(bt.highest_pc().unwrap(), justify);
    assert_eq!(bt.locked_pc().unwrap(), justify);
    assert_eq!(bt.highest_committed_block().unwrap(), Some(blocks[1].hash));
    let journal = bt.take_journal();
    let written = journal.iter().position(|e| matches!(e, Effect::Persist(_))).expect("written");
    let told = journal
        .iter()
        .position(|e| matches!(e, Effect::Publish(Event::CommitBlock { .. })))
        .expect("told");
    assert!(written < told);

    // An older certificate changes nothing.
    bt.update(&generic_pc(1, blocks[0].hash), &RoundRobin).unwrap();
    assert_eq!(bt.highest_pc().unwrap(), justify);
    assert_eq!(bt.locked_pc().unwrap(), justify);
    assert_eq!(bt.highest_committed_block().unwrap(), Some(blocks[1].hash));
}

#[test]
fn locking_ahead_leaves_the_commit_to_the_update() {
    let mut bt = initialized_tree();
    let mut justify = PhaseCertificate::genesis_pc();
    let mut blocks = Vec::new();
    for h in 0..3u64 {
        let block = child(h, justify);
        bt.insert(&block, None, None).unwrap();
        justify = generic_pc(h + 1, block.hash);
        blocks.push(block);
    }
    bt.update_locks_only(&justify, &RoundRobin).unwrap();
    assert_eq!(bt.locked_pc().unwrap(), justify);
    assert_eq!(bt.highest_committed_block().unwrap(), None);
    let result = bt.update(&justify, &RoundRobin).unwrap();
    assert_eq!(result.committed_block_hashes, vec![blocks[0].hash, blocks[1].hash]);
}

#[test]
fn speculation_can_be_rolled_back() {
    let mut bt = BlockTreeSingleton::new(Store::new());
    let a = CryptoHash::new([1u8; 32]);
    let b = CryptoHash::new([2u8; 32]);
    bt.add_speculative_commit(a).unwrap();
    bt.add_speculative_commit(b).unwrap();
    assert_eq!(bt.is_speculatively_committed(&a), Ok(true));
    assert_eq!(bt.latest_speculative_non_irrevocable(), Ok(Some(b)));
    assert_eq!(bt.rollback_speculative_block(&b), Ok(true));
    assert_eq!(bt.rollback_speculative_block(&b), Ok(false));
    assert_eq!(bt.speculative_commits(), Ok(vec![a]));
    bt.promote_speculative_to_irrevocable(&a).unwrap();
    assert_eq!(bt.latest_speculative_non_irrevocable(), Ok(None));
}

#[test]
fn irrevocable_is_what_the_committed_frontier_covers() {
    let mut bt = BlockTreeSingleton::new(Store::new());
    let hashes = seed_committed_chain(&mut bt, 2);
    assert_eq!(bt.is_irrevocably_committed(&hashes[0]), Ok(true));
    let next = child(2, generic_pc(2, hashes[1]));
    bt.insert(&next, None, None).unwrap();
    assert_eq!(bt.is_irrevocably_committed(&next.hash), Ok(false));
}

#[test]
fn a_branch_is_what_lies_under_its_root() {
    let mut bt = initialized_tree();
    let root = child(0, PhaseCertificate::genesis_pc());
    let left = child(1, generic_pc(1, root.hash));
    let right = child(1, generic_pc(2, root.hash));
    let leaf = child(2, generic_pc(3, left.hash));
    let other = child(9, PhaseCertificate::genesis_pc());
    for block in [&root, &left, &right, &leaf, &other] {
        bt.insert(block, None, None).unwrap();
    }
    assert_eq!(bt.blocks_in_branch(root.hash), vec![root.hash, right.hash, left.hash, leaf.hash]);
    assert_eq!(bt.blocks_in_branch(left.hash), vec![left.hash, leaf.hash]);
    assert_eq!(bt.blocks_in_branch(leaf.hash), vec![leaf.hash]);
}

#[test]
fn a_commit_above_the_frontier_does_nothing_only_where_it_is_put_off() {
    let mut bt = initialized_tree();
    let hashes = seed_committed_chain(&mut bt, 2);
    let lost = child(2, generic_pc(2, hashes[1]));
    let above = child(3, generic_pc(3, lost.hash));
    bt.insert(&above, None, None).unwrap();
    let mut wb = BlockTreeWriteBatch::new();
    assert_eq!(bt.commit(&mut wb, &above.hash), Ok(vec![]));
    assert_eq!(bt.gap_watch.count, 1);
    bt.insert(&lost, None, None).unwrap();
    assert_eq!(
        bt.commit(&mut wb, &above.hash),
        Ok(vec![(lost.hash, None), (above.hash, None)])
    );
    // At or below the frontier there is nothing to commit, and nothing is put off.
    let mut wb = BlockTreeWriteBatch::new();
    assert_eq!(bt.commit(&mut wb, &hashes[0]), Ok(vec![]));
    assert_eq!(bt.gap_watch.count, 1);
}

#[test]
fn an_update_moves_the_frontier_and_ends_speculation() {
    let mut bt = initialized_tree();
    let mut justify = PhaseCertificate::genesis_pc();
    let mut blocks = Vec::new();
    for h in 0..4u64 {
        let block = child(h, justify);
        bt.insert(&block, None, None).unwrap();
        justify = generic_pc(h + 1, block.hash);
        blocks.push(block);
    }
    // A certificate that commits nothing leaves the frontier.
    let result = bt.update(&generic_pc(1, blocks[0].hash), &RoundRobin).unwrap();
    assert!(result.committed_block_hashes.is_empty());
    assert_eq!(bt.highest_committed_block().unwrap(), None);

    // Otherwise the frontier is the last block committed, and heights rise from block to block.
    bt.add_speculative_commit(blocks[1].hash).unwrap();
    bt.add_speculative_commit(blocks[3].hash).unwrap();
    let result = bt.update(&generic_pc(3, blocks[2].hash), &RoundRobin).unwrap();
    assert_eq!(result.committed_block_hashes, vec![blocks[0].hash, blocks[1].hash]);
    assert_eq!(bt.highest_committed_block().unwrap(), Some(blocks[1].hash));

    // The block that was committed is no longer speculative; the other still is.
    assert_eq!(bt.speculative_commits(), Ok(vec![blocks[3].hash]));
    for block in &blocks[..2] {
        assert_eq!(bt.is_irrevocably_committed(&block.hash), Ok(true));
    }
    assert_eq!(bt.is_irrevocably_committed(&blocks[2].hash), Ok(false));

    // What is committed for good stays so.
    bt.update(&justify, &RoundRobin).unwrap();
    for block in &blocks[..3] {
        assert_eq!(bt.is_irrevocably_committed(&block.hash), Ok(true));
    }
}

#[test]
fn validator_updates_are_pending_then_committed_then_gone() {
    let mut bt = initialized_tree();
    let mut validators = ValidatorSetUpdates::new();
    validators.insert(vk(2), Power::new(5));
    let first = child(0, PhaseCertificate::genesis_pc());
    let second = child(1, generic_pc(1, first.hash));
    bt.insert(&first, None, Some(&validators)).unwrap();
    bt.insert(&second, None, None).unwrap();
    assert_eq!(
        bt.validator_set_updates_status(&first.hash),
        Ok(ValidatorSetUpdatesStatus::Pending(validators))
    );
    assert_eq!(
        bt.validator_set_updates_status(&second.hash),
        Ok(ValidatorSetUpdatesStatus::NoUpdates)
    );
    let mut wb = BlockTreeWriteBatch::new();
    bt.commit(&mut wb, &first.hash).unwrap();
    bt.write(wb);
    assert_eq!(
        bt.validator_set_updates_status(&first.hash),
        Ok(ValidatorSetUpdatesStatus::Committed)
    );
    let mut wb = BlockTreeWriteBatch::new();
    bt.delete_branch(&mut wb, &first.hash);
    bt.write(wb);
    assert_eq!(
        bt.validator_set_updates_status(&first.hash),
        Ok(ValidatorSetUpdatesStatus::NoUpdates)
    );
}

#[test]
fn scores_stay_in_range_and_success_never_lowers_one() {
    let mut reputation = LeaderReputation::new(100);
    for round in 0..60u32 {
        let before = reputation.score_bps(&vk(1));
        if round % 3 == 0 {
            reputation.record_success(&vk(1));
            assert!(reputation.score_bps(&vk(1)) >= before || round == 0);
        } else {
            reputation.record_timeout(&vk(1));
        }
        if round % 20 == 19 {
            reputation.decay();
        }
        let score = reputation.score_bps(&vk(1));
        assert!((2500..=10000).contains(&score));
    }
}

#[test]
fn evidence_is_kept_once() {
    let mut bt = BlockTreeSingleton::new(Store::new());
    let evidence = EquivocationEvidence {
        view: ViewNumber::new(4),
        leader: vk(1),
        block_a: CryptoHash::new([1u8; 32]),
        block_b: CryptoHash::new([2u8; 32]),
    };
    bt.store_equivocation_evidence(&evidence).unwrap();
    bt.store_equivocation_evidence(&evidence).unwrap();
    assert_eq!(
        bt.get_equivocation_evidence(),
        Ok(vec![(
            ViewNumber::new(4),
            vk(1).to_bytes(),
            CryptoHash::new([1u8; 32]),
            CryptoHash::new([2u8; 32])
        )])
    );
}

#[test]
fn reading_before_initialization_names_the_missing_value() {
    let bt = BlockTreeSingleton::new(Store::new());
    let missing = |key: Key| BlockTreeError::KVGetError(KVGetError::ValueExpectedButNotFound { key });
    assert_eq!(bt.locked_pc(), Err(missing(Key::LockedPC)));
    assert_eq!(bt.highest_pc(), Err(missing(Key::HighestPC)));
    assert_eq!(bt.highest_view_entered(), Err(missing(Key::HighestViewEntered)));
    assert_eq!(bt.committed_validator_set(), Err(missing(Key::CommittedValidatorSet)));
    let block = CryptoHash::new([3u8; 32]);
    assert_eq!(bt.block_justify(&block), Err(missing(Key::BlockJustify { block })));
    assert_eq!(bt.children(&block), Err(missing(Key::BlockChildren { block })));
}

#[test]
fn a_tree_reads_back_what_was_written() {
    let mut bt = initialized_tree();
    let block = Block::new(
        BlockHeight::new(0),
        PhaseCertificate::genesis_pc(),
        CryptoHash::new([9u8; 32]),
        Data::new(vec![Datum::new(vec![1, 2]), Datum::new(vec![3])]),
    );
    bt.insert(&block, None, None).unwrap();
    assert_eq!(bt.block(&block.hash), Ok(Some(block.clone())));
    assert_eq!(bt.block_data_len(&block.hash), Ok(Some(DataLen::new(2))));
    assert_eq!(bt.block_datum(&block.hash, 1), Some(Datum::new(vec![3])));
    assert_eq!(bt.block_datum(&block.hash, 2), None);
    assert_eq!(bt.block_data_hash(&block.hash), Ok(Some(CryptoHash::new([9u8; 32]))));
    bt.set_highest_view_entered(ViewNumber::new(3)).unwrap();
    assert_eq!(bt.highest_view_entered(), Ok(ViewNumber::new(3)));
    bt.set_vote_state_atomic(ViewNumber::new(4), block.hash).unwrap();
    assert_eq!(bt.highest_view_voted(), Ok(Some(ViewNumber::new(4))));
    assert_eq!(bt.last_voted_proposal(), Ok(Some((ViewNumber::new(4), block.hash))));
    let tip = TipInfo {
        block_hash: block.hash,
        block_height: block.height,
        block_justify: block.justify.clone(),
        block_data_hash: block.data_hash,
        view: ViewNumber::new(4),
    };
    bt.set_local_tip(&tip).unwrap();
    assert_eq!(bt.local_tip(), Ok(Some(tip)));
    assert_eq!(
        bt.highest_view_with_progress(),
        Ok(ViewNumber::new(3)),
        "the view entered is ahead of the certificates"
    );
}

#[test]
fn the_highest_timeout_certificate_is_kept() {
    let mut bt = initialized_tree();
    let tc = TimeoutCertificate {
        chain_id: ChainID::new(0),
        view: ViewNumber::new(8),
        signatures: SignatureSet::new(1),
        high_tip: None,
        high_qc: None,
        high_tip_is_winner: false,
        voter_metadata: VoterMetadata::new(vec![]),
    };
    bt.set_highest_tc(&tc).unwrap();
    assert_eq!(bt.highest_tc(), Ok(Some(tc)));
}

#[test]
fn a_certificate_from_elsewhere_only_moves_the_highest_forward() {
    let mut bt = initialized_tree();
    let newer = generic_pc(4, CryptoHash::new([1u8; 32]));
    bt.advance_highest_pc_from_remote(&newer).unwrap();
    assert_eq!(bt.highest_pc(), Ok(newer.clone()));
    bt.advance_highest_pc_from_remote(&generic_pc(3, CryptoHash::new([2u8; 32]))).unwrap();
    assert_eq!(bt.highest_pc(), Ok(newer));
}

#[test]
fn commits_put_off_are_noted_now_and_then() {
    let mut watch = GapWatch { block: CryptoHash::new([0u8; 32]), count: 0 };
    let block = CryptoHash::new([1u8; 32]);
    for _ in 1..GAP_COMMIT_WARN_EVERY {
        assert_eq!(note_gap_commit_deferral(&mut watch, &block), None);
    }
    assert_eq!(note_gap_commit_deferral(&mut watch, &block), Some(GAP_COMMIT_WARN_EVERY));
}

#[test]
fn leader_scores_follow_the_record() {
    let mut entry = LeaderReputationEntry::new();
    assert_eq!(entry.score_bps(), 10000);
    entry.record_success();
    entry.record_timeout();
    assert_eq!(entry.score_bps(), 5000);

    let mut reputation = LeaderReputation::new(100);
    reputation.record_success(&vk(1));
    reputation.record_timeout(&vk(2));
    assert_eq!(reputation.score_bps(&vk(1)), 10000);
    assert_eq!(reputation.score_bps(&vk(2)), 2500, "the lowest score");
    assert_eq!(reputation.score_bps(&vk(3)), 10000);
    reputation.record_success(&vk(1));
    reputation.record_success(&vk(1));
    reputation.decay();
    assert_eq!(reputation.entry(&vk(1)).total, 1);
}

#[test]
fn quorums_are_more_than_two_thirds() {
    let mut set = ValidatorSet::new();
    for seed in 1..=4u8 {
        set.put(&vk(seed), Power::new(1));
    }
    assert_eq!(set.total_power(), TotalPower::new(4));
    assert_eq!(set.quorum(), TotalPower::new(3));
    set.put(&vk(5), Power::new(2));
    assert_eq!(set.total_power(), TotalPower::new(6));
    assert_eq!(set.quorum(), TotalPower::new(5));
    set.remove(&vk(5));
    assert_eq!(set.len(), 4);
    assert_eq!(set.power(&vk(5)), None);
}
