//! The feed of committed blocks to the application.

use hotstuff_rs::block_tree::store::Store;
use hotstuff_rs::block_tree::tree::BlockTreeSingleton;
use hotstuff_rs::block_tree::write_batch::BlockTreeWriteBatch;
use hotstuff_rs::committed_feed::feed_committed_blocks_to_app;
use hotstuff_rs::effects::Effect;
use hotstuff_rs::hotstuff::types::{Phase, PhaseCertificate};
use hotstuff_rs::roles::RoundRobin;
use hotstuff_rs::types::block::Block;
use hotstuff_rs::types::crypto_primitives::SigningKey;
use hotstuff_rs::types::data_types::{
    BlockHeight, ChainID, CryptoHash, Data, Datum, Power, SignatureSet, ViewNumber,
};
use hotstuff_rs::types::update_sets::AppStateUpdates;
use hotstuff_rs::types::validator_set::{ValidatorSet, ValidatorSetState};

fn initialized_tree() -> BlockTreeSingleton {
    let mut vs = ValidatorSet::new();
    vs.put(&SigningKey::from_bytes(&[1u8; 32]).verifying_key(), Power::new(1));
    let vss = ValidatorSetState::new(vs.clone(), vs, None, true);
    let mut tree = BlockTreeSingleton::new(Store::new());
    tree.initialize(&AppStateUpdates::new(), &vss).expect("init tree");
    tree
}

fn test_block(height: u64, justify: PhaseCertificate) -> Block {
    Block::new(
        BlockHeight::new(height),
        justify,
        CryptoHash::new([height as u8; 32]),
        Data::new(vec![Datum::new(vec![height as u8])]),
    )
}

fn seed_committed_chain(tree: &mut BlockTreeSingleton, n: u64) -> Vec<Block> {
    let mut wb = BlockTreeWriteBatch::new();
    let mut blocks = Vec::new();
    for h in 1..=n {
        let b = test_block(h, PhaseCertificate::genesis_pc());
        wb.set_block(&b).expect("seed block");
        wb.set_block_at_height(BlockHeight::new(h), &b.hash).expect("seed height index");
        blocks.push(b);
    }
    wb.set_highest_committed_block(&blocks.last().unwrap().hash).expect("seed frontier");
    tree.write(wb);
    blocks
}

/// The heights that the application was given, in order.
fn seen(tree: &mut BlockTreeSingleton) -> Vec<u64> {
    let mut heights = Vec::new();
    for effect in tree.take_journal() {
        if let Effect::CommittedBlock(block, hash) = effect {
            assert_eq!(block.hash, hash);
            heights.push(block.height.value());
        }
    }
    heights
}

#[test]
fn durably_committed_heights_never_fed_are_replayed_in_order() {
    let mut tree = initialized_tree();
    seed_committed_chain(&mut tree, 5);
    let delivered = feed_committed_blocks_to_app(&mut tree).expect("feed must not error");
    assert_eq!(delivered, 5);
    assert_eq!(seen(&mut tree), vec![1, 2, 3, 4, 5]);
    assert_eq!(tree.app_fed_block_height().unwrap(), Some(BlockHeight::new(5)));
}

#[test]
fn commit_jump_with_lost_callbacks_is_recovered_by_feed() {
    let mut tree = initialized_tree();
    let mut blocks: Vec<Block> = Vec::new();
    for h in 1..=6u64 {
        let justify = if h == 1 {
            PhaseCertificate::genesis_pc()
        } else {
            PhaseCertificate {
                chain_id: ChainID::new(0),
                view: ViewNumber::new(h - 1),
                block: blocks[(h - 2) as usize].hash,
                phase: Phase::Generic,
                signatures: SignatureSet::new(1),
            }
        };
        let b = test_block(h, justify);
        tree.insert(&b, None, None).expect("insert block");
        blocks.push(b);
    }
    let tip_pc = PhaseCertificate {
        chain_id: ChainID::new(0),
        view: ViewNumber::new(6),
        block: blocks[5].hash,
        phase: Phase::Generic,
        signatures: SignatureSet::new(1),
    };
    let result = tree.update(&tip_pc, &RoundRobin).expect("update commits the jump");
    assert!(result.committed_block_hashes.len() >= 2);
    let committed_top =
        tree.highest_committed_block_height().unwrap().expect("frontier advanced").value();
    drop(result);
    assert!(seen(&mut tree).is_empty(), "the update itself hands nothing out");

    feed_committed_blocks_to_app(&mut tree).expect("feed must not error");
    let want: Vec<u64> = (1..=committed_top).collect();
    assert_eq!(seen(&mut tree), want);
}

#[test]
fn feed_is_incremental_and_idempotent() {
    let mut tree = initialized_tree();
    seed_committed_chain(&mut tree, 5);
    tree.advance_app_fed_block_height(BlockHeight::new(2)).unwrap();

    feed_committed_blocks_to_app(&mut tree).unwrap();
    assert_eq!(seen(&mut tree), vec![3, 4, 5]);

    let delivered = feed_committed_blocks_to_app(&mut tree).unwrap();
    assert_eq!(delivered, 0);
    assert!(seen(&mut tree).is_empty());
}

#[test]
fn feed_pauses_at_unreadable_height_and_resumes_after_heal() {
    let mut tree = initialized_tree();
    let blocks = seed_committed_chain(&mut tree, 5);
    let mut wb = BlockTreeWriteBatch::new();
    wb.delete_block_at_height(BlockHeight::new(3));
    tree.write(wb);

    feed_committed_blocks_to_app(&mut tree).unwrap();
    assert_eq!(seen(&mut tree), vec![1, 2]);
    assert_eq!(tree.app_fed_block_height().unwrap(), Some(BlockHeight::new(2)));

    let mut wb = BlockTreeWriteBatch::new();
    wb.set_block_at_height(BlockHeight::new(3), &blocks[2].hash).unwrap();
    tree.write(wb);

    feed_committed_blocks_to_app(&mut tree).unwrap();
    assert_eq!(seen(&mut tree), vec![3, 4, 5]);
}

#[test]
fn feed_is_noop_on_fresh_tree() {
    let mut tree = initialized_tree();
    let _ = tree.take_journal();
    let delivered = feed_committed_blocks_to_app(&mut tree).unwrap();
    assert_eq!(delivered, 0);
    assert!(seen(&mut tree).is_empty());
    assert_eq!(tree.app_fed_block_height().unwrap(), None);
}

#[test]
fn what_was_fed_is_recorded_after_it_was_handed_out() {
    let mut tree = initialized_tree();
    seed_committed_chain(&mut tree, 2);
    let _ = tree.take_journal();
    feed_committed_blocks_to_app(&mut tree).unwrap();
    let journal = tree.take_journal();
    assert_eq!(journal.len(), 3);
    assert!(matches!(journal[0], Effect::CommittedBlock(..)));
    assert!(matches!(journal[1], Effect::CommittedBlock(..)));
    assert!(matches!(journal[2], Effect::Persist(..)));
}

#[test]
fn the_feed_starts_at_the_lowest_block_it_can_read() {
    let mut tree = initialized_tree();
    seed_committed_chain(&mut tree, 5);
    let mut wb = BlockTreeWriteBatch::new();
    wb.delete_block_at_height(BlockHeight::new(1));
    wb.delete_block_at_height(BlockHeight::new(2));
    tree.write(wb);
    feed_committed_blocks_to_app(&mut tree).unwrap();
    assert_eq!(seen(&mut tree), vec![3, 4, 5]);
}
