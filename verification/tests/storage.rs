//! Keeping the block tree in a key-value store.

use std::collections::BTreeMap;

use hotstuff_rs::block_tree::errors::{BlockTreeError, KVGetError, Key};
use hotstuff_rs::block_tree::loading::Entries;
use hotstuff_rs::block_tree::store::Store;
use hotstuff_rs::block_tree::tree::BlockTreeSingleton;
use hotstuff_rs::block_tree::write_batch::{BlockTreeWriteBatch, WriteOp};
use hotstuff_rs::committed_feed::feed_committed_blocks_to_app;
use hotstuff_rs::effects::Effect;
use hotstuff_rs::hotstuff::types::{EquivocationEvidence, Phase, PhaseCertificate};
use hotstuff_rs::pacemaker::{TimeoutCertificate, TipInfo, VoterMetadata};
use hotstuff_rs::types::block::Block;
use hotstuff_rs::types::crypto_primitives::SigningKey;
use hotstuff_rs::types::data_types::{
    BlockHeight, Bytes, ChainID, ChildrenList, CryptoHash, Data, DataLen, Datum, Power,
    SignatureBytes, SignatureSet, VerifyingKey, ViewNumber,
};
use hotstuff_rs::types::update_sets::AppStateUpdates;
use hotstuff_rs::types::validator_set::{
    ValidatorSet, ValidatorSetState, ValidatorSetUpdates, ValidatorSetUpdatesStatus,
};

/// A key-value store in memory.
struct Disk {
    held: BTreeMap<Vec<u8>, Vec<u8>>,
}

impl Disk {
    fn new() -> Self {
        Disk { held: BTreeMap::new() }
    }

    fn make(&mut self, batch: &BlockTreeWriteBatch) {
        for write in batch.key_value_writes().expect("encodable") {
            match write.value {
                Some(value) => {
                    self.held.insert(write.key, value);
                }
                None => {
                    self.held.remove(&write.key);
                }
            }
        }
    }

    fn make_all(&mut self, journal: Vec<Effect>) {
        for effect in journal {
            if let Effect::Persist(batch) = effect {
                self.make(&batch);
            }
        }
    }

    fn entries(&self) -> Entries {
        self.held.iter().map(|(k, v)| (k.clone(), v.clone())).collect()
    }

    fn open(&self) -> BlockTreeSingleton {
        let store = Store::load(&self.entries());
        assert!(store.is_readable());
        BlockTreeSingleton::new(store)
    }
}

fn vk(seed: u8) -> VerifyingKey {
    SigningKey::from_bytes(&[seed; 32]).verifying_key()
}

fn pc(view: u64, block: CryptoHash) -> PhaseCertificate {
    let mut signatures = SignatureSet::new(2);
    signatures.set(1, Some(SignatureBytes::new([7; 64])));
    PhaseCertificate {
        chain_id: ChainID::new(3),
        view: ViewNumber::new(view),
        block,
        phase: Phase::Generic,
        signatures,
    }
}

fn block(height: u64, justify: PhaseCertificate, items: &[&[u8]]) -> Block {
    let data = items.iter().map(|item| Datum::new(item.to_vec())).collect();
    Block::new(
        BlockHeight::new(height),
        justify,
        CryptoHash::new([height as u8; 32]),
        Data::new(data),
    )
}

fn initialized_tree() -> BlockTreeSingleton {
    let mut validators = ValidatorSet::new();
    validators.put(&vk(1), Power::new(5));
    validators.put(&vk(2), Power::new(6));
    let state = ValidatorSetState::new(validators.clone(), validators, None, true);
    let mut tree = BlockTreeSingleton::new(Store::new());
    let state_updates = AppStateUpdates::from_parts(
        vec![(Bytes::new(vec![1, 2]), Bytes::new(vec![3])), (Bytes::new(vec![]), Bytes::new(vec![4]))],
        vec![],
    );
    tree.initialize(&state_updates, &state).expect("init");
    tree
}

#[test]
fn an_empty_store_keeps_an_empty_tree() {
    let tree = Disk::new().open();
    assert_eq!(tree.highest_committed_block(), Ok(None));
    assert!(tree.locked_pc().is_err());
    assert!(!tree.contains(&CryptoHash::new([0; 32])));
}

#[test]
fn what_is_written_is_read_back() {
    let mut disk = Disk::new();
    let mut tree = initialized_tree();
    let first = block(0, PhaseCertificate::genesis_pc(), &[b"one", b"", b"three"]);
    let second = block(1, pc(4, first.hash), &[]);
    let updates = AppStateUpdates::from_parts(
        vec![(Bytes::new(vec![9]), Bytes::new(vec![8, 7]))],
        vec![Bytes::new(vec![1, 2])],
    );
    let mut validator_updates = ValidatorSetUpdates::new();
    validator_updates.insert(vk(3), Power::new(7));
    validator_updates.delete(vk(1));
    tree.insert(&first, None, None).unwrap();
    tree.insert(&second, Some(&updates), Some(&validator_updates)).unwrap();
    tree.set_local_tip(&TipInfo {
        block_hash: second.hash,
        block_height: second.height,
        block_justify: second.justify.clone(),
        block_data_hash: second.data_hash,
        view: ViewNumber::new(5),
    })
    .unwrap();
    tree.set_last_voted_proposal(ViewNumber::new(5), second.hash).unwrap();
    tree.add_speculative_commit(second.hash).unwrap();
    tree.record_leader_success(&vk(2)).unwrap();
    let mut batch = BlockTreeWriteBatch::new();
    batch.set_highest_pc(&pc(4, first.hash)).unwrap();
    batch.set_locked_pc(&pc(3, first.hash)).unwrap();
    batch.set_highest_view_entered(ViewNumber::new(6)).unwrap();
    batch.set_highest_view_phase_voted(ViewNumber::new(5)).unwrap();
    batch.set_block_at_height(BlockHeight::new(0), &first.hash).unwrap();
    batch.set_highest_committed_block(&first.hash).unwrap();
    batch.set_app_fed_block_height(BlockHeight::new(0)).unwrap();
    batch.set_block_tree_pruned_height(BlockHeight::new(0)).unwrap();
    let tc = TimeoutCertificate {
        chain_id: ChainID::new(3),
        view: ViewNumber::new(2),
        signatures: SignatureSet::new(2),
        high_tip: None,
        high_qc: Some(pc(1, first.hash)),
        high_tip_is_winner: false,
        voter_metadata: VoterMetadata::new(vec![Bytes::new(vec![3, 4, 5])]),
    };
    batch.set_highest_tc(&tc).unwrap();
    tree.write(batch);
    disk.make_all(tree.take_journal());

    let read = disk.open();
    assert_eq!(read.block(&first.hash), Ok(Some(first.clone())));
    assert_eq!(read.block(&second.hash), Ok(Some(second.clone())));
    assert_eq!(read.block_at_height(BlockHeight::new(0)), Ok(Some(first.hash)));
    assert_eq!(read.children(&first.hash).unwrap(), tree.children(&first.hash).unwrap());
    assert_eq!(read.highest_pc(), Ok(pc(4, first.hash)));
    assert_eq!(read.locked_pc(), Ok(pc(3, first.hash)));
    assert_eq!(read.highest_tc(), Ok(Some(tc)));
    assert_eq!(read.local_tip().unwrap(), tree.local_tip().unwrap());
    assert_eq!(
        read.last_voted_proposal(),
        Ok(Some((ViewNumber::new(5), second.hash)))
    );
    assert_eq!(read.speculative_commits(), tree.speculative_commits());
    assert_eq!(read.leader_reputation(), tree.leader_reputation());
    assert_eq!(read.highest_view_entered(), Ok(ViewNumber::new(6)));
    assert_eq!(read.highest_committed_block(), Ok(Some(first.hash)));
    assert_eq!(read.validator_set_state().unwrap(), tree.validator_set_state().unwrap());
    assert_eq!(
        read.store.app_state.get(&Bytes::new(vec![1, 2])),
        Some(&Bytes::new(vec![3]))
    );
    assert_eq!(
        read.store.app_state.get(&Bytes::new(vec![])),
        Some(&Bytes::new(vec![4]))
    );
    assert_eq!(read.store.pending_app_state.get(&second.hash), Some(&updates));
    assert_eq!(
        read.store.validator_set_updates.get(&second.hash),
        Some(&ValidatorSetUpdatesStatus::Pending(validator_updates))
    );
    assert_eq!(read.store.app_fed_height, Some(BlockHeight::new(0)));
    assert_eq!(read.store.pruned_height, Some(BlockHeight::new(0)));
}

#[test]
fn evidence_is_read_back() {
    let mut disk = Disk::new();
    let mut tree = initialized_tree();
    let evidence = EquivocationEvidence {
        view: ViewNumber::new(9),
        leader: vk(2),
        block_a: CryptoHash::new([1; 32]),
        block_b: CryptoHash::new([2; 32]),
    };
    tree.store_equivocation_evidence(&evidence).unwrap();
    disk.make_all(tree.take_journal());
    assert_eq!(disk.open().store.evidence, tree.store.evidence);
    assert_eq!(tree.store.evidence.len(), 1);
}

#[test]
fn what_is_deleted_is_gone() {
    let mut disk = Disk::new();
    let stored = block(0, PhaseCertificate::genesis_pc(), &[b"a", b"b"]);
    let mut batch = BlockTreeWriteBatch::new();
    batch.set_block(&stored).unwrap();
    batch.set_children(&stored.hash, &ChildrenList::new(vec![CryptoHash::new([5; 32])])).unwrap();
    batch.set_committed_app_state(&Bytes::new(vec![1]), &Bytes::new(vec![2]));
    disk.make(&batch);
    // Height, justification, data hash, length, two items; children; a value.
    assert_eq!(disk.held.len(), 8);
    assert!(disk.open().contains(&stored.hash));

    let mut batch = BlockTreeWriteBatch::new();
    batch.delete_block(&stored.hash, DataLen::new(2));
    batch.delete_children(&stored.hash);
    batch.delete_committed_app_state(&Bytes::new(vec![1]));
    disk.make(&batch);
    assert!(disk.held.is_empty());
    assert!(!disk.open().contains(&stored.hash));
}

#[test]
fn keys_name_the_variable_and_its_owner() {
    let mut batch = BlockTreeWriteBatch::new();
    batch.set_block_at_height(BlockHeight::new(258), &CryptoHash::new([6; 32])).unwrap();
    batch.push(WriteOp::DeleteLocalTip);
    batch.set_highest_view_entered(ViewNumber::new(1)).unwrap();
    let writes = batch.key_value_writes().unwrap();
    assert_eq!(writes.len(), 3);
    assert_eq!(writes[0].key, vec![1, 2, 1, 0, 0, 0, 0, 0, 0]);
    assert_eq!(writes[0].value, Some(vec![6; 32]));
    assert_eq!(writes[1].key, vec![17]);
    assert_eq!(writes[1].value, None);
    assert_eq!(writes[2].key, vec![8]);
    assert_eq!(writes[2].value, Some(vec![1, 0, 0, 0, 0, 0, 0, 0]));
}

fn undecodable(key: Key) -> BlockTreeError {
    BlockTreeError::KVGetError(KVGetError::DeserializeValueError { key })
}

fn not_found(key: Key) -> BlockTreeError {
    BlockTreeError::KVGetError(KVGetError::ValueExpectedButNotFound { key })
}

#[test]
fn a_block_without_a_part_cannot_be_read() {
    let mut disk = Disk::new();
    let stored = block(0, PhaseCertificate::genesis_pc(), &[b"a", b"b"]);
    let hash = stored.hash;
    let mut batch = BlockTreeWriteBatch::new();
    batch.set_block(&stored).unwrap();
    disk.make(&batch);
    let whole = disk.entries();
    assert!(Store::load(&whole).is_readable());

    // Without any one of its parts there is no block; without its height nobody looks for one.
    for at in 0..whole.len() {
        let mut fewer = whole.clone();
        let (key, _) = fewer.remove(at);
        let is_height = key.len() == 34 && key[33] == 0;
        let tree = BlockTreeSingleton::new(Store::load(&fewer));
        assert_eq!(tree.store.is_readable(), is_height);
        assert!(!tree.contains(&hash));
        if is_height {
            assert!(matches!(tree.block(&hash), Ok(None)));
            continue;
        }
        assert!(tree.block(&hash).is_err());
        // The parts that are there are read.
        assert_eq!(tree.block_height(&hash).unwrap(), Some(BlockHeight::new(0)));
        match key[33] {
            1 => {
                assert_eq!(
                    tree.block_justify(&hash).err(),
                    Some(not_found(Key::BlockJustify { block: hash })),
                );
                assert_eq!(tree.block_data_hash(&hash).unwrap(), Some(stored.data_hash));
                assert_eq!(*tree.block_datum(&hash, 1).unwrap().bytes.bytes, b"b".to_vec());
            }
            2 => {
                assert_eq!(tree.block_data_hash(&hash).unwrap(), None);
                assert_eq!(
                    tree.block(&hash).err(),
                    Some(not_found(Key::BlockDataHash { block: hash })),
                );
                assert!(tree.block_data(&hash).unwrap().is_some());
            }
            3 => {
                assert_eq!(tree.block_data_len(&hash).unwrap(), None);
                assert!(tree.block_data(&hash).unwrap().is_none());
            }
            _ => {
                assert_eq!(tree.block_data_len(&hash).unwrap(), Some(DataLen::new(2)));
                assert_eq!(
                    tree.block_data(&hash).err(),
                    Some(not_found(Key::BlockData { block: hash })),
                );
            }
        }
    }
}

#[test]
fn a_value_that_cannot_be_read_spoils_no_other() {
    let mut tree = initialized_tree();
    let stored = block(0, PhaseCertificate::genesis_pc(), &[b"a"]);
    let hash = stored.hash;
    tree.insert(&stored, None, None).unwrap();
    tree.set_local_tip(&TipInfo {
        block_hash: hash,
        block_height: BlockHeight::new(0),
        block_justify: PhaseCertificate::genesis_pc(),
        block_data_hash: stored.data_hash,
        view: ViewNumber::new(3),
    })
    .unwrap();
    tree.set_last_voted_proposal(ViewNumber::new(3), hash).unwrap();
    tree.add_speculative_commit(hash).unwrap();
    let mut disk = Disk::new();
    disk.make_all(tree.take_journal());

    // The local tip is cut short.
    let tip = disk.held.get_mut(&vec![17]).unwrap();
    let cut = tip.len() - 1;
    tip.truncate(cut);
    let mut damaged = BlockTreeSingleton::new(Store::load(&disk.entries()));
    assert!(!damaged.store.is_readable());
    assert_eq!(damaged.local_tip().err(), Some(undecodable(Key::HighestTC)));
    assert_eq!(
        damaged.last_voted_proposal().unwrap(),
        Some((ViewNumber::new(3), hash)),
    );
    assert_eq!(damaged.speculative_commits().unwrap(), vec![hash]);
    assert!(damaged.contains(&hash));
    assert!(damaged.highest_pc().unwrap().is_genesis_pc());
    // The genesis certificate is not reported, whatever the tip.
    assert!(damaged.highest_qc_for_timeout().unwrap().is_none());

    // Writing over it makes it readable again.
    damaged
        .set_local_tip(&TipInfo {
            block_hash: hash,
            block_height: BlockHeight::new(0),
            block_justify: PhaseCertificate::genesis_pc(),
            block_data_hash: stored.data_hash,
            view: ViewNumber::new(4),
        })
        .unwrap();
    assert!(damaged.store.is_readable());
    assert_eq!(damaged.local_tip().unwrap().unwrap().view, ViewNumber::new(4));
    disk.make_all(damaged.take_journal());
    assert_eq!(disk.open().local_tip().unwrap().unwrap().view, ViewNumber::new(4));
}

#[test]
fn each_variable_fails_under_its_own_name() {
    let hash = CryptoHash::new([7; 32]);
    let owned = |tag: u8| {
        let mut key = vec![tag];
        key.extend([7u8; 32]);
        key
    };
    let mut at_height = vec![1];
    at_height.extend(5u64.to_le_bytes());
    let entries: Entries = (5..=23u8)
        .map(|tag| vec![tag])
        .filter(|key| key[0] != 6)
        .chain([owned(2), owned(4), owned(6), at_height])
        .map(|key| (key, vec![9]))
        .collect();
    let mut tree = BlockTreeSingleton::new(Store::load(&entries));
    let named = |key: Key| Some(undecodable(key));
    assert_eq!(tree.local_tip().err(), named(Key::HighestTC));
    assert_eq!(tree.last_voted_proposal().err(), named(Key::HighestTC));
    assert_eq!(tree.speculative_commits().err(), named(Key::HighestTC));
    assert_eq!(tree.is_speculatively_committed(&hash).err(), named(Key::HighestTC));
    assert_eq!(tree.latest_speculative_non_irrevocable().err(), named(Key::HighestTC));
    assert_eq!(tree.get_equivocation_evidence().err(), named(Key::HighestTC));
    assert!(matches!(tree.leader_reputation(), Err(e) if e == undecodable(Key::HighestTC)));
    assert_eq!(tree.block_tree_pruned_height().err(), named(Key::HighestCommittedBlock));
    assert_eq!(tree.app_fed_block_height().err(), named(Key::HighestCommittedBlock));
    assert_eq!(tree.highest_committed_block().err(), named(Key::HighestCommittedBlock));
    assert_eq!(tree.highest_committed_block_height().err(), named(Key::HighestCommittedBlock));
    assert_eq!(tree.committed_qc_view().err(), named(Key::HighestCommittedBlock));
    assert_eq!(tree.is_irrevocably_committed(&hash).err(), named(Key::HighestCommittedBlock));
    assert_eq!(tree.highest_pc().err(), named(Key::HighestPC));
    assert_eq!(tree.highest_qc_for_timeout().err(), named(Key::HighestPC));
    assert_eq!(tree.locked_pc().err(), named(Key::LockedPC));
    assert_eq!(tree.highest_tc().err(), named(Key::HighestTC));
    assert_eq!(tree.highest_view_entered().err(), named(Key::HighestViewEntered));
    assert_eq!(tree.highest_view_with_progress().err(), named(Key::HighestViewEntered));
    assert_eq!(tree.highest_view_voted().err(), named(Key::HighestViewPhaseVoted));
    assert!(matches!(
        tree.committed_validator_set(),
        Err(e) if e == undecodable(Key::CommittedValidatorSet)
    ));
    assert!(matches!(
        tree.validator_set_state(),
        Err(e) if e == undecodable(Key::CommittedValidatorSet)
    ));
    assert!(matches!(
        tree.children(&hash),
        Err(e) if e == undecodable(Key::BlockChildren { block: hash })
    ));
    assert!(matches!(
        tree.pending_app_state_updates(&hash),
        Err(e) if e == undecodable(Key::PendingAppStateUpdates { block: hash })
    ));
    assert!(matches!(
        tree.validator_set_updates_status(&hash),
        Err(e) if e == undecodable(Key::ValidatorSetUpdatesStatus { block: hash })
    ));
    assert_eq!(
        tree.block_at_height(BlockHeight::new(5)).err(),
        named(Key::BlockAtHeight { height: BlockHeight::new(5) }),
    );
    assert_eq!(tree.block_at_height(BlockHeight::new(6)).unwrap(), None);

    // What reads a variable before it writes it leaves it alone.
    assert_eq!(tree.add_speculative_commit(hash).err(), named(Key::HighestTC));
    assert_eq!(tree.rollback_speculative_block(&hash).err(), named(Key::HighestTC));
    assert_eq!(tree.promote_speculative_to_irrevocable(&hash).err(), named(Key::HighestTC));
    assert_eq!(tree.record_leader_success(&vk(1)).err(), named(Key::HighestTC));
    assert_eq!(tree.record_leader_timeout(&vk(1)).err(), named(Key::HighestTC));
    assert!(tree.take_journal().is_empty());
    // What only writes it makes it readable.
    tree.set_highest_view_entered(ViewNumber::new(2)).unwrap();
    assert_eq!(tree.highest_view_entered().unwrap(), ViewNumber::new(2));
    assert_eq!(tree.highest_view_with_progress().err(), named(Key::HighestPC));
}

#[test]
fn what_is_not_read_does_not_matter() {
    // A committed chain of three blocks.
    let mut tree = initialized_tree();
    let mut justify = PhaseCertificate::genesis_pc();
    let mut hashes = Vec::new();
    for height in 0..3u64 {
        let next = block(height, justify, &[b"x"]);
        tree.insert(&next, None, None).unwrap();
        justify = pc(height + 1, next.hash);
        hashes.push(next.hash);
    }
    let mut batch = BlockTreeWriteBatch::new();
    tree.commit(&mut batch, &hashes[1]).unwrap();
    tree.write(batch);
    let mut disk = Disk::new();
    disk.make_all(tree.take_journal());

    // The local tip and the leader records mean nothing to commits, pruning and the feed.
    disk.held.insert(vec![17], vec![1]);
    disk.held.insert(vec![21], vec![1]);
    let mut damaged = BlockTreeSingleton::new(Store::load(&disk.entries()));
    assert!(!damaged.store.is_readable());
    let mut batch = BlockTreeWriteBatch::new();
    assert_eq!(damaged.commit(&mut batch, &hashes[2]).unwrap(), vec![(hashes[2], None)]);
    damaged.write(batch);
    assert_eq!(feed_committed_blocks_to_app(&mut damaged), Ok(3));
    assert_eq!(damaged.prune_old_committed_blocks_with(1), Ok(1));
    assert!(!damaged.contains(&hashes[0]));
    assert!(damaged.local_tip().is_err());

    // Where pruning left off does.
    disk.held.insert(vec![22], vec![1]);
    let mut damaged = BlockTreeSingleton::new(Store::load(&disk.entries()));
    let fault = undecodable(Key::HighestCommittedBlock);
    assert_eq!(damaged.prune_old_committed_blocks_with(0), Err(fault));
    assert_eq!(damaged.prune_old_committed_blocks_with(5), Ok(0), "nothing to prune");
    assert_eq!(feed_committed_blocks_to_app(&mut damaged), Err(fault));
    assert!(damaged.take_journal().is_empty());

    // So does the frontier of the feed.
    disk.held.remove(&vec![22]);
    disk.held.insert(vec![23], vec![1]);
    let mut damaged = BlockTreeSingleton::new(Store::load(&disk.entries()));
    assert_eq!(feed_committed_blocks_to_app(&mut damaged), Err(fault));
    assert_eq!(damaged.prune_old_committed_blocks_with(0), Ok(1));
}

#[test]
fn inserting_writes_over_children_that_cannot_be_read() {
    let parent = block(0, PhaseCertificate::genesis_pc(), &[]);
    let child = block(1, pc(1, parent.hash), &[]);
    let mut key = vec![2];
    key.extend(parent.hash.bytes());
    let mut tree = BlockTreeSingleton::new(Store::load(&vec![(key, vec![1])]));
    assert!(tree.children(&parent.hash).is_err());
    tree.insert(&child, None, None).unwrap();
    assert_eq!(*tree.children(&parent.hash).unwrap().hashes, vec![child.hash]);
    assert!(tree.store.is_readable());
}

#[test]
fn what_follows_an_encoding_is_passed_over() {
    let store = Store::load(&vec![(vec![8], vec![3, 0, 0, 0, 0, 0, 0, 0, 77])]);
    assert!(store.is_readable());
    assert_eq!(store.highest_view_entered, Some(ViewNumber::new(3)));
    // A key that is nobody's says nothing.
    let others = vec![(vec![200], vec![1]), (vec![], vec![]), (vec![8, 8], vec![])];
    assert!(Store::load(&others).is_readable());
}

#[test]
fn the_last_value_of_a_key_counts() {
    let entries: Entries = vec![
        (vec![8], vec![1, 0, 0, 0, 0, 0, 0, 0]),
        (vec![8], vec![2, 0, 0, 0, 0, 0, 0, 0]),
    ];
    let store = Store::load(&entries);
    assert_eq!(store.highest_view_entered, Some(ViewNumber::new(2)));
}
