//! The messages, their encodings and their signatures.

use borsh::{BorshDeserialize, BorshSerialize};
use ed25519_dalek::Signer;
use sha2::Digest;

use hotstuff_rs::block_sync::messages::{AdvertiseBlock, BlockSyncAdvertiseMessage};
use hotstuff_rs::codec::{
    encode_advertisement, encode_block_preimage, encode_ne_message, encode_vote_message,
};
use hotstuff_rs::hotstuff::messages::{
    BlockDataRequest, BlockDataResponse, HotStuffMessage, NEMessage, Nudge, PhaseVote, Proposal,
    ProposalHeader,
};
use hotstuff_rs::hotstuff::types::{NoEndorsementCertificate, Phase, PhaseCertificate};
use hotstuff_rs::pacemaker::{TimeoutCertificate, TipInfo, VoterMetadata};
use hotstuff_rs::types::block::Block;
use hotstuff_rs::types::crypto_primitives::{hash_bytes, Keypair, SigningKey};
use hotstuff_rs::types::data_types::{
    BlockHeight, Bytes, ChainID, CryptoHash, Data, Datum, SignatureBytes, SignatureSet,
    ViewNumber,
};
use hotstuff_rs::wire::{decode, encode};

fn genesis_pc() -> PhaseCertificate {
    PhaseCertificate::genesis_pc()
}

fn header() -> ProposalHeader {
    ProposalHeader {
        chain_id: ChainID::new(1),
        view: ViewNumber::new(5),
        block_hash: CryptoHash::new([0xAA; 32]),
        height: BlockHeight::new(3),
        data_hash: CryptoHash::new([0xBB; 32]),
        justify: genesis_pc(),
        tc: None,
        nec: None,
        has_validator_set_updates: false,
    }
}

fn keypair(seed: u8) -> Keypair {
    Keypair::new(SigningKey::from_bytes(&[seed; 32]))
}

#[test]
fn proposal_header_roundtrip_borsh() {
    let header = header();
    let bytes = encode(&header).unwrap();
    assert!(bytes.len() < 1024, "header serialized to {} bytes, must be <1KB", bytes.len());
    let decoded: ProposalHeader = decode(&bytes).unwrap();
    assert!(header == decoded, "roundtrip mismatch");
}

#[test]
fn proposal_header_from_proposal() {
    let pc = genesis_pc();
    let block = Block::new(
        BlockHeight::new(1),
        pc.clone(),
        CryptoHash::new([0xCC; 32]),
        Data::new(vec![Datum::new(vec![1, 2, 3])]),
    );
    let proposal = Proposal {
        chain_id: ChainID::new(1),
        view: ViewNumber::new(5),
        block: block.clone(),
        tc: None,
        nec: None,
    };
    let header = ProposalHeader::from_proposal(&proposal, false);
    assert!(header.chain_id == proposal.chain_id);
    assert_eq!(header.view, proposal.view);
    assert_eq!(header.block_hash, block.hash);
    assert_eq!(header.height, block.height);
    assert_eq!(header.data_hash, block.data_hash);
    assert!(header.justify == block.justify);
    assert!(!header.has_validator_set_updates);
}

#[test]
fn block_data_request_roundtrip_borsh() {
    let req = BlockDataRequest {
        chain_id: ChainID::new(1),
        view: ViewNumber::new(1),
        block_hash: CryptoHash::new([0xDD; 32]),
    };
    let bytes = encode(&req).unwrap();
    assert!(bytes.len() < 100, "request serialized to {} bytes", bytes.len());
    let decoded: BlockDataRequest = decode(&bytes).unwrap();
    assert!(req == decoded, "roundtrip mismatch");
}

#[test]
fn block_data_response_roundtrip_borsh() {
    let block = Block::new(
        BlockHeight::new(1),
        genesis_pc(),
        CryptoHash::new([0xCC; 32]),
        Data::new(vec![Datum::new(vec![0u8; 4000])]),
    );
    let resp = BlockDataResponse { view: ViewNumber::new(1), block: block.clone() };
    let bytes = encode(&resp).unwrap();
    assert!(bytes.len() < 4 * 1024 * 1024);
    let decoded: BlockDataResponse = decode(&bytes).unwrap();
    assert_eq!(decoded.block.hash, block.hash);
    assert_eq!(decoded, resp);
}

#[test]
fn proposal_header_much_smaller_than_full_proposal() {
    let big_data = Data::new(vec![Datum::new(vec![0u8; 100_000])]);
    let block = Block::new(
        BlockHeight::new(1),
        genesis_pc(),
        CryptoHash::new([0xCC; 32]),
        big_data,
    );
    let proposal = Proposal {
        chain_id: ChainID::new(1),
        view: ViewNumber::new(5),
        block,
        tc: None,
        nec: None,
    };
    let proposal_bytes = encode(&proposal).unwrap();
    let header = ProposalHeader::from_proposal(&proposal, false);
    let header_bytes = encode(&header).unwrap();
    assert!(
        header_bytes.len() * 10 < proposal_bytes.len(),
        "header ({} bytes) should be at least 10x smaller than proposal ({} bytes)",
        header_bytes.len(),
        proposal_bytes.len()
    );
}

#[test]
fn hotstuff_message_variants_for_hybrid_pipelining() {
    let msg: HotStuffMessage = header().into();
    assert!(msg.chain_id() == ChainID::new(1));
    assert_eq!(msg.view(), ViewNumber::new(5));

    let req = BlockDataRequest {
        chain_id: ChainID::new(2),
        view: ViewNumber::new(3),
        block_hash: CryptoHash::new([0xDD; 32]),
    };
    let msg: HotStuffMessage = req.into();
    assert!(msg.chain_id() == ChainID::new(2));
    assert_eq!(msg.view(), ViewNumber::new(3));
}

#[test]
fn messages_of_one_kind_have_one_size() {
    let request = |view: u64, fill: u8| -> HotStuffMessage {
        BlockDataRequest {
            chain_id: ChainID::new(2),
            view: ViewNumber::new(view),
            block_hash: CryptoHash::new([fill; 32]),
        }
        .into()
    };
    assert_eq!(request(1, 0xDD).size(), request(9, 0xEE).size());
    let small: HotStuffMessage = header().into();
    let mut other = header();
    other.view = ViewNumber::new(99);
    let large: HotStuffMessage = other.into();
    assert_eq!(small.size(), large.size());
    assert!(small.size() > request(1, 0).size());
    assert_eq!(small.size(), std::mem::size_of::<ProposalHeader>() as u64);
    assert_eq!(request(1, 0).size(), std::mem::size_of::<BlockDataRequest>() as u64);
}

#[test]
fn encodings_are_those_of_borsh() {
    let message = encode_vote_message(
        ChainID::new(3),
        ViewNumber::new(258),
        &CryptoHash::new([7u8; 32]),
        Phase::Precommit,
    );
    assert_eq!(message, (3u64, 258u64, [7u8; 32], 2u8).try_to_vec().unwrap());
    assert_eq!(
        encode_ne_message(ViewNumber::new(9), ViewNumber::new(4)),
        (9u64, 4u64).try_to_vec().unwrap()
    );
    assert_eq!(
        encode_advertisement(ChainID::new(3), BlockHeight::new(70000)),
        (3u64, 70000u64).try_to_vec().unwrap()
    );

    let mut signatures = SignatureSet::new(2);
    signatures.set(1, Some(SignatureBytes::new([5u8; 64])));
    let pc = PhaseCertificate {
        chain_id: ChainID::new(3),
        view: ViewNumber::new(8),
        block: CryptoHash::new([1u8; 32]),
        phase: Phase::Generic,
        signatures,
    };
    let mut signed = vec![1u8];
    signed.extend([5u8; 64]);
    let mut expected = (3u64, 8u64, [1u8; 32], 0u8).try_to_vec().unwrap();
    expected.extend(2u32.try_to_vec().unwrap());
    expected.push(0u8);
    expected.extend(&signed);
    assert_eq!(encode(&pc), Some(expected.clone()));

    let mut preimage = 6u64.try_to_vec().unwrap();
    preimage.extend(expected);
    preimage.extend([2u8; 32]);
    assert_eq!(
        encode_block_preimage(BlockHeight::new(6), &pc, &CryptoHash::new([2u8; 32])),
        preimage
    );

    let data = Data::new(vec![Datum::new(vec![1, 2, 3]), Datum::new(vec![])]);
    assert_eq!(encode(&data), Some(vec![vec![1u8, 2, 3], vec![]].try_to_vec().unwrap()));
    assert_eq!(
        Vec::<Vec<u8>>::try_from_slice(&encode(&data).unwrap()).unwrap(),
        vec![vec![1u8, 2, 3], vec![]]
    );
    assert_eq!(encode(&Some(7u64)), Some(Some(7u64).try_to_vec().unwrap()));
    assert_eq!(encode(&true), Some(true.try_to_vec().unwrap()));
}

#[test]
fn everything_that_is_encoded_is_read_back() {
    let mut signatures = SignatureSet::new(3);
    signatures.set(2, Some(SignatureBytes::new([9u8; 64])));
    let tip = TipInfo {
        block_hash: CryptoHash::new([4u8; 32]),
        block_height: BlockHeight::new(2),
        block_justify: genesis_pc(),
        block_data_hash: CryptoHash::new([5u8; 32]),
        view: ViewNumber::new(6),
    };
    let tc = TimeoutCertificate {
        chain_id: ChainID::new(1),
        view: ViewNumber::new(4),
        signatures: signatures.clone(),
        high_tip: Some(tip.clone()),
        high_qc: Some(genesis_pc()),
        high_tip_is_winner: true,
        voter_metadata: VoterMetadata::new(vec![Bytes::new(vec![1, 2]), Bytes::new(vec![])]),
    };
    let nec = NoEndorsementCertificate {
        view: ViewNumber::new(4),
        high_tip_qc_view: ViewNumber::new(2),
        signatures,
    };
    let full = ProposalHeader { tc: Some(tc.clone()), nec: Some(nec.clone()), ..header() };
    assert_eq!(decode::<TipInfo>(&encode(&tip).unwrap()), Some(tip));
    assert_eq!(decode::<TimeoutCertificate>(&encode(&tc).unwrap()), Some(tc));
    assert_eq!(decode::<NoEndorsementCertificate>(&encode(&nec).unwrap()), Some(nec));
    assert_eq!(decode::<ProposalHeader>(&encode(&full).unwrap()), Some(full));
}

#[test]
fn bytes_that_encode_nothing_are_refused() {
    let bytes = encode(&header()).unwrap();
    assert!(decode::<ProposalHeader>(&bytes[..bytes.len() - 1].to_vec()).is_none(), "too short");
    let mut longer = bytes.clone();
    longer.push(0);
    assert!(decode::<ProposalHeader>(&longer).is_none(), "too long");
    assert!(decode::<bool>(&vec![2u8]).is_none(), "no such boolean");
    assert!(decode::<Phase>(&vec![5u8]).is_none(), "no such phase");
    assert!(decode::<Option<u64>>(&vec![2u8]).is_none(), "no such option");
    assert_eq!(decode::<Phase>(&vec![4u8]), Some(Phase::Decide));
}

#[test]
fn hashes_are_those_of_sha256() {
    let expected: [u8; 32] = sha2::Sha256::digest([1u8, 2, 3]).into();
    assert_eq!(hash_bytes(&vec![1, 2, 3]).bytes(), expected);

    let block = Block::new(
        BlockHeight::new(1),
        genesis_pc(),
        CryptoHash::new([0xCC; 32]),
        Data::new(vec![]),
    );
    let preimage =
        encode_block_preimage(BlockHeight::new(1), &genesis_pc(), &CryptoHash::new([0xCC; 32]));
    let expected: [u8; 32] = sha2::Sha256::digest(preimage).into();
    assert_eq!(block.hash.bytes(), expected);
    assert!(block.is_hash_correct());
    let mut other = block;
    other.height = BlockHeight::new(2);
    assert!(!other.is_hash_correct());
}

#[test]
fn signatures_are_those_of_ed25519() {
    let secret = ed25519_dalek::SigningKey::from_bytes(&[7u8; 32]);
    let keys = keypair(7);
    assert_eq!(keys.public().to_bytes(), secret.verifying_key().to_bytes());
    let message = vec![1u8, 2, 3];
    let signature = keys.sign(&message);
    assert_eq!(signature.bytes(), secret.sign(&message).to_bytes());
    assert!(keys.public().verify(&message, &signature));
    assert!(!keys.public().verify(&vec![1u8, 2], &signature));
    assert!(!keypair(8).public().verify(&message, &signature));
    assert!(!keys.public().verify(&message, &SignatureBytes::new([0u8; 64])));
}

#[test]
fn votes_are_correct_for_their_signer_alone() {
    let vote = PhaseVote::new(
        &keypair(1),
        ChainID::new(1),
        ViewNumber::new(2),
        CryptoHash::new([3u8; 32]),
        Phase::Generic,
    );
    assert!(vote.is_correct(&keypair(1).public()));
    assert!(!vote.is_correct(&keypair(2).public()));
    assert_eq!(
        vote.message_bytes(),
        encode_vote_message(
            ChainID::new(1),
            ViewNumber::new(2),
            &CryptoHash::new([3u8; 32]),
            Phase::Generic
        )
    );
    let moved = PhaseVote { view: ViewNumber::new(3), ..vote };
    assert!(!moved.is_correct(&keypair(1).public()));

    let ne =
        NEMessage::new(&keypair(1), ChainID::new(1), ViewNumber::new(2), ViewNumber::new(1));
    assert!(keypair(1)
        .public()
        .verify(&encode_ne_message(ViewNumber::new(2), ViewNumber::new(1)), &ne.signature));
}

#[test]
fn advertisements_are_correct_for_their_signer_alone() {
    let message = BlockSyncAdvertiseMessage::advertise_block(
        &keypair(1),
        ChainID::new(1),
        BlockHeight::new(9),
    );
    assert_eq!(message.chain_id(), ChainID::new(1));
    let advertisement: AdvertiseBlock = match message {
        BlockSyncAdvertiseMessage::AdvertiseBlock(advertisement) => advertisement,
        BlockSyncAdvertiseMessage::AdvertisePC(_) => unreachable!(),
    };
    assert!(advertisement.is_correct(&keypair(1).public()));
    assert!(!advertisement.is_correct(&keypair(2).public()));
}

#[test]
fn headers_and_bodies_are_looked_at_in_every_view() {
    let response = BlockDataResponse {
        view: ViewNumber::new(2),
        block: Block::new(
            BlockHeight::new(0),
            genesis_pc(),
            CryptoHash::new([1u8; 32]),
            Data::new(vec![]),
        ),
    };
    let message = HotStuffMessage::from(response);
    assert!(message.is_block_data_msg());
    assert_eq!(message.view(), ViewNumber::new(2));
    assert!(HotStuffMessage::from(header()).is_block_data_msg());
    let vote = PhaseVote::new(
        &keypair(1),
        ChainID::new(1),
        ViewNumber::new(2),
        CryptoHash::new([3u8; 32]),
        Phase::Generic,
    );
    assert!(!HotStuffMessage::from(vote).is_block_data_msg());
}

#[test]
fn phases_that_may_justify() {
    let with = |phase: Phase| PhaseCertificate {
        chain_id: ChainID::new(1),
        view: ViewNumber::new(1),
        block: CryptoHash::new([1u8; 32]),
        phase,
        signatures: SignatureSet::new(1),
    };
    assert!(with(Phase::Generic).is_block_justify());
    assert!(with(Phase::Decide).is_block_justify());
    assert!(!with(Phase::Prepare).is_block_justify());
    assert!(with(Phase::Prepare).is_nudge_justify());
    assert!(with(Phase::Precommit).is_nudge_justify());
    assert!(with(Phase::Commit).is_nudge_justify());
    assert!(!with(Phase::Generic).is_nudge_justify());
    assert!(genesis_pc().is_genesis_pc());
    assert!(!with(Phase::Generic).is_genesis_pc());
    let nudge = Nudge::new(ChainID::new(1), ViewNumber::new(2), with(Phase::Prepare));
    assert_eq!(nudge.justify, with(Phase::Prepare));
}
