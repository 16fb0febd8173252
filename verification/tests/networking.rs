//! Which messages are handed out, which are kept, and which are dropped.

use std::sync::mpsc::{channel, Receiver, TryRecvError};

use hotstuff_rs::hotstuff::messages::{
    BlockDataRequest, BlockDataResponse, HotStuffMessage, PhaseVote, ProposalHeader,
};
use hotstuff_rs::hotstuff::types::{Phase, PhaseCertificate};
use hotstuff_rs::networking::messages::ProgressMessage;
use hotstuff_rs::networking::receiving::{
    is_chain_neutral_genesis_body, BeforeRetryAction, ProgressMessageBuffer,
    ProgressMessageReceiveError, ProgressMessageStub, MAX_BEFORE_RETRY_ENVELOPES,
};
use hotstuff_rs::pacemaker::{PacemakerMessage, ProgressCertificate};
use hotstuff_rs::types::block::Block;
use hotstuff_rs::types::crypto_primitives::{Keypair, SigningKey};
use hotstuff_rs::types::data_types::{
    BlockHeight, BufferSize, ChainID, CryptoHash, Data, VerifyingKey, ViewNumber,
};

type Envelope = (VerifyingKey, ProgressMessage);

fn sender() -> VerifyingKey {
    SigningKey::from_bytes(&[1; 32]).verifying_key()
}

fn request(chain: u64, view: u64, id: u8) -> ProgressMessage {
    ProgressMessage::HotStuffMessage(HotStuffMessage::BlockDataRequest(BlockDataRequest {
        chain_id: ChainID::new(chain),
        view: ViewNumber::new(view),
        block_hash: CryptoHash::new([id; 32]),
    }))
}

fn vote(view: u64) -> ProgressMessage {
    ProgressMessage::HotStuffMessage(
        PhaseVote::new(
            &Keypair::new(SigningKey::from_bytes(&[1; 32])),
            ChainID::new(0),
            ViewNumber::new(view),
            CryptoHash::new([7; 32]),
            Phase::Generic,
        )
        .into(),
    )
}

fn header(view: u64) -> ProgressMessage {
    ProgressMessage::HotStuffMessage(
        ProposalHeader {
            chain_id: ChainID::new(0),
            view: ViewNumber::new(view),
            block_hash: CryptoHash::new([0; 32]),
            height: BlockHeight::new(0),
            data_hash: CryptoHash::new([0; 32]),
            justify: PhaseCertificate::genesis_pc(),
            tc: None,
            nec: None,
            has_validator_set_updates: false,
        }
        .into(),
    )
}

fn request_id(message: Envelope) -> CryptoHash {
    match message.1 {
        ProgressMessage::HotStuffMessage(HotStuffMessage::BlockDataRequest(r)) => r.block_hash,
        _ => panic!("expected a body request"),
    }
}

/// Receive until the deadline. Time stands still while there are envelopes, and passes the deadline
/// when there are none.
fn recv(
    stub: &mut ProgressMessageStub,
    receiver: &Receiver<Envelope>,
    chain_id: ChainID,
    cur_view: ViewNumber,
    mut now: u64,
    deadline: u64,
) -> Result<Envelope, ProgressMessageReceiveError> {
    if let Some(kept) = stub.take_buffered(cur_view) {
        return Ok(kept);
    }
    while now < deadline {
        match receiver.try_recv() {
            Ok((origin, message)) => {
                if let Some(taken) = stub.take_arrival(chain_id, cur_view, origin, message) {
                    return Ok(taken);
                }
            }
            Err(TryRecvError::Empty) => now = deadline,
            Err(TryRecvError::Disconnected) => {
                return Err(ProgressMessageReceiveError::Disconnected)
            }
        }
    }
    Err(ProgressMessageReceiveError::Timeout)
}

/// Receive before body retries, with the same notion of time.
fn recv_before_body_retry(
    stub: &mut ProgressMessageStub,
    receiver: &Receiver<Envelope>,
    chain_id: ChainID,
    cur_view: ViewNumber,
    now: u64,
    deadline: u64,
) -> Result<Envelope, ProgressMessageReceiveError> {
    if let Some(kept) = stub.take_buffered(cur_view) {
        return Ok(kept);
    }
    let mut examined = 0;
    let mut found_empty = false;
    loop {
        match ProgressMessageStub::before_retry_action(examined, found_empty, now, deadline) {
            BeforeRetryAction::GiveUp | BeforeRetryAction::Wait => {
                return Err(ProgressMessageReceiveError::Timeout)
            }
            BeforeRetryAction::TakeReady => match receiver.try_recv() {
                Ok((origin, message)) => {
                    examined += 1;
                    if let Some(taken) = stub.take_arrival(chain_id, cur_view, origin, message) {
                        return Ok(taken);
                    }
                }
                Err(TryRecvError::Empty) => found_empty = true,
                Err(TryRecvError::Disconnected) => {
                    return Err(ProgressMessageReceiveError::Disconnected)
                }
            },
        }
    }
}

#[test]
fn expired_deadline_legacy_leaves_ready_channel_but_bounded_receives_only_one() {
    let (tx, rx) = channel();
    let mut stub = ProgressMessageStub::new(BufferSize::new(1_000_000));
    tx.send((sender(), request(0, 1, 1))).unwrap();
    tx.send((sender(), request(0, 1, 2))).unwrap();
    assert!(matches!(
        recv(&mut stub, &rx, ChainID::new(0), ViewNumber::new(2), 5, 5),
        Err(ProgressMessageReceiveError::Timeout)
    ));
    assert_eq!(
        request_id(
            recv_before_body_retry(&mut stub, &rx, ChainID::new(0), ViewNumber::new(2), 5, 5)
                .unwrap()
        ),
        CryptoHash::new([1; 32])
    );
    assert_eq!(request_id(rx.try_recv().unwrap()), CryptoHash::new([2; 32]));
}

#[test]
fn raw_budget_counts_wrong_chain_stale_and_future_only_envelopes() {
    let (tx, rx) = channel();
    let mut stub = ProgressMessageStub::new(BufferSize::new(1_000_000));
    for i in 0..MAX_BEFORE_RETRY_ENVELOPES {
        let message = match i % 3 {
            0 => request(99, 2, i as u8),
            1 => vote(1),
            _ => vote(3),
        };
        tx.send((sender(), message)).unwrap();
    }
    tx.send((sender(), request(0, 2, 99))).unwrap();
    assert!(matches!(
        recv_before_body_retry(&mut stub, &rx, ChainID::new(0), ViewNumber::new(2), 0, 60_000),
        Err(ProgressMessageReceiveError::Timeout)
    ));
    assert_eq!(request_id(rx.try_recv().unwrap()), CryptoHash::new([99; 32]));
    assert_eq!(stub.msg_buffer.queued(&ViewNumber::new(3)), 2);
}

#[test]
fn future_recovery_redelivery_and_buffer_priority_are_preserved() {
    let (tx, rx) = channel();
    let mut stub = ProgressMessageStub::new(BufferSize::new(1_000_000));
    tx.send((sender(), request(0, 3, 1))).unwrap();
    assert_eq!(
        request_id(
            recv_before_body_retry(&mut stub, &rx, ChainID::new(0), ViewNumber::new(2), 0, 0)
                .unwrap()
        ),
        CryptoHash::new([1; 32])
    );
    tx.send((sender(), request(0, 3, 2))).unwrap();
    assert_eq!(
        request_id(
            recv_before_body_retry(&mut stub, &rx, ChainID::new(0), ViewNumber::new(3), 0, 0)
                .unwrap()
        ),
        CryptoHash::new([1; 32])
    );
    assert_eq!(request_id(rx.try_recv().unwrap()), CryptoHash::new([2; 32]));
    assert_eq!(stub.msg_buffer.buffer_size.value(), 0);
}

#[test]
fn empty_expired_deadline_and_disconnected_channel_remain_distinct() {
    let (tx, rx) = channel();
    let mut stub = ProgressMessageStub::new(BufferSize::new(1_000_000));
    assert!(matches!(
        recv_before_body_retry(&mut stub, &rx, ChainID::new(0), ViewNumber::new(1), 0, 0),
        Err(ProgressMessageReceiveError::Timeout)
    ));
    tx.send((sender(), request(0, 1, 1))).unwrap();
    drop(tx);
    assert!(
        recv_before_body_retry(&mut stub, &rx, ChainID::new(0), ViewNumber::new(1), 0, 0).is_ok()
    );
    assert!(matches!(
        recv_before_body_retry(&mut stub, &rx, ChainID::new(0), ViewNumber::new(1), 0, 0),
        Err(ProgressMessageReceiveError::Disconnected)
    ));
    assert!(matches!(
        recv(&mut stub, &rx, ChainID::new(0), ViewNumber::new(1), 0, 1_000),
        Err(ProgressMessageReceiveError::Disconnected)
    ));
}

#[test]
fn only_the_first_envelope_is_waited_for() {
    let action = ProgressMessageStub::before_retry_action;
    assert_eq!(action(0, false, 5, 9), BeforeRetryAction::TakeReady);
    assert_eq!(action(0, true, 5, 9), BeforeRetryAction::Wait);
    assert_eq!(action(0, true, 9, 9), BeforeRetryAction::GiveUp);
    assert_eq!(action(1, true, 5, 9), BeforeRetryAction::GiveUp);
    assert_eq!(action(7, false, 5, 9), BeforeRetryAction::TakeReady);
    assert_eq!(action(8, false, 5, 9), BeforeRetryAction::GiveUp);
}

fn entry_size(msg: &ProgressMessage) -> u64 {
    std::mem::size_of::<VerifyingKey>() as u64 + msg.size()
}

fn insert(buffer: &mut ProgressMessageBuffer, message: ProgressMessage) -> bool {
    let view = message.view().expect("a message with a view");
    buffer.insert(view, message, sender())
}

fn assert_accounted(buffer: &ProgressMessageBuffer) {
    let queued_bytes: u64 = buffer.buffer.iter().map(|kept| entry_size(&kept.message)).sum();
    assert_eq!(buffer.buffer_size.value(), queued_bytes);
    assert!(queued_bytes <= buffer.buffer_capacity.value());
}

#[test]
fn delivery_releases_capacity_preserves_fifo_and_removes_empty_views() {
    let size = entry_size(&request(0, 1, 1));
    let mut buffer = ProgressMessageBuffer::new(BufferSize::new(2 * size));
    for view in 1..=4 {
        assert!(insert(&mut buffer, request(0, view, 1)));
        assert!(insert(&mut buffer, request(0, view, 2)));
        assert_accounted(&buffer);
        for id in [1, 2] {
            let (_, msg) = buffer.get_msg(&ViewNumber::new(view)).unwrap();
            assert!(matches!(
                msg,
                ProgressMessage::HotStuffMessage(HotStuffMessage::BlockDataRequest(req))
                    if req.block_hash == CryptoHash::new([id; 32])
            ));
            assert_accounted(&buffer);
        }
        assert!(buffer.buffer.is_empty());
        assert!(buffer.get_msg(&ViewNumber::new(view)).is_none());
        assert_eq!(buffer.buffer_size.value(), 0);
    }
}

#[test]
fn expiration_releases_only_older_views_and_allows_refill() {
    let size = entry_size(&request(0, 1, 1));
    let mut buffer = ProgressMessageBuffer::new(BufferSize::new(4 * size));
    for view in [1, 1, 2, 3] {
        assert!(insert(&mut buffer, request(0, view, 1)));
    }
    buffer.remove_expired_msgs(ViewNumber::new(2));
    assert_accounted(&buffer);
    assert_eq!(buffer.buffer_size.value(), 2 * size);
    assert_eq!(buffer.queued(&ViewNumber::new(2)), 1);
    assert_eq!(buffer.queued(&ViewNumber::new(3)), 1);
    buffer.remove_expired_msgs(ViewNumber::new(2));
    assert_accounted(&buffer);
    assert!(insert(&mut buffer, request(0, 4, 1)));
    assert!(insert(&mut buffer, request(0, 5, 1)));
    assert_accounted(&buffer);
    buffer.remove_expired_msgs(ViewNumber::new(6));
    assert_accounted(&buffer);
    assert_eq!(buffer.buffer_size.value(), 0);
    assert!(insert(&mut buffer, request(0, 7, 1)));
    assert_accounted(&buffer);
}

#[test]
fn eviction_reclaims_only_deficit_from_highest_view() {
    let small = entry_size(&request(0, 4, 1));
    let large = entry_size(&header(3));
    assert!(large > small);
    let mut buffer = ProgressMessageBuffer::new(BufferSize::new(2 * small + large));
    for view in [4, 5, 6] {
        assert!(insert(&mut buffer, request(0, view, 1)));
    }
    assert!(insert(&mut buffer, header(3)));
    assert_accounted(&buffer);
    assert_eq!(buffer.buffer_size.value(), buffer.buffer_capacity.value());
    assert_eq!(buffer.queued(&ViewNumber::new(3)), 1);
    assert_eq!(buffer.queued(&ViewNumber::new(4)), 1);
    assert_eq!(buffer.queued(&ViewNumber::new(5)), 1);
    assert_eq!(buffer.queued(&ViewNumber::new(6)), 0);
    assert!(!insert(&mut buffer, request(0, 5, 2)));
    assert!(!insert(&mut buffer, request(0, 9, 2)));
    assert_accounted(&buffer);
}

#[test]
fn oversized_messages_are_rejected_without_eviction_even_when_empty() {
    let small = entry_size(&request(0, 5, 1));
    let large = entry_size(&header(1));
    assert!(large > small);
    let mut buffer = ProgressMessageBuffer::new(BufferSize::new(small));
    assert!(!insert(&mut buffer, header(1)));
    assert_accounted(&buffer);
    assert!(insert(&mut buffer, request(0, 5, 1)));
    assert!(!insert(&mut buffer, header(1)));
    assert_accounted(&buffer);
    assert!(buffer.get_msg(&ViewNumber::new(5)).is_some());
    assert_accounted(&buffer);
    let mut zero = ProgressMessageBuffer::new(BufferSize::new(0));
    assert!(!insert(&mut zero, request(0, 1, 1)));
    assert_accounted(&zero);
}

fn response(block: Block) -> ProgressMessage {
    ProgressMessage::HotStuffMessage(HotStuffMessage::BlockDataResponse(BlockDataResponse {
        view: ViewNumber::new(1),
        block,
    }))
}

#[test]
fn nonzero_chain_receives_only_structurally_valid_genesis_body_exception() {
    let chain = ChainID::new(7778);
    let parent = Block::new(
        BlockHeight::new(0),
        PhaseCertificate::genesis_pc(),
        CryptoHash::new([9; 32]),
        Data::new(vec![]),
    );
    let (tx, rx) = channel();
    let mut receiver = ProgressMessageStub::new(BufferSize::new(1024 * 1024));
    let mut forged_hash = parent.clone();
    forged_hash.hash = CryptoHash::new([99; 32]);
    let wrong_height = Block::new(
        BlockHeight::new(1),
        PhaseCertificate::genesis_pc(),
        parent.data_hash,
        Data::new(vec![]),
    );
    let mut non_genesis_pc = PhaseCertificate::genesis_pc();
    non_genesis_pc.view = ViewNumber::new(2);
    let non_genesis =
        Block::new(BlockHeight::new(0), non_genesis_pc, parent.data_hash, Data::new(vec![]));
    let wrong_request =
        ProgressMessage::HotStuffMessage(HotStuffMessage::BlockDataRequest(BlockDataRequest {
            chain_id: ChainID::new(0),
            view: ViewNumber::new(1),
            block_hash: parent.hash,
        }));
    let wrong_header =
        ProgressMessage::HotStuffMessage(HotStuffMessage::ProposalHeader(ProposalHeader {
            chain_id: ChainID::new(0),
            view: ViewNumber::new(1),
            block_hash: parent.hash,
            height: parent.height,
            data_hash: parent.data_hash,
            justify: parent.justify.clone(),
            tc: None,
            nec: None,
            has_validator_set_updates: false,
        }));
    for msg in [
        response(forged_hash),
        response(wrong_height),
        response(non_genesis),
        wrong_request,
        wrong_header,
    ] {
        assert!(!is_chain_neutral_genesis_body(&msg));
        tx.send((sender(), msg)).unwrap();
    }
    tx.send((sender(), response(parent.clone()))).unwrap();
    let (_, received) = recv(&mut receiver, &rx, chain, ViewNumber::new(5), 0, 1_000)
        .expect("a genesis body is for every chain");
    assert!(matches!(
        received,
        ProgressMessage::HotStuffMessage(HotStuffMessage::BlockDataResponse(r))
            if r.block.hash == parent.hash && r.block.justify.is_genesis_pc()
    ));
    tx.send((
        sender(),
        ProgressMessage::HotStuffMessage(HotStuffMessage::BlockDataRequest(BlockDataRequest {
            chain_id: chain,
            view: ViewNumber::new(1),
            block_hash: parent.hash,
        })),
    ))
    .unwrap();
    let (_, received) =
        recv(&mut receiver, &rx, chain, ViewNumber::new(5), 0, 1_000).unwrap();
    assert!(matches!(
        received,
        ProgressMessage::HotStuffMessage(HotStuffMessage::BlockDataRequest(r))
            if r.chain_id == chain
    ));
}

#[test]
fn early_pacemaker_messages_are_both_handed_out_and_kept() {
    let mut stub = ProgressMessageStub::new(BufferSize::new(1_000_000));
    let mut certificate = PhaseCertificate::genesis_pc();
    certificate.view = ViewNumber::new(4);
    let message = PacemakerMessage::advance_view(ProgressCertificate::PhaseCertificate(certificate));
    let view = message.view();
    let taken = stub.take_arrival(
        ChainID::new(0),
        ViewNumber::new(2),
        sender(),
        ProgressMessage::PacemakerMessage(message),
    );
    assert!(taken.is_some());
    assert_eq!(stub.msg_buffer.queued(&view), 1);
}
