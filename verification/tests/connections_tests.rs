use p2p_share::connections::{
    accept_handshake, check_init_response, document_length, worker_step, Backoff, ConnectionInterruptEvent,
    HandshakeError, ReadOutcome, WorkerAction,
};
use p2p_share::message::{Message, MessageBody};

fn message(body: MessageBody) -> Message {
    Message { sender: 4, body, timestamp: 1 }
}

#[test]
fn the_worker_hands_on_messages_and_stops_when_the_peer_leaves() {
    assert_eq!(worker_step(&ReadOutcome::Received(message(MessageBody::Empty))), WorkerAction::Emit);
    assert_eq!(worker_step(&ReadOutcome::Closed), WorkerAction::Exit);
    assert_eq!(worker_step(&ReadOutcome::Interrupted(ConnectionInterruptEvent::Kill)), WorkerAction::Continue);
    assert_eq!(worker_step(&ReadOutcome::Interrupted(ConnectionInterruptEvent::AllowWrite)), WorkerAction::Continue);
    assert_eq!(worker_step(&ReadOutcome::Undecodable), WorkerAction::Continue);
    assert_eq!(worker_step(&ReadOutcome::Failed), WorkerAction::Continue);
}

#[test]
fn only_a_request_to_connect_opens_a_connection() {
    assert_eq!(accept_handshake(&message(MessageBody::InitRequest)), Ok(4));
    assert_eq!(accept_handshake(&message(MessageBody::InitResponse)), Err(HandshakeError::NotInitRequest));
    assert_eq!(
        HandshakeError::NotInitRequest.message(),
        "Initial message was not a connection init request."
    );
}

#[test]
fn a_request_to_connect_needs_an_acceptance() {
    assert_eq!(check_init_response(&message(MessageBody::InitResponse), 4), Ok(()));
    let e = check_init_response(&message(MessageBody::Empty), 4).unwrap_err();
    assert_eq!(e, HandshakeError::NotInitResponse(4));
    assert_eq!(e.message(), "Node 4's response wasn't Init Response.");
}

#[test]
fn waits_between_attempts_double() {
    let mut b = Backoff::new();
    assert_eq!(b.next_wait(), None);
    assert_eq!(b.next_wait(), Some(2));
    assert_eq!(b.next_wait(), Some(4));
    assert_eq!(b.next_wait(), Some(8));
    assert_eq!(b.delay, 16);
}

#[test]
fn a_document_gives_its_length_in_little_endian() {
    assert_eq!(document_length(&[0x10, 0, 0, 0]), 16);
    assert_eq!(document_length(&[0x01, 0x02, 0x03, 0x04]), 0x04030201);
    assert_eq!(document_length(&[0xff, 0xff, 0xff, 0xff]), -1);
    assert_eq!(document_length(&[0, 0, 0, 0x80]), i32::MIN);
    for bytes in [[5u8, 0, 0, 0], [0, 1, 0, 0], [0xfe, 0xff, 0xff, 0x7f], [7, 7, 7, 0x97]] {
        assert_eq!(document_length(&bytes), i32::from_le_bytes(bytes));
    }
}
