use itx::protocol::{accept_hello, acceptor_outcome, frame, initiator_outcome, length_prefix, payload_length, FrameError, HandshakeError};
use itx::time::Timestamp;
use itx::{MAX_MESSAGE_SIZE, PROTOCOL_MAGIC, PROTOCOL_VERSION};

#[test]
fn a_frame_is_its_big_endian_length_then_the_payload() {
    let f = frame(b"hey");
    assert_eq!(f, vec![0, 0, 0, 0, 0, 0, 0, 3, b'h', b'e', b'y']);
    assert_eq!(length_prefix(0x0102), [0, 0, 0, 0, 0, 0, 1, 2]);
}

#[test]
fn an_announced_length_past_the_limit_is_refused() {
    assert_eq!(payload_length(length_prefix(MAX_MESSAGE_SIZE as u64)), Ok(MAX_MESSAGE_SIZE));
    assert_eq!(
        payload_length(length_prefix(MAX_MESSAGE_SIZE as u64 + 1)),
        Err(FrameError::Oversized(MAX_MESSAGE_SIZE as u64 + 1))
    );
}

#[test]
fn the_handshake_accepts_only_this_protocol() {
    assert!(accept_hello(PROTOCOL_MAGIC, PROTOCOL_VERSION));
    assert!(!accept_hello(PROTOCOL_MAGIC, PROTOCOL_VERSION + 1));
    assert!(!accept_hello(0, PROTOCOL_VERSION));
}

#[test]
fn the_handshake_reports_the_peers_clock_offset() {
    let ours = Timestamp::from_nanos(1_000_000_000_000);
    let theirs = Timestamp::from_nanos(1_000_000_000_000 + 2_500);
    assert_eq!(acceptor_outcome(PROTOCOL_MAGIC, PROTOCOL_VERSION, theirs, ours), Ok(2_500));
    assert_eq!(initiator_outcome(PROTOCOL_MAGIC, PROTOCOL_VERSION, true, theirs, ours), Ok(2_500));
    assert_eq!(
        initiator_outcome(PROTOCOL_MAGIC, PROTOCOL_VERSION, false, theirs, ours),
        Err(HandshakeError::Incompatible(PROTOCOL_MAGIC, PROTOCOL_VERSION))
    );
    assert_eq!(
        acceptor_outcome(7, 1, theirs, ours),
        Err(HandshakeError::Incompatible(7, 1))
    );
}

#[test]
fn handshake_errors_read_as_text() {
    assert_eq!(
        HandshakeError::Incompatible(0x4954_5800, 2).message(),
        "peer speaks an incompatible protocol (magic 0x49545800, version 2)"
    );
    assert_eq!(
        HandshakeError::Network("connection reset".to_string()).message(),
        "network error during handshake: connection reset"
    );
    assert_eq!(HandshakeError::UnexpectedMessage.message(), "peer sent an unexpected message during handshake");
}
