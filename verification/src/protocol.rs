//! The peer protocol's rules: message framing and the handshake's
//! decisions.  Sockets and message bodies are handled by the caller.
use vstd::prelude::*;
use crate::text::{decimal, prefixed_hex, push_decimal, push_prefixed_hex};
use crate::time::Timestamp;

verus! {

/// Why a handshake failed.
#[derive(Clone, Debug, PartialEq, Eq)]
pub enum HandshakeError {
    /// The connection failed; the text says how.
    Network(String),
    /// The peer speaks another protocol: its magic and version.
    Incompatible(u32, u32),
    /// The peer sent something other than the handshake message.
    UnexpectedMessage,
}

/// Why a frame was refused.
#[derive(Clone, Copy, Debug, PartialEq, Eq, Structural)]
pub enum FrameError {
    /// The announced length exceeds `MAX_MESSAGE_SIZE`.
    Oversized(u64),
}

/// The 8 big-endian bytes of a `u64`.
pub open spec fn u64_be(x: u64) -> Seq<u8> {
    Seq::new(8, |i: int| ((x >> ((8 * (7 - i)) as u64)) & 0xff) as u8)
}

/// The number 8 big-endian bytes spell.
pub open spec fn be_u64(b: Seq<u8>) -> nat {
    crate::u256::be_value(b)
}

/// The length prefix of a frame: the payload's length as 8 big-endian
/// bytes.
pub fn length_prefix(len: u64) -> (r: [u8; 8])
    ensures
        r@ == u64_be(len),
        be_u64(r@) == len,
{
    let mut r = [0u8; 8];
    let mut i: usize = 0;
    while i < 8
        invariant
            i <= 8,
            r@.len() == 8,
            forall|j: int| 0 <= j < i ==> r@[j] == u64_be(len)[j],
        decreases 8 - i,
    {
        r[i] = ((len >> (8 * (7 - i as u64))) & 0xff) as u8;
        i = i + 1;
    }
    assert(r@ =~= u64_be(len));
    proof { lemma_be_roundtrip(len); }
    r
}

/// Reading the big-endian bytes of `x` gives `x` back.
pub proof fn lemma_be_roundtrip(x: u64)
    ensures
        be_u64(u64_be(x)) == x,
{
    let b = u64_be(x);
    let b0 = b[0]; let b1 = b[1]; let b2 = b[2]; let b3 = b[3];
    let b4 = b[4]; let b5 = b[5]; let b6 = b[6]; let b7 = b[7];
    assert(b.drop_last() =~= seq![b0, b1, b2, b3, b4, b5, b6]);
    assert(b.drop_last().drop_last() =~= seq![b0, b1, b2, b3, b4, b5]);
    assert(b.drop_last().drop_last().drop_last() =~= seq![b0, b1, b2, b3, b4]);
    assert(seq![b0, b1, b2, b3, b4].drop_last() =~= seq![b0, b1, b2, b3]);
    assert(seq![b0, b1, b2, b3].drop_last() =~= seq![b0, b1, b2]);
    assert(seq![b0, b1, b2].drop_last() =~= seq![b0, b1]);
    assert(seq![b0, b1].drop_last() =~= seq![b0]);
    assert(seq![b0].drop_last() =~= Seq::<u8>::empty());
    reveal_with_fuel(crate::u256::be_value, 9);
    assert(b0 == ((x >> 56u64) & 0xff) as u8);
    assert(b7 == ((x >> 0u64) & 0xff) as u8);
    assert(x == ((((((((b0 as u64) * 256 + b1 as u64) * 256 + b2 as u64) * 256 + b3 as u64) * 256 + b4 as u64) * 256
        + b5 as u64) * 256 + b6 as u64) * 256 + b7 as u64)) by (bit_vector)
        requires
            b0 == ((x >> 56u64) & 0xff) as u8,
            b1 == ((x >> 48u64) & 0xff) as u8,
            b2 == ((x >> 40u64) & 0xff) as u8,
            b3 == ((x >> 32u64) & 0xff) as u8,
            b4 == ((x >> 24u64) & 0xff) as u8,
            b5 == ((x >> 16u64) & 0xff) as u8,
            b6 == ((x >> 8u64) & 0xff) as u8,
            b7 == ((x >> 0u64) & 0xff) as u8;
}

/// A frame: the payload's length as 8 big-endian bytes, then the payload.
pub fn frame(payload: &[u8]) -> (r: Vec<u8>)
    ensures
        r@ == u64_be(payload@.len() as u64) + payload@,
{
    let prefix = length_prefix(payload.len() as u64);
    let mut r: Vec<u8> = Vec::new();
    let mut i: usize = 0;
    while i < 8
        invariant
            i <= 8,
            prefix@ == u64_be(payload@.len() as u64),
            r@ == prefix@.take(i as int),
        decreases 8 - i,
    {
        r.push(prefix[i]);
        i = i + 1;
        assert(r@ =~= prefix@.take(i as int));
    }
    assert(prefix@.take(8) =~= prefix@);
    let mut j: usize = 0;
    while j < payload.len()
        invariant
            j <= payload@.len(),
            r@ == prefix@ + payload@.take(j as int),
        decreases payload.len() - j,
    {
        r.push(payload[j]);
        j = j + 1;
        assert(r@ =~= prefix@ + payload@.take(j as int));
    }
    assert(payload@.take(payload@.len() as int) =~= payload@);
    r
}

/// The payload length a frame's 8-byte prefix announces, refused past
/// `MAX_MESSAGE_SIZE` before anything is allocated for it.
pub fn payload_length(prefix: [u8; 8]) -> (r: Result<usize, FrameError>)
    ensures
        be_u64(prefix@) <= crate::MAX_MESSAGE_SIZE ==> r == Ok::<usize, FrameError>(be_u64(prefix@) as usize),
        be_u64(prefix@) > crate::MAX_MESSAGE_SIZE ==> r == Err::<usize, FrameError>(FrameError::Oversized(be_u64(prefix@) as u64)),
{
    let mut len: u64 = 0;
    let mut i: usize = 0;
    while i < 8
        invariant
            i <= 8,
            prefix@.len() == 8,
            len == be_u64(prefix@.take(i as int)),
            len < crate::u256::pow_byte(i as nat),
        decreases 8 - i,
    {
        assert(prefix@.take(i + 1).drop_last() =~= prefix@.take(i as int));
        proof {
            crate::u256::lemma_pow_byte_values();
            reveal_with_fuel(crate::u256::pow_byte, 9);
            assert(crate::u256::pow_byte((i + 1) as nat) == 256 * crate::u256::pow_byte(i as nat));
            assert(crate::u256::pow_byte(8) == 0x1_0000_0000_0000_0000);
            crate::u256::lemma_pow_byte_mono((i + 1) as nat, 8);
            assert(len * 256 + prefix@[i as int] < 256 * crate::u256::pow_byte(i as nat)) by (nonlinear_arith)
                requires len < crate::u256::pow_byte(i as nat), prefix@[i as int] < 256;
        }
        len = len * 256 + prefix[i] as u64;
        i = i + 1;
    }
    assert(prefix@.take(8) =~= prefix@);
    if len > crate::MAX_MESSAGE_SIZE as u64 {
        Err(FrameError::Oversized(len))
    } else {
        Ok(len as usize)
    }
}

/// Whether a peer's magic and version are this protocol's.
pub open spec fn compatible(magic: u32, version: u32) -> bool {
    magic == crate::PROTOCOL_MAGIC && version == crate::PROTOCOL_VERSION
}

/// The answer to a peer's `Hello`: whether its magic and version match.
pub fn accept_hello(magic: u32, version: u32) -> (accepted: bool)
    ensures
        accepted == compatible(magic, version),
{
    magic == crate::PROTOCOL_MAGIC && version == crate::PROTOCOL_VERSION
}

/// The difference between a peer's clock and ours, in nanoseconds: its
/// reported time minus our time when the message arrived.
pub open spec fn clock_offset(theirs: Timestamp, ours: Timestamp) -> int {
    theirs.nanos - ours.nanos
}

/// The result of the acceptor's side: the peer's clock offset where its
/// `Hello` was compatible, else `Incompatible` with what it sent.
pub fn acceptor_outcome(magic: u32, version: u32, their_time: Timestamp, received_at: Timestamp) -> (r: Result<i128, HandshakeError>)
    requires
        crate::time::in_utc_range(their_time.nanos as int),
        crate::time::in_utc_range(received_at.nanos as int),
    ensures
        compatible(magic, version) ==> r == Ok::<i128, HandshakeError>(clock_offset(their_time, received_at) as i128),
        !compatible(magic, version) ==> r == Err::<i128, HandshakeError>(HandshakeError::Incompatible(magic, version)),
{
    if accept_hello(magic, version) {
        Ok(their_time.nanos - received_at.nanos)
    } else {
        Err(HandshakeError::Incompatible(magic, version))
    }
}

/// The result of the initiator's side on the peer's `HelloAck`: refused
/// unless it accepted and speaks this protocol, else the peer's clock
/// offset.
pub fn initiator_outcome(magic: u32, version: u32, accepted: bool, their_time: Timestamp, received_at: Timestamp) -> (r: Result<i128, HandshakeError>)
    requires
        crate::time::in_utc_range(their_time.nanos as int),
        crate::time::in_utc_range(received_at.nanos as int),
    ensures
        accepted && compatible(magic, version) ==> r == Ok::<i128, HandshakeError>(clock_offset(their_time, received_at) as i128),
        !(accepted && compatible(magic, version)) ==> r == Err::<i128, HandshakeError>(HandshakeError::Incompatible(magic, version)),
{
    if !accepted || magic != crate::PROTOCOL_MAGIC || version != crate::PROTOCOL_VERSION {
        return Err(HandshakeError::Incompatible(magic, version));
    }
    Ok(their_time.nanos - received_at.nanos)
}

/// A frame's announced length reads back as the length it was built with.
pub proof fn lemma_frame_length(payload: Seq<u8>)
    requires
        payload.len() <= u64::MAX,
    ensures
        be_u64((u64_be(payload.len() as u64) + payload).take(8)) == payload.len(),
{
    assert((u64_be(payload.len() as u64) + payload).take(8) =~= u64_be(payload.len() as u64));
    lemma_be_roundtrip(payload.len() as u64);
}


/// What a failed handshake says.
pub open spec fn handshake_error_text(e: HandshakeError) -> Seq<char> {
    match e {
        HandshakeError::Network(m) => "network error during handshake: "@ + m@,
        HandshakeError::Incompatible(magic, version) => "peer speaks an incompatible protocol (magic "@
            + prefixed_hex(magic as nat) + ", version "@ + decimal(version as nat) + ")"@,
        HandshakeError::UnexpectedMessage => "peer sent an unexpected message during handshake"@,
    }
}

impl HandshakeError {
    /// The error's text.
    pub fn message(&self) -> (m: String)
        ensures
            m@ == handshake_error_text(*self),
    {
        match self {
            HandshakeError::Network(text) => {
                let mut m = "network error during handshake: ".to_owned();
                m.append(text.as_str());
                m
            },
            HandshakeError::Incompatible(magic, version) => {
                let mut m = "peer speaks an incompatible protocol (magic ".to_owned();
                push_prefixed_hex(&mut m, *magic as u64);
                m.append(", version ");
                push_decimal(&mut m, *version as u64);
                m.append(")");
                m
            },
            HandshakeError::UnexpectedMessage => "peer sent an unexpected message during handshake".to_owned(),
        }
    }
}

} // verus!
