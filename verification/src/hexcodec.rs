//! Hexadecimal text, as the `hex` crate decodes it.
use vstd::prelude::*;
use crate::text::{digit_char, push_hex_digit};

verus! {

/// The value of one hex digit, upper or lower case, as `hex` reads it.
pub open spec fn hex_digit_value(c: u8) -> Option<u8> {
    if 0x30 <= c <= 0x39 {
        Some((c - 0x30) as u8)
    } else if 0x61 <= c <= 0x66 {
        Some((c - 0x61 + 10) as u8)
    } else if 0x41 <= c <= 0x46 {
        Some((c - 0x41 + 10) as u8)
    } else {
        None
    }
}

/// A lowercase hex digit, as `hex::encode` writes them.
pub open spec fn is_lower_hex_digit(c: u8) -> bool {
    (0x30 <= c <= 0x39) || (0x61 <= c <= 0x66)
}

/// What `hex::decode` returns for a byte string: `None` for an odd length
/// or any non-hex character, else the bytes that the digit pairs spell.
pub open spec fn hex_decoded(s: Seq<u8>) -> Option<Seq<u8>> {
    if s.len() % 2 != 0 {
        None
    } else if exists|i: int| 0 <= i < s.len() && hex_digit_value(#[trigger] s[i]) is None {
        None
    } else {
        Some(
            Seq::new(
                s.len() / 2,
                |i: int| (hex_digit_value(s[2 * i]).unwrap() * 16 + hex_digit_value(s[2 * i + 1]).unwrap()) as u8,
            ),
        )
    }
}

/// Sixty-four lowercase hex digits decode to 32 bytes.
pub proof fn lemma_lower_hex_decodes(s: Seq<u8>)
    requires
        s.len() == 64,
        forall|i: int| 0 <= i < 64 ==> is_lower_hex_digit(#[trigger] s[i]),
    ensures
        hex_decoded(s) is Some,
        hex_decoded(s).unwrap().len() == 32,
{
    assert forall|i: int| 0 <= i < s.len() implies hex_digit_value(#[trigger] s[i]) is Some by {
        assert(is_lower_hex_digit(s[i]));
    }
}

/// Calls `hex::decode`.  Its source accepts an even number of digits, each
/// `0-9`, `a-f` or `A-F`, and yields one byte per pair, high digit first;
/// any other input is an error, handed back as the text the error
/// displays (what that text says is not stated here).
#[verifier::external_body]
pub(crate) fn hex_decode(s: &[u8]) -> (r: Result<Vec<u8>, String>)
    ensures
        r is Ok <==> hex_decoded(s@) is Some,
        r matches Ok(v) ==> v@ == hex_decoded(s@).unwrap(),
{
    hex::decode(s).map_err(|e| e.to_string())
}

/// Two lowercase hex digits per byte, high digit first: what
/// `hex::encode` writes.
pub open spec fn hex_text(s: Seq<u8>) -> Seq<char>
    decreases s.len(),
{
    if s.len() == 0 {
        Seq::empty()
    } else {
        hex_text(s.drop_last()) + seq![digit_char((s.last() / 16) as nat), digit_char((s.last() % 16) as nat)]
    }
}

/// `bytes` as lowercase hex, the way `hex::encode` writes it.
pub fn hex_encode(bytes: &[u8]) -> (r: String)
    ensures
        r@ == hex_text(bytes@),
{
    let mut out = String::new();
    let mut i: usize = 0;
    while i < bytes.len()
        invariant
            i <= bytes@.len(),
            out@ == hex_text(bytes@.take(i as int)),
        decreases bytes.len() - i,
    {
        let b = bytes[i];
        push_hex_digit(&mut out, (b / 16) as u64);
        push_hex_digit(&mut out, (b % 16) as u64);
        proof {
            assert(bytes@.take(i + 1).drop_last() =~= bytes@.take(i as int));
            assert(out@ =~= hex_text(bytes@.take(i + 1)));
        }
        i = i + 1;
    }
    assert(bytes@.take(bytes@.len() as int) =~= bytes@);
    out
}

/// The hex text of `b` has two digits per byte: the high one, then the
/// low one.
proof fn lemma_hex_text_digits(b: Seq<u8>)
    ensures
        hex_text(b).len() == 2 * b.len(),
        forall|i: int| #![trigger b[i]] 0 <= i < b.len() ==> hex_text(b)[2 * i] == digit_char((b[i] / 16) as nat)
            && hex_text(b)[2 * i + 1] == digit_char((b[i] % 16) as nat),
    decreases b.len(),
{
    if b.len() > 0 {
        let d = b.drop_last();
        lemma_hex_text_digits(d);
        let x = b.last();
        let tail = seq![digit_char((x / 16) as nat), digit_char((x % 16) as nat)];
        assert(hex_text(b) == hex_text(d) + tail);
        assert forall|i: int| #![trigger b[i]] 0 <= i < b.len() implies hex_text(b)[2 * i] == digit_char((b[i] / 16) as nat)
            && hex_text(b)[2 * i + 1] == digit_char((b[i] % 16) as nat) by {
            if i < d.len() {
                assert(d[i] == b[i]);
                assert(hex_text(b)[2 * i] == hex_text(d)[2 * i]);
                assert(hex_text(b)[2 * i + 1] == hex_text(d)[2 * i + 1]);
            } else {
                assert(i == d.len());
                assert(hex_text(b)[2 * i] == tail[0]);
                assert(hex_text(b)[2 * i + 1] == tail[1]);
            }
        }
    }
}

/// A digit's character, read back as a byte, is the digit `hex` reads.
proof fn lemma_digit_char_value(d: nat)
    requires
        d < 16,
    ensures
        '\0' <= digit_char(d) <= '\u{7f}',
        hex_digit_value(digit_char(d) as u8) == Some(d as u8),
{
}

/// What `hex_encode` writes, read back as UTF-8 bytes, decodes to the
/// bytes it was written from.
pub proof fn lemma_hex_roundtrip(b: Seq<u8>)
    ensures
        hex_decoded(vstd::utf8::encode_utf8(hex_text(b))) == Some(b),
{
    let t = hex_text(b);
    lemma_hex_text_digits(b);
    assert forall|k: int| 0 <= k < t.len() implies '\0' <= #[trigger] t[k] <= '\u{7f}'
        && hex_digit_value(t[k] as u8) is Some by {
        let i = k / 2;
        assert(k == 2 * i || k == 2 * i + 1);
        assert(0 <= i < b.len());
        assert(b[i] == b[i]);
        assert(t[2 * i] == digit_char((b[i] / 16) as nat) && t[2 * i + 1] == digit_char((b[i] % 16) as nat));
        lemma_digit_char_value((b[i] / 16) as nat);
        lemma_digit_char_value((b[i] % 16) as nat);
    }
    assert(vstd::utf8::is_ascii_chars(t));
    vstd::utf8::is_ascii_chars_encode_utf8(t);
    let e = vstd::utf8::encode_utf8(t);
    assert(e.len() == t.len());
    assert forall|k: int| 0 <= k < e.len() implies hex_digit_value(#[trigger] e[k]) is Some by {
        assert(e[k] == t[k] as u8);
    }
    let decoded = Seq::new(
        e.len() / 2,
        |i: int| (hex_digit_value(e[2 * i]).unwrap() * 16 + hex_digit_value(e[2 * i + 1]).unwrap()) as u8,
    );
    assert forall|i: int| 0 <= i < b.len() implies decoded[i] == b[i] by {
        assert(b[i] == b[i]);
        assert(e[2 * i] == t[2 * i] as u8 && e[2 * i + 1] == t[2 * i + 1] as u8);
        lemma_digit_char_value((b[i] / 16) as nat);
        lemma_digit_char_value((b[i] % 16) as nat);
        assert((b[i] / 16) * 16 + b[i] % 16 == b[i]);
    }
    assert(decoded =~= b);
}

} // verus!
