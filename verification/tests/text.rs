use itx::crypto::{PrivateKey, PublicKey, Signature};
use itx::hash::Hash as Digest;
use itx::api::parse_hex_hash;
use itx::hexcodec::hex_encode;
use itx::payment::PaymentError;
use itx::text::{push_decimal, push_prefixed_hex};

#[test]
fn numbers_are_written_in_decimal_and_hex() {
    let mut s = String::new();
    push_decimal(&mut s, 0);
    s.push(' ');
    push_decimal(&mut s, u64::MAX);
    s.push(' ');
    push_prefixed_hex(&mut s, 0);
    s.push(' ');
    push_prefixed_hex(&mut s, 0xdead_beef);
    assert_eq!(s, "0 18446744073709551615 0x0 0xdeadbeef");
}

#[test]
fn hex_encoding_matches_the_hex_crate_and_decodes_back() {
    let bytes = [0u8, 1, 0x7f, 0x80, 0xff];
    let text = hex_encode(&bytes);
    assert_eq!(text, hex::encode(bytes));
    assert_eq!(hex::decode(&text).unwrap(), bytes.to_vec());
    // upper and lower case digits both decode
    let mut upper = "AB".to_string();
    upper.push_str(&"0".repeat(62));
    let mut bytes = [0u8; 32];
    bytes[0] = 0xab;
    assert_eq!(parse_hex_hash(&upper).unwrap(), Digest::from_bytes(bytes));
    assert!(parse_hex_hash("abc").is_err());
}

#[test]
fn a_signature_verifies_only_under_its_key_and_hash() {
    let key = PrivateKey::new_key();
    let other = PrivateKey::new_key();
    let h = Digest::hash_bytes(b"payload");
    let sig = Signature::sign_output(&h, &key);
    assert!(sig.verify(&h, &key.public_key()));
    assert!(!sig.verify(&h, &other.public_key()));
    assert!(!sig.verify(&Digest::hash_bytes(b"other"), &key.public_key()));
}

#[test]
fn a_public_key_round_trips_through_its_sec1_bytes() {
    let k = PrivateKey::new_key().public_key();
    assert_eq!(PublicKey::from_sec1_bytes(&k.to_sec1_bytes()), Some(k));
    assert_eq!(PublicKey::from_sec1_bytes(&[1, 2, 3]), None);
}

#[test]
fn the_hash_of_bytes_is_their_sha256_digest() {
    // SHA-256("abc") = ba7816bf...15ad, read as a big-endian number: its
    // least significant byte comes last.
    let h = Digest::hash_bytes(b"abc");
    let le = h.as_bytes();
    assert_eq!(le[0], 0xad);
    assert_eq!(le[31], 0xba);
    assert_eq!(Digest::from_bytes(le), h);
}

#[test]
fn payment_errors_read_as_text() {
    assert_eq!(
        PaymentError::InsufficientFunds { available: 5, needed: 100 }.message(),
        "insufficient funds: have 5, need 100"
    );
}
