//! secp256k1 keys and ECDSA signatures, held as plain bytes.  Everything
//! the curve itself computes is done by the `k256`/`ecdsa` crates behind
//! the trusted wrappers below; the library orders, compares and carries
//! the bytes.
use vstd::prelude::*;
use crate::hexcodec::{hex_text, hex_encode};
use crate::u256::le_value;

verus! {

/// Lexicographic order on byte strings, as `Ord` on byte slices orders
/// them (public keys are ordered by their SEC1 bytes).
pub open spec fn bytes_lt(a: Seq<u8>, b: Seq<u8>) -> bool
    decreases a.len(),
{
    if a.len() == 0 {
        b.len() > 0
    } else if b.len() == 0 {
        false
    } else if a[0] != b[0] {
        a[0] < b[0]
    } else {
        bytes_lt(a.drop_first(), b.drop_first())
    }
}

pub proof fn lemma_bytes_lt_irreflexive(a: Seq<u8>)
    ensures
        !bytes_lt(a, a),
    decreases a.len(),
{
    if a.len() > 0 {
        lemma_bytes_lt_irreflexive(a.drop_first());
    }
}

pub proof fn lemma_bytes_lt_trichotomy(a: Seq<u8>, b: Seq<u8>)
    ensures
        a == b || bytes_lt(a, b) || bytes_lt(b, a),
        !(bytes_lt(a, b) && bytes_lt(b, a)),
    decreases a.len(),
{
    if a.len() > 0 && b.len() > 0 && a[0] == b[0] {
        lemma_bytes_lt_trichotomy(a.drop_first(), b.drop_first());
        if a.drop_first() == b.drop_first() {
            assert(a =~= b) by {
                assert forall|i: int| 0 <= i < a.len() implies a[i] == b[i] by {
                    if i > 0 {
                        assert(a[i] == a.drop_first()[i - 1]);
                        assert(b[i] == b.drop_first()[i - 1]);
                    }
                }
            }
        }
    } else if a.len() == 0 && b.len() == 0 {
        assert(a =~= b);
    }
}

pub proof fn lemma_bytes_lt_transitive(a: Seq<u8>, b: Seq<u8>, c: Seq<u8>)
    requires
        bytes_lt(a, b),
        bytes_lt(b, c),
    ensures
        bytes_lt(a, c),
    decreases a.len(),
{
    if a.len() > 0 && b.len() > 0 && c.len() > 0 && a[0] == b[0] && b[0] == c[0] {
        lemma_bytes_lt_transitive(a.drop_first(), b.drop_first(), c.drop_first());
    }
}

/// The 32 bytes a hash is signed as: its value, least significant byte
/// first.
pub open spec fn message_of(h: crate::hash::Hash) -> Seq<u8> {
    choose|m: Seq<u8>| m.len() == 32 && le_value(m) == h@
}

/// `message_of` names the one 32-byte encoding of the hash's value.
pub proof fn lemma_message_of(h: crate::hash::Hash, m: Seq<u8>)
    requires
        m.len() == 32,
        le_value(m) == h@,
    ensures
        message_of(h) == m,
{
    let c = message_of(h);
    assert(c.len() == 32 && le_value(c) == h@);
    crate::u256::lemma_le_injective(c, m);
}

/// A secp256k1 public key, held as its SEC1 encoding (compressed, as
/// `to_sec1_bytes` writes it).
#[derive(Clone, Debug, PartialEq, Eq, PartialOrd, Ord)]
pub struct PublicKey {
    sec1: Vec<u8>,
}

impl View for PublicKey {
    type V = Seq<u8>;

    closed spec fn view(&self) -> Seq<u8> {
        self.sec1@
    }
}

impl PublicKey {
    /// The key's SEC1 bytes.
    pub fn to_sec1_bytes(&self) -> (b: Vec<u8>)
        ensures
            b@ == self@,
    {
        let b = self.sec1.clone();
        assert(b@ =~= self@);
        b
    }

    /// The key as lowercase hex of its SEC1 bytes, the way it is shown
    /// and sent everywhere.
    pub fn to_hex(&self) -> (t: String)
        ensures
            t@ == hex_text(self@),
    {
        hex_encode(self.sec1.as_slice())
    }

    /// A copy of the key.
    pub fn duplicate(&self) -> (k: PublicKey)
        ensures
            k@ == self@,
    {
        PublicKey { sec1: self.to_sec1_bytes() }
    }

    /// Whether two keys are the same key.
    pub fn same_as(&self, other: &PublicKey) -> (b: bool)
        ensures
            b == (self@ == other@),
    {
        compare_bytes(self.sec1.as_slice(), other.sec1.as_slice()) == 0
    }

    /// Orders two keys by their SEC1 bytes: `-1`, `0` or `1`.
    pub fn compare(&self, other: &PublicKey) -> (c: i8)
        ensures
            c == 0 <==> self@ == other@,
            c < 0 <==> bytes_lt(self@, other@),
            c > 0 <==> bytes_lt(other@, self@),
    {
        compare_bytes(self.sec1.as_slice(), other.sec1.as_slice())
    }

    /// Parses a SEC1-encoded key (compressed or not), as
    /// `VerifyingKey::from_sec1_bytes` does, and keeps its compressed form.
    pub fn from_sec1_bytes(bytes: &[u8]) -> (k: Option<PublicKey>)
        ensures
            k is Some <==> sec1_parsed(bytes@) is Some,
            k matches Some(key) ==> key@ == sec1_parsed(bytes@).unwrap(),
    {
        match sec1_normalize(bytes) {
            Some(sec1) => Some(PublicKey { sec1 }),
            None => None,
        }
    }

    /// Whether `signature` is a valid signature by this key of the 32
    /// bytes of `hash` (least significant first).
    pub fn verifies(&self, hash: &crate::hash::Hash, signature: &Signature) -> (b: bool)
        ensures
            exists|m: Seq<u8>| le_value(m) == hash@ && m.len() == 32 && b == ecdsa_verifies(self@, m, signature@),
    {
        let message = hash.as_bytes();
        ecdsa_verify(self.sec1.as_slice(), &message, signature.bytes.as_slice())
    }
}

/// Compares two byte strings lexicographically: `-1`, `0` or `1`.
pub fn compare_bytes(a: &[u8], b: &[u8]) -> (c: i8)
    ensures
        c == 0 <==> a@ == b@,
        c < 0 <==> bytes_lt(a@, b@),
        c > 0 <==> bytes_lt(b@, a@),
        -1 <= c <= 1,
{
    let mut i: usize = 0;
    while i < a.len() && i < b.len()
        invariant
            i <= a.len(),
            i <= b.len(),
            a@.subrange(0, i as int) == b@.subrange(0, i as int),
        decreases a.len() - i,
    {
        if a[i] != b[i] {
            proof { lemma_bytes_lt_common_prefix(a@, b@, i as nat); }
            return if a[i] < b[i] { -1 } else { 1 };
        }
        assert(a@.subrange(0, i + 1) =~= a@.subrange(0, i as int).push(a@[i as int]));
        assert(b@.subrange(0, i + 1) =~= b@.subrange(0, i as int).push(b@[i as int]));
        i = i + 1;
    }
    proof {
        lemma_bytes_lt_common_prefix(a@, b@, i as nat);
        lemma_bytes_lt_trichotomy(a@, b@);
        lemma_bytes_lt_irreflexive(a@);
        if a.len() == b.len() {
            assert(a@ =~= a@.subrange(0, i as int));
            assert(b@ =~= b@.subrange(0, i as int));
        }
    }
    if a.len() == b.len() {
        0
    } else if a.len() < b.len() {
        -1
    } else {
        1
    }
}

/// Comparing two byte strings after a common prefix.
proof fn lemma_bytes_lt_common_prefix(a: Seq<u8>, b: Seq<u8>, i: nat)
    requires
        i <= a.len(),
        i <= b.len(),
        a.subrange(0, i as int) == b.subrange(0, i as int),
    ensures
        bytes_lt(a, b) == bytes_lt(a.skip(i as int), b.skip(i as int)),
        bytes_lt(b, a) == bytes_lt(b.skip(i as int), a.skip(i as int)),
    decreases i,
{
    if i > 0 {
        assert(a[0] == a.subrange(0, i as int)[0]);
        assert(b[0] == b.subrange(0, i as int)[0]);
        assert(a.drop_first().subrange(0, i - 1) =~= a.subrange(0, i as int).drop_first());
        assert(b.drop_first().subrange(0, i - 1) =~= b.subrange(0, i as int).drop_first());
        lemma_bytes_lt_common_prefix(a.drop_first(), b.drop_first(), (i - 1) as nat);
        assert(a.drop_first().skip(i - 1) =~= a.skip(i as int));
        assert(b.drop_first().skip(i - 1) =~= b.skip(i as int));
    } else {
        assert(a.skip(0) =~= a);
        assert(b.skip(0) =~= b);
    }
}

/// A secp256k1 secret key: the 32 bytes of its scalar.
#[derive(Debug)]
pub struct PrivateKey {
    secret: Vec<u8>,
}

impl Clone for PrivateKey {
    fn clone(&self) -> (k: PrivateKey)
        ensures
            k@ == self@,
    {
        proof { use_type_invariant(self); }
        let secret = self.secret.clone();
        assert(secret@ =~= self.secret@);
        PrivateKey { secret }
    }
}

impl PrivateKey {
    /// A key always holds a valid secp256k1 scalar.
    #[verifier::type_invariant]
    closed spec fn valid(self) -> bool {
        secp256k1_valid_secret(self.secret@)
    }
}

impl View for PrivateKey {
    type V = Seq<u8>;

    closed spec fn view(&self) -> Seq<u8> {
        self.secret@
    }
}

/// An ECDSA signature, held as its 64 bytes `r || s`.
#[derive(Clone, Debug)]
pub struct Signature {
    bytes: Vec<u8>,
}

impl View for Signature {
    type V = Seq<u8>;

    closed spec fn view(&self) -> Seq<u8> {
        self.bytes@
    }
}

impl Signature {
    /// A signature holding `bytes` (64 bytes `r || s` for a real one).
    /// Nothing is checked here: bytes that do not parse as a signature
    /// never verify.
    pub fn from_bytes(bytes: Vec<u8>) -> (s: Signature)
        ensures
            s@ == bytes@,
    {
        Signature { bytes }
    }

    /// The signature's bytes.
    pub fn to_bytes(&self) -> (b: Vec<u8>)
        ensures
            b@ == self@,
    {
        let b = self.bytes.clone();
        assert(b@ =~= self@);
        b
    }

    /// Signs the 32 bytes of `output_hash` (least significant first) with
    /// `private_key`.  The signature verifies for `output_hash` under the
    /// key's public key.
    pub fn sign_output(output_hash: &crate::hash::Hash, private_key: &PrivateKey) -> (s: Signature)
        ensures
            exists|m: Seq<u8>| le_value(m) == output_hash@ && m.len() == 32 && s@ == ecdsa_signature(private_key@, m),
            s@ == ecdsa_signature(private_key@, message_of(*output_hash)),
            ecdsa_verifies(secp256k1_public_key_of(private_key@), message_of(*output_hash), s@),
    {
        proof { use_type_invariant(private_key); }
        let message = output_hash.as_bytes();
        let s = Signature { bytes: ecdsa_sign(private_key.secret.as_slice(), &message) };
        proof {
            let m = choose|m: Seq<u8>| le_value(m) == output_hash@ && m.len() == 32 && s@ == ecdsa_signature(private_key@, m)
                && ecdsa_verifies(secp256k1_public_key_of(private_key@), m, s@);
            lemma_message_of(*output_hash, m);
        }
        s
    }

    /// Whether this signature is valid for `output_hash` under `public_key`.
    pub fn verify(&self, output_hash: &crate::hash::Hash, public_key: &PublicKey) -> (b: bool)
        ensures
            exists|m: Seq<u8>| le_value(m) == output_hash@ && m.len() == 32 && b == ecdsa_verifies(public_key@, m, self@),
            b == ecdsa_verifies(public_key@, message_of(*output_hash), self@),
    {
        let b = public_key.verifies(output_hash, self);
        proof {
            let m = choose|m: Seq<u8>| le_value(m) == output_hash@ && m.len() == 32 && b == ecdsa_verifies(public_key@, m, self@);
            lemma_message_of(*output_hash, m);
        }
        b
    }
}

impl PrivateKey {
    /// A fresh random key.
    pub fn new_key() -> (k: PrivateKey)
        ensures
            secp256k1_valid_secret(k@),
    {
        PrivateKey { secret: random_secret() }
    }

    /// The key whose scalar these bytes encode, big-endian, if they are a
    /// valid one: 32 bytes, or 24 to 31 that stand for the scalar with
    /// leading zero bytes (as `SigningKey::from_slice` reads them).  The
    /// key keeps the bytes as given.
    pub fn from_fixed_bytes(bytes: &[u8]) -> (k: Option<PrivateKey>)
        ensures
            k is Some <==> secp256k1_valid_secret(bytes@),
            k matches Some(key) ==> key@ == bytes@,
    {
        if check_secret(bytes) {
            let mut secret: Vec<u8> = Vec::new();
            let mut i: usize = 0;
            while i < bytes.len()
                invariant
                    i <= bytes.len(),
                    secret@ == bytes@.subrange(0, i as int),
                decreases bytes.len() - i,
            {
                secret.push(bytes[i]);
                assert(bytes@.subrange(0, i + 1) =~= bytes@.subrange(0, i as int).push(bytes@[i as int]));
                i = i + 1;
            }
            assert(bytes@.subrange(0, bytes.len() as int) =~= bytes@);
            Some(PrivateKey { secret })
        } else {
            None
        }
    }

    /// The key's scalar bytes.
    pub fn to_bytes(&self) -> (b: Vec<u8>)
        ensures
            b@ == self@,
    {
        let b = self.secret.clone();
        assert(b@ =~= self@);
        b
    }

    /// The public key that belongs to this key.
    pub fn public_key(&self) -> (k: PublicKey)
        ensures
            k@ == secp256k1_public_key_of(self@),
    {
        proof { use_type_invariant(self); }
        PublicKey { sec1: derive_public_key(self.secret.as_slice()) }
    }
}

/// The order of the secp256k1 group.
pub open spec fn secp256k1_order() -> nat {
    0xFFFF_FFFF_FFFF_FFFF_FFFF_FFFF_FFFF_FFFE_BAAE_DCE6_AF48_A03B_BFD2_5E8C_D036_4141nat
}

/// The byte strings that `SigningKey::from_slice` accepts: 24 to 32 bytes
/// (a shorter string is padded with leading zeros) whose big-endian
/// value is a nonzero scalar below the group order.
pub open spec fn secp256k1_valid_secret(secret: Seq<u8>) -> bool {
    &&& 24 <= secret.len() <= 32
    &&& 0 < crate::u256::be_value(secret) < secp256k1_order()
}

/// Names the compressed SEC1 bytes of the public key of a secret scalar.
pub uninterp spec fn secp256k1_public_key_of(secret: Seq<u8>) -> Seq<u8>;

/// Names the 64-byte deterministic (RFC 6979) ECDSA signature of a message.
pub uninterp spec fn ecdsa_signature(secret: Seq<u8>, message: Seq<u8>) -> Seq<u8>;

/// Names whether a signature verifies for a message under a SEC1 key;
/// false where the key or the signature does not parse.
pub uninterp spec fn ecdsa_verifies(sec1: Seq<u8>, message: Seq<u8>, signature: Seq<u8>) -> bool;

/// Names what parsing SEC1 bytes gives: the compressed encoding of the
/// key, or `None` where they are not a point of the curve.
pub uninterp spec fn sec1_parsed(bytes: Seq<u8>) -> Option<Seq<u8>>;

/// Draws a key with `SigningKey::random` from the thread's RNG and returns
/// its scalar bytes, which `from_slice` accepts back by construction.
#[verifier::external_body]
fn random_secret() -> (r: Vec<u8>)
    ensures
        secp256k1_valid_secret(r@),
{
    k256::ecdsa::SigningKey::random(&mut rand::thread_rng()).to_bytes().to_vec()
}

/// Draws a random version-4 UUID (`Uuid::new_v4`) as its 128-bit number.
/// Nothing is promised of the value: it is random.
#[verifier::external_body]
pub(crate) fn new_uuid() -> (id: u128) {
    uuid::Uuid::new_v4().as_u128()
}

/// Asks `SigningKey::from_slice` whether bytes are a valid secret.
#[verifier::external_body]
fn check_secret(secret: &[u8]) -> (r: bool)
    ensures
        r == secp256k1_valid_secret(secret@),
{
    k256::ecdsa::SigningKey::from_slice(secret).is_ok()
}

/// `SigningKey::from_slice(secret).verifying_key().to_sec1_bytes()`.
#[verifier::external_body]
fn derive_public_key(secret: &[u8]) -> (r: Vec<u8>)
    requires
        secp256k1_valid_secret(secret@),
    ensures
        r@ == secp256k1_public_key_of(secret@),
{
    k256::ecdsa::SigningKey::from_slice(secret).unwrap().verifying_key().to_sec1_bytes().to_vec()
}

/// `Signer::sign` of `SigningKey` on `message`: SHA-256 of the message and
/// a deterministic nonce, so the bytes are a function of key and message;
/// as ECDSA signatures are, it verifies for the message under the key's
/// public key.
#[verifier::external_body]
fn ecdsa_sign(secret: &[u8], message: &[u8; 32]) -> (r: Vec<u8>)
    requires
        secp256k1_valid_secret(secret@),
    ensures
        r@ == ecdsa_signature(secret@, message@),
        ecdsa_verifies(secp256k1_public_key_of(secret@), message@, r@),
{
    let key = k256::ecdsa::SigningKey::from_slice(secret).unwrap();
    let signature: k256::ecdsa::Signature = ecdsa::signature::Signer::sign(&key, message);
    signature.to_bytes().to_vec()
}

/// `Verifier::verify` of `VerifyingKey` on `message`, after parsing the key
/// with `from_sec1_bytes` and the signature with `Signature::from_slice`.
#[verifier::external_body]
fn ecdsa_verify(sec1: &[u8], message: &[u8; 32], signature: &[u8]) -> (r: bool)
    ensures
        r == ecdsa_verifies(sec1@, message@, signature@),
{
    let Ok(key) = k256::ecdsa::VerifyingKey::from_sec1_bytes(sec1) else { return false };
    let Ok(sig) = k256::ecdsa::Signature::from_slice(signature) else { return false };
    ecdsa::signature::Verifier::verify(&key, message, &sig).is_ok()
}

/// `VerifyingKey::from_sec1_bytes` followed by `to_sec1_bytes`.
#[verifier::external_body]
fn sec1_normalize(bytes: &[u8]) -> (r: Option<Vec<u8>>)
    ensures
        r is Some <==> sec1_parsed(bytes@) is Some,
        r matches Some(v) ==> v@ == sec1_parsed(bytes@).unwrap(),
{
    match k256::ecdsa::VerifyingKey::from_sec1_bytes(bytes) {
        Ok(key) => Some(key.to_sec1_bytes().to_vec()),
        Err(_) => None,
    }
}

} // verus!
