//! 256-bit hashes, compared against proof-of-work targets as numbers.
use vstd::prelude::*;
use crate::u256::{U256, le_value, be_value, lemma_value_injective, lemma_value_facts, pow128};
use crate::hexcodec::{hex_decoded, is_lower_hex_digit, lemma_lower_hex_decodes, hex_decode};

verus! {

/// A hash, read as a 256-bit number.
#[derive(Clone, Copy, Debug, PartialEq, Eq, Structural)]
pub struct Hash(pub U256);

impl View for Hash {
    type V = nat;

    open spec fn view(&self) -> nat {
        self.0@
    }
}

/// Names the hex string (as ASCII bytes) that `sha256::digest` returns for
/// a byte sequence.
pub uninterp spec fn sha256_hex_digest(data: Seq<u8>) -> Seq<u8>;

/// The 32 bytes of the SHA-256 digest of `data`, most significant first.
pub open spec fn sha256_digest_bytes(data: Seq<u8>) -> Seq<u8> {
    hex_decoded(sha256_hex_digest(data)).unwrap()
}

/// The hash of `data`: its SHA-256 digest read as a big-endian number.
pub open spec fn digest_of(data: Seq<u8>) -> Hash {
    let v = be_value(sha256_digest_bytes(data));
    Hash(U256 { hi: (v / pow128()) as u128, lo: (v % pow128()) as u128 })
}

/// Calls `sha256::digest` on a byte slice.  The crate's source renders the
/// 32-byte digest with `hex::encode`, so the string is 64 lowercase hex
/// digits; the contract says that, and names the string itself.
#[verifier::external_body]
fn sha256_hex(data: &[u8]) -> (r: Vec<u8>)
    ensures
        r@ == sha256_hex_digest(data@),
        r@.len() == 64,
        forall|i: int| 0 <= i < 64 ==> is_lower_hex_digit(#[trigger] r@[i]),
{
    sha256::digest(data).into_bytes()
}

impl Hash {
    /// SHA-256 of `data`, read as a big-endian number (the digest goes
    /// into `U256` as `From<[u8; 32]>` reads it).
    pub fn hash_bytes(data: &[u8]) -> (h: Hash)
        ensures
            h@ == be_value(sha256_digest_bytes(data@)),
            h == digest_of(data@),
            sha256_digest_bytes(data@).len() == 32,
    {
        let hex = sha256_hex(data);
        proof { lemma_lower_hex_decodes(hex@); }
        let decoded = hex_decode(hex.as_slice());
        let bytes = match decoded {
            Ok(b) => b,
            Err(_) => { proof { assert(false); } Vec::new() }
        };
        let mut array = [0u8; 32];
        let mut i: usize = 0;
        while i < 32
            invariant
                bytes@.len() == 32,
                array@.len() == 32,
                i <= 32,
                forall|j: int| 0 <= j < i ==> array@[j] == bytes@[j],
            decreases 32 - i,
        {
            array[i] = bytes[i];
            i = i + 1;
        }
        assert(array@ =~= bytes@);
        let h = Hash(U256::from_be_bytes(&array));
        proof { lemma_value_facts(h.0); }
        h
    }

    /// Whether this hash is at most `target`.
    pub fn matches_target(&self, target: U256) -> (b: bool)
        ensures
            b == (self@ <= target@),
    {
        self.0.le(&target)
    }

    /// The all-zero hash.
    pub fn zero() -> (h: Hash)
        ensures
            h@ == 0,
    {
        Hash(U256::zero())
    }

    /// The hash as 32 bytes, least significant first.
    pub fn as_bytes(&self) -> (b: [u8; 32])
        ensures
            le_value(b@) == self@,
    {
        self.0.to_le_bytes()
    }

    /// The hash that `as_bytes` turns into these 32 bytes.
    pub fn from_bytes(bytes: [u8; 32]) -> (h: Hash)
        ensures
            h@ == le_value(bytes@),
    {
        Hash(U256::from_le_bytes(&bytes))
    }

    /// Whether two hashes are the same.
    pub fn equals(&self, other: &Hash) -> (b: bool)
        ensures
            b == (self@ == other@),
            b == (*self == *other),
    {
        self.0.eq_value(&other.0)
    }
}

/// Reading the bytes of a hash back gives the same hash.
pub proof fn lemma_hash_bytes_roundtrip(h: Hash, bytes: Seq<u8>, back: Hash)
    requires
        le_value(bytes) == h@,
        back@ == le_value(bytes),
    ensures
        back == h,
{
    lemma_value_injective(back.0, h.0);
}

} // verus!
