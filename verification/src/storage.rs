//! The storage rules of the node's block store and the hub's store:
//! schema versions and the active-chain record.  Database access is
//! the caller's.
use vstd::prelude::*;
use crate::text::{decimal, push_decimal};
use crate::u256::le_value;

verus! {

/// The block store's current schema version.
pub const BLOCK_STORE_SCHEMA_VERSION: u32 = 2;
/// The hub store's current schema version.
pub const HUB_STORE_SCHEMA_VERSION: u32 = 1;
/// The schema versions the block store can migrate to, in order.
pub const BLOCK_STORE_MIGRATIONS: [u32; 1] = [2];

/// Why a store could not be opened or read.
#[derive(Clone, Copy, Debug, PartialEq, Eq, Structural)]
pub enum StoreError {
    /// The store was written by a newer (or, for the hub, other) schema.
    UnsupportedSchemaVersion { found: u32, expected: u32 },
    /// The stored schema version is not 4 bytes.
    CorruptSchemaVersion,
    /// The active-chain record's length (given) is not a multiple of 32.
    CorruptActiveChain(usize),
}

/// What opening a store must do.
#[derive(Clone, Copy, Debug, PartialEq, Eq, Structural)]
pub enum SchemaAction {
    /// A brand-new store: create the current schema and stamp it.
    CreateFresh,
    /// Already current: nothing to do.
    UpToDate,
    /// An older store: apply the migrations past `from`, then stamp it.
    Migrate { from: u32 },
}

/// The schema version a stored record spells: 4 big-endian bytes.
pub fn parse_schema_version(raw: Option<&[u8]>) -> (r: Result<Option<u32>, StoreError>)
    ensures
        raw is None ==> r == Ok::<Option<u32>, StoreError>(None),
        raw matches Some(b) ==> (b@.len() != 4 ==> r == Err::<Option<u32>, StoreError>(StoreError::CorruptSchemaVersion)),
        raw matches Some(b) ==> (b@.len() == 4 ==> r == Ok::<Option<u32>, StoreError>(Some(
            (b@[0] as nat * 0x100_0000 + b@[1] as nat * 0x1_0000 + b@[2] as nat * 0x100 + b@[3] as nat) as u32))),
{
    match raw {
        None => Ok(None),
        Some(b) => {
            if b.len() != 4 {
                return Err(StoreError::CorruptSchemaVersion);
            }
            let v: u32 = (b[0] as u32) * 0x100_0000 + (b[1] as u32) * 0x1_0000 + (b[2] as u32) * 0x100 + (b[3] as u32);
            Ok(Some(v))
        },
    }
}

/// What opening the block store does with the version it finds: create a
/// fresh store where there is none, refuse a newer one, migrate an older
/// one.
pub fn block_store_schema_action(stored: Option<u32>) -> (r: Result<SchemaAction, StoreError>)
    ensures
        stored is None ==> r == Ok::<SchemaAction, StoreError>(SchemaAction::CreateFresh),
        stored matches Some(found) ==> (found > BLOCK_STORE_SCHEMA_VERSION ==> r == Err::<SchemaAction, StoreError>(
            StoreError::UnsupportedSchemaVersion { found, expected: BLOCK_STORE_SCHEMA_VERSION })),
        stored matches Some(found) ==> (found < BLOCK_STORE_SCHEMA_VERSION ==> r == Ok::<SchemaAction, StoreError>(
            SchemaAction::Migrate { from: found })),
        stored == Some(BLOCK_STORE_SCHEMA_VERSION) ==> r == Ok::<SchemaAction, StoreError>(SchemaAction::UpToDate),
{
    match stored {
        None => Ok(SchemaAction::CreateFresh),
        Some(found) => {
            if found > BLOCK_STORE_SCHEMA_VERSION {
                Err(StoreError::UnsupportedSchemaVersion { found, expected: BLOCK_STORE_SCHEMA_VERSION })
            } else if found < BLOCK_STORE_SCHEMA_VERSION {
                Ok(SchemaAction::Migrate { from: found })
            } else {
                Ok(SchemaAction::UpToDate)
            }
        },
    }
}

/// The migrations to apply to a block store at version `found`: those
/// with a later version, in order.
pub fn migrations_after(found: u32) -> (r: Vec<u32>)
    ensures
        r@ == BLOCK_STORE_MIGRATIONS@.filter(|v: u32| v > found),
{
    let mut r: Vec<u32> = Vec::new();
    let ms = BLOCK_STORE_MIGRATIONS;
    if ms[0] > found {
        r.push(ms[0]);
    }
    proof {
        reveal_with_fuel(Seq::<u32>::filter, 2);
        assert(ms@ =~= seq![2u32]);
        assert(ms@.drop_last() =~= Seq::<u32>::empty());
        assert(r@ =~= ms@.filter(|v: u32| v > found));
    }
    r
}

/// What opening the hub store does with the version it finds: create a
/// fresh store where there is none; refuse any version but its own.
pub fn hub_store_schema_action(stored: Option<u32>) -> (r: Result<SchemaAction, StoreError>)
    ensures
        stored is None ==> r == Ok::<SchemaAction, StoreError>(SchemaAction::CreateFresh),
        stored matches Some(found) ==> (found != HUB_STORE_SCHEMA_VERSION ==> r == Err::<SchemaAction, StoreError>(
            StoreError::UnsupportedSchemaVersion { found, expected: HUB_STORE_SCHEMA_VERSION })),
        stored == Some(HUB_STORE_SCHEMA_VERSION) ==> r == Ok::<SchemaAction, StoreError>(SchemaAction::UpToDate),
{
    match stored {
        None => Ok(SchemaAction::CreateFresh),
        Some(found) => {
            if found != HUB_STORE_SCHEMA_VERSION {
                Err(StoreError::UnsupportedSchemaVersion { found, expected: HUB_STORE_SCHEMA_VERSION })
            } else {
                Ok(SchemaAction::UpToDate)
            }
        },
    }
}

/// The concatenated 32-byte little-endian forms of a chain of hashes.
pub open spec fn chain_bytes(chain: Seq<crate::hash::Hash>) -> Seq<u8>
    decreases chain.len(),
{
    if chain.len() == 0 {
        Seq::empty()
    } else {
        chain_bytes(chain.drop_last()) + crate::crypto::message_of(chain.last())
    }
}

/// The active-chain record: each hash as its 32 bytes, least significant
/// first, one after the other.
pub fn encode_active_chain(chain: &Vec<crate::hash::Hash>) -> (r: Vec<u8>)
    ensures
        r@ == chain_bytes(chain@),
        r@.len() == 32 * chain@.len(),
{
    let mut r: Vec<u8> = Vec::new();
    let mut i: usize = 0;
    while i < chain.len()
        invariant
            i <= chain@.len(),
            r@ == chain_bytes(chain@.take(i as int)),
            r@.len() == 32 * i,
        decreases chain.len() - i,
    {
        assert(chain@.take(i + 1).drop_last() =~= chain@.take(i as int));
        let bytes = chain[i].as_bytes();
        proof { crate::crypto::lemma_message_of(chain@[i as int], bytes@); }
        let ghost before = r@;
        let mut j: usize = 0;
        while j < 32
            invariant
                j <= 32,
                bytes@.len() == 32,
                r@ == before + bytes@.take(j as int),
            decreases 32 - j,
        {
            r.push(bytes[j]);
            j = j + 1;
            assert(r@ =~= before + bytes@.take(j as int));
        }
        assert(bytes@.take(32) =~= bytes@);
        i = i + 1;
    }
    assert(chain@.take(chain@.len() as int) =~= chain@);
    r
}

/// Reads an active-chain record back: an error where its length is not a
/// multiple of 32, else the hashes it holds, in order.
pub fn decode_active_chain(bytes: &[u8]) -> (r: Result<Vec<crate::hash::Hash>, StoreError>)
    ensures
        bytes@.len() % 32 != 0 ==> r == Err::<Vec<crate::hash::Hash>, StoreError>(StoreError::CorruptActiveChain(bytes@.len() as usize)),
        bytes@.len() % 32 == 0 ==> (r matches Ok(chain) && chain@.len() == bytes@.len() / 32
            && chain_bytes(chain@) == bytes@),
{
    if bytes.len() % 32 != 0 {
        return Err(StoreError::CorruptActiveChain(bytes.len()));
    }
    let total = bytes.len();
    let n = total / 32;
    assert(32 * n == bytes@.len());
    let mut chain: Vec<crate::hash::Hash> = Vec::new();
    let mut i: usize = 0;
    while i < n
        invariant
            i <= n,
            n == bytes@.len() / 32,
            32 * n == bytes@.len(),
            total == bytes@.len(),
            bytes@.len() % 32 == 0,
            chain@.len() == i,
            chain_bytes(chain@) == bytes@.take(32 * i),
        decreases n - i,
    {
        let mut array = [0u8; 32];
        let mut j: usize = 0;
        while j < 32
            invariant
                j <= 32,
                i < n,
                n == bytes@.len() / 32,
                32 * n == bytes@.len(),
                total == bytes@.len(),
                array@.len() == 32,
                forall|k: int| 0 <= k < j ==> array@[k] == bytes@[32 * i + k],
            decreases 32 - j,
        {
            array[j] = bytes[32 * i + j];
            j = j + 1;
        }
        let h = crate::hash::Hash::from_bytes(array);
        proof {
            crate::crypto::lemma_message_of(h, array@);
            assert(array@ =~= bytes@.subrange(32 * i, 32 * i + 32));
        }
        let ghost before = chain@;
        chain.push(h);
        proof {
            assert(chain@.drop_last() =~= before);
            assert(bytes@.take(32 * (i + 1)) =~= bytes@.take(32 * i) + bytes@.subrange(32 * i, 32 * i + 32));
        }
        i = i + 1;
    }
    assert(bytes@.take(32 * n) =~= bytes@);
    Ok(chain)
}

/// Writing a chain and reading it back gives the same chain.
pub proof fn lemma_active_chain_roundtrip(chain: Seq<crate::hash::Hash>, back: Seq<crate::hash::Hash>)
    requires
        chain_bytes(back) == chain_bytes(chain),
    ensures
        back == chain,
    decreases chain.len(),
{
    lemma_chain_bytes_len(chain);
    lemma_chain_bytes_len(back);
    if chain.len() > 0 {
        let n = chain.len();
        let pre_c = chain_bytes(chain.drop_last());
        let pre_b = chain_bytes(back.drop_last());
        let mc = crate::crypto::message_of(chain.last());
        let mb = crate::crypto::message_of(back.last());
        lemma_message_len(chain.last());
        lemma_message_len(back.last());
        lemma_chain_bytes_len(chain.drop_last());
        lemma_chain_bytes_len(back.drop_last());
        assert(pre_c =~= chain_bytes(chain).take(32 * (n - 1)));
        assert(pre_b =~= chain_bytes(back).take(32 * (n - 1)));
        assert(mc =~= chain_bytes(chain).skip(32 * (n - 1)));
        assert(mb =~= chain_bytes(back).skip(32 * (n - 1)));
        lemma_active_chain_roundtrip(chain.drop_last(), back.drop_last());
        crate::hash::lemma_hash_bytes_roundtrip(chain.last(), mc, back.last());
        assert(back =~= back.drop_last().push(back.last()));
        assert(chain =~= chain.drop_last().push(chain.last()));
    } else {
        assert(back =~= chain);
    }
}

/// The record of a chain is 32 bytes per hash.
pub proof fn lemma_chain_bytes_len(chain: Seq<crate::hash::Hash>)
    ensures
        chain_bytes(chain).len() == 32 * chain.len(),
    decreases chain.len(),
{
    if chain.len() > 0 {
        lemma_chain_bytes_len(chain.drop_last());
        lemma_message_len(chain.last());
    }
}

/// A hash's message form is its 32 bytes.
pub proof fn lemma_message_len(h: crate::hash::Hash)
    ensures
        crate::crypto::message_of(h).len() == 32,
        le_value(crate::crypto::message_of(h)) == h@,
{
    let m = crate::u256::le_bytes_of(h@, 32);
    crate::u256::lemma_le_bytes_of(h@, 32);
    crate::u256::lemma_value_facts(h.0);
    crate::u256::lemma_pow_byte_values();
    vstd::arithmetic::div_mod::lemma_small_mod(h@, crate::u256::pow_byte(32));
    crate::crypto::lemma_message_of(h, m);
}


/// What a store error says.
pub open spec fn store_error_text(e: StoreError) -> Seq<char> {
    match e {
        StoreError::UnsupportedSchemaVersion { found, expected } => "store was created by schema version "@
            + decimal(found as nat) + ", this"@ + " build expects "@ + decimal(expected as nat),
        StoreError::CorruptSchemaVersion => "stored schema version record is corrupt"@,
        StoreError::CorruptActiveChain(n) => "stored active-chain record is corrupt: length "@ + decimal(n as nat)
            + " is not a multiple of 32"@,
    }
}

impl StoreError {
    /// The error's text.
    pub fn message(&self) -> (m: String)
        ensures
            m@ == store_error_text(*self),
    {
        match self {
            StoreError::UnsupportedSchemaVersion { found, expected } => {
                let mut m = "store was created by schema version ".to_owned();
                push_decimal(&mut m, *found as u64);
                m.append(", this");
                m.append(" build expects ");
                push_decimal(&mut m, *expected as u64);
                m
            },
            StoreError::CorruptSchemaVersion => "stored schema version record is corrupt".to_owned(),
            StoreError::CorruptActiveChain(n) => {
                let mut m = "stored active-chain record is corrupt: length ".to_owned();
                push_decimal(&mut m, *n as u64);
                m.append(" is not a multiple of 32");
                m
            },
        }
    }
}

} // verus!
