use itx::hash::Hash as Digest;
use itx::storage::{
    block_store_schema_action, decode_active_chain, encode_active_chain, hub_store_schema_action, migrations_after,
    parse_schema_version, SchemaAction, StoreError, BLOCK_STORE_SCHEMA_VERSION, HUB_STORE_SCHEMA_VERSION,
};

#[test]
fn open_or_create_rejects_a_store_from_a_newer_unknown_version() {
    assert_eq!(
        block_store_schema_action(Some(BLOCK_STORE_SCHEMA_VERSION + 1)),
        Err(StoreError::UnsupportedSchemaVersion { found: BLOCK_STORE_SCHEMA_VERSION + 1, expected: BLOCK_STORE_SCHEMA_VERSION })
    );
}

#[test]
fn open_or_create_migrates_a_v1_store_to_current() {
    assert_eq!(block_store_schema_action(Some(1)), Ok(SchemaAction::Migrate { from: 1 }));
    assert_eq!(migrations_after(1), vec![2]);
    assert_eq!(migrations_after(2), Vec::<u32>::new());
    assert_eq!(block_store_schema_action(None), Ok(SchemaAction::CreateFresh));
    assert_eq!(block_store_schema_action(Some(2)), Ok(SchemaAction::UpToDate));
}

#[test]
fn rejects_a_store_from_a_newer_unknown_version() {
    assert_eq!(
        hub_store_schema_action(Some(HUB_STORE_SCHEMA_VERSION + 1)),
        Err(StoreError::UnsupportedSchemaVersion { found: HUB_STORE_SCHEMA_VERSION + 1, expected: HUB_STORE_SCHEMA_VERSION })
    );
    assert_eq!(hub_store_schema_action(Some(HUB_STORE_SCHEMA_VERSION)), Ok(SchemaAction::UpToDate));
    assert_eq!(hub_store_schema_action(None), Ok(SchemaAction::CreateFresh));
}

#[test]
fn a_schema_version_is_four_big_endian_bytes() {
    assert_eq!(parse_schema_version(None), Ok(None));
    assert_eq!(parse_schema_version(Some(&[0, 0, 1, 2])), Ok(Some(258)));
    assert_eq!(parse_schema_version(Some(&[0, 1, 2])), Err(StoreError::CorruptSchemaVersion));
}

#[test]
fn the_active_chain_round_trips() {
    let chain = vec![Digest::hash_bytes(b"a"), Digest::hash_bytes(b"b"), Digest::zero()];
    let bytes = encode_active_chain(&chain);
    assert_eq!(bytes.len(), 96);
    assert_eq!(decode_active_chain(&bytes).unwrap(), chain);
    assert_eq!(decode_active_chain(&bytes[..95]), Err(StoreError::CorruptActiveChain(95)));
}

#[test]
fn store_errors_read_as_text() {
    assert_eq!(
        StoreError::CorruptActiveChain(95).message(),
        "stored active-chain record is corrupt: length 95 is not a multiple of 32"
    );
    assert_eq!(
        StoreError::UnsupportedSchemaVersion { found: 3, expected: 2 }.message(),
        format!("store was created by schema version 3, this{}", " build expects 2")
    );
}
