use itx::chain::{Block, BlockHeader, MerkleRoot, Transaction, TransactionOutput};
use itx::crypto::PrivateKey;
use itx::hash::Hash as Digest;
use itx::ledger::{BtcError, Blockchain};
use itx::node::{handle_request, NodeReply, PeerRequest};
use itx::sync::{apply_sync_reply, fetch_batch_len, fetch_blocks, next_sync_request, SyncReply, SyncStep};
use itx::time::Timestamp;
use itx::{U256, BLOCKS_PER_FETCH_BATCH, MAX_FETCH_BATCH_BYTES};

/// Mines `block`'s header until it meets its target.
fn mined(mut block: Block) -> Block {
    while !block.header.mine(100_000) {
        block.header.nonce = block.header.nonce.wrapping_add(1);
    }
    block
}

/// A mined block on `parent` whose coinbase pays `reward` to a fresh key.
fn mined_child_block(parent: Digest, target: U256, reward: u64) -> Block {
    let coinbase = Transaction::new(
        vec![],
        vec![TransactionOutput { value: reward, unique_id: 0, pubkey: PrivateKey::new_key().public_key() }],
    );
    let transactions = vec![coinbase];
    let merkle_root = MerkleRoot::calculate(&transactions);
    let header = BlockHeader::new(Timestamp::now(), 0, parent, merkle_root, target);
    mined(Block::new(header, transactions))
}

/// A chain holding one block.
fn ensure_genesis() -> Blockchain {
    let mut chain = Blockchain::new();
    let genesis = chain.create_block_template(PrivateKey::new_key().public_key()).unwrap();
    chain.add_block(genesis).unwrap();
    chain
}

/// `n` mined blocks, each on the one before, the first on `chain`'s tip.
fn children(chain: &Blockchain, n: usize) -> Vec<Block> {
    let mut parent = chain.blocks().last().unwrap().hash();
    let mut out = Vec::new();
    for _ in 0..n {
        let b = mined_child_block(parent, chain.target(), chain.calculate_block_reward());
        parent = b.hash();
        out.push(b);
    }
    out
}

/// A chain with a genesis block and `extra` blocks after it; the height
/// the extra blocks start at, and copies of them.
fn ensure_chain_with_extra_blocks(extra: usize) -> (Blockchain, usize, Vec<Block>) {
    let mut chain = ensure_genesis();
    let start = chain.block_height() as usize;
    let added = children(&chain, extra);
    for b in &added {
        assert_eq!(chain.add_block(b.copy()), Ok(()));
    }
    (chain, start, added)
}

/// Runs a sync up to `target_height` against a peer that answers the
/// fetches with `batches` in turn, then with nothing.
fn download_blockchain(chain: &mut Blockchain, batches: Vec<Vec<Block>>, target_height: u32) -> Result<(), SyncReply> {
    let mut batches = batches.into_iter();
    loop {
        match next_sync_request(chain.block_height(), target_height) {
            SyncStep::Done => return Ok(()),
            SyncStep::Fetch { .. } => {
                let reply = batches.next().unwrap_or_default();
                match apply_sync_reply(chain, reply) {
                    SyncReply::Exhausted => return Ok(()),
                    SyncReply::Applied { .. } => {},
                    other => return Err(other),
                }
            },
        }
    }
}

#[test]
fn fetch_blocks_returns_exact_count_when_available() {
    let (chain, start, added) = ensure_chain_with_extra_blocks(3);
    let blocks = fetch_blocks(&chain, start, 3);
    assert_eq!(blocks.len(), 3);
    for (got, expected) in blocks.iter().zip(added.iter()) {
        assert_eq!(got.hash(), expected.hash());
    }
}

#[test]
fn fetch_blocks_returns_fewer_than_requested_when_not_enough_exist() {
    let (chain, start, added) = ensure_chain_with_extra_blocks(2);
    let blocks = fetch_blocks(&chain, start, 1000);
    assert_eq!(blocks.len(), added.len(), "no error, just fewer than asked");
}

#[test]
fn fetch_blocks_past_the_tip_returns_empty_without_dropping_the_connection() {
    let (mut chain, start, _added) = ensure_chain_with_extra_blocks(1);
    let action = handle_request(&mut chain, &Vec::new(), PeerRequest::FetchBlocks { start: start + 1000, count: 5 });
    match &action.reply {
        Some(NodeReply::Blocks(blocks)) => assert!(blocks.is_empty()),
        other => panic!("expected an empty Blocks, got {other:?}"),
    }
    assert!(!action.close);
    assert!(action.strike.is_none());

    // the connection stays usable: a second, unrelated request is answered
    let again = handle_request(&mut chain, &Vec::new(), PeerRequest::AskChainTip);
    assert!(matches!(again.reply, Some(NodeReply::ChainTip { .. })));
    assert!(!again.close);
}

#[test]
fn a_fetch_is_capped_by_count_batch_and_bytes_but_answers_one_block() {
    assert_eq!(fetch_batch_len(&vec![10, 20, 30], 0, 10), 3);
    assert_eq!(fetch_batch_len(&vec![10, 20, 30], 1, 1), 1);
    assert_eq!(fetch_batch_len(&vec![10, 20, 30], 3, 5), 0);
    assert_eq!(fetch_batch_len(&vec![10, 20, 30], 0, 0), 0);
    assert_eq!(fetch_batch_len(&vec![MAX_FETCH_BATCH_BYTES + 5, 1], 0, 5), 1);
    assert_eq!(fetch_batch_len(&vec![MAX_FETCH_BATCH_BYTES - 10, 5, 20], 0, 5), 2);
    assert_eq!(fetch_batch_len(&vec![MAX_FETCH_BATCH_BYTES - 10, 5, 5], 0, 5), 3);
    let many = vec![1usize; BLOCKS_PER_FETCH_BATCH + 7];
    assert_eq!(fetch_batch_len(&many, 0, u32::MAX), BLOCKS_PER_FETCH_BATCH);
}

#[test]
fn the_next_request_asks_for_what_is_missing_in_batches() {
    assert_eq!(next_sync_request(5, 5), SyncStep::Done);
    assert_eq!(next_sync_request(9, 5), SyncStep::Done);
    assert_eq!(next_sync_request(3, 10), SyncStep::Fetch { start: 3, count: 7 });
    assert_eq!(next_sync_request(0, 1000), SyncStep::Fetch { start: 0, count: BLOCKS_PER_FETCH_BATCH as u32 });
}

#[test]
fn download_blockchain_batches_multiple_round_trips_until_target_height() {
    let mut chain = ensure_genesis();
    let base_height = chain.block_height();
    let all = children(&chain, 3);
    let batch1: Vec<Block> = all[..2].iter().map(|b| b.copy()).collect();
    let batch2: Vec<Block> = all[2..].iter().map(|b| b.copy()).collect();
    let target_height = base_height as u32 + 3;
    download_blockchain(&mut chain, vec![batch1, batch2], target_height).unwrap();
    assert_eq!(chain.block_height(), target_height as u64);
}

#[test]
fn download_blockchain_stops_on_an_empty_reply_even_if_target_not_yet_reached() {
    let mut chain = ensure_genesis();
    let base_height = chain.block_height();
    let one_block = children(&chain, 1);
    let target_height = base_height as u32 + 50;
    download_blockchain(&mut chain, vec![one_block], target_height).unwrap();
    assert_eq!(
        chain.block_height(),
        base_height + 1,
        "must stop cleanly once the peer runs dry, not loop or error"
    );
}

#[test]
fn download_blockchain_aborts_on_an_invalid_block_but_keeps_earlier_progress_in_the_same_batch() {
    let mut chain = ensure_genesis();
    let base_height = chain.block_height();
    let valid_block = children(&chain, 1).pop().unwrap();
    let bad_block = mined_child_block(Digest::hash_bytes(b"not a real parent"), chain.target(), chain.calculate_block_reward());
    let target_height = base_height as u32 + 10;
    let result = download_blockchain(&mut chain, vec![vec![valid_block.copy(), bad_block]], target_height);
    assert!(result.is_err(), "an invalid block in the batch must abort the sync");
    assert_eq!(
        chain.block_height(),
        base_height + 1,
        "the valid block before the bad one must still have been applied"
    );
    assert_eq!(chain.blocks().last().unwrap().hash(), valid_block.hash());
}

#[test]
fn a_block_off_our_tip_stops_the_sync_without_blaming_the_peer() {
    let mut chain = ensure_genesis();
    let stray = mined_child_block(Digest::hash_bytes(b"elsewhere"), chain.target(), chain.calculate_block_reward());
    let reply = apply_sync_reply(&mut chain, vec![stray]);
    assert_eq!(reply, SyncReply::Orphan { applied: 0 });
    assert!(!reply.strikes_peer());
    assert_eq!(chain.block_height(), 1);
}

#[test]
fn a_refused_block_stops_the_sync_and_strikes_the_peer() {
    let mut chain = ensure_genesis();
    let mut blocks = children(&chain, 2);
    blocks[1].header.merkle_root = MerkleRoot(Digest::zero());
    let forged = mined(blocks.pop().unwrap());
    blocks.push(forged);
    let reply = apply_sync_reply(&mut chain, blocks);
    assert_eq!(reply, SyncReply::Refused { applied: 1, error: BtcError::InvalidMerkleRoot });
    assert!(reply.strikes_peer());
    assert_eq!(chain.block_height(), 2);
}

#[test]
fn an_empty_reply_ends_the_sync() {
    let mut chain = ensure_genesis();
    assert_eq!(apply_sync_reply(&mut chain, Vec::new()), SyncReply::Exhausted);
    assert_eq!(chain.block_height(), 1);
}

#[test]
fn a_block_encodes_to_its_serialized_size() {
    let (chain, _, _) = ensure_chain_with_extra_blocks(1);
    let b = &chain.blocks()[1];
    assert_eq!(b.serialized_size(), b.encode().len());
    assert!(b.serialized_size() > 0);
}
