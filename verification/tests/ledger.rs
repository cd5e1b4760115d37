use itx::chain::{Block, MerkleRoot, Transaction, TransactionInput, TransactionOutput};
use itx::crypto::{PrivateKey, Signature};
use itx::hash::Hash as Digest;
use itx::ledger::{BtcError, Blockchain};
use itx::time::Timestamp;
use itx::{min_target, U256, INITIAL_REWARD};

/// Mines `block`'s header until it meets its target.
fn mined(mut block: Block) -> Block {
    while !block.header.mine(100_000) {
        block.header.nonce = block.header.nonce.wrapping_add(1);
    }
    block
}

/// A chain holding one block whose coinbase pays `owner`.
fn chain_with_genesis(owner: &PrivateKey) -> Blockchain {
    let mut chain = Blockchain::new();
    let genesis = chain.create_block_template(owner.public_key()).unwrap();
    chain.add_block(genesis).unwrap();
    chain
}

#[test]
fn a_new_chain_is_empty_at_the_easiest_target() {
    let chain = Blockchain::new();
    assert_eq!(chain.block_height(), 0);
    assert_eq!(chain.target(), min_target());
    assert!(chain.utxos().is_empty());
    assert!(chain.mempool().is_empty());
}

#[test]
fn the_first_reward_is_fifty_coins() {
    let chain = Blockchain::new();
    assert_eq!(chain.calculate_block_reward(), INITIAL_REWARD * 100_000_000);
}

#[test]
fn a_genesis_template_is_accepted_and_pays_its_miner() {
    let owner = PrivateKey::new_key();
    let chain = chain_with_genesis(&owner);
    assert_eq!(chain.block_height(), 1);
    assert_eq!(chain.utxos().len(), 1);
    let (_, marked, output) = &chain.utxos()[0];
    assert!(!marked);
    assert_eq!(output.value, 5_000_000_000);
    assert_eq!(output.pubkey, owner.public_key());
}

#[test]
fn a_first_block_must_name_the_zero_hash() {
    let owner = PrivateKey::new_key();
    let mut chain = Blockchain::new();
    let mut block = chain.create_block_template(owner.public_key()).unwrap();
    block.header.prev_block_hash = Digest::hash_bytes(b"not zero");
    assert_eq!(chain.add_block(block), Err(BtcError::InvalidBlock));
    assert_eq!(chain.block_height(), 0);
}

#[test]
fn a_mined_second_block_extends_the_chain() {
    let owner = PrivateKey::new_key();
    let mut chain = chain_with_genesis(&owner);
    let template = chain.create_block_template(owner.public_key()).unwrap();
    assert_eq!(template.header.prev_block_hash, chain.blocks()[0].hash());
    let block = mined(template);
    assert!(block.header.hash().matches_target(block.header.target));
    assert_eq!(chain.add_block(block), Ok(()));
    assert_eq!(chain.block_height(), 2);
    assert_eq!(chain.utxos().len(), 2);
}

#[test]
fn a_block_with_a_wrong_parent_or_root_is_refused() {
    let owner = PrivateKey::new_key();
    let mut chain = chain_with_genesis(&owner);

    let mut orphan = chain.create_block_template(owner.public_key()).unwrap();
    orphan.header.prev_block_hash = Digest::hash_bytes(b"elsewhere");
    let orphan = mined(orphan);
    assert_eq!(chain.add_block(orphan), Err(BtcError::InvalidBlock));

    let mut forged = chain.create_block_template(owner.public_key()).unwrap();
    forged.header.merkle_root = MerkleRoot(Digest::zero());
    let forged = mined(forged);
    assert_eq!(chain.add_block(forged), Err(BtcError::InvalidMerkleRoot));
    assert_eq!(chain.block_height(), 1);
}

#[test]
fn an_unmined_block_is_refused() {
    let owner = PrivateKey::new_key();
    let mut chain = chain_with_genesis(&owner);
    let mut block = chain.create_block_template(owner.public_key()).unwrap();
    // find a nonce that misses the target
    while block.header.hash().matches_target(block.header.target) {
        block.header.nonce += 1;
    }
    assert_eq!(chain.add_block(block), Err(BtcError::InvalidBlock));
}

/// A transaction spending `output` (owned by `key`) into `value` for
/// `key`'s own key.
fn spend(output: &TransactionOutput, key: &PrivateKey, value: u64, id: u128) -> Transaction {
    let h = output.hash();
    Transaction::new(
        vec![TransactionInput { prev_transaction_output_hash: h, signature: Signature::sign_output(&h, key) }],
        vec![TransactionOutput { value, unique_id: id, pubkey: key.public_key() }],
    )
}

#[test]
fn a_valid_spend_enters_the_mempool_once_and_pays_its_fee_to_the_miner() {
    let owner = PrivateKey::new_key();
    let mut chain = chain_with_genesis(&owner);
    let coin = chain.utxos()[0].2.copy();

    let tx = spend(&coin, &owner, 4_999_000_000, 1);
    assert_eq!(chain.add_to_mempool(tx), Ok(()));
    assert_eq!(chain.mempool().len(), 1);
    // the spent output is now flagged as spoken for
    assert!(chain.utxos()[0].1);

    let template = chain.create_block_template(owner.public_key()).unwrap();
    assert_eq!(template.transactions.len(), 2);
    assert_eq!(template.transactions[0].outputs[0].value, 5_000_000_000 + 1_000_000);
}

#[test]
fn a_conflicting_spend_must_pay_a_higher_fee_to_replace() {
    let owner = PrivateKey::new_key();
    let mut chain = chain_with_genesis(&owner);
    let coin = chain.utxos()[0].2.copy();

    assert_eq!(chain.add_to_mempool(spend(&coin, &owner, 4_999_000_000, 3)), Ok(()));
    // same fee: refused, the first stays
    assert_eq!(chain.add_to_mempool(spend(&coin, &owner, 4_999_000_000, 4)), Err(BtcError::InvalidTransaction));
    // higher fee: replaces it
    assert_eq!(chain.add_to_mempool(spend(&coin, &owner, 4_990_000_000, 5)), Ok(()));
    assert_eq!(chain.mempool().len(), 1);
    assert_eq!(chain.mempool()[0].1.outputs[0].unique_id, 5);
    // spending more than the output holds
    let greedy = spend(&coin, &owner, 6_000_000_000, 6);
    assert_eq!(chain.add_to_mempool(greedy), Err(BtcError::InvalidTransaction));
}

#[test]
fn spending_an_unknown_output_is_refused() {
    let owner = PrivateKey::new_key();
    let mut chain = chain_with_genesis(&owner);
    let phantom = TransactionOutput { value: 7, unique_id: 9, pubkey: owner.public_key() };
    assert_eq!(chain.add_to_mempool(spend(&phantom, &owner, 7, 10)), Err(BtcError::InvalidTransaction));
}

#[test]
fn a_spend_signed_by_another_key_is_refused_and_changes_nothing() {
    let owner = PrivateKey::new_key();
    let thief = PrivateKey::new_key();
    let mut chain = chain_with_genesis(&owner);
    let coin = chain.utxos()[0].2.copy();
    let h = coin.hash();
    let forged = Transaction::new(
        vec![TransactionInput { prev_transaction_output_hash: h, signature: Signature::sign_output(&h, &thief) }],
        vec![TransactionOutput { value: 4_999_000_000, unique_id: 11, pubkey: thief.public_key() }],
    );
    assert_eq!(chain.add_to_mempool(forged), Err(BtcError::InvalidSignature));
    assert!(chain.mempool().is_empty());
    assert!(!chain.utxos()[0].1);
}

#[test]
fn a_block_declaring_an_easier_target_is_refused() {
    let owner = PrivateKey::new_key();
    let mut chain = chain_with_genesis(&owner);
    let mut block = chain.create_block_template(owner.public_key()).unwrap();
    // every hash meets the easiest possible target
    block.header.target = U256::max_value();
    assert!(block.header.hash().matches_target(block.header.target));
    assert_eq!(chain.add_block(block), Err(BtcError::InvalidBlock));
    assert_eq!(chain.block_height(), 1);
}

#[test]
fn a_block_too_far_ahead_of_the_clock_is_refused() {
    let owner = PrivateKey::new_key();
    let mut chain = chain_with_genesis(&owner);
    let block = mined(chain.create_block_template(owner.public_key()).unwrap());
    let stamp = block.header.timestamp.nanos;
    let three_hours_before = Timestamp::from_nanos(stamp - 3 * 3_600 * 1_000_000_000);
    assert_eq!(chain.add_block_at(block.copy(), three_hours_before), Err(BtcError::InvalidBlock));
    assert_eq!(chain.block_height(), 1);
    let one_hour_before = Timestamp::from_nanos(stamp - 3_600 * 1_000_000_000);
    assert_eq!(chain.add_block_at(block, one_hour_before), Ok(()));
    assert_eq!(chain.block_height(), 2);
}

#[test]
fn a_template_pays_its_coinbase_on_top_of_the_tip() {
    let owner = PrivateKey::new_key();
    let miner = PrivateKey::new_key();
    let chain = chain_with_genesis(&owner);
    let template = chain.create_block_template(miner.public_key()).unwrap();
    let coinbase = &template.transactions[0];
    assert!(coinbase.inputs.is_empty());
    assert_eq!(coinbase.outputs.len(), 1);
    assert_eq!(coinbase.outputs[0].value, 5_000_000_000);
    assert_eq!(coinbase.outputs[0].pubkey, miner.public_key());
    assert_eq!(template.header.prev_block_hash, chain.blocks()[0].hash());
    assert_eq!(template.header.merkle_root, MerkleRoot::calculate(&template.transactions));
    assert_eq!(template.header.target, chain.target());
    assert_eq!(template.header.nonce, 0);
}

#[test]
fn try_add_block_adds_a_valid_block_and_reports_a_refused_one() {
    let owner = PrivateKey::new_key();
    let mut chain = chain_with_genesis(&owner);
    let block = mined(chain.create_block_template(owner.public_key()).unwrap());
    assert_eq!(chain.try_add_block(block), Some(Ok(())));
    assert_eq!(chain.block_height(), 2);

    let mut forged = chain.create_block_template(owner.public_key()).unwrap();
    forged.header.merkle_root = MerkleRoot(Digest::zero());
    let forged = mined(forged);
    assert_eq!(chain.try_add_block(forged), Some(Err(BtcError::InvalidMerkleRoot)));
    assert_eq!(chain.block_height(), 2);
}

#[test]
fn try_add_block_leaves_a_block_whose_sums_overflow() {
    let owner = PrivateKey::new_key();
    let mut chain = chain_with_genesis(&owner);
    let mut block = chain.create_block_template(owner.public_key()).unwrap();
    block.transactions[0].outputs = vec![
        TransactionOutput { value: u64::MAX, unique_id: 1, pubkey: owner.public_key() },
        TransactionOutput { value: u64::MAX, unique_id: 2, pubkey: owner.public_key() },
    ];
    block.header.merkle_root = MerkleRoot::calculate(&block.transactions);
    let block = mined(block);
    assert_eq!(chain.try_add_block(block), None);
    assert_eq!(chain.block_height(), 1);
}

#[test]
fn a_signed_output_verifies_only_under_the_signers_key() {
    let key = PrivateKey::new_key();
    let other = PrivateKey::new_key();
    let h = Digest::hash_bytes(b"an output");
    let signature = Signature::sign_output(&h, &key);
    assert!(signature.verify(&h, &key.public_key()));
    assert!(!signature.verify(&h, &other.public_key()));
    assert!(!signature.verify(&Digest::hash_bytes(b"another output"), &key.public_key()));
}

#[test]
fn an_empty_block_is_refused_at_any_height() {
    let chain = Blockchain::new();
    let header = chain.create_block_template(PrivateKey::new_key().public_key()).unwrap().header;
    let empty = Block::new(header, vec![]);
    assert_eq!(empty.verify_transactions(20_000, &chain), Err(BtcError::InvalidTransaction));
}

#[test]
fn the_fee_check_stops_at_the_first_failing_transaction() {
    let owner = PrivateKey::new_key();
    let chain = chain_with_genesis(&owner);
    let mut block = chain.create_block_template(owner.public_key()).unwrap();
    let phantom = TransactionOutput { value: 7, unique_id: 9, pubkey: owner.public_key() };
    block.transactions.push(spend(&phantom, &owner, 7, 10));
    // a later transaction whose outputs would overflow if they were summed
    let coin = chain.utxos()[0].2.copy();
    let mut huge = spend(&coin, &owner, u64::MAX, 11);
    huge.outputs.push(TransactionOutput { value: u64::MAX, unique_id: 12, pubkey: owner.public_key() });
    block.transactions.push(huge);
    assert_eq!(block.calculate_miner_fees(&chain), Err(BtcError::InvalidTransaction));
    assert_eq!(block.verify_coinbase_transaction(1, &chain), Err(BtcError::InvalidTransaction));
    assert_eq!(block.verify_transactions(1, &chain), Err(BtcError::InvalidTransaction));
}

#[test]
fn a_spend_naming_one_output_twice_is_refused() {
    let owner = PrivateKey::new_key();
    let mut chain = chain_with_genesis(&owner);
    let coin = chain.utxos()[0].2.copy();
    let h = coin.hash();
    let input = TransactionInput { prev_transaction_output_hash: h, signature: Signature::sign_output(&h, &owner) };
    let twice = Transaction::new(
        vec![input.copy(), input],
        vec![TransactionOutput { value: 1, unique_id: 13, pubkey: owner.public_key() }],
    );
    assert_eq!(chain.add_to_mempool(twice), Err(BtcError::InvalidTransaction));
    assert!(chain.mempool().is_empty());
}
