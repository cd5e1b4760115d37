use itx::chain::{Block, MerkleRoot, Transaction, TransactionInput, TransactionOutput};
use itx::crypto::{PrivateKey, Signature};
use itx::hash::Hash as Digest;
use itx::ledger::Blockchain;
use itx::node::{handle_request, NodeAction, NodeReply, PeerRequest};

/// Mines `block`'s header until it meets its target.
fn mined(mut block: Block) -> Block {
    while !block.header.mine(100_000) {
        block.header.nonce = block.header.nonce.wrapping_add(1);
    }
    block
}

/// A chain holding one block whose coinbase pays `owner`.
fn chain_with_genesis(owner: &PrivateKey) -> Blockchain {
    let mut chain = Blockchain::new();
    let genesis = chain.create_block_template(owner.public_key()).unwrap();
    chain.add_block(genesis).unwrap();
    chain
}

fn is_plain(a: &NodeAction, strike: Option<bool>, close: bool, persist: bool, broadcast: bool) -> bool {
    a.reply.is_none() && a.strike == strike && a.close == close && a.persist == persist && a.broadcast == broadcast
}

#[test]
fn a_client_only_message_earns_a_severe_strike() {
    let mut chain = chain_with_genesis(&PrivateKey::new_key());
    let a = handle_request(&mut chain, &Vec::new(), PeerRequest::ClientOnly);
    assert!(is_plain(&a, Some(true), true, false, false));
}

#[test]
fn utxos_and_blocks_are_answered_from_the_chain() {
    let owner = PrivateKey::new_key();
    let mut chain = chain_with_genesis(&owner);
    match handle_request(&mut chain, &Vec::new(), PeerRequest::FetchUtxos(owner.public_key())).reply {
        Some(NodeReply::Utxos(v)) => {
            assert_eq!(v.len(), 1);
            assert_eq!(v[0].0.value, 5_000_000_000);
            assert!(!v[0].1);
        },
        other => panic!("expected UTXOs, got {other:?}"),
    }
    match handle_request(&mut chain, &Vec::new(), PeerRequest::FetchUtxos(PrivateKey::new_key().public_key())).reply {
        Some(NodeReply::Utxos(v)) => assert!(v.is_empty()),
        other => panic!("expected UTXOs, got {other:?}"),
    }
    match handle_request(&mut chain, &Vec::new(), PeerRequest::FetchBlocks { start: 0, count: 10 }).reply {
        Some(NodeReply::Blocks(v)) => {
            assert_eq!(v.len(), 1);
            assert_eq!(v[0].hash(), chain.blocks()[0].hash());
        },
        other => panic!("expected Blocks, got {other:?}"),
    }
}

#[test]
fn a_submitted_mined_template_is_added_persisted_and_relayed() {
    let owner = PrivateKey::new_key();
    let mut chain = chain_with_genesis(&owner);
    let template = match handle_request(&mut chain, &Vec::new(), PeerRequest::FetchTemplate(owner.public_key())).reply {
        Some(NodeReply::Template(b)) => b,
        other => panic!("expected a template, got {other:?}"),
    };
    match handle_request(&mut chain, &Vec::new(), PeerRequest::ValidateTemplate(template.copy())).reply {
        Some(NodeReply::TemplateValidity(v)) => assert!(v),
        other => panic!("expected a validity, got {other:?}"),
    }
    let a = handle_request(&mut chain, &Vec::new(), PeerRequest::SubmitTemplate(mined(template.copy())));
    assert!(is_plain(&a, None, false, true, true));
    assert_eq!(chain.block_height(), 2);
    // the old template no longer builds on the tip
    match handle_request(&mut chain, &Vec::new(), PeerRequest::ValidateTemplate(template)).reply {
        Some(NodeReply::TemplateValidity(v)) => assert!(!v),
        other => panic!("expected a validity, got {other:?}"),
    }
}

#[test]
fn a_block_off_the_tip_is_left_alone_and_a_refused_one_strikes() {
    let owner = PrivateKey::new_key();
    let mut chain = chain_with_genesis(&owner);
    let mut orphan = chain.create_block_template(owner.public_key()).unwrap();
    orphan.header.prev_block_hash = Digest::hash_bytes(b"elsewhere");
    let a = handle_request(&mut chain, &Vec::new(), PeerRequest::NewBlock(mined(orphan)));
    assert!(is_plain(&a, None, false, false, false));
    assert_eq!(chain.block_height(), 1);

    let mut forged = chain.create_block_template(owner.public_key()).unwrap();
    forged.header.merkle_root = MerkleRoot(Digest::zero());
    let a = handle_request(&mut chain, &Vec::new(), PeerRequest::NewBlock(mined(forged)));
    assert!(is_plain(&a, Some(false), true, false, false));
    assert_eq!(chain.block_height(), 1);
}

#[test]
fn a_submitted_transaction_is_relayed_and_a_forged_one_strikes() {
    let owner = PrivateKey::new_key();
    let thief = PrivateKey::new_key();
    let mut chain = chain_with_genesis(&owner);
    let coin = chain.utxos()[0].2.copy();
    let h = coin.hash();
    let pay = |key: &PrivateKey, id: u128| Transaction::new(
        vec![TransactionInput { prev_transaction_output_hash: h, signature: Signature::sign_output(&h, key) }],
        vec![TransactionOutput { value: 4_999_000_000, unique_id: id, pubkey: key.public_key() }],
    );
    let a = handle_request(&mut chain, &Vec::new(), PeerRequest::SubmitTransaction(pay(&thief, 1)));
    assert!(is_plain(&a, Some(false), true, false, false));
    assert!(chain.mempool().is_empty());
    // relayed ones that fail are not the relaying peer's fault
    let a = handle_request(&mut chain, &Vec::new(), PeerRequest::NewTransaction(pay(&thief, 2)));
    assert!(is_plain(&a, None, false, false, false));
    let a = handle_request(&mut chain, &Vec::new(), PeerRequest::SubmitTransaction(pay(&owner, 3)));
    assert!(is_plain(&a, None, false, false, true));
    assert_eq!(chain.mempool().len(), 1);
}

#[test]
fn the_chain_tip_and_the_known_peers_are_answered() {
    let mut chain = chain_with_genesis(&PrivateKey::new_key());
    match handle_request(&mut chain, &Vec::new(), PeerRequest::AskChainTip).reply {
        Some(NodeReply::ChainTip { height, work }) => {
            assert_eq!(height, 1);
            // one block at the easiest target, 2^240 - 1: work 2^256 / 2^240
            assert_eq!(work, Some(itx::U256::from_u64(65_536)));
        },
        other => panic!("expected a chain tip, got {other:?}"),
    }
    let peers = vec![String::from("10.0.0.1:9000"), String::from("10.0.0.2:9000")];
    let a = handle_request(&mut chain, &peers, PeerRequest::DiscoverNodes);
    assert!(!a.close && a.strike.is_none());
    match a.reply {
        Some(NodeReply::NodeList(v)) => assert_eq!(v, peers),
        other => panic!("expected a node list, got {other:?}"),
    }
}
