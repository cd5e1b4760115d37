use itx::chain::TransactionOutput;
use itx::crypto::{PrivateKey, PublicKey};
use itx::payment::{build_payment, build_payment_with, PaymentError};

fn utxo(value: u64, pubkey: PublicKey) -> TransactionOutput {
    TransactionOutput { value, unique_id: uuid::Uuid::new_v4().as_u128(), pubkey }
}

#[test]
fn build_payment_covers_amount_and_returns_change() {
    let owner = PrivateKey::new_key();
    let recipient = PrivateKey::new_key().public_key();

    let available = vec![(false, utxo(100, owner.public_key())), (false, utxo(50, owner.public_key()))];

    let tx = build_payment(&available, &owner, recipient.clone(), 120, 5, owner.public_key()).unwrap();

    assert_eq!(tx.inputs.len(), 2); // needed both to cover 125
    let recipient_output = tx.outputs.iter().find(|o| o.pubkey == recipient).unwrap();
    assert_eq!(recipient_output.value, 120);
    let change_output = tx.outputs.iter().find(|o| o.pubkey == owner.public_key());
    assert_eq!(change_output.unwrap().value, 150 - 125);
}

#[test]
fn build_payment_skips_marked_utxos() {
    let owner = PrivateKey::new_key();
    let recipient = PrivateKey::new_key().public_key();

    let available = vec![
        (true, utxo(1_000, owner.public_key())), // already spoken for -- must be ignored
        (false, utxo(10, owner.public_key())),
    ];

    let tx = build_payment(&available, &owner, recipient.clone(), 10, 0, owner.public_key()).unwrap();
    assert_eq!(tx.inputs.len(), 1);
    let total_out: u64 = tx.outputs.iter().map(|o| o.value).sum();
    assert_eq!(total_out, 10);

    let result = build_payment(&available, &owner, recipient, 11, 0, owner.public_key());
    assert!(matches!(result, Err(PaymentError::InsufficientFunds { available: 10, needed: 11 })));
}

#[test]
fn build_payment_rejects_insufficient_funds() {
    let owner = PrivateKey::new_key();
    let recipient = PrivateKey::new_key().public_key();
    let available = vec![(false, utxo(5, owner.public_key()))];

    let result = build_payment(&available, &owner, recipient, 100, 0, owner.public_key());
    assert!(matches!(result, Err(PaymentError::InsufficientFunds { available: 5, needed: 100 })));
}

#[test]
fn exact_payment_has_no_change_output_and_uses_the_given_ids() {
    let owner = PrivateKey::new_key();
    let recipient = PrivateKey::new_key().public_key();
    let available = vec![(false, utxo(30, owner.public_key())), (false, utxo(70, owner.public_key()))];
    let tx = build_payment_with(&available, &owner, recipient.clone(), 95, 5, owner.public_key(), (7, 8)).unwrap();
    assert_eq!(tx.inputs.len(), 2);
    assert_eq!(tx.outputs.len(), 1);
    assert_eq!(tx.outputs[0].value, 95);
    assert_eq!(tx.outputs[0].unique_id, 7);
    assert_eq!(tx.outputs[0].pubkey, recipient);
}

#[test]
fn selection_stops_once_covered() {
    let owner = PrivateKey::new_key();
    let recipient = PrivateKey::new_key().public_key();
    let available = vec![
        (false, utxo(60, owner.public_key())),
        (false, utxo(60, owner.public_key())),
        (false, utxo(60, owner.public_key())),
    ];
    let tx = build_payment_with(&available, &owner, recipient, 100, 0, owner.public_key(), (1, 2)).unwrap();
    assert_eq!(tx.inputs.len(), 2);
    assert_eq!(tx.outputs[1].value, 20);
    assert_eq!(tx.outputs[1].unique_id, 2);
}

#[test]
fn inputs_name_the_spent_outputs_and_carry_valid_signatures() {
    let owner = PrivateKey::new_key();
    let recipient = PrivateKey::new_key().public_key();
    let spent = utxo(40, owner.public_key());
    let available = vec![(false, spent.copy())];
    let tx = build_payment_with(&available, &owner, recipient, 40, 0, owner.public_key(), (1, 2)).unwrap();
    assert_eq!(tx.inputs[0].prev_transaction_output_hash, spent.hash());
    assert!(tx.inputs[0].signature.verify(&spent.hash(), &owner.public_key()));
}
