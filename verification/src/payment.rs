//! Building a signed payment from a wallet's unspent outputs.
use vstd::prelude::*;
use crate::text::{decimal, push_decimal};
use crate::chain::{Transaction, TransactionInput, TransactionOutput, OutputView, InputView, output_hash, inputs_view, outputs_view};
use crate::crypto::{PrivateKey, PublicKey, Signature, ecdsa_signature, message_of};

verus! {

/// Why a payment could not be built.
#[derive(Clone, Copy, Debug, PartialEq, Eq, Structural)]
pub enum PaymentError {
    /// The unflagged outputs add up to `available`, short of `needed`.
    InsufficientFunds { available: u64, needed: u64 },
}

/// A wallet's outputs, each with whether it is already spoken for.
pub open spec fn available_view(s: Seq<(bool, TransactionOutput)>) -> Seq<(bool, OutputView)> {
    s.map_values(|e: (bool, TransactionOutput)| (e.0, e.1@))
}

/// The positions the greedy selection takes among the first `n`
/// outputs: each unflagged output, in order, until `needed` is covered.
pub open spec fn selected(avail: Seq<(bool, OutputView)>, needed: nat, n: int) -> Seq<int>
    decreases n,
{
    if n <= 0 {
        Seq::empty()
    } else {
        let prev = selected(avail, needed, n - 1);
        if selected_sum(avail, prev) >= needed || avail[n - 1].0 {
            prev
        } else {
            prev.push(n - 1)
        }
    }
}

/// The sum of the values at positions `ps`.
pub open spec fn selected_sum(avail: Seq<(bool, OutputView)>, ps: Seq<int>) -> nat
    decreases ps.len(),
{
    if ps.len() == 0 {
        0
    } else {
        selected_sum(avail, ps.drop_last()) + avail[ps.last()].1.value as nat
    }
}

/// The input spending the output `o`, signed by `key`.
pub open spec fn signed_input(o: OutputView, key: Seq<u8>) -> InputView {
    InputView {
        prev_transaction_output_hash: output_hash(o),
        signature: ecdsa_signature(key, message_of(output_hash(o))),
    }
}

/// The outputs of a payment of `amount` to `recipient` drawing `total`
/// with `needed` required: the payment, then any change to `change`.
pub open spec fn payment_outputs(amount: u64, total: nat, needed: nat, recipient: Seq<u8>, change: Seq<u8>, ids: (u128, u128)) -> Seq<OutputView> {
    let pay = OutputView { value: amount, unique_id: ids.0, pubkey: recipient };
    if total > needed {
        seq![pay, OutputView { value: (total - needed) as u64, unique_id: ids.1, pubkey: change }]
    } else {
        seq![pay]
    }
}

/// Builds a payment of `amount` plus `fee` from `available_utxos`: the
/// unflagged outputs are taken greedily in order until the sum covers
/// both, each spent by an input signed with `signing_key`; the
/// transaction pays `amount` to `recipient` under `ids.0`, and any excess
/// back to `change_pubkey` under `ids.1`.
pub fn build_payment_with(
    available_utxos: &[(bool, TransactionOutput)],
    signing_key: &PrivateKey,
    recipient: PublicKey,
    amount: u64,
    fee: u64,
    change_pubkey: PublicKey,
    ids: (u128, u128),
) -> (r: Result<Transaction, PaymentError>)
    requires
        amount + fee <= u64::MAX,
        selected_sum(available_view(available_utxos@), selected(available_view(available_utxos@), (amount + fee) as nat, available_utxos@.len() as int)) <= u64::MAX,
    ensures
        ({
            let avail = available_view(available_utxos@);
            let needed = (amount + fee) as nat;
            let ps = selected(avail, needed, avail.len() as int);
            let total = selected_sum(avail, ps);
            &&& r is Err <==> total < needed
            &&& r matches Err(e) ==> e == PaymentError::InsufficientFunds { available: total as u64, needed: needed as u64 }
            &&& r matches Ok(t) ==> {
                &&& t@.inputs == ps.map_values(|p: int| signed_input(avail[p].1, signing_key@))
                &&& t@.outputs == payment_outputs(amount, total, needed, recipient@, change_pubkey@, ids)
            }
        }),
{
    let ghost avail = available_view(available_utxos@);
    let total_needed = amount + fee;
    let ghost needed = total_needed as nat;
    let ghost all = selected(avail, needed, avail.len() as int);
    let mut inputs: Vec<TransactionInput> = Vec::new();
    let mut input_sum: u64 = 0;
    let mut i: usize = 0;
    proof { lemma_selected_sum_mono(avail, needed, 0, avail.len() as int); }
    while i < available_utxos.len() && input_sum < total_needed
        invariant
            i <= available_utxos@.len(),
            avail == available_view(available_utxos@),
            avail.len() == available_utxos@.len(),
            needed == total_needed as nat,
            all == selected(avail, needed, avail.len() as int),
            selected_sum(avail, all) <= u64::MAX,
            input_sum == selected_sum(avail, selected(avail, needed, i as int)),
            inputs_view(inputs@) == selected(avail, needed, i as int).map_values(|p: int| signed_input(avail[p].1, signing_key@)),
        decreases available_utxos.len() - i,
    {
        let ghost prev = selected(avail, needed, i as int);
        let marked = available_utxos[i].0;
        let utxo = &available_utxos[i].1;
        assert(avail[i as int] == (marked, utxo@));
        if !marked {
            let hash = utxo.hash();
            let signature = Signature::sign_output(&hash, signing_key);
            let input = TransactionInput { prev_transaction_output_hash: hash, signature };
            let ghost before = inputs@;
            inputs.push(input);
            proof {
                lemma_selected_sum_mono(avail, needed, i + 1, avail.len() as int);
                assert(selected(avail, needed, i + 1) == prev.push(i as int));
                assert(prev.push(i as int).drop_last() =~= prev);
                assert(selected_sum(avail, prev.push(i as int)) == input_sum + utxo.value);
                assert(inputs_view(inputs@) =~= inputs_view(before).push(input@));
                assert(input@ == signed_input(avail[i as int].1, signing_key@));
                assert(inputs_view(inputs@) =~= prev.push(i as int).map_values(|p: int| signed_input(avail[p].1, signing_key@)));
            }
            input_sum = input_sum + utxo.value;
        }
        i = i + 1;
    }
    proof {
        if input_sum >= total_needed {
            lemma_selected_stops(avail, needed, i as int, avail.len() as int);
        }
    }
    assert(selected(avail, needed, i as int) == all);
    if input_sum < total_needed {
        return Err(PaymentError::InsufficientFunds { available: input_sum, needed: total_needed });
    }
    let mut outputs: Vec<TransactionOutput> = Vec::new();
    outputs.push(TransactionOutput { value: amount, unique_id: ids.0, pubkey: recipient });
    if input_sum > total_needed {
        outputs.push(TransactionOutput { value: input_sum - total_needed, unique_id: ids.1, pubkey: change_pubkey });
    }
    assert(outputs_view(outputs@) =~= payment_outputs(amount, input_sum as nat, needed, recipient@, change_pubkey@, ids));
    Ok(Transaction { inputs, outputs })
}

/// Builds a payment as `build_payment_with` does, with fresh random ids
/// for its outputs.
pub fn build_payment(
    available_utxos: &[(bool, TransactionOutput)],
    signing_key: &PrivateKey,
    recipient: PublicKey,
    amount: u64,
    fee: u64,
    change_pubkey: PublicKey,
) -> (r: Result<Transaction, PaymentError>)
    requires
        amount + fee <= u64::MAX,
        selected_sum(available_view(available_utxos@), selected(available_view(available_utxos@), (amount + fee) as nat, available_utxos@.len() as int)) <= u64::MAX,
    ensures
        ({
            let avail = available_view(available_utxos@);
            let needed = (amount + fee) as nat;
            let ps = selected(avail, needed, avail.len() as int);
            let total = selected_sum(avail, ps);
            &&& r is Err <==> total < needed
            &&& r matches Err(e) ==> e == PaymentError::InsufficientFunds { available: total as u64, needed: needed as u64 }
            &&& r matches Ok(t) ==> {
                &&& t@.inputs == ps.map_values(|p: int| signed_input(avail[p].1, signing_key@))
                &&& exists|ids: (u128, u128)| t@.outputs == #[trigger] payment_outputs(amount, total, needed, recipient@, change_pubkey@, ids)
            }
        }),
{
    let ids = (crate::crypto::new_uuid(), crate::crypto::new_uuid());
    build_payment_with(available_utxos, signing_key, recipient, amount, fee, change_pubkey, ids)
}

/// The selection only grows, and so does its sum.
pub proof fn lemma_selected_sum_mono(avail: Seq<(bool, OutputView)>, needed: nat, a: int, b: int)
    requires
        0 <= a <= b,
    ensures
        selected_sum(avail, selected(avail, needed, a)) <= selected_sum(avail, selected(avail, needed, b)),
    decreases b - a,
{
    if a < b {
        lemma_selected_sum_mono(avail, needed, a, b - 1);
        let prev = selected(avail, needed, b - 1);
        if !(selected_sum(avail, prev) >= needed || avail[b - 1].0) {
            assert(prev.push(b - 1).drop_last() =~= prev);
        }
    }
}

/// Once the selection covers what is needed, it stops growing.
pub proof fn lemma_selected_stops(avail: Seq<(bool, OutputView)>, needed: nat, a: int, b: int)
    requires
        0 <= a <= b,
        selected_sum(avail, selected(avail, needed, a)) >= needed,
    ensures
        selected(avail, needed, b) == selected(avail, needed, a),
    decreases b - a,
{
    if a < b {
        lemma_selected_stops(avail, needed, a, b - 1);
    }
}


impl PaymentError {
    /// The error's text.
    pub fn message(&self) -> (m: String)
        ensures
            m@ == (match *self {
                PaymentError::InsufficientFunds { available, needed } => "insufficient funds: have "@
                    + decimal(available as nat) + ", need "@ + decimal(needed as nat),
            }),
    {
        match self {
            PaymentError::InsufficientFunds { available, needed } => {
                let mut m = "insufficient funds: have ".to_owned();
                push_decimal(&mut m, *available);
                m.append(", need ");
                push_decimal(&mut m, *needed);
                m
            },
        }
    }
}

} // verus!
