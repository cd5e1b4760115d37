//! The chain state of a node: blocks, the set of unspent outputs (each
//! flagged while a pending transaction spends it), the current target,
//! and the mempool of pending transactions.
use vstd::prelude::*;
use crate::chain::{
    Block, BlockHeader, BlockView, Transaction, TransactionOutput, TxView, OutputView, InputView,
    txs_view, output_hash,
};
use crate::time::{Timestamp, NANOS_PER_SECOND};
use crate::u256::U256;

verus! {

/// Why the chain refused a transaction or a block.
#[derive(Clone, Copy, Debug, PartialEq, Eq, Structural)]
pub enum BtcError {
    InvalidTransaction,
    InvalidBlock,
    InvalidMerkleRoot,
    InvalidSignature,
}

/// The unspent outputs as a map from output hash to (flag, output).
pub type UtxoMap = Map<crate::hash::Hash, (bool, OutputView)>;

/// An unspent-output list read as a map.
pub open spec fn utxo_map(s: Seq<(crate::hash::Hash, bool, TransactionOutput)>) -> UtxoMap {
    Map::new(
        |h: crate::hash::Hash| exists|i: int| 0 <= i < s.len() && (#[trigger] s[i]).0 == h,
        |h: crate::hash::Hash| {
            let i = choose|i: int| 0 <= i < s.len() && (#[trigger] s[i]).0 == h;
            (s[i].1, s[i].2@)
        },
    )
}

/// No output hash occurs twice in the list.
pub open spec fn distinct_keys(s: Seq<(crate::hash::Hash, bool, TransactionOutput)>) -> bool {
    forall|i: int, j: int| 0 <= i < j < s.len() ==> (#[trigger] s[i]).0 != (#[trigger] s[j]).0
}

/// What a `Blockchain` holds.
pub struct ChainView {
    pub utxos: UtxoMap,
    pub target: U256,
    pub blocks: Seq<BlockView>,
    pub mempool: Seq<(Timestamp, TxView)>,
}

/// The chain state.
#[derive(Debug)]
pub struct Blockchain {
    utxos: Vec<(crate::hash::Hash, bool, TransactionOutput)>,
    target: U256,
    blocks: Vec<Block>,
    mempool: Vec<(Timestamp, Transaction)>,
}

/// A mempool read through the transactions' views.
pub open spec fn mempool_view(s: Seq<(Timestamp, Transaction)>) -> Seq<(Timestamp, TxView)> {
    s.map_values(|e: (Timestamp, Transaction)| (e.0, e.1@))
}

/// A list of blocks read through their views.
pub open spec fn blocks_view(s: Seq<Block>) -> Seq<BlockView> {
    s.map_values(|b: Block| b@)
}

impl View for Blockchain {
    type V = ChainView;

    closed spec fn view(&self) -> ChainView {
        ChainView {
            utxos: utxo_map(self.utxos@),
            target: self.target,
            blocks: blocks_view(self.blocks@),
            mempool: mempool_view(self.mempool@),
        }
    }
}

/// The flag of `h` set to `flag`, where `h` is unspent.
pub open spec fn set_mark(m: UtxoMap, h: crate::hash::Hash, flag: bool) -> UtxoMap {
    if m.contains_key(h) {
        m.insert(h, (flag, m[h].1))
    } else {
        m
    }
}

/// The flags of all of `hs` set to `flag`, in order.
pub open spec fn set_marks(m: UtxoMap, hs: Seq<crate::hash::Hash>, flag: bool) -> UtxoMap
    decreases hs.len(),
{
    if hs.len() == 0 {
        m
    } else {
        set_mark(set_marks(m, hs.drop_last(), flag), hs.last(), flag)
    }
}

/// The output hashes a transaction spends, in order.
pub open spec fn spent_hashes(t: TxView) -> Seq<crate::hash::Hash> {
    t.inputs.map_values(|i: InputView| i.prev_transaction_output_hash)
}

/// The sum of the values of the outputs that `ins` spend.
pub open spec fn input_sum(m: UtxoMap, ins: Seq<InputView>) -> nat
    decreases ins.len(),
{
    if ins.len() == 0 {
        0
    } else {
        input_sum(m, ins.drop_last()) + m[ins.last().prev_transaction_output_hash].1.value as nat
    }
}

/// The sum of the values of `outs`.
pub open spec fn output_sum(outs: Seq<OutputView>) -> nat
    decreases outs.len(),
{
    if outs.len() == 0 {
        0
    } else {
        output_sum(outs.drop_last()) + outs.last().value as nat
    }
}

/// Every output a transaction spends is unspent, and both sums fit in a
/// `u64` (past it, summing overflows).
pub open spec fn fee_fits(m: UtxoMap, t: TxView) -> bool {
    &&& forall|i: int| 0 <= i < t.inputs.len() ==> m.contains_key(#[trigger] t.inputs[i].prev_transaction_output_hash)
    &&& input_sum(m, t.inputs) <= u64::MAX
    &&& output_sum(t.outputs) <= u64::MAX
}

/// A transaction's fee: what its inputs bring beyond its outputs; an
/// error where they bring less.
pub open spec fn fee_of(m: UtxoMap, t: TxView) -> Result<u64, BtcError> {
    if input_sum(m, t.inputs) < output_sum(t.outputs) {
        Err(BtcError::InvalidTransaction)
    } else {
        Ok((input_sum(m, t.inputs) - output_sum(t.outputs)) as u64)
    }
}

/// Whether a transaction spends `h`.
pub open spec fn spends(t: TxView, h: crate::hash::Hash) -> bool {
    exists|j: int| 0 <= j < t.inputs.len() && (#[trigger] t.inputs[j]).prev_transaction_output_hash == h
}

/// The first mempool position whose transaction spends `h`.
pub open spec fn first_spender(mp: Seq<(Timestamp, TxView)>, h: crate::hash::Hash) -> Option<int>
    decreases mp.len(),
{
    if mp.len() == 0 {
        None
    } else {
        match first_spender(mp.drop_last(), h) {
            Some(i) => Some(i),
            None => if spends(mp.last().1, h) { Some(mp.len() - 1) } else { None },
        }
    }
}

/// Whether a mempool entry is older than the mempool keeps at `now`.
pub open spec fn is_stale(e: (Timestamp, TxView), now: Timestamp) -> bool {
    now.nanos - e.0.nanos > crate::MAX_MEMPOOL_TRANSACTION_AGE * NANOS_PER_SECOND
}

/// The mempool entries still fresh at `now`, in order.
pub open spec fn fresh_entries(mp: Seq<(Timestamp, TxView)>, now: Timestamp) -> Seq<(Timestamp, TxView)>
    decreases mp.len(),
{
    if mp.len() == 0 {
        Seq::empty()
    } else if is_stale(mp.last(), now) {
        fresh_entries(mp.drop_last(), now)
    } else {
        fresh_entries(mp.drop_last(), now).push(mp.last())
    }
}

/// The output hashes spent by the stale mempool entries, in order.
pub open spec fn stale_inputs(mp: Seq<(Timestamp, TxView)>, now: Timestamp) -> Seq<crate::hash::Hash>
    decreases mp.len(),
{
    if mp.len() == 0 {
        Seq::empty()
    } else if is_stale(mp.last(), now) {
        stale_inputs(mp.drop_last(), now) + spent_hashes(mp.last().1)
    } else {
        stale_inputs(mp.drop_last(), now)
    }
}

impl ChainView {
    /// The state after dropping the mempool entries stale at `now` and
    /// clearing the flags of what they spent.
    pub open spec fn cleaned(self, now: Timestamp) -> ChainView {
        ChainView {
            utxos: set_marks(self.utxos, stale_inputs(self.mempool, now), false),
            mempool: fresh_entries(self.mempool, now),
            ..self
        }
    }
}

/// Setting flags keeps which outputs are unspent and their values.
pub proof fn lemma_set_marks_keeps(m: UtxoMap, hs: Seq<crate::hash::Hash>, flag: bool)
    ensures
        set_marks(m, hs, flag).dom() == m.dom(),
        forall|h: crate::hash::Hash| #[trigger] set_marks(m, hs, flag).contains_key(h) ==> set_marks(m, hs, flag)[h].1 == m[h].1,
    decreases hs.len(),
{
    if hs.len() > 0 {
        lemma_set_marks_keeps(m, hs.drop_last(), flag);
        let p = set_marks(m, hs.drop_last(), flag);
        assert(set_mark(p, hs.last(), flag).dom() =~= p.dom());
    }
}

/// Sums over inputs depend only on the values of the unspent outputs.
pub proof fn lemma_input_sum_same(m1: UtxoMap, m2: UtxoMap, ins: Seq<InputView>)
    requires
        m1.dom() == m2.dom(),
        forall|h: crate::hash::Hash| #[trigger] m1.contains_key(h) ==> m1[h].1 == m2[h].1,
        forall|i: int| 0 <= i < ins.len() ==> m1.contains_key(#[trigger] ins[i].prev_transaction_output_hash),
    ensures
        input_sum(m1, ins) == input_sum(m2, ins),
    decreases ins.len(),
{
    if ins.len() > 0 {
        lemma_input_sum_same(m1, m2, ins.drop_last());
        assert(m1.contains_key(ins[ins.len() - 1].prev_transaction_output_hash));
    }
}


/// Whether the outputs `ins` spend are all unspent and pairwise distinct.
pub open spec fn inputs_ok(m: UtxoMap, ins: Seq<InputView>) -> bool {
    &&& forall|i: int| 0 <= i < ins.len() ==> m.contains_key(#[trigger] ins[i].prev_transaction_output_hash)
    &&& forall|i: int, j: int| 0 <= i < j < ins.len() ==>
        (#[trigger] ins[i]).prev_transaction_output_hash != (#[trigger] ins[j]).prev_transaction_output_hash
}

/// The scan of a new transaction's inputs against the mempool: a flagged
/// input spent by a pending transaction with at least the new fee fails
/// the scan (as does a pending transaction whose fee is an error); one
/// spent by a pending transaction with a lower fee marks that position as
/// conflicting; a flagged input nobody pending spends has its flag
/// cleared.  Yields the flags, the conflicting positions, and whether the
/// scan failed.
pub open spec fn conflict_scan(m: UtxoMap, mp: Seq<(Timestamp, TxView)>, ins: Seq<InputView>, new_fee: u64) -> (UtxoMap, Set<int>, bool)
    decreases ins.len(),
{
    if ins.len() == 0 {
        (m, Set::empty(), false)
    } else {
        let prev = conflict_scan(m, mp, ins.drop_last(), new_fee);
        if prev.2 {
            prev
        } else {
            let h = ins.last().prev_transaction_output_hash;
            if prev.0.contains_key(h) && prev.0[h].0 {
                match first_spender(mp, h) {
                    Some(idx) => match fee_of(prev.0, mp[idx].1) {
                        Ok(old_fee) => if new_fee <= old_fee {
                            (prev.0, prev.1, true)
                        } else {
                            (prev.0, prev.1.insert(idx), false)
                        },
                        Err(_) => (prev.0, prev.1, true),
                    },
                    None => (set_mark(prev.0, h, false), prev.1, false),
                }
            } else {
                prev
            }
        }
    }
}

/// The mempool without the entries at positions in `c`, in order.
pub open spec fn without_positions(mp: Seq<(Timestamp, TxView)>, c: Set<int>) -> Seq<(Timestamp, TxView)>
    decreases mp.len(),
{
    if mp.len() == 0 {
        Seq::empty()
    } else if c.contains(mp.len() - 1) {
        without_positions(mp.drop_last(), c)
    } else {
        without_positions(mp.drop_last(), c).push(mp.last())
    }
}

/// The output hashes spent by the entries at positions in `c`, in order.
pub open spec fn inputs_at_positions(mp: Seq<(Timestamp, TxView)>, c: Set<int>) -> Seq<crate::hash::Hash>
    decreases mp.len(),
{
    if mp.len() == 0 {
        Seq::empty()
    } else if c.contains(mp.len() - 1) {
        inputs_at_positions(mp.drop_last(), c) + spent_hashes(mp.last().1)
    } else {
        inputs_at_positions(mp.drop_last(), c)
    }
}

/// The key the mempool is ordered by: a transaction's fee, or zero where
/// its fee is an error.
pub open spec fn fee_key(m: UtxoMap, t: TxView) -> u64 {
    match fee_of(m, t) {
        Ok(f) => f,
        Err(_) => 0,
    }
}

/// `e` placed into a list ordered by decreasing fee, after every entry
/// whose fee is at least its own.
pub open spec fn insert_by_fee(m: UtxoMap, sorted: Seq<(Timestamp, TxView)>, e: (Timestamp, TxView)) -> Seq<(Timestamp, TxView)>
    decreases sorted.len(),
{
    if sorted.len() == 0 {
        seq![e]
    } else if fee_key(m, sorted.last().1) >= fee_key(m, e.1) {
        sorted.push(e)
    } else {
        insert_by_fee(m, sorted.drop_last(), e).push(sorted.last())
    }
}

/// A stable sort by decreasing fee.
pub open spec fn sort_by_fee(m: UtxoMap, s: Seq<(Timestamp, TxView)>) -> Seq<(Timestamp, TxView)>
    decreases s.len(),
{
    if s.len() == 0 {
        Seq::empty()
    } else {
        insert_by_fee(m, sort_by_fee(m, s.drop_last()), s.last())
    }
}

/// The fee read the conflict scan of `ins` makes at input `i` can be
/// computed without a panic: where the scan has not failed before `i`
/// and the output `i` spends is flagged and spent by a pending entry, the
/// fee of the first such entry fits (see `fee_fits`).
pub open spec fn scan_read_fits(m: UtxoMap, mp: Seq<(Timestamp, TxView)>, ins: Seq<InputView>, fee: u64, i: int) -> bool {
    let prev = conflict_scan(m, mp, ins.take(i), fee);
    let h = ins[i].prev_transaction_output_hash;
    !prev.2 && prev.0.contains_key(h) && prev.0[h].0 && first_spender(mp, h) is Some
        ==> fee_fits(m, mp[first_spender(mp, h)->Some_0].1)
}

/// Every fee read the conflict scan of `ins` makes fits.
pub open spec fn scan_fees_fit(m: UtxoMap, mp: Seq<(Timestamp, TxView)>, ins: Seq<InputView>, fee: u64) -> bool {
    forall|i: int| 0 <= i < ins.len() ==> #[trigger] scan_read_fits(m, mp, ins, fee, i)
}

/// Every input's signature is valid for the unspent output it spends.
pub open spec fn signatures_ok(m: UtxoMap, ins: Seq<InputView>) -> bool {
    forall|i: int| 0 <= i < ins.len() ==> signature_valid(#[trigger] ins[i], m[ins[i].prev_transaction_output_hash].1)
}

/// Admitting `t` to the mempool at `now`: the state it leaves and the
/// answer.  Stale entries go first; then `t`'s inputs must be unspent and
/// distinct, each signed by the key of the output it spends
/// (`InvalidSignature` otherwise), and bring at least its outputs; then
/// the conflict scan runs;
/// the conflicting entries leave (their inputs unflagged), `t`'s inputs
/// are flagged, `t` joins, and the mempool is sorted by decreasing fee.
pub open spec fn admission(c: ChainView, t: TxView, now: Timestamp) -> (ChainView, Result<(), BtcError>) {
    let s1 = c.cleaned(now);
    if !inputs_ok(s1.utxos, t.inputs) {
        (s1, Err(BtcError::InvalidTransaction))
    } else if !signatures_ok(s1.utxos, t.inputs) {
        (s1, Err(BtcError::InvalidSignature))
    } else {
        match fee_of(s1.utxos, t) {
            Err(e) => (s1, Err(e)),
            Ok(new_fee) => {
                let scan = conflict_scan(s1.utxos, s1.mempool, t.inputs, new_fee);
                if scan.2 {
                    (ChainView { utxos: scan.0, ..s1 }, Err(BtcError::InvalidTransaction))
                } else {
                    let u2 = set_marks(scan.0, inputs_at_positions(s1.mempool, scan.1), false);
                    let u3 = set_marks(u2, spent_hashes(t), true);
                    let mp = without_positions(s1.mempool, scan.1).push((now, t));
                    (ChainView { utxos: u3, mempool: sort_by_fee(u3, mp), ..s1 }, Ok(()))
                }
            },
        }
    }
}

/// Whether admitting `t` to `c` at `now` runs without a panic.  After
/// the stale entries go: `t`'s own fee fits where its inputs are unspent
/// and distinct; where `t` is also signed and its fee is no error, every
/// fee the conflict scan reads fits; and where the scan passes and the
/// mempool then holds two or more entries (so that sorting it compares
/// their fees), the fee of each of them fits.
pub open spec fn admission_safe(c: ChainView, t: TxView, now: Timestamp) -> bool {
    let s1 = c.cleaned(now);
    &&& inputs_ok(s1.utxos, t.inputs) ==> fee_fits(s1.utxos, t)
    &&& (inputs_ok(s1.utxos, t.inputs) && signatures_ok(s1.utxos, t.inputs) && fee_of(s1.utxos, t) is Ok) ==> {
            let fee = fee_of(s1.utxos, t)->Ok_0;
            let scan = conflict_scan(s1.utxos, s1.mempool, t.inputs, fee);
            &&& scan_fees_fit(s1.utxos, s1.mempool, t.inputs, fee)
            &&& (!scan.2 && without_positions(s1.mempool, scan.1).len() >= 1) ==>
                    forall|k: int| 0 <= k < without_positions(s1.mempool, scan.1).len()
                        ==> fee_fits(s1.utxos, (#[trigger] without_positions(s1.mempool, scan.1)[k]).1)
        }
}

/// Every pending transaction's fee can be computed without a panic.
pub open spec fn mempool_fees_fit(c: ChainView) -> bool {
    forall|k: int| 0 <= k < c.mempool.len() ==> fee_fits(c.utxos, (#[trigger] c.mempool[k]).1)
}

/// Whether `a - b > d`, without overflow.
fn exceeds_by(a: i128, b: i128, d: i128) -> (r: bool)
    requires
        d >= 0,
    ensures
        r == (a - b > d),
{
    if a >= 0 && b < 0 {
        a > d + b
    } else if a < 0 && b >= 0 {
        false
    } else {
        a - b > d
    }
}


/// The positions a list of indices names.
pub open spec fn positions_set(v: Seq<usize>) -> Set<int> {
    Set::new(|k: int| exists|j: int| 0 <= j < v.len() && (#[trigger] v[j]) as int == k)
}

/// The conflict scan keeps which outputs are unspent and their values.
pub proof fn lemma_scan_keeps(m: UtxoMap, mp: Seq<(Timestamp, TxView)>, ins: Seq<InputView>, fee: u64)
    ensures
        conflict_scan(m, mp, ins, fee).0.dom() == m.dom(),
        forall|h: crate::hash::Hash| #[trigger] conflict_scan(m, mp, ins, fee).0.contains_key(h)
            ==> conflict_scan(m, mp, ins, fee).0[h].1 == m[h].1,
    decreases ins.len(),
{
    if ins.len() > 0 {
        lemma_scan_keeps(m, mp, ins.drop_last(), fee);
        let p = conflict_scan(m, mp, ins.drop_last(), fee).0;
        let h = ins.last().prev_transaction_output_hash;
        assert(set_mark(p, h, false).dom() =~= p.dom());
    }
}

/// Once the scan fails, later inputs change nothing.
pub proof fn lemma_scan_failed_extends(m: UtxoMap, mp: Seq<(Timestamp, TxView)>, ins: Seq<InputView>, fee: u64, n: int)
    requires
        0 <= n <= ins.len(),
        conflict_scan(m, mp, ins.take(n), fee).2,
    ensures
        conflict_scan(m, mp, ins, fee) == conflict_scan(m, mp, ins.take(n), fee),
    decreases ins.len(),
{
    if n == ins.len() {
        assert(ins.take(n) =~= ins);
    } else {
        assert(ins.drop_last().take(n) =~= ins.take(n));
        lemma_scan_failed_extends(m, mp, ins.drop_last(), fee, n);
    }
}

/// Two flag maps with the same unspent outputs and values give the same
/// fees.
pub proof fn lemma_fee_transfer(m1: UtxoMap, m2: UtxoMap, t: TxView)
    requires
        m1.dom() == m2.dom(),
        forall|h: crate::hash::Hash| #[trigger] m1.contains_key(h) ==> m1[h].1 == m2[h].1,
    ensures
        fee_fits(m1, t) == fee_fits(m2, t),
        fee_fits(m1, t) ==> fee_of(m1, t) == fee_of(m2, t),
{
    if forall|i: int| 0 <= i < t.inputs.len() ==> m1.contains_key(#[trigger] t.inputs[i].prev_transaction_output_hash) {
        lemma_input_sum_same(m1, m2, t.inputs);
    }
    if forall|i: int| 0 <= i < t.inputs.len() ==> m2.contains_key(#[trigger] t.inputs[i].prev_transaction_output_hash) {
        assert forall|i: int| 0 <= i < t.inputs.len() implies m1.contains_key(#[trigger] t.inputs[i].prev_transaction_output_hash) by {
            assert(m2.contains_key(t.inputs[i].prev_transaction_output_hash));
        }
        lemma_input_sum_same(m1, m2, t.inputs);
    }
}

/// The fresh entries are entries of the mempool.
pub proof fn lemma_fresh_from(mp: Seq<(Timestamp, TxView)>, now: Timestamp)
    ensures
        forall|k: int| 0 <= k < fresh_entries(mp, now).len() ==> mp.contains(#[trigger] fresh_entries(mp, now)[k]),
    decreases mp.len(),
{
    if mp.len() > 0 {
        lemma_fresh_from(mp.drop_last(), now);
        let f = fresh_entries(mp, now);
        let p = fresh_entries(mp.drop_last(), now);
        assert forall|k: int| 0 <= k < f.len() implies mp.contains(#[trigger] f[k]) by {
            if k < p.len() {
                assert(f[k] == p[k]);
                let j = choose|j: int| 0 <= j < mp.drop_last().len() && mp.drop_last()[j] == p[k];
                assert(mp[j] == p[k]);
            } else {
                assert(f[k] == mp[mp.len() - 1]);
            }
        }
    }
}

/// The entries kept by `without_positions` are entries of the mempool.
pub proof fn lemma_without_from(mp: Seq<(Timestamp, TxView)>, c: Set<int>)
    ensures
        forall|k: int| 0 <= k < without_positions(mp, c).len() ==> mp.contains(#[trigger] without_positions(mp, c)[k]),
    decreases mp.len(),
{
    if mp.len() > 0 {
        lemma_without_from(mp.drop_last(), c);
        let f = without_positions(mp, c);
        let p = without_positions(mp.drop_last(), c);
        assert forall|k: int| 0 <= k < f.len() implies mp.contains(#[trigger] f[k]) by {
            if k < p.len() {
                assert(f[k] == p[k]);
                let j = choose|j: int| 0 <= j < mp.drop_last().len() && mp.drop_last()[j] == p[k];
                assert(mp[j] == p[k]);
            } else {
                assert(f[k] == mp[mp.len() - 1]);
            }
        }
    }
}

/// Whether `x` occurs in `v`.
fn contains_index(v: &Vec<usize>, x: usize) -> (b: bool)
    ensures
        b == positions_set(v@).contains(x as int),
{
    let mut i: usize = 0;
    while i < v.len()
        invariant
            i <= v@.len(),
            forall|j: int| 0 <= j < i ==> (#[trigger] v@[j]) != x,
        decreases v.len() - i,
    {
        if v[i] == x {
            assert(v@[i as int] as int == x as int);
            return true;
        }
        i = i + 1;
    }
    false
}


/// Moving the insertion point of `e` one place forward past an entry with
/// a lower fee.
pub proof fn lemma_insert_step(m: UtxoMap, s: Seq<(Timestamp, TxView)>, e: (Timestamp, TxView), p: int)
    requires
        0 < p <= s.len(),
        fee_key(m, s[p - 1].1) < fee_key(m, e.1),
    ensures
        insert_by_fee(m, s.take(p), e) + s.skip(p) == insert_by_fee(m, s.take(p - 1), e) + s.skip(p - 1),
{
    let t = s.take(p);
    assert(t.drop_last() =~= s.take(p - 1));
    assert(t.last() == s[p - 1]);
    let x = insert_by_fee(m, s.take(p - 1), e);
    assert(insert_by_fee(m, t, e) == x.push(s[p - 1]));
    assert(x.push(s[p - 1]) + s.skip(p) =~= x + s.skip(p - 1));
}

/// Where the entry before the insertion point has at least `e`'s fee (or
/// there is none), `e` goes exactly there.
pub proof fn lemma_insert_exit(m: UtxoMap, s: Seq<(Timestamp, TxView)>, e: (Timestamp, TxView), p: int)
    requires
        0 <= p <= s.len(),
        p == 0 || fee_key(m, s[p - 1].1) >= fee_key(m, e.1),
    ensures
        insert_by_fee(m, s.take(p), e) + s.skip(p) == s.insert(p, e),
{
    if p == 0 {
        assert(s.take(0) =~= Seq::<(Timestamp, TxView)>::empty());
        assert(seq![e] + s.skip(0) =~= s.insert(0, e));
    } else {
        let t = s.take(p);
        assert(t.last() == s[p - 1]);
        assert(insert_by_fee(m, t, e) == t.push(e));
        assert(t.push(e) + s.skip(p) =~= s.insert(p, e));
    }
}


/// The transactions after the coinbase (none where there is none).
pub open spec fn rest_txs(txs: Seq<TxView>) -> Seq<TxView> {
    if txs.len() == 0 { txs } else { txs.drop_first() }
}

/// Whether the signature of `i` is valid for the output it spends.
pub open spec fn signature_valid(i: InputView, o: OutputView) -> bool {
    crate::crypto::ecdsa_verifies(o.pubkey, crate::crypto::message_of(output_hash(o)), i.signature)
}

/// Every prefix of `ins` that spends only unspent outputs sums to at most
/// `u64::MAX` (past it, the running sums overflow).
pub open spec fn prefix_sums_fit(m: UtxoMap, ins: Seq<InputView>) -> bool {
    forall|n: int| 0 <= n <= ins.len()
        && (forall|i: int| 0 <= i < n ==> m.contains_key(#[trigger] ins[i].prev_transaction_output_hash))
        ==> input_sum(m, #[trigger] ins.take(n)) <= u64::MAX
}

/// An error in the fees of a prefix is the error of the whole.
pub proof fn lemma_fees_err_extends(m: UtxoMap, txs: Seq<TxView>, n: int)
    requires
        0 <= n <= txs.len(),
        miner_fees_of(m, txs.take(n)) is Err,
    ensures
        miner_fees_of(m, txs) == miner_fees_of(m, txs.take(n)),
    decreases txs.len(),
{
    if n == txs.len() {
        assert(txs.take(n) =~= txs);
    } else {
        assert(txs.drop_last().take(n) =~= txs.take(n));
        lemma_fees_err_extends(m, txs.drop_last(), n);
    }
}

/// The fees of a block's non-coinbase transactions (`txs`), in order: an
/// error at the first that spends a missing output or brings less than it
/// pays out.
pub open spec fn miner_fees_of(m: UtxoMap, txs: Seq<TxView>) -> Result<nat, BtcError>
    decreases txs.len(),
{
    if txs.len() == 0 {
        Ok(0)
    } else {
        match miner_fees_of(m, txs.drop_last()) {
            Err(e) => Err(e),
            Ok(total) => {
                let t = txs.last();
                if !(forall|i: int| 0 <= i < t.inputs.len() ==> m.contains_key(#[trigger] t.inputs[i].prev_transaction_output_hash)) {
                    Err(BtcError::InvalidTransaction)
                } else if input_sum(m, t.inputs) < output_sum(t.outputs) {
                    Err(BtcError::InvalidTransaction)
                } else {
                    Ok((total + (input_sum(m, t.inputs) - output_sum(t.outputs))) as nat)
                }
            },
        }
    }
}

/// Summing the fee of `t` onto a running `total` fits in a `u64`, as far
/// as the summing goes: every prefix of its inputs that spends only
/// unspent outputs; its outputs once all its inputs are unspent; and the
/// new total once its inputs bring at least its outputs.
pub open spec fn fee_step_fits(m: UtxoMap, t: TxView, total: nat) -> bool {
    let known = forall|i: int| 0 <= i < t.inputs.len() ==> m.contains_key(#[trigger] t.inputs[i].prev_transaction_output_hash);
    &&& prefix_sums_fit(m, t.inputs)
    &&& known ==> output_sum(t.outputs) <= u64::MAX
    &&& known && input_sum(m, t.inputs) >= output_sum(t.outputs)
            ==> total + (input_sum(m, t.inputs) - output_sum(t.outputs)) <= u64::MAX
}

/// Summing the fees of `txs` in order fits in a `u64` up to where it
/// stops: each transaction reached while the fees so far are no error
/// passes `fee_step_fits`.
pub open spec fn block_sums_fit(m: UtxoMap, txs: Seq<TxView>) -> bool {
    forall|k: int| 0 <= k < txs.len() ==>
        ((#[trigger] miner_fees_of(m, txs.take(k))) matches Ok(f) ==> fee_step_fits(m, txs[k], f))
}

/// The inputs of one transaction checked in order against the unspent
/// outputs and the outputs `used` earlier in the block: each must be
/// unspent, not used before, and validly signed.  Yields the outputs used
/// so far.
pub open spec fn inputs_check(m: UtxoMap, ins: Seq<InputView>, used: Set<crate::hash::Hash>) -> Result<Set<crate::hash::Hash>, BtcError>
    decreases ins.len(),
{
    if ins.len() == 0 {
        Ok(used)
    } else {
        match inputs_check(m, ins.drop_last(), used) {
            Err(e) => Err(e),
            Ok(u) => {
                let h = ins.last().prev_transaction_output_hash;
                if !m.contains_key(h) {
                    Err(BtcError::InvalidTransaction)
                } else if u.contains(h) {
                    Err(BtcError::InvalidTransaction)
                } else if !signature_valid(ins.last(), m[h].1) {
                    Err(BtcError::InvalidSignature)
                } else {
                    Ok(u.insert(h))
                }
            },
        }
    }
}

/// The non-coinbase transactions of a block checked in order: their
/// inputs (see `inputs_check`), then that each brings at least what it
/// pays out.
pub open spec fn txs_check(m: UtxoMap, txs: Seq<TxView>) -> Result<Set<crate::hash::Hash>, BtcError>
    decreases txs.len(),
{
    if txs.len() == 0 {
        Ok(Set::empty())
    } else {
        match txs_check(m, txs.drop_last()) {
            Err(e) => Err(e),
            Ok(used) => {
                let t = txs.last();
                match inputs_check(m, t.inputs, used) {
                    Err(e) => Err(e),
                    Ok(u) => if input_sum(m, t.inputs) < output_sum(t.outputs) {
                        Err(BtcError::InvalidTransaction)
                    } else {
                        Ok(u)
                    },
                }
            },
        }
    }
}

/// The reward for mining the block at `height`: 50 coins of `10^8` units,
/// halved every `HALVING_INTERVAL` blocks.
pub open spec fn block_reward(height: u64) -> nat {
    (crate::INITIAL_REWARD * 100_000_000) as nat
        / vstd::arithmetic::power2::pow2(((height / crate::HALVING_INTERVAL) as u32) as nat)
}

/// The coinbase check of a block: no inputs, and outputs paying exactly
/// the reward plus the fees.
pub open spec fn coinbase_check(m: UtxoMap, b: BlockView, height: u64) -> Result<(), BtcError> {
    let coinbase = b.transactions[0];
    if coinbase.inputs.len() > 0 {
        Err(BtcError::InvalidTransaction)
    } else {
        match miner_fees_of(m, rest_txs(b.transactions)) {
            Err(e) => Err(e),
            Ok(fees) => if output_sum(coinbase.outputs) != block_reward(height) + fees {
                Err(BtcError::InvalidTransaction)
            } else {
                Ok(())
            },
        }
    }
}

/// The transaction check of a block at `height`: it has a valid coinbase
/// and valid further transactions.
pub open spec fn block_txs_check(m: UtxoMap, b: BlockView, height: u64) -> Result<(), BtcError> {
    if b.transactions.len() == 0 {
        Err(BtcError::InvalidTransaction)
    } else {
        match coinbase_check(m, b, height) {
            Err(e) => Err(e),
            Ok(()) => match txs_check(m, rest_txs(b.transactions)) {
                Err(e) => Err(e),
                Ok(_) => Ok(()),
            },
        }
    }
}

/// Where the fees of all of `txs` are no error and summing them fits,
/// the sums of each one fit.
proof fn lemma_fees_ok_step(m: UtxoMap, txs: Seq<TxView>, j: int)
    requires
        0 <= j < txs.len(),
        miner_fees_of(m, txs) is Ok,
        block_sums_fit(m, txs),
    ensures
        prefix_sums_fit(m, txs[j].inputs),
        output_sum(txs[j].outputs) <= u64::MAX,
{
    if miner_fees_of(m, txs.take(j + 1)) is Err {
        lemma_fees_err_extends(m, txs, j + 1);
    }
    if miner_fees_of(m, txs.take(j)) is Err {
        lemma_fees_err_extends(m, txs, j);
    }
    assert(txs.take(j + 1).drop_last() =~= txs.take(j));
    assert(txs.take(j + 1).last() == txs[j]);
    let f = miner_fees_of(m, txs.take(j))->Ok_0;
    assert(fee_step_fits(m, txs[j], f));
}

/// The checks of a block at `height` can run without a panic, as far as
/// they go: where the coinbase has no inputs, summing the fees fits (see
/// `block_sums_fit`), and where the fees are no error, the exponent of
/// the halving is below 64 and the coinbase's outputs and the reward plus
/// the fees fit in a `u64`.
pub open spec fn block_check_fits(m: UtxoMap, b: BlockView, height: u64) -> bool {
    b.transactions.len() > 0 && b.transactions[0].inputs.len() == 0 ==> {
        &&& block_sums_fit(m, rest_txs(b.transactions))
        &&& (miner_fees_of(m, rest_txs(b.transactions)) matches Ok(f) ==> {
                &&& ((height / crate::HALVING_INTERVAL) as u32) < 64
                &&& output_sum(b.transactions[0].outputs) <= u64::MAX
                &&& block_reward(height) + f <= u64::MAX
            })
    }
}


/// An error in checking a prefix of the transactions is the error of the
/// whole.
pub proof fn lemma_txs_err_extends(m: UtxoMap, txs: Seq<TxView>, n: int)
    requires
        0 <= n <= txs.len(),
        txs_check(m, txs.take(n)) is Err,
    ensures
        txs_check(m, txs) == txs_check(m, txs.take(n)),
    decreases txs.len(),
{
    if n == txs.len() {
        assert(txs.take(n) =~= txs);
    } else {
        assert(txs.drop_last().take(n) =~= txs.take(n));
        lemma_txs_err_extends(m, txs.drop_last(), n);
    }
}

/// An error in checking a prefix of the inputs is the error of the whole.
pub proof fn lemma_inputs_err_extends(m: UtxoMap, ins: Seq<InputView>, used: Set<crate::hash::Hash>, n: int)
    requires
        0 <= n <= ins.len(),
        inputs_check(m, ins.take(n), used) is Err,
    ensures
        inputs_check(m, ins, used) == inputs_check(m, ins.take(n), used),
    decreases ins.len(),
{
    if n == ins.len() {
        assert(ins.take(n) =~= ins);
    } else {
        assert(ins.drop_last().take(n) =~= ins.take(n));
        lemma_inputs_err_extends(m, ins.drop_last(), used, n);
    }
}

/// The outputs of a list of hashes, as a set.
pub open spec fn hash_set(v: Seq<crate::hash::Hash>) -> Set<crate::hash::Hash> {
    Set::new(|h: crate::hash::Hash| v.contains(h))
}

/// Whether `h` occurs in `v`.
fn contains_hash(v: &Vec<crate::hash::Hash>, h: &crate::hash::Hash) -> (b: bool)
    ensures
        b == hash_set(v@).contains(*h),
{
    let mut i: usize = 0;
    while i < v.len()
        invariant
            i <= v@.len(),
            forall|j: int| 0 <= j < i ==> (#[trigger] v@[j]) != *h,
        decreases v.len() - i,
    {
        if v[i].equals(h) {
            assert(v@.contains(*h));
            return true;
        }
        i = i + 1;
    }
    false
}


/// The unspent outputs after `t`: what it spends removed, what it
/// creates added unflagged under their hashes.
pub open spec fn apply_tx(m: UtxoMap, t: TxView) -> UtxoMap {
    add_outputs(remove_spent(m, spent_hashes(t)), t.outputs)
}

/// `hs` removed from the unspent outputs, in order.
pub open spec fn remove_spent(m: UtxoMap, hs: Seq<crate::hash::Hash>) -> UtxoMap
    decreases hs.len(),
{
    if hs.len() == 0 {
        m
    } else {
        remove_spent(m, hs.drop_last()).remove(hs.last())
    }
}

/// `outs` added unflagged under their hashes, in order.
pub open spec fn add_outputs(m: UtxoMap, outs: Seq<OutputView>) -> UtxoMap
    decreases outs.len(),
{
    if outs.len() == 0 {
        m
    } else {
        add_outputs(m, outs.drop_last()).insert(output_hash(outs.last()), (false, outs.last()))
    }
}

/// The unspent outputs after the transactions `txs`, in order.
pub open spec fn apply_txs(m: UtxoMap, txs: Seq<TxView>) -> UtxoMap
    decreases txs.len(),
{
    if txs.len() == 0 {
        m
    } else {
        apply_tx(apply_txs(m, txs.drop_last()), txs.last())
    }
}

/// The unspent outputs after the blocks `bs`, in order.
pub open spec fn apply_blocks(m: UtxoMap, bs: Seq<BlockView>) -> UtxoMap
    decreases bs.len(),
{
    if bs.len() == 0 {
        m
    } else {
        apply_txs(apply_blocks(m, bs.drop_last()), bs.last().transactions)
    }
}

/// The unspent outputs of a chain of blocks, all unflagged.
pub open spec fn utxos_of(bs: Seq<BlockView>) -> UtxoMap {
    apply_blocks(Map::empty(), bs)
}

/// The position of `h` in an unspent-output list, if it is there.
fn utxo_position(v: &Vec<(crate::hash::Hash, bool, TransactionOutput)>, h: &crate::hash::Hash) -> (r: Option<usize>)
    requires
        distinct_keys(v@),
    ensures
        r is Some <==> utxo_map(v@).contains_key(*h),
        r matches Some(i) ==> i < v@.len() && v@[i as int].0 == *h
            && utxo_map(v@)[*h] == (v@[i as int].1, v@[i as int].2@),
{
    let mut i: usize = 0;
    while i < v.len()
        invariant
            i <= v@.len(),
            distinct_keys(v@),
            forall|j: int| 0 <= j < i ==> (#[trigger] v@[j]).0 != *h,
        decreases v.len() - i,
    {
        if v[i].0.equals(h) {
            proof {
                assert(utxo_map(v@).contains_key(*h));
                let k = choose|k: int| 0 <= k < v@.len() && (#[trigger] v@[k]).0 == *h;
                if k != i as int {
                    if k < i {
                        assert(v@[k].0 != *h);
                    } else {
                        assert(v@[i as int].0 != v@[k].0);
                    }
                }
            }
            return Some(i);
        }
        i = i + 1;
    }
    None
}

/// Removes `h` from an unspent-output list.
fn utxo_remove(v: &mut Vec<(crate::hash::Hash, bool, TransactionOutput)>, h: &crate::hash::Hash)
    requires
        distinct_keys(old(v)@),
    ensures
        distinct_keys(final(v)@),
        utxo_map(final(v)@) == utxo_map(old(v)@).remove(*h),
{
    match utxo_position(v, h) {
        Some(i) => {
            let ghost before = v@;
            v.remove(i);
            proof {
                assert(v@ == before.remove(i as int));
                assert forall|a: int, b: int| 0 <= a < b < v@.len() implies (#[trigger] v@[a]).0 != (#[trigger] v@[b]).0 by {
                    let a2 = if a < i { a } else { a + 1 };
                    let b2 = if b < i { b } else { b + 1 };
                    assert(before[a2].0 != before[b2].0);
                }
                assert forall|g: crate::hash::Hash| #[trigger] utxo_map(v@).contains_key(g) <==> utxo_map(before).remove(*h).contains_key(g) by {
                    if utxo_map(v@).contains_key(g) {
                        let k = choose|k: int| 0 <= k < v@.len() && (#[trigger] v@[k]).0 == g;
                        let k2 = if k < i { k } else { k + 1 };
                        assert(before[k2].0 == g);
                        assert(k2 != i);
                        assert(before[i as int].0 != before[k2].0 || k2 == i);
                    }
                    if utxo_map(before).contains_key(g) && g != *h {
                        let k = choose|k: int| 0 <= k < before.len() && (#[trigger] before[k]).0 == g;
                        if k < i {
                            assert(v@[k].0 == g);
                        } else {
                            assert(k != i);
                            assert(v@[k - 1].0 == g);
                        }
                    }
                }
                assert forall|g: crate::hash::Hash| #[trigger] utxo_map(v@).contains_key(g) implies utxo_map(v@)[g] == utxo_map(before).remove(*h)[g] by {
                    let k = choose|k: int| 0 <= k < v@.len() && (#[trigger] v@[k]).0 == g;
                    let k2 = if k < i { k } else { k + 1 };
                    assert(before[k2].0 == g);
                    let k3 = choose|k3: int| 0 <= k3 < before.len() && (#[trigger] before[k3]).0 == g;
                    if k3 != k2 {
                        if k3 < k2 { assert(before[k3].0 != before[k2].0); } else { assert(before[k2].0 != before[k3].0); }
                    }
                }
                assert(utxo_map(v@) =~= utxo_map(before).remove(*h));
            }
        },
        None => {
            assert(utxo_map(v@).remove(*h) =~= utxo_map(v@));
        },
    }
}

/// Sets `h` to `(flag, o)` in an unspent-output list.
fn utxo_insert(v: &mut Vec<(crate::hash::Hash, bool, TransactionOutput)>, h: crate::hash::Hash, flag: bool, o: TransactionOutput)
    requires
        distinct_keys(old(v)@),
    ensures
        distinct_keys(final(v)@),
        utxo_map(final(v)@) == utxo_map(old(v)@).insert(h, (flag, o@)),
{
    let ghost ov = o@;
    let ghost before = v@;
    match utxo_position(v, &h) {
        Some(i) => {
            v.set(i, (h, flag, o));
            proof {
                assert forall|a: int, b: int| 0 <= a < b < v@.len() implies (#[trigger] v@[a]).0 != (#[trigger] v@[b]).0 by {
                    assert(before[a].0 != before[b].0);
                }
                assert forall|g: crate::hash::Hash| #[trigger] utxo_map(v@).contains_key(g) <==> utxo_map(before).insert(h, (flag, ov)).contains_key(g) by {
                    if utxo_map(v@).contains_key(g) {
                        let k = choose|k: int| 0 <= k < v@.len() && (#[trigger] v@[k]).0 == g;
                        if k != i { assert(before[k].0 == g); }
                    }
                    if utxo_map(before).contains_key(g) {
                        let k = choose|k: int| 0 <= k < before.len() && (#[trigger] before[k]).0 == g;
                        assert(v@[k].0 == g);
                    }
                    if g == h { assert(v@[i as int].0 == h); }
                }
                assert forall|g: crate::hash::Hash| #[trigger] utxo_map(v@).contains_key(g) implies utxo_map(v@)[g] == utxo_map(before).insert(h, (flag, ov))[g] by {
                    let k = choose|k: int| 0 <= k < v@.len() && (#[trigger] v@[k]).0 == g;
                    if g == h {
                        if k != i { assert(v@[k].0 != v@[i as int].0 || k == i); }
                    } else {
                        assert(k != i);
                        assert(before[k].0 == g);
                        let k3 = choose|k3: int| 0 <= k3 < before.len() && (#[trigger] before[k3]).0 == g;
                        if k3 != k {
                            if k3 < k { assert(before[k3].0 != before[k].0); } else { assert(before[k].0 != before[k3].0); }
                        }
                    }
                }
                assert(utxo_map(v@) =~= utxo_map(before).insert(h, (flag, ov)));
            }
        },
        None => {
            v.push((h, flag, o));
            proof {
                assert forall|a: int, b: int| 0 <= a < b < v@.len() implies (#[trigger] v@[a]).0 != (#[trigger] v@[b]).0 by {
                    if b < before.len() {
                        assert(before[a].0 != before[b].0);
                    } else {
                        assert(before[a].0 != h) by {
                            if before[a].0 == h {
                                assert(utxo_map(before).contains_key(h));
                            }
                        }
                    }
                }
                assert forall|g: crate::hash::Hash| #[trigger] utxo_map(v@).contains_key(g) <==> utxo_map(before).insert(h, (flag, ov)).contains_key(g) by {
                    if utxo_map(v@).contains_key(g) {
                        let k = choose|k: int| 0 <= k < v@.len() && (#[trigger] v@[k]).0 == g;
                        if k < before.len() { assert(before[k].0 == g); }
                    }
                    if utxo_map(before).contains_key(g) {
                        let k = choose|k: int| 0 <= k < before.len() && (#[trigger] before[k]).0 == g;
                        assert(v@[k].0 == g);
                    }
                    if g == h { assert(v@[before.len() as int].0 == h); }
                }
                assert forall|g: crate::hash::Hash| #[trigger] utxo_map(v@).contains_key(g) implies utxo_map(v@)[g] == utxo_map(before).insert(h, (flag, ov))[g] by {
                    let k = choose|k: int| 0 <= k < v@.len() && (#[trigger] v@[k]).0 == g;
                    if g == h {
                        if k < before.len() { assert(utxo_map(before).contains_key(h)); }
                    } else {
                        assert(k < before.len());
                        assert(before[k].0 == g);
                        let k3 = choose|k3: int| 0 <= k3 < before.len() && (#[trigger] before[k3]).0 == g;
                        if k3 != k {
                            if k3 < k { assert(before[k3].0 != before[k].0); } else { assert(before[k].0 != before[k3].0); }
                        }
                    }
                }
                assert(utxo_map(v@) =~= utxo_map(before).insert(h, (flag, ov)));
            }
        },
    }
}


/// Whether the target is due for adjustment after the blocks `bs`: there
/// are some, and a whole number of adjustment intervals.
pub open spec fn retarget_due(bs: Seq<BlockView>) -> bool {
    bs.len() > 0 && bs.len() % (crate::DIFFICULTY_UPDATE_INTERVAL as nat) == 0
}

/// Whole seconds from the first block of the last interval to the last
/// block, at least one.
pub open spec fn retarget_seconds(bs: Seq<BlockView>) -> nat {
    let start = bs[bs.len() - crate::DIFFICULTY_UPDATE_INTERVAL].header.timestamp.nanos;
    let end = bs.last().header.timestamp.nanos;
    let d = end - start;
    if d < NANOS_PER_SECOND { 1 } else { (d / (NANOS_PER_SECOND as int)) as nat }
}

/// The target after an adjustment: scaled by the actual over the ideal
/// time of the interval (rounded down), kept within a factor of four of
/// the old target, and never easier than the minimum.
pub open spec fn retarget_value(t: nat, bs: Seq<BlockView>) -> nat {
    let ideal = (crate::IDEAL_BLOCK_TIME * crate::DIFFICULTY_UPDATE_INTERVAL) as nat;
    let scaled = t * retarget_seconds(bs) / ideal;
    let clamped = if scaled < t / 4 { t / 4 } else if scaled > t * 4 { t * 4 } else { scaled };
    if clamped <= crate::min_target_value() { clamped } else { crate::min_target_value() }
}

/// The adjustment can run without a panic: the interval's timestamps are
/// real instants, its length in seconds is far from the `i64` range, and
/// the scaled target fits in 256 bits.
pub open spec fn retarget_fits(t: nat, bs: Seq<BlockView>) -> bool {
    retarget_due(bs) ==> {
        &&& crate::time::in_utc_range(bs[bs.len() - crate::DIFFICULTY_UPDATE_INTERVAL].header.timestamp.nanos as int)
        &&& crate::time::in_utc_range(bs.last().header.timestamp.nanos as int)
        &&& retarget_seconds(bs) < 5_000_000_000_000_000_000
        &&& t * retarget_seconds(bs) / ((crate::IDEAL_BLOCK_TIME * crate::DIFFICULTY_UPDATE_INTERVAL) as nat) < crate::u256::pow256()
    }
}

/// `floor(t * s / 500) == floor(t / 500) * s + floor((t % 500) * s / 500)`.
proof fn lemma_scaled_split(t: nat, s: nat)
    ensures
        t * s / 500 == (t / 500) * s + (t % 500) * s / 500,
        (t / 500) * s <= t * s / 500,
{
    let q = t / 500;
    let r = t % 500;
    vstd::arithmetic::div_mod::lemma_fundamental_div_mod(t as int, 500);
    assert(t * s == 500 * (q * s) + r * s) by (nonlinear_arith)
        requires t == 500 * q + r;
    let r2 = r * s;
    vstd::arithmetic::div_mod::lemma_fundamental_div_mod(r2 as int, 500);
    let q2 = r2 / 500;
    let m2 = r2 % 500;
    assert(t * s == 500 * (q * s + q2) + m2) by (nonlinear_arith)
        requires t * s == 500 * (q * s) + r2, r2 == 500 * q2 + m2;
    vstd::arithmetic::div_mod::lemma_fundamental_div_mod_converse((t * s) as int, 500, (q * s + q2) as int, m2 as int);
}


/// The checks a block must pass to extend the chain: the first block
/// names the zero hash as parent; a later one names the last block,
/// declares the chain's current target and has a hash meeting it, carries
/// the Merkle root of its transactions, comes strictly after the last
/// block, and has valid transactions.
pub open spec fn block_check(c: ChainView, b: BlockView) -> Result<(), BtcError> {
    if c.blocks.len() == 0 {
        if b.header.prev_block_hash@ != 0 { Err(BtcError::InvalidBlock) } else { Ok(()) }
    } else {
        let last = c.blocks.last();
        if b.header.prev_block_hash != crate::chain::block_hash(last) {
            Err(BtcError::InvalidBlock)
        } else if b.header.target != c.target {
            Err(BtcError::InvalidBlock)
        } else if !(crate::chain::header_hash(b.header)@ <= c.target@) {
            Err(BtcError::InvalidBlock)
        } else if crate::chain::merkle_root_of_txs(b.transactions) != b.header.merkle_root.0 {
            Err(BtcError::InvalidMerkleRoot)
        } else if b.header.timestamp.nanos <= last.header.timestamp.nanos {
            Err(BtcError::InvalidBlock)
        } else {
            block_txs_check(c.utxos, b, c.blocks.len() as u64)
        }
    }
}

/// The block checks run without a panic: a block reaching the Merkle
/// check has transactions, and one reaching the transaction checks has
/// sums that fit.
pub open spec fn block_check_fits_chain(c: ChainView, b: BlockView) -> bool {
    c.blocks.len() > 0 && b.header.prev_block_hash == crate::chain::block_hash(c.blocks.last())
        && b.header.target == c.target && crate::chain::header_hash(b.header)@ <= c.target@
        ==> {
            &&& b.transactions.len() > 0
            &&& (crate::chain::merkle_root_of_txs(b.transactions) == b.header.merkle_root.0
                && b.header.timestamp.nanos > c.blocks.last().header.timestamp.nanos
                ==> block_check_fits(c.utxos, b, c.blocks.len() as u64))
        }
}

/// Whether a block (after the first) claims a time further ahead of
/// `now` than `MAX_FUTURE_BLOCK_DRIFT_SECONDS`.
pub open spec fn too_far_ahead(c: ChainView, b: BlockView, now: Timestamp) -> bool {
    c.blocks.len() > 0 && b.header.timestamp.nanos - now.nanos > crate::MAX_FUTURE_BLOCK_DRIFT_SECONDS * NANOS_PER_SECOND
}

/// The checks of a block arriving at `now`: one too far ahead of the
/// clock is refused, otherwise `block_check` decides.
pub open spec fn block_check_at(c: ChainView, b: BlockView, now: Timestamp) -> Result<(), BtcError> {
    if too_far_ahead(c, b, now) { Err(BtcError::InvalidBlock) } else { block_check(c, b) }
}

/// Whether the block holds a transaction with the hash of `t`.
pub open spec fn in_block(b: BlockView, t: TxView) -> bool {
    exists|k: int| 0 <= k < b.transactions.len() && crate::chain::tx_hash(#[trigger] b.transactions[k]) == crate::chain::tx_hash(t)
}

/// The mempool entries whose transactions the block does not hold.
pub open spec fn outside_block(mp: Seq<(Timestamp, TxView)>, b: BlockView) -> Seq<(Timestamp, TxView)>
    decreases mp.len(),
{
    if mp.len() == 0 {
        Seq::empty()
    } else if in_block(b, mp.last().1) {
        outside_block(mp.drop_last(), b)
    } else {
        outside_block(mp.drop_last(), b).push(mp.last())
    }
}

/// The flags set for everything the pending transactions spend, in
/// order.
pub open spec fn pending_marks(m: UtxoMap, mp: Seq<(Timestamp, TxView)>) -> UtxoMap
    decreases mp.len(),
{
    if mp.len() == 0 {
        m
    } else {
        set_marks(pending_marks(m, mp.drop_last()), spent_hashes(mp.last().1), true)
    }
}


/// How many leading mempool entries fit, one after the other, within
/// `budget` bytes of encoded transactions.
pub open spec fn fitting_count(mp: Seq<(Timestamp, TxView)>, budget: nat) -> nat
    decreases mp.len(),
{
    if mp.len() == 0 {
        0
    } else if crate::chain::tx_bytes(mp[0].1).len() <= budget {
        1 + fitting_count(mp.drop_first(), (budget - crate::chain::tx_bytes(mp[0].1).len()) as nat)
    } else {
        0
    }
}

/// The pending transactions a block template takes: the longest leading
/// run of the mempool within `BLOCK_BYTE_CAP` encoded bytes.
pub open spec fn template_txs(mp: Seq<(Timestamp, TxView)>) -> Seq<TxView> {
    mp.take(fitting_count(mp, crate::BLOCK_BYTE_CAP as nat) as int).map_values(|e: (Timestamp, TxView)| e.1)
}

/// A prefix of length `n` that fits leaves `fitting_count` counting from
/// there.
proof fn lemma_fitting_step(mp: Seq<(Timestamp, TxView)>, budget: nat)
    requires
        mp.len() > 0,
    ensures
        crate::chain::tx_bytes(mp[0].1).len() <= budget ==>
            fitting_count(mp, budget) == 1 + fitting_count(mp.drop_first(), (budget - crate::chain::tx_bytes(mp[0].1).len()) as nat),
        crate::chain::tx_bytes(mp[0].1).len() > budget ==> fitting_count(mp, budget) == 0,
{
}

/// `fitting_count` never exceeds the number of entries.
proof fn lemma_fitting_bound(mp: Seq<(Timestamp, TxView)>, budget: nat)
    ensures
        fitting_count(mp, budget) <= mp.len(),
    decreases mp.len(),
{
    if mp.len() > 0 && crate::chain::tx_bytes(mp[0].1).len() <= budget {
        lemma_fitting_bound(mp.drop_first(), (budget - crate::chain::tx_bytes(mp[0].1).len()) as nat);
    }
}

/// The coinbase of a template: no inputs, one output paying `value` to
/// `pubkey` under `unique_id`.
pub open spec fn coinbase_view(value: u64, unique_id: u128, pubkey: Seq<u8>) -> TxView {
    TxView { inputs: Seq::empty(), outputs: seq![OutputView { value, unique_id, pubkey }] }
}

impl Blockchain {
    /// The unspent outputs in the order the chain lists them: hash, flag,
    /// output.
    pub closed spec fn utxo_list(&self) -> Seq<(crate::hash::Hash, bool, TransactionOutput)> {
        self.utxos@
    }

    /// The invariant: no output hash is listed twice, and the target is
    /// never easier than the minimum.
    pub closed spec fn wf(&self) -> bool {
        &&& distinct_keys(self.utxos@)
        &&& self.target@ <= crate::min_target_value()
    }

    /// An empty chain at the easiest target.
    pub fn new() -> (c: Blockchain)
        ensures
            c.wf(),
            c@.utxos == Map::<crate::hash::Hash, (bool, OutputView)>::empty(),
            c@.target@ == crate::min_target_value(),
            c@.blocks.len() == 0,
            c@.mempool.len() == 0,
    {
        let c = Blockchain { utxos: Vec::new(), target: crate::min_target(), blocks: Vec::new(), mempool: Vec::new() };
        assert(c@.utxos =~= Map::<crate::hash::Hash, (bool, OutputView)>::empty());
        assert(c@.blocks =~= Seq::<BlockView>::empty());
        assert(c@.mempool =~= Seq::<(Timestamp, TxView)>::empty());
        c
    }

    /// The position of the unspent output `h`, if there is one.
    fn find_utxo(&self, h: &crate::hash::Hash) -> (r: Option<usize>)
        requires
            self.wf(),
        ensures
            r is Some <==> self@.utxos.contains_key(*h),
            r matches Some(i) ==> i < self.utxos@.len() && self.utxos@[i as int].0 == *h
                && self@.utxos[*h] == (self.utxos@[i as int].1, self.utxos@[i as int].2@),
    {
        let mut i: usize = 0;
        while i < self.utxos.len()
            invariant
                i <= self.utxos@.len(),
                self.wf(),
                forall|j: int| 0 <= j < i ==> (#[trigger] self.utxos@[j]).0 != *h,
            decreases self.utxos.len() - i,
        {
            if self.utxos[i].0.equals(h) {
                proof {
                    assert(self@.utxos.contains_key(*h));
                    let k = choose|k: int| 0 <= k < self.utxos@.len() && (#[trigger] self.utxos@[k]).0 == *h;
                    if k != i as int {
                        if k < i {
                            assert(self.utxos@[k].0 != *h);
                        } else {
                            assert(distinct_keys(self.utxos@));
                            assert(self.utxos@[i as int].0 != self.utxos@[k].0);
                        }
                    }
                }
                return Some(i);
            }
            i = i + 1;
        }
        None
    }

    /// Sets the flag of the unspent output `h`, if there is one.
    fn set_mark(&mut self, h: &crate::hash::Hash, flag: bool)
        requires
            old(self).wf(),
        ensures
            final(self).wf(),
            final(self)@ == (ChainView { utxos: set_mark(old(self)@.utxos, *h, flag), ..old(self)@ }),
    {
        match self.find_utxo(h) {
            Some(i) => {
                let ghost before = self.utxos@;
                self.utxos[i].1 = flag;
                proof {
                    assert(self.utxos@ == before.update(i as int, (before[i as int].0, flag, before[i as int].2)));
                    assert(self@.utxos =~= set_mark(old(self)@.utxos, *h, flag)) by {
                        assert forall|g: crate::hash::Hash| #[trigger] self@.utxos.contains_key(g) <==> set_mark(old(self)@.utxos, *h, flag).contains_key(g) by {
                            if self@.utxos.contains_key(g) {
                                let k = choose|k: int| 0 <= k < self.utxos@.len() && (#[trigger] self.utxos@[k]).0 == g;
                                assert(before[k].0 == g);
                            }
                            if old(self)@.utxos.contains_key(g) {
                                let k = choose|k: int| 0 <= k < before.len() && (#[trigger] before[k]).0 == g;
                                assert(self.utxos@[k].0 == g);
                            }
                        }
                        assert forall|g: crate::hash::Hash| #[trigger] self@.utxos.contains_key(g) implies self@.utxos[g] == set_mark(old(self)@.utxos, *h, flag)[g] by {
                            let k = choose|k: int| 0 <= k < self.utxos@.len() && (#[trigger] self.utxos@[k]).0 == g;
                            let k2 = choose|k2: int| 0 <= k2 < before.len() && (#[trigger] before[k2]).0 == g;
                            assert(before[k].0 == g);
                            if k != k2 {
                                if k < k2 { assert(before[k].0 != before[k2].0); } else { assert(before[k2].0 != before[k].0); }
                            }
                        }
                    }
                    assert(self@.blocks =~= old(self)@.blocks);
                    assert(self@.mempool =~= old(self)@.mempool);
                }
            },
            None => {},
        }
    }

    /// Sets the flags of everything `t` spends.
    fn set_marks_of(&mut self, t: &Transaction, flag: bool)
        requires
            old(self).wf(),
        ensures
            final(self).wf(),
            final(self)@ == (ChainView { utxos: set_marks(old(self)@.utxos, spent_hashes(t@), flag), ..old(self)@ }),
    {
        let ghost hs = spent_hashes(t@);
        let mut i: usize = 0;
        while i < t.inputs.len()
            invariant
                i <= t.inputs@.len(),
                hs == spent_hashes(t@),
                hs.len() == t.inputs@.len(),
                self.wf(),
                self@ == (ChainView { utxos: set_marks(old(self)@.utxos, hs.take(i as int), flag), ..old(self)@ }),
            decreases t.inputs.len() - i,
        {
            assert(hs.take(i + 1).drop_last() =~= hs.take(i as int));
            assert(hs[i as int] == t.inputs@[i as int].prev_transaction_output_hash);
            self.set_mark(&t.inputs[i].prev_transaction_output_hash, flag);
            i = i + 1;
        }
        assert(hs.take(hs.len() as int) =~= hs);
    }

    /// Flags everything `t` spends.
    fn mark_transaction_utxos(&mut self, t: &Transaction)
        requires
            old(self).wf(),
        ensures
            final(self).wf(),
            final(self)@ == (ChainView { utxos: set_marks(old(self)@.utxos, spent_hashes(t@), true), ..old(self)@ }),
    {
        self.set_marks_of(t, true);
    }

    /// Clears the flags of everything `t` spends.
    fn unmark_transaction_utxos(&mut self, t: &Transaction)
        requires
            old(self).wf(),
        ensures
            final(self).wf(),
            final(self)@ == (ChainView { utxos: set_marks(old(self)@.utxos, spent_hashes(t@), false), ..old(self)@ }),
    {
        self.set_marks_of(t, false);
    }

    /// The fee of `t` against the unspent outputs; see `fee_of`.
    fn transaction_fee(&self, t: &Transaction) -> (r: Result<u64, BtcError>)
        requires
            self.wf(),
            fee_fits(self@.utxos, t@),
        ensures
            r == fee_of(self@.utxos, t@),
    {
        let ghost ins = t@.inputs;
        let mut input_value: u64 = 0;
        let mut i: usize = 0;
        while i < t.inputs.len()
            invariant
                i <= t.inputs@.len(),
                ins == t@.inputs,
                self.wf(),
                fee_fits(self@.utxos, t@),
                input_value == input_sum(self@.utxos, ins.take(i as int)),
            decreases t.inputs.len() - i,
        {
            assert(ins.take(i + 1).drop_last() =~= ins.take(i as int));
            proof { lemma_input_sum_prefix(self@.utxos, ins, i + 1); }
            let h = &t.inputs[i].prev_transaction_output_hash;
            assert(self@.utxos.contains_key(ins[i as int].prev_transaction_output_hash));
            let k = match self.find_utxo(h) {
                Some(k) => k,
                None => {
                    proof { assert(false); }
                    return Err(BtcError::InvalidTransaction);
                },
            };
            input_value = input_value + self.utxos[k].2.value;
            i = i + 1;
        }
        assert(ins.take(ins.len() as int) =~= ins);
        let output_value = sum_outputs(&t.outputs);
        if input_value < output_value {
            Err(BtcError::InvalidTransaction)
        } else {
            Ok(input_value - output_value)
        }
    }

    /// The first mempool position whose transaction spends `h`.
    fn find_mempool_index_spending(&self, h: &crate::hash::Hash) -> (r: Option<usize>)
        ensures
            r matches Some(i) ==> first_spender(self@.mempool, *h) == Some(i as int),
            r is None ==> first_spender(self@.mempool, *h) is None,
    {
        let ghost mp = self@.mempool;
        let mut i: usize = 0;
        while i < self.mempool.len()
            invariant
                i <= mp.len(),
                mp == self@.mempool,
                mp.len() == self.mempool@.len(),
                first_spender(mp.take(i as int), *h) is None,
            decreases self.mempool.len() - i,
        {
            assert(mp.take(i + 1).drop_last() =~= mp.take(i as int));
            let t = &self.mempool[i].1;
            assert(mp[i as int].1 == t@);
            let mut found = false;
            let mut j: usize = 0;
            while j < t.inputs.len()
                invariant
                    j <= t.inputs@.len(),
                    found == exists|q: int| 0 <= q < j && (#[trigger] t@.inputs[q]).prev_transaction_output_hash == *h,
                decreases t.inputs.len() - j,
            {
                if t.inputs[j].prev_transaction_output_hash.equals(h) {
                    assert(t@.inputs[j as int].prev_transaction_output_hash == *h);
                    found = true;
                }
                j = j + 1;
            }
            assert(found == spends(t@, *h));
            if found {
                proof {
                    lemma_first_spender_prefix(mp, *h, i + 1);
                    lemma_first_spender_extend(mp, *h, i + 1);
                }
                return Some(i);
            }
            i = i + 1;
        }
        assert(mp.take(mp.len() as int) =~= mp);
        None
    }
}

/// The sum of the values of a list of outputs.
pub fn sum_outputs(outs: &Vec<TransactionOutput>) -> (total: u64)
    requires
        output_sum(crate::chain::outputs_view(outs@)) <= u64::MAX,
    ensures
        total == output_sum(crate::chain::outputs_view(outs@)),
{
    let ghost ov = crate::chain::outputs_view(outs@);
    let mut total: u64 = 0;
    let mut i: usize = 0;
    while i < outs.len()
        invariant
            i <= outs@.len(),
            ov == crate::chain::outputs_view(outs@),
            output_sum(ov) <= u64::MAX,
            total == output_sum(ov.take(i as int)),
        decreases outs.len() - i,
    {
        assert(ov.take(i + 1).drop_last() =~= ov.take(i as int));
        proof { lemma_output_sum_prefix(ov, i + 1); }
        total = total + outs[i].value;
        i = i + 1;
    }
    assert(ov.take(ov.len() as int) =~= ov);
    total
}

/// A prefix of the inputs sums to no more than all of them.
pub proof fn lemma_input_sum_prefix(m: UtxoMap, ins: Seq<InputView>, n: int)
    requires
        0 <= n <= ins.len(),
    ensures
        input_sum(m, ins.take(n)) <= input_sum(m, ins),
    decreases ins.len(),
{
    if n == ins.len() {
        assert(ins.take(n) =~= ins);
    } else {
        assert(ins.drop_last().take(n) =~= ins.take(n));
        lemma_input_sum_prefix(m, ins.drop_last(), n);
    }
}

/// A prefix of the outputs sums to no more than all of them.
pub proof fn lemma_output_sum_prefix(outs: Seq<OutputView>, n: int)
    requires
        0 <= n <= outs.len(),
    ensures
        output_sum(outs.take(n)) <= output_sum(outs),
    decreases outs.len(),
{
    if n == outs.len() {
        assert(outs.take(n) =~= outs);
    } else {
        assert(outs.drop_last().take(n) =~= outs.take(n));
        lemma_output_sum_prefix(outs.drop_last(), n);
    }
}

/// The first spender lies in the mempool and spends `h`.
pub proof fn lemma_first_spender_range(mp: Seq<(Timestamp, TxView)>, h: crate::hash::Hash)
    ensures
        first_spender(mp, h) matches Some(i) ==> 0 <= i < mp.len() && spends(mp[i].1, h),
    decreases mp.len(),
{
    if mp.len() > 0 {
        lemma_first_spender_range(mp.drop_last(), h);
    }
}

/// A spender found in a prefix is the first spender of the whole.
pub proof fn lemma_first_spender_extend(mp: Seq<(Timestamp, TxView)>, h: crate::hash::Hash, n: int)
    requires
        0 <= n <= mp.len(),
        first_spender(mp.take(n), h) is Some,
    ensures
        first_spender(mp, h) == first_spender(mp.take(n), h),
    decreases mp.len(),
{
    if n == mp.len() {
        assert(mp.take(n) =~= mp);
    } else {
        assert(mp.drop_last().take(n) =~= mp.take(n));
        lemma_first_spender_extend(mp.drop_last(), h, n);
    }
}

/// Where no entry of a prefix spends `h` but the next one does, that one
/// is the first spender.
pub proof fn lemma_first_spender_prefix(mp: Seq<(Timestamp, TxView)>, h: crate::hash::Hash, n: int)
    requires
        0 < n <= mp.len(),
        first_spender(mp.take(n - 1), h) is None,
        spends(mp[n - 1].1, h),
    ensures
        first_spender(mp.take(n), h) == Some(n - 1),
{
    assert(mp.take(n).drop_last() =~= mp.take(n - 1));
}


impl Blockchain {
    /// Drops the mempool entries older than `MAX_MEMPOOL_TRANSACTION_AGE`
    /// seconds at `now`, clearing the flags of what they spent.
    pub fn cleanup_mempool(&mut self, now: Timestamp)
        requires
            old(self).wf(),
        ensures
            final(self).wf(),
            final(self)@ == old(self)@.cleaned(now),
    {
        let ghost mp = self@.mempool;
        let mut kept: Vec<(Timestamp, Transaction)> = Vec::new();
        let mut stale: Vec<crate::hash::Hash> = Vec::new();
        let mut i: usize = 0;
        while i < self.mempool.len()
            invariant
                i <= mp.len(),
                mp == self@.mempool,
                mp.len() == self.mempool@.len(),
                mempool_view(kept@) == fresh_entries(mp.take(i as int), now),
                stale@ == stale_inputs(mp.take(i as int), now),
            decreases self.mempool.len() - i,
        {
            assert(mp.take(i + 1).drop_last() =~= mp.take(i as int));
            let e = &self.mempool[i];
            assert(mp[i as int] == (e.0, e.1@));
            if exceeds_by(now.nanos, e.0.nanos, 600 * NANOS_PER_SECOND) {
                let ghost before = stale@;
                let mut j: usize = 0;
                while j < e.1.inputs.len()
                    invariant
                        j <= e.1.inputs@.len(),
                        stale@ == before + spent_hashes(e.1@).take(j as int),
                    decreases e.1.inputs.len() - j,
                {
                    stale.push(e.1.inputs[j].prev_transaction_output_hash);
                    j = j + 1;
                    assert(stale@ =~= before + spent_hashes(e.1@).take(j as int));
                }
                assert(spent_hashes(e.1@).take(e.1.inputs@.len() as int) =~= spent_hashes(e.1@));
            } else {
                let c = (e.0, e.1.copy());
                let ghost prev = kept@;
                kept.push(c);
                assert(mempool_view(kept@) =~= mempool_view(prev).push((c.0, c.1@)));
            }
            i = i + 1;
        }
        assert(mp.take(mp.len() as int) =~= mp);
        self.mempool = kept;
        assert(self@.mempool == fresh_entries(mp, now));
        let ghost u0 = self@.utxos;
        let ghost hs = stale@;
        let mut k: usize = 0;
        while k < stale.len()
            invariant
                k <= hs.len(),
                hs == stale@,
                self.wf(),
                self@ == (ChainView { utxos: set_marks(u0, hs.take(k as int), false), ..old(self)@.cleaned(now) }),
            decreases stale.len() - k,
        {
            assert(hs.take(k + 1).drop_last() =~= hs.take(k as int));
            self.set_mark(&stale[k], false);
            k = k + 1;
        }
        assert(hs.take(hs.len() as int) =~= hs);
        assert(old(self)@.utxos == u0);
    }

    /// Whether the outputs `t` spends are all unspent and distinct.
    fn check_signatures(&self, t: &Transaction) -> (b: bool)
        requires
            self.wf(),
            inputs_ok(self@.utxos, t@.inputs),
        ensures
            b == signatures_ok(self@.utxos, t@.inputs),
    {
        let ghost ins = t@.inputs;
        let mut i: usize = 0;
        while i < t.inputs.len()
            invariant
                i <= ins.len(),
                ins == t@.inputs,
                self.wf(),
                inputs_ok(self@.utxos, ins),
                forall|q: int| 0 <= q < i ==> signature_valid(#[trigger] ins[q], self@.utxos[ins[q].prev_transaction_output_hash].1),
            decreases t.inputs.len() - i,
        {
            let h = &t.inputs[i].prev_transaction_output_hash;
            assert(ins[i as int].prev_transaction_output_hash == *h);
            let pos = match self.find_utxo(h) {
                Some(p) => p,
                None => {
                    assert(self@.utxos.contains_key(ins[i as int].prev_transaction_output_hash));
                    return false;
                },
            };
            let prev_output = &self.utxos[pos].2;
            let prev_hash = prev_output.hash();
            let ok = t.inputs[i].signature.verify(&prev_hash, &prev_output.pubkey);
            proof {
                assert(t.inputs@[i as int]@ == ins[i as int]);
                assert(self@.utxos[*h].1 == prev_output@);
            }
            if !ok {
                return false;
            }
            i = i + 1;
        }
        true
    }

    fn check_inputs(&self, t: &Transaction) -> (b: bool)
        requires
            self.wf(),
        ensures
            b == inputs_ok(self@.utxos, t@.inputs),
    {
        let ghost ins = t@.inputs;
        let mut i: usize = 0;
        while i < t.inputs.len()
            invariant
                i <= ins.len(),
                ins == t@.inputs,
                self.wf(),
                forall|q: int| 0 <= q < i ==> self@.utxos.contains_key(#[trigger] ins[q].prev_transaction_output_hash),
                forall|p: int, q: int| 0 <= p < q < i ==>
                    (#[trigger] ins[p]).prev_transaction_output_hash != (#[trigger] ins[q]).prev_transaction_output_hash,
            decreases t.inputs.len() - i,
        {
            let h = &t.inputs[i].prev_transaction_output_hash;
            assert(ins[i as int].prev_transaction_output_hash == *h);
            if self.find_utxo(h).is_none() {
                return false;
            }
            let mut j: usize = 0;
            while j < i
                invariant
                    j <= i < ins.len(),
                    ins == t@.inputs,
                    ins[i as int].prev_transaction_output_hash == *h,
                    forall|p: int| 0 <= p < j ==> (#[trigger] ins[p]).prev_transaction_output_hash != *h,
                decreases i - j,
            {
                if t.inputs[j].prev_transaction_output_hash.equals(h) {
                    assert(ins[j as int].prev_transaction_output_hash == ins[i as int].prev_transaction_output_hash);
                    return false;
                }
                j = j + 1;
            }
            i = i + 1;
        }
        true
    }
}


impl Blockchain {
    /// Runs the conflict scan of `t`'s inputs (see `conflict_scan`);
    /// `None` where it fails, else the conflicting positions.
    fn scan_conflicts(&mut self, t: &Transaction, new_fee: u64) -> (r: Option<Vec<usize>>)
        requires
            old(self).wf(),
            inputs_ok(old(self)@.utxos, t@.inputs),
            scan_fees_fit(old(self)@.utxos, old(self)@.mempool, t@.inputs, new_fee),
        ensures
            final(self).wf(),
            final(self)@ == (ChainView {
                utxos: conflict_scan(old(self)@.utxos, old(self)@.mempool, t@.inputs, new_fee).0,
                ..old(self)@
            }),
            r is None <==> conflict_scan(old(self)@.utxos, old(self)@.mempool, t@.inputs, new_fee).2,
            r matches Some(c) ==> positions_set(c@) == conflict_scan(old(self)@.utxos, old(self)@.mempool, t@.inputs, new_fee).1,
    {
        let ghost u0 = self@.utxos;
        let ghost mp = self@.mempool;
        let ghost ins = t@.inputs;
        let mut conflicts: Vec<usize> = Vec::new();
        let mut i: usize = 0;
        assert(positions_set(conflicts@) =~= Set::<int>::empty());
        while i < t.inputs.len()
            invariant
                i <= ins.len(),
                ins == t@.inputs,
                mp == old(self)@.mempool,
                u0 == old(self)@.utxos,
                inputs_ok(u0, ins),
                scan_fees_fit(u0, mp, ins, new_fee),
                self.wf(),
                self@ == (ChainView { utxos: conflict_scan(u0, mp, ins.take(i as int), new_fee).0, ..old(self)@ }),
                !conflict_scan(u0, mp, ins.take(i as int), new_fee).2,
                positions_set(conflicts@) == conflict_scan(u0, mp, ins.take(i as int), new_fee).1,
            decreases t.inputs.len() - i,
        {
            let ghost pre = ins.take(i as int);
            assert(ins.take(i + 1).drop_last() =~= pre);
            assert(ins.take(i + 1).last() == ins[i as int]);
            proof { lemma_scan_keeps(u0, mp, pre, new_fee); }
            let h = &t.inputs[i].prev_transaction_output_hash;
            assert(ins[i as int].prev_transaction_output_hash == *h);
            assert(u0.contains_key(*h));
            let pos = match self.find_utxo(h) {
                Some(p) => p,
                None => {
                    proof { assert(false); }
                    return None;
                },
            };
            if self.utxos[pos].1 {
                match self.find_mempool_index_spending(h) {
                    Some(idx) => {
                        proof {
                            lemma_first_spender_range(mp, *h);
                            assert(scan_read_fits(u0, mp, ins, new_fee, i as int));
                            assert(fee_fits(u0, mp[idx as int].1));
                            lemma_fee_transfer(u0, self@.utxos, mp[idx as int].1);
                        }
                        assert(self.mempool@[idx as int].1@ == mp[idx as int].1);
                        match self.transaction_fee(&self.mempool[idx].1) {
                            Err(_) => {
                                proof { lemma_scan_failed_extends(u0, mp, ins, new_fee, i + 1); }
                                return None;
                            },
                            Ok(old_fee) => {
                                if new_fee <= old_fee {
                                    proof { lemma_scan_failed_extends(u0, mp, ins, new_fee, i + 1); }
                                    return None;
                                }
                                if !contains_index(&conflicts, idx) {
                                    let ghost before = conflicts@;
                                    conflicts.push(idx);
                                    assert forall|k: int| #[trigger] positions_set(conflicts@).contains(k)
                                        <==> positions_set(before).insert(idx as int).contains(k) by {
                                        if positions_set(conflicts@).contains(k) {
                                            let j = choose|j: int| 0 <= j < conflicts@.len() && (#[trigger] conflicts@[j]) as int == k;
                                            if j < before.len() {
                                                assert(before[j] == conflicts@[j]);
                                            }
                                        }
                                        if positions_set(before).contains(k) {
                                            let j = choose|j: int| 0 <= j < before.len() && (#[trigger] before[j]) as int == k;
                                            assert(conflicts@[j] == before[j]);
                                        }
                                        if k == idx as int {
                                            assert(conflicts@[before.len() as int] == idx);
                                        }
                                    }
                                    assert(positions_set(conflicts@) =~= positions_set(before).insert(idx as int));
                                } else {
                                    assert(positions_set(conflicts@).insert(idx as int) =~= positions_set(conflicts@));
                                }
                            },
                        }
                    },
                    None => {
                        self.set_mark(h, false);
                    },
                }
            }
            i = i + 1;
        }
        assert(ins.take(ins.len() as int) =~= ins);
        Some(conflicts)
    }

    /// Drops the mempool entries at the positions in `c`, clearing the
    /// flags of what they spent.
    fn remove_positions(&mut self, c: &Vec<usize>)
        requires
            old(self).wf(),
        ensures
            final(self).wf(),
            final(self)@ == (ChainView {
                utxos: set_marks(old(self)@.utxos, inputs_at_positions(old(self)@.mempool, positions_set(c@)), false),
                mempool: without_positions(old(self)@.mempool, positions_set(c@)),
                ..old(self)@
            }),
    {
        let ghost mp = self@.mempool;
        let ghost cs = positions_set(c@);
        let mut kept: Vec<(Timestamp, Transaction)> = Vec::new();
        let mut dropped: Vec<crate::hash::Hash> = Vec::new();
        let mut i: usize = 0;
        while i < self.mempool.len()
            invariant
                i <= mp.len(),
                mp == self@.mempool,
                cs == positions_set(c@),
                mp.len() == self.mempool@.len(),
                mempool_view(kept@) == without_positions(mp.take(i as int), cs),
                dropped@ == inputs_at_positions(mp.take(i as int), cs),
            decreases self.mempool.len() - i,
        {
            let ghost pre = mp.take(i + 1);
            assert(pre.drop_last() =~= mp.take(i as int));
            assert(pre.len() - 1 == i);
            let e = &self.mempool[i];
            assert(mp[i as int] == (e.0, e.1@));
            if contains_index(c, i) {
                let ghost before = dropped@;
                let mut j: usize = 0;
                while j < e.1.inputs.len()
                    invariant
                        j <= e.1.inputs@.len(),
                        dropped@ == before + spent_hashes(e.1@).take(j as int),
                    decreases e.1.inputs.len() - j,
                {
                    dropped.push(e.1.inputs[j].prev_transaction_output_hash);
                    j = j + 1;
                    assert(dropped@ =~= before + spent_hashes(e.1@).take(j as int));
                }
                assert(spent_hashes(e.1@).take(e.1.inputs@.len() as int) =~= spent_hashes(e.1@));
            } else {
                let cp = (e.0, e.1.copy());
                let ghost prev = kept@;
                kept.push(cp);
                assert(mempool_view(kept@) =~= mempool_view(prev).push((cp.0, cp.1@)));
            }
            i = i + 1;
        }
        assert(mp.take(mp.len() as int) =~= mp);
        self.mempool = kept;
        let ghost u0 = self@.utxos;
        let ghost mid = self@;
        let ghost hs = dropped@;
        let mut k: usize = 0;
        while k < dropped.len()
            invariant
                k <= hs.len(),
                hs == dropped@,
                self.wf(),
                self@ == (ChainView { utxos: set_marks(u0, hs.take(k as int), false), ..mid }),
            decreases dropped.len() - k,
        {
            assert(hs.take(k + 1).drop_last() =~= hs.take(k as int));
            self.set_mark(&dropped[k], false);
            k = k + 1;
        }
        assert(hs.take(hs.len() as int) =~= hs);
    }
}


impl Blockchain {
    /// Sorts the mempool by decreasing fee, keeping the order of equal
    /// fees.
    fn sort_mempool(&mut self)
        requires
            old(self).wf(),
            old(self)@.mempool.len() >= 2 ==> mempool_fees_fit(old(self)@),
        ensures
            final(self).wf(),
            final(self)@ == (ChainView { mempool: sort_by_fee(old(self)@.utxos, old(self)@.mempool), ..old(self)@ }),
    {
        if self.mempool.len() < 2 {
            proof {
                let mp = self@.mempool;
                let m = self@.utxos;
                if mp.len() == 1 {
                    assert(mp.drop_last() =~= Seq::<(Timestamp, TxView)>::empty());
                    assert(sort_by_fee(m, mp.drop_last()) =~= Seq::<(Timestamp, TxView)>::empty());
                    assert(sort_by_fee(m, mp) =~= seq![mp.last()]);
                    assert(mp =~= seq![mp.last()]);
                } else {
                    assert(mp =~= Seq::<(Timestamp, TxView)>::empty());
                }
            }
            return;
        }
        let ghost m = self@.utxos;
        let ghost mp = self@.mempool;
        let mut sorted: Vec<(Timestamp, Transaction)> = Vec::new();
        let mut keys: Vec<u64> = Vec::new();
        let mut q: usize = 0;
        while q < self.mempool.len()
            invariant
                q <= mp.len(),
                mp == self@.mempool,
                m == self@.utxos,
                mp.len() == self.mempool@.len(),
                self.wf(),
                mempool_fees_fit(self@),
                mempool_view(sorted@) == sort_by_fee(m, mp.take(q as int)),
                keys@.len() == sorted@.len(),
                forall|i: int| 0 <= i < keys@.len() ==> keys@[i] == fee_key(m, (#[trigger] mempool_view(sorted@)[i]).1),
            decreases self.mempool.len() - q,
        {
            assert(mp.take(q + 1).drop_last() =~= mp.take(q as int));
            let e = &self.mempool[q];
            let ghost ev = (e.0, e.1@);
            assert(mp[q as int] == ev);
            assert(fee_fits(m, mp[q as int].1));
            let k = match self.transaction_fee(&e.1) {
                Ok(f) => f,
                Err(_) => 0,
            };
            assert(k == fee_key(m, ev.1));
            let ghost st = mempool_view(sorted@);
            let mut p = sorted.len();
            proof {
                assert(st.take(st.len() as int) =~= st);
                assert(st.skip(st.len() as int) =~= Seq::<(Timestamp, TxView)>::empty());
                assert(insert_by_fee(m, st, ev) + Seq::<(Timestamp, TxView)>::empty() =~= insert_by_fee(m, st, ev));
            }
            while p > 0 && keys[p - 1] < k
                invariant
                    p <= st.len(),
                    st == mempool_view(sorted@),
                    keys@.len() == sorted@.len(),
                    forall|i: int| 0 <= i < keys@.len() ==> keys@[i] == fee_key(m, (#[trigger] mempool_view(sorted@)[i]).1),
                    k == fee_key(m, ev.1),
                    insert_by_fee(m, st, ev) == insert_by_fee(m, st.take(p as int), ev) + st.skip(p as int),
                decreases p,
            {
                assert(keys@[p - 1] == fee_key(m, st[p - 1].1));
                proof { lemma_insert_step(m, st, ev, p as int); }
                p = p - 1;
            }
            proof {
                if p > 0 {
                    assert(keys@[p - 1] == fee_key(m, st[p - 1].1));
                }
                lemma_insert_exit(m, st, ev, p as int);
                assert(st.take(st.len() as int) =~= st);
                assert(st.skip(st.len() as int) =~= Seq::<(Timestamp, TxView)>::empty());
                assert(insert_by_fee(m, st, ev) == insert_by_fee(m, st.take(st.len() as int), ev) + st.skip(st.len() as int));
            }
            let entry = (e.0, e.1.copy());
            let ghost before = sorted@;
            sorted.insert(p, entry);
            keys.insert(p, k);
            proof {
                assert(mempool_view(sorted@) =~= st.insert(p as int, ev));
                assert forall|i: int| 0 <= i < keys@.len() implies keys@[i] == fee_key(m, (#[trigger] mempool_view(sorted@)[i]).1) by {
                    if i < p {
                        assert(mempool_view(sorted@)[i] == st[i]);
                    } else if i > p {
                        assert(mempool_view(sorted@)[i] == st[i - 1]);
                    }
                }
            }
            q = q + 1;
        }
        assert(mp.take(mp.len() as int) =~= mp);
        self.mempool = sorted;
    }

    /// Admits `t` to the mempool at `now`; see `admission` for the state
    /// left and the answer.
    pub fn add_to_mempool_at(&mut self, t: Transaction, now: Timestamp) -> (r: Result<(), BtcError>)
        requires
            old(self).wf(),
            admission_safe(old(self)@, t@, now),
        ensures
            final(self).wf(),
            (final(self)@, r) == admission(old(self)@, t@, now),
    {
        let ghost c0 = self@;
        let ghost tv = t@;
        self.cleanup_mempool(now);
        let ghost s1 = self@;
        if !self.check_inputs(&t) {
            return Err(BtcError::InvalidTransaction);
        }
        if !self.check_signatures(&t) {
            return Err(BtcError::InvalidSignature);
        }
        let new_fee = match self.transaction_fee(&t) {
            Err(e) => return Err(e),
            Ok(f) => f,
        };
        let conflicts = match self.scan_conflicts(&t, new_fee) {
            None => return Err(BtcError::InvalidTransaction),
            Some(c) => c,
        };
        let ghost scan = conflict_scan(s1.utxos, s1.mempool, tv.inputs, new_fee);
        self.remove_positions(&conflicts);
        let ghost u2 = set_marks(scan.0, inputs_at_positions(s1.mempool, scan.1), false);
        assert(self@.utxos == u2);
        self.mark_transaction_utxos(&t);
        let ghost u3 = self@.utxos;
        let ghost before_push = self.mempool@;
        self.mempool.push((now, t));
        proof {
            assert(self.mempool@ == before_push.push((now, t)));
            assert(self@.mempool =~= without_positions(s1.mempool, scan.1).push((now, tv)));
            lemma_scan_keeps(s1.utxos, s1.mempool, tv.inputs, new_fee);
            lemma_set_marks_keeps(scan.0, inputs_at_positions(s1.mempool, scan.1), false);
            lemma_set_marks_keeps(u2, spent_hashes(tv), true);
            if self@.mempool.len() >= 2 {
                assert forall|k: int| 0 <= k < self@.mempool.len() implies fee_fits(self@.utxos, (#[trigger] self@.mempool[k]).1) by {
                    assert(fee_fits(s1.utxos, self@.mempool[k].1));
                    lemma_fee_transfer(s1.utxos, u3, self@.mempool[k].1);
                }
            }
        }
        self.sort_mempool();
        Ok(())
    }

    /// Admits `t` to the mempool now, as `add_to_mempool_at` does at the
    /// current time.
    pub fn add_to_mempool(&mut self, t: Transaction) -> (r: Result<(), BtcError>)
        requires
            old(self).wf(),
            forall|now: Timestamp| #[trigger] admission_safe(old(self)@, t@, now),
        ensures
            final(self).wf(),
            exists|now: Timestamp| (final(self)@, r) == #[trigger] admission(old(self)@, t@, now),
    {
        let now = Timestamp::now();
        let ghost tv = t@;
        let r = self.add_to_mempool_at(t, now);
        assert((self@, r) == admission(old(self)@, tv, now));
        r
    }
}


/// The reward at the halving exponent `halvings`: `5 * 10^9 >> halvings`.
fn reward_at(halvings: u64) -> (r: u64)
    requires
        halvings < 64,
    ensures
        r == (crate::INITIAL_REWARD * 100_000_000) as nat / vstd::arithmetic::power2::pow2(halvings as nat),
{
    let base: u64 = crate::INITIAL_REWARD * 100_000_000;
    proof { vstd::bits::lemma_u64_shr_is_div(base, halvings); }
    base >> halvings
}

/// The sum of the fees of `txs` from position `start` on; see
/// `miner_fees_of`.
fn fees_from(chain: &Blockchain, txs: &Vec<Transaction>, start: usize) -> (r: Result<u64, BtcError>)
    requires
        chain.wf(),
        start <= txs@.len(),
        block_sums_fit(chain@.utxos, txs_view(txs@).skip(start as int)),
    ensures
        r == (match miner_fees_of(chain@.utxos, txs_view(txs@).skip(start as int)) {
            Ok(f) => Ok::<u64, BtcError>(f as u64),
            Err(e) => Err(e),
        }),
        r matches Ok(f) ==> miner_fees_of(chain@.utxos, txs_view(txs@).skip(start as int)) == Ok::<nat, BtcError>(f as nat),
{
    let ghost m = chain@.utxos;
    let ghost rest = txs_view(txs@).skip(start as int);
    let mut total: u64 = 0;
    let mut k: usize = start;
    assert(rest.take(0) =~= Seq::<TxView>::empty());
    while k < txs.len()
        invariant
            start <= k <= txs@.len(),
            rest == txs_view(txs@).skip(start as int),
            rest.len() == txs@.len() - start,
            m == chain@.utxos,
            chain.wf(),
            block_sums_fit(m, rest),
            miner_fees_of(m, rest.take(k - start)) == Ok::<nat, BtcError>(total as nat),
        decreases txs.len() - k,
    {
        let t = &txs[k];
        assert(rest[k - start] == t@);
        assert(rest.take(k - start + 1).drop_last() =~= rest.take(k - start));
        assert(rest.take(k - start + 1).last() == t@);
        let ghost ins = t@.inputs;
        assert(prefix_sums_fit(m, ins));
        let mut input_value: u64 = 0;
        let mut i: usize = 0;
        assert(ins.take(0) =~= Seq::<InputView>::empty());
        while i < t.inputs.len()
            invariant
                i <= ins.len(),
                ins == t@.inputs,
                chain.wf(),
                m == chain@.utxos,
                prefix_sums_fit(m, ins),
                forall|q: int| 0 <= q < i ==> m.contains_key(#[trigger] ins[q].prev_transaction_output_hash),
                input_value == input_sum(m, ins.take(i as int)),
                start <= k < txs@.len(),
                rest == txs_view(txs@).skip(start as int),
                rest.len() == txs@.len() - start,
                rest.take(k - start + 1).drop_last() == rest.take(k - start),
                rest.take(k - start + 1).last() == t@,
                miner_fees_of(m, rest.take(k - start)) == Ok::<nat, BtcError>(total as nat),
            decreases t.inputs.len() - i,
        {
            assert(ins.take(i + 1).drop_last() =~= ins.take(i as int));
            let pos = match chain.find_utxo(&t.inputs[i].prev_transaction_output_hash) {
                Some(p) => p,
                None => {
                    proof {
                        assert(!m.contains_key(ins[i as int].prev_transaction_output_hash));
                        assert(miner_fees_of(m, rest.take(k - start + 1)) is Err);
                        lemma_fees_err_extends(m, rest, k - start + 1);
                    }
                    return Err(BtcError::InvalidTransaction);
                },
            };
            assert(forall|q: int| 0 <= q < i + 1 ==> m.contains_key(#[trigger] ins[q].prev_transaction_output_hash));
            assert(input_sum(m, ins.take(i + 1)) <= u64::MAX);
            input_value = input_value + chain.utxos[pos].2.value;
            i = i + 1;
        }
        assert(ins.take(ins.len() as int) =~= ins);
        let output_value = sum_outputs(&t.outputs);
        if input_value < output_value {
            proof {
                assert(miner_fees_of(m, rest.take(k - start + 1)) is Err);
                lemma_fees_err_extends(m, rest, k - start + 1);
            }
            return Err(BtcError::InvalidTransaction);
        }
        assert(miner_fees_of(m, rest.take(k - start + 1)) matches Ok(f) && f <= u64::MAX);
        total = total + (input_value - output_value);
        k = k + 1;
    }
    assert(rest.take(rest.len() as int) =~= rest);
    Ok(total)
}

impl Block {
    /// The sum of the fees of this block's non-coinbase transactions; see
    /// `miner_fees_of`.
    pub fn calculate_miner_fees(&self, chain: &Blockchain) -> (r: Result<u64, BtcError>)
        requires
            chain.wf(),
            block_sums_fit(chain@.utxos, rest_txs(self@.transactions)),
        ensures
            r == (match miner_fees_of(chain@.utxos, rest_txs(self@.transactions)) {
                Ok(f) => Ok::<u64, BtcError>(f as u64),
                Err(e) => Err(e),
            }),
            r matches Ok(f) ==> miner_fees_of(chain@.utxos, rest_txs(self@.transactions)) == Ok::<nat, BtcError>(f as nat),
    {
        let start: usize = if self.transactions.len() == 0 { 0 } else { 1 };
        assert(rest_txs(self@.transactions) =~= txs_view(self.transactions@).skip(start as int));
        fees_from(chain, &self.transactions, start)
    }
}

impl Block {
    /// Checks the coinbase: no inputs, and outputs paying exactly the
    /// reward for `predicted_block_height` plus the fees; see
    /// `coinbase_check`.
    pub fn verify_coinbase_transaction(&self, predicted_block_height: u64, chain: &Blockchain) -> (r: Result<(), BtcError>)
        requires
            chain.wf(),
            self@.transactions.len() > 0,
            block_check_fits(chain@.utxos, self@, predicted_block_height),
        ensures
            r == coinbase_check(chain@.utxos, self@, predicted_block_height),
    {
        let coinbase = &self.transactions[0];
        assert(self@.transactions[0] == coinbase@);
        if coinbase.inputs.len() > 0 {
            return Err(BtcError::InvalidTransaction);
        }
        let miner_fees = match self.calculate_miner_fees(chain) {
            Ok(f) => f,
            Err(e) => return Err(e),
        };
        let halvings = #[verifier::truncate] ((predicted_block_height / crate::HALVING_INTERVAL) as u32);
        let block_reward = reward_at(halvings as u64);
        let total = sum_outputs(&coinbase.outputs);
        if total != block_reward + miner_fees {
            return Err(BtcError::InvalidTransaction);
        }
        Ok(())
    }

    /// Checks this block's transactions against the chain for
    /// `predicted_block_height`; see `block_txs_check`.
    pub fn verify_transactions(&self, predicted_block_height: u64, chain: &Blockchain) -> (r: Result<(), BtcError>)
        requires
            chain.wf(),
            block_check_fits(chain@.utxos, self@, predicted_block_height),
        ensures
            r == block_txs_check(chain@.utxos, self@, predicted_block_height),
    {
        if self.transactions.len() == 0 {
            return Err(BtcError::InvalidTransaction);
        }
        match self.verify_coinbase_transaction(predicted_block_height, chain) {
            Err(e) => return Err(e),
            Ok(()) => {},
        }
        let ghost m = chain@.utxos;
        let ghost rest = rest_txs(self@.transactions);
        let mut used: Vec<crate::hash::Hash> = Vec::new();
        let mut k: usize = 1;
        assert(hash_set(used@) =~= Set::<crate::hash::Hash>::empty());
        while k < self.transactions.len()
            invariant
                1 <= k <= self.transactions@.len(),
                rest == rest_txs(self@.transactions),
                rest.len() == self.transactions@.len() - 1,
                m == chain@.utxos,
                chain.wf(),
                block_sums_fit(m, rest),
                txs_check(m, rest.take(k - 1)) == Ok::<Set<crate::hash::Hash>, BtcError>(hash_set(used@)),
                coinbase_check(m, self@, predicted_block_height) == Ok::<(), BtcError>(()),
                miner_fees_of(m, rest) is Ok,
            decreases self.transactions.len() - k,
        {
            let t = &self.transactions[k];
            assert(rest[k - 1] == t@);
            assert(rest.take(k as int).drop_last() =~= rest.take(k - 1));
            assert(rest.take(k as int).last() == t@);
            let ghost ins = t@.inputs;
            let ghost used0 = hash_set(used@);
            proof { lemma_fees_ok_step(m, rest, k - 1); }
            assert(prefix_sums_fit(m, ins));
            assert(output_sum(t@.outputs) <= u64::MAX);
            assert(ins.take(0) =~= Seq::<InputView>::empty());
            let mut input_value: u64 = 0;
            let mut i: usize = 0;
            while i < t.inputs.len()
                invariant
                    i <= ins.len(),
                    ins == t@.inputs,
                    chain.wf(),
                    m == chain@.utxos,
                    prefix_sums_fit(m, ins),
                    forall|q: int| 0 <= q < i ==> m.contains_key(#[trigger] ins[q].prev_transaction_output_hash),
                    input_value == input_sum(m, ins.take(i as int)),
                    inputs_check(m, ins.take(i as int), used0) == Ok::<Set<crate::hash::Hash>, BtcError>(hash_set(used@)),
                    1 <= k < self.transactions@.len(),
                    rest == rest_txs(self@.transactions),
                    rest.len() == self.transactions@.len() - 1,
                    rest.take(k as int).drop_last() == rest.take(k - 1),
                    rest.take(k as int).last() == t@,
                    txs_check(m, rest.take(k - 1)) == Ok::<Set<crate::hash::Hash>, BtcError>(used0),
                    coinbase_check(m, self@, predicted_block_height) == Ok::<(), BtcError>(()),
                    miner_fees_of(m, rest) is Ok,
                    output_sum(t@.outputs) <= u64::MAX,
                decreases t.inputs.len() - i,
            {
                assert(ins.take(i + 1).drop_last() =~= ins.take(i as int));
                assert(ins.take(i + 1).last() == ins[i as int]);
                let h = &t.inputs[i].prev_transaction_output_hash;
                assert(ins[i as int].prev_transaction_output_hash == *h);
                let pos = match chain.find_utxo(h) {
                    Some(p) => p,
                    None => {
                        proof {
                            assert(inputs_check(m, ins.take(i + 1), used0) == Err::<Set<crate::hash::Hash>, BtcError>(BtcError::InvalidTransaction));
                            lemma_inputs_err_extends(m, ins, used0, i + 1);
                            assert(txs_check(m, rest.take(k as int)) == Err::<Set<crate::hash::Hash>, BtcError>(BtcError::InvalidTransaction));
                            lemma_txs_err_extends(m, rest, k as int);
                        }
                        return Err(BtcError::InvalidTransaction);
                    },
                };
                if contains_hash(&used, h) {
                    proof {
                        lemma_inputs_err_extends(m, ins, used0, i + 1);
                        lemma_txs_err_extends(m, rest, k as int);
                    }
                    return Err(BtcError::InvalidTransaction);
                }
                let prev_output = &chain.utxos[pos].2;
                assert(m[*h].1 == prev_output@);
                let prev_hash = prev_output.hash();
                if !t.inputs[i].signature.verify(&prev_hash, &prev_output.pubkey) {
                    proof {
                        assert(t.inputs@[i as int]@ == ins[i as int]);
                        lemma_inputs_err_extends(m, ins, used0, i + 1);
                        lemma_txs_err_extends(m, rest, k as int);
                    }
                    return Err(BtcError::InvalidSignature);
                }
                proof { assert(t.inputs@[i as int]@ == ins[i as int]); }
                assert(forall|q: int| 0 <= q < i + 1 ==> m.contains_key(#[trigger] ins[q].prev_transaction_output_hash));
                assert(input_sum(m, ins.take(i + 1)) <= u64::MAX);
                input_value = input_value + prev_output.value;
                let ghost before = used@;
                used.push(*h);
                assert forall|g: crate::hash::Hash| #[trigger] hash_set(used@).contains(g) <==> hash_set(before).insert(*h).contains(g) by {
                    if used@.contains(g) {
                        let j = choose|j: int| 0 <= j < used@.len() && used@[j] == g;
                        if j < before.len() {
                            assert(before[j] == g);
                        }
                    }
                    if before.contains(g) {
                        let j = choose|j: int| 0 <= j < before.len() && before[j] == g;
                        assert(used@[j] == g);
                    }
                    if g == *h {
                        assert(used@[before.len() as int] == *h);
                    }
                }
                assert(hash_set(used@) =~= hash_set(before).insert(*h));
                i = i + 1;
            }
            assert(ins.take(ins.len() as int) =~= ins);
            let output_value = sum_outputs(&t.outputs);
            assert(inputs_check(m, t@.inputs, used0) == Ok::<Set<crate::hash::Hash>, BtcError>(hash_set(used@)));
            if input_value < output_value {
                proof {
                    assert(txs_check(m, rest.take(k as int)) == Err::<Set<crate::hash::Hash>, BtcError>(BtcError::InvalidTransaction));
                    lemma_txs_err_extends(m, rest, k as int);
                }
                return Err(BtcError::InvalidTransaction);
            }
            assert(txs_check(m, rest.take(k as int)) == Ok::<Set<crate::hash::Hash>, BtcError>(hash_set(used@)));
            k = k + 1;
        }
        assert(rest.take(rest.len() as int) =~= rest);
        Ok(())
    }
}


impl Blockchain {
    /// Recomputes the unspent outputs from the blocks, all unflagged.
    pub fn rebuild_utxos(&mut self)
        requires
            old(self).wf(),
        ensures
            final(self).wf(),
            final(self)@ == (ChainView { utxos: utxos_of(old(self)@.blocks), ..old(self)@ }),
    {
        let ghost bv = self@.blocks;
        let mut v: Vec<(crate::hash::Hash, bool, TransactionOutput)> = Vec::new();
        assert(utxo_map(v@) =~= Map::<crate::hash::Hash, (bool, OutputView)>::empty());
        assert(bv.take(0) =~= Seq::<BlockView>::empty());
        let mut bi: usize = 0;
        while bi < self.blocks.len()
            invariant
                bi <= bv.len(),
                bv == self@.blocks,
                bv.len() == self.blocks@.len(),
                distinct_keys(v@),
                utxo_map(v@) == apply_blocks(Map::empty(), bv.take(bi as int)),
            decreases self.blocks.len() - bi,
        {
            let b = &self.blocks[bi];
            assert(bv[bi as int] == b@);
            assert(bv.take(bi + 1).drop_last() =~= bv.take(bi as int));
            let ghost base = utxo_map(v@);
            let ghost txs = b@.transactions;
            assert(txs.take(0) =~= Seq::<TxView>::empty());
            let mut ti: usize = 0;
            while ti < b.transactions.len()
                invariant
                    ti <= txs.len(),
                    txs == b@.transactions,
                    txs.len() == b.transactions@.len(),
                    distinct_keys(v@),
                    utxo_map(v@) == apply_txs(base, txs.take(ti as int)),
                decreases b.transactions.len() - ti,
            {
                let t = &b.transactions[ti];
                assert(txs[ti as int] == t@);
                assert(txs.take(ti + 1).drop_last() =~= txs.take(ti as int));
                let ghost m0 = utxo_map(v@);
                let ghost hs = spent_hashes(t@);
                assert(hs.take(0) =~= Seq::<crate::hash::Hash>::empty());
                let mut ii: usize = 0;
                while ii < t.inputs.len()
                    invariant
                        ii <= hs.len(),
                        hs == spent_hashes(t@),
                        hs.len() == t.inputs@.len(),
                        distinct_keys(v@),
                        utxo_map(v@) == remove_spent(m0, hs.take(ii as int)),
                    decreases t.inputs.len() - ii,
                {
                    assert(hs.take(ii + 1).drop_last() =~= hs.take(ii as int));
                    assert(hs[ii as int] == t.inputs@[ii as int].prev_transaction_output_hash);
                    utxo_remove(&mut v, &t.inputs[ii].prev_transaction_output_hash);
                    ii = ii + 1;
                }
                assert(hs.take(hs.len() as int) =~= hs);
                let ghost m1 = utxo_map(v@);
                let ghost outs = t@.outputs;
                assert(outs.take(0) =~= Seq::<OutputView>::empty());
                let mut oi: usize = 0;
                while oi < t.outputs.len()
                    invariant
                        oi <= outs.len(),
                        outs == t@.outputs,
                        outs.len() == t.outputs@.len(),
                        distinct_keys(v@),
                        utxo_map(v@) == add_outputs(m1, outs.take(oi as int)),
                    decreases t.outputs.len() - oi,
                {
                    assert(outs.take(oi + 1).drop_last() =~= outs.take(oi as int));
                    let o = &t.outputs[oi];
                    assert(outs[oi as int] == o@);
                    let oh = o.hash();
                    utxo_insert(&mut v, oh, false, o.copy());
                    oi = oi + 1;
                }
                assert(outs.take(outs.len() as int) =~= outs);
                ti = ti + 1;
            }
            assert(txs.take(txs.len() as int) =~= txs);
            bi = bi + 1;
        }
        assert(bv.take(bv.len() as int) =~= bv);
        self.utxos = v;
        assert(self@.blocks =~= old(self)@.blocks);
        assert(self@.mempool =~= old(self)@.mempool);
    }
}


impl Blockchain {
    /// Adjusts the target after every `DIFFICULTY_UPDATE_INTERVAL` blocks;
    /// see `retarget_value`.
    pub fn try_adjust_target(&mut self)
        requires
            old(self).wf(),
            retarget_fits(old(self)@.target@, old(self)@.blocks),
        ensures
            final(self).wf(),
            final(self)@.utxos == old(self)@.utxos,
            final(self)@.blocks == old(self)@.blocks,
            final(self)@.mempool == old(self)@.mempool,
            final(self)@.target@ == if retarget_due(old(self)@.blocks) {
                retarget_value(old(self)@.target@, old(self)@.blocks)
            } else {
                old(self)@.target@
            },
    {
        let ghost bv = self@.blocks;
        let n = self.blocks.len();
        if n == 0 {
            return;
        }
        if (n as u64) % crate::DIFFICULTY_UPDATE_INTERVAL != 0 {
            return;
        }
        let interval = crate::DIFFICULTY_UPDATE_INTERVAL as usize;
        assert(bv.len() % 50 == 0 && bv.len() > 0);
        assert(n >= interval);
        let start = self.blocks[n - interval].header.timestamp;
        let end = self.blocks[n - 1].header.timestamp;
        assert(bv[n - interval] == self.blocks@[n - interval]@);
        assert(bv[n - 1] == self.blocks@[n - 1]@);
        let d = end.nanos - start.nanos;
        let secs: u64 = if d < NANOS_PER_SECOND { 1 } else { (d / NANOS_PER_SECOND) as u64 };
        assert(secs == retarget_seconds(bv));
        let t = self.target;
        let five_hundred = U256::from_u64(500);
        let (q, r) = t.div_rem(&five_hundred);
        proof {
            lemma_scaled_split(t@, secs as nat);
            assert(r@ < 500);
            assert(r@ * secs < pow256_bound()) by (nonlinear_arith)
                requires r@ < 500, secs < 5_000_000_000_000_000_000u64;
        }
        let a = q.mul_u64(secs);
        let b = r.mul_u64(secs).div(&five_hundred);
        let mut scaled = a.add(&b);
        let quarter = t.div(&U256::from_u64(4));
        proof {
            assert(t@ * 4 < crate::u256::pow256()) by (nonlinear_arith)
                requires t@ <= crate::min_target_value();
        }
        let quad = t.mul_u64(4);
        if scaled.lt(&quarter) {
            scaled = quarter;
        } else if quad.lt(&scaled) {
            scaled = quad;
        }
        self.target = scaled.min(crate::min_target());
        assert(self@.blocks =~= old(self)@.blocks);
        assert(self@.mempool =~= old(self)@.mempool);
    }

    /// The reward for the next block: `5 * 10^9 >> (height / HALVING_INTERVAL)`.
    /// The shift must stay below 64.
    pub fn calculate_block_reward(&self) -> (r: u64)
        requires
            (self@.blocks.len() as u64) / crate::HALVING_INTERVAL < 64,
        ensures
            r == block_reward(self@.blocks.len() as u64),
    {
        let height = self.blocks.len() as u64;
        assert(self@.blocks.len() == self.blocks@.len());
        let halvings = height / crate::HALVING_INTERVAL;
        reward_at(halvings)
    }

    /// The number of blocks.
    pub fn block_height(&self) -> (h: u64)
        ensures
            h == self@.blocks.len() as u64,
    {
        assert(self@.blocks.len() == self.blocks@.len());
        self.blocks.len() as u64
    }

    /// The current target.
    pub fn target(&self) -> (t: U256)
        ensures
            t == self@.target,
    {
        self.target
    }
}

/// A bound that `500 * 5 * 10^18` stays under: `2^256`.
pub open spec fn pow256_bound() -> nat {
    crate::u256::pow256()
}


impl Blockchain {
    /// Runs the block checks; see `block_check`.
    fn check_block(&self, block: &Block) -> (r: Result<(), BtcError>)
        requires
            self.wf(),
            block_check_fits_chain(self@, block@),
        ensures
            r == block_check(self@, block@),
    {
        let n = self.blocks.len();
        assert(self@.blocks.len() == n);
        if n == 0 {
            if !block.header.prev_block_hash.equals(&crate::hash::Hash::zero()) {
                return Err(BtcError::InvalidBlock);
            }
            return Ok(());
        }
        let last = &self.blocks[n - 1];
        assert(self@.blocks.last() == last@);
        if !block.header.prev_block_hash.equals(&last.hash()) {
            return Err(BtcError::InvalidBlock);
        }
        if block.header.target != self.target {
            return Err(BtcError::InvalidBlock);
        }
        if !block.header.hash().matches_target(self.target) {
            return Err(BtcError::InvalidBlock);
        }
        let root = crate::chain::MerkleRoot::calculate(&block.transactions);
        if !root.0.equals(&block.header.merkle_root.0) {
            return Err(BtcError::InvalidMerkleRoot);
        }
        if block.header.timestamp.nanos <= last.header.timestamp.nanos {
            return Err(BtcError::InvalidBlock);
        }
        block.verify_transactions(self.block_height(), self)
    }

    /// Drops the mempool entries whose transactions `block` holds.
    fn drop_included(&mut self, block: &Block)
        requires
            old(self).wf(),
        ensures
            final(self).wf(),
            final(self)@ == (ChainView { mempool: outside_block(old(self)@.mempool, block@), ..old(self)@ }),
    {
        let ghost bv = block@;
        let mut hashes: Vec<crate::hash::Hash> = Vec::new();
        let mut k: usize = 0;
        while k < block.transactions.len()
            invariant
                k <= block.transactions@.len(),
                bv == block@,
                hashes@.len() == k,
                forall|j: int| 0 <= j < k ==> #[trigger] hashes@[j] == crate::chain::tx_hash(bv.transactions[j]),
            decreases block.transactions.len() - k,
        {
            assert(bv.transactions[k as int] == block.transactions@[k as int]@);
            hashes.push(block.transactions[k].hash());
            k = k + 1;
        }
        let ghost mp = self@.mempool;
        let mut kept: Vec<(Timestamp, Transaction)> = Vec::new();
        let mut i: usize = 0;
        while i < self.mempool.len()
            invariant
                i <= mp.len(),
                mp == self@.mempool,
                mp.len() == self.mempool@.len(),
                bv == block@,
                hashes@.len() == bv.transactions.len(),
                forall|j: int| 0 <= j < hashes@.len() ==> #[trigger] hashes@[j] == crate::chain::tx_hash(bv.transactions[j]),
                mempool_view(kept@) == outside_block(mp.take(i as int), bv),
            decreases self.mempool.len() - i,
        {
            assert(mp.take(i + 1).drop_last() =~= mp.take(i as int));
            let e = &self.mempool[i];
            assert(mp[i as int] == (e.0, e.1@));
            let h = e.1.hash();
            let mut found = false;
            let mut j: usize = 0;
            while j < hashes.len()
                invariant
                    j <= hashes@.len(),
                    hashes@.len() == bv.transactions.len(),
                    forall|q: int| 0 <= q < hashes@.len() ==> #[trigger] hashes@[q] == crate::chain::tx_hash(bv.transactions[q]),
                    found == exists|q: int| 0 <= q < j && crate::chain::tx_hash(#[trigger] bv.transactions[q]) == h,
                decreases hashes.len() - j,
            {
                if hashes[j].equals(&h) {
                    assert(crate::chain::tx_hash(bv.transactions[j as int]) == h);
                    found = true;
                }
                j = j + 1;
            }
            assert(found == in_block(bv, e.1@));
            if !found {
                let cp = (e.0, e.1.copy());
                let ghost prev = kept@;
                kept.push(cp);
                assert(mempool_view(kept@) =~= mempool_view(prev).push((cp.0, cp.1@)));
            }
            i = i + 1;
        }
        assert(mp.take(mp.len() as int) =~= mp);
        self.mempool = kept;
    }

    /// Flags everything the pending transactions spend.
    fn mark_pending(&mut self)
        requires
            old(self).wf(),
        ensures
            final(self).wf(),
            final(self)@ == (ChainView { utxos: pending_marks(old(self)@.utxos, old(self)@.mempool), ..old(self)@ }),
    {
        let ghost mp = self@.mempool;
        let ghost u0 = self@.utxos;
        let mut i: usize = 0;
        while i < self.mempool.len()
            invariant
                i <= mp.len(),
                mp == self@.mempool,
                mp.len() == self.mempool@.len(),
                self.wf(),
                self@ == (ChainView { utxos: pending_marks(u0, mp.take(i as int)), ..old(self)@ }),
            decreases self.mempool.len() - i,
        {
            assert(mp.take(i + 1).drop_last() =~= mp.take(i as int));
            let t = self.mempool[i].1.copy();
            assert(mp[i as int].1 == t@);
            self.mark_transaction_utxos(&t);
            i = i + 1;
        }
        assert(mp.take(mp.len() as int) =~= mp);
    }

    /// Adds `block` at `now` if it passes `block_check_at`: stale and
    /// included transactions leave the mempool, the unspent outputs are
    /// recomputed from the blocks with the pending spends flagged, and the
    /// target is adjusted.  A refused block changes nothing.
    pub fn add_block_at(&mut self, block: Block, now: Timestamp) -> (r: Result<(), BtcError>)
        requires
            old(self).wf(),
            block_check_fits_chain(old(self)@, block@),
            block_check(old(self)@, block@) is Ok ==> retarget_fits(old(self)@.target@, old(self)@.blocks.push(block@)),
        ensures
            final(self).wf(),
            r == block_check_at(old(self)@, block@, now),
            r is Err ==> final(self)@ == old(self)@,
            r is Ok ==> {
                let kept = outside_block(old(self)@.cleaned(now).mempool, block@);
                let blocks = old(self)@.blocks.push(block@);
                &&& final(self)@.blocks == blocks
                &&& final(self)@.mempool == kept
                &&& final(self)@.utxos == pending_marks(utxos_of(blocks), kept)
                &&& final(self)@.target@ == if retarget_due(blocks) {
                    retarget_value(old(self)@.target@, blocks)
                } else {
                    old(self)@.target@
                }
            },
    {
        if self.blocks.len() > 0 && exceeds_by(block.header.timestamp.nanos, now.nanos,
            crate::MAX_FUTURE_BLOCK_DRIFT_SECONDS as i128 * NANOS_PER_SECOND) {
            return Err(BtcError::InvalidBlock);
        }
        match self.check_block(&block) {
            Err(e) => return Err(e),
            Ok(()) => {},
        }
        let ghost bv = block@;
        self.cleanup_mempool(now);
        self.drop_included(&block);
        let ghost before = self.blocks@;
        self.blocks.push(block);
        assert(self@.blocks =~= old(self)@.blocks.push(bv));
        self.rebuild_utxos();
        self.mark_pending();
        self.try_adjust_target();
        Ok(())
    }

    /// Adds `block` now, as `add_block_at` does at the current time.
    pub fn add_block(&mut self, block: Block) -> (r: Result<(), BtcError>)
        requires
            old(self).wf(),
            block_check_fits_chain(old(self)@, block@),
            block_check(old(self)@, block@) is Ok ==> retarget_fits(old(self)@.target@, old(self)@.blocks.push(block@)),
        ensures
            final(self).wf(),
            r is Err ==> final(self)@ == old(self)@,
            r is Ok ==> final(self)@.blocks == old(self)@.blocks.push(block@),
            exists|now: Timestamp| #[trigger] block_check_at(old(self)@, block@, now) == r
                && (r is Ok ==> added(old(self)@, block@, now, final(self)@)),
    {
        let now = Timestamp::now();
        let ghost bv = block@;
        let r = self.add_block_at(block, now);
        proof {
            if r is Ok {
                assert(added(old(self)@, bv, now, self@));
            }
            assert(block_check_at(old(self)@, bv, now) == r);
        }
        r
    }
}


/// Whether `after` is the chain `c` with `b` added at `now`: the mempool
/// cleaned at `now` less what the block holds, the unspent outputs
/// recomputed from the blocks with the pending spends flagged, and the
/// target adjusted where a retarget is due.
pub open spec fn added(c: ChainView, b: BlockView, now: Timestamp, after: ChainView) -> bool {
    let kept = outside_block(c.cleaned(now).mempool, b);
    let blocks = c.blocks.push(b);
    &&& after.blocks == blocks
    &&& after.mempool == kept
    &&& after.utxos == pending_marks(utxos_of(blocks), kept)
    &&& after.target@ == if retarget_due(blocks) { retarget_value(c.target@, blocks) } else { c.target@ }
}

/// The length of a transaction's encoding.
fn encoded_len(t: &Transaction) -> (n: usize)
    ensures
        n == crate::chain::tx_bytes(t@).len(),
{
    let mut buf: Vec<u8> = Vec::new();
    crate::chain::encode_tx(&mut buf, t);
    assert(buf@ =~= crate::chain::tx_bytes(t@));
    buf.len()
}

impl Blockchain {
    /// Copies of the leading mempool transactions that fit within
    /// `BLOCK_BYTE_CAP` encoded bytes.
    fn select_template_txs(&self) -> (r: Vec<Transaction>)
        ensures
            txs_view(r@) == template_txs(self@.mempool),
    {
        let ghost mp = self@.mempool;
        let mut r: Vec<Transaction> = Vec::new();
        let mut budget: usize = crate::BLOCK_BYTE_CAP;
        let mut i: usize = 0;
        let mut full = false;
        assert(mp.skip(0) =~= mp);
        assert(txs_view(r@) =~= mp.take(0).map_values(|e: (Timestamp, TxView)| e.1));
        while i < self.mempool.len() && !full
            invariant
                i <= mp.len(),
                mp == self@.mempool,
                mp.len() == self.mempool@.len(),
                fitting_count(mp, crate::BLOCK_BYTE_CAP as nat) == i + fitting_count(mp.skip(i as int), budget as nat),
                full ==> fitting_count(mp.skip(i as int), budget as nat) == 0,
                txs_view(r@) == mp.take(i as int).map_values(|e: (Timestamp, TxView)| e.1),
            decreases self.mempool.len() - i, if full { 0int } else { 1int },
        {
            let t = &self.mempool[i].1;
            assert(mp[i as int].1 == t@);
            let size = encoded_len(t);
            let ghost rest = mp.skip(i as int);
            assert(rest[0] == mp[i as int]);
            assert(rest.drop_first() =~= mp.skip(i + 1));
            proof { lemma_fitting_step(rest, budget as nat); }
            if size > budget {
                full = true;
            } else {
                budget = budget - size;
                let c = t.copy();
                let ghost prev = r@;
                r.push(c);
                assert(txs_view(r@) =~= txs_view(prev).push(c@));
                i = i + 1;
                assert(txs_view(r@) =~= mp.take(i as int).map_values(|e: (Timestamp, TxView)| e.1));
            }
        }
        proof {
            if !full {
                assert(i == mp.len());
                assert(mp.skip(i as int) =~= Seq::<(Timestamp, TxView)>::empty());
            }
        }
        r
    }

    /// A block template at `now` paying the reward and the fees of the
    /// pending transactions it takes to `pubkey` under `unique_id`; an
    /// error where the fees of those transactions are one.
    pub fn create_block_template_with(&self, pubkey: crate::crypto::PublicKey, now: Timestamp, unique_id: u128) -> (r: Result<Block, BtcError>)
        requires
            self.wf(),
            block_sums_fit(self@.utxos, template_txs(self@.mempool)),
            miner_fees_of(self@.utxos, template_txs(self@.mempool)) matches Ok(f)
                ==> (self@.blocks.len() as u64) / crate::HALVING_INTERVAL < 64
                    && block_reward(self@.blocks.len() as u64) + f <= u64::MAX,
        ensures
            r is Err <==> miner_fees_of(self@.utxos, template_txs(self@.mempool)) is Err,
            r matches Ok(b) ==> template_built(self@, pubkey@, now, unique_id, b@),
    {
        let mut transactions = self.select_template_txs();
        assert(txs_view(transactions@).skip(0) =~= txs_view(transactions@));
        let fees = match fees_from(self, &transactions, 0) {
            Ok(f) => f,
            Err(e) => return Err(e),
        };
        let reward = self.calculate_block_reward();
        let coinbase = Transaction {
            inputs: Vec::new(),
            outputs: vec![TransactionOutput { value: reward + fees, unique_id, pubkey }],
        };
        let ghost cv = coinbase@;
        let ghost before = transactions@;
        transactions.insert(0, coinbase);
        let merkle_root = crate::chain::MerkleRoot::calculate(&transactions);
        let n = self.blocks.len();
        let prev_block_hash = if n == 0 {
            crate::hash::Hash::zero()
        } else {
            self.blocks[n - 1].hash()
        };
        proof {
            assert(self@.blocks.len() == n);
            if n > 0 {
                assert(self@.blocks.last() == self.blocks@[n - 1]@);
            }
            assert(cv.inputs =~= Seq::<InputView>::empty());
            assert(cv.outputs =~= seq![OutputView { value: (reward + fees) as u64, unique_id, pubkey: pubkey@ }]);
            assert(txs_view(transactions@) =~= seq![cv] + txs_view(before));
        }
        Ok(Block {
            header: BlockHeader { timestamp: now, nonce: 0, prev_block_hash, merkle_root, target: self.target },
            transactions,
        })
    }
}


/// Whether `b` is the template for the chain `c` built at `now`: its
/// coinbase (no inputs, one output under `unique_id`) pays the block
/// reward and the fees of the pending transactions it takes to `pubkey`,
/// those transactions follow in mempool order, and the header names the
/// last block (or the zero hash), the chain's target, nonce zero and the
/// Merkle root of the transactions.
pub open spec fn template_built(c: ChainView, pubkey: Seq<u8>, now: Timestamp, unique_id: u128, b: BlockView) -> bool {
    let fees = miner_fees_of(c.utxos, template_txs(c.mempool))->Ok_0;
    &&& b.transactions == seq![coinbase_view((block_reward(c.blocks.len() as u64) + fees) as u64, unique_id, pubkey)]
            + template_txs(c.mempool)
    &&& b.header.timestamp == now
    &&& b.header.nonce == 0
    &&& b.header.target == c.target
    &&& b.header.merkle_root.0 == crate::chain::merkle_root_of_txs(b.transactions)
    &&& if c.blocks.len() == 0 {
            b.header.prev_block_hash@ == 0
        } else {
            b.header.prev_block_hash == crate::chain::block_hash(c.blocks.last())
        }
}

impl Blockchain {
    /// A block template for now, as `create_block_template_with` builds
    /// it, its coinbase output under a fresh random id.
    pub fn create_block_template(&self, pubkey: crate::crypto::PublicKey) -> (r: Result<Block, BtcError>)
        requires
            self.wf(),
            block_sums_fit(self@.utxos, template_txs(self@.mempool)),
            miner_fees_of(self@.utxos, template_txs(self@.mempool)) matches Ok(f)
                ==> (self@.blocks.len() as u64) / crate::HALVING_INTERVAL < 64
                    && block_reward(self@.blocks.len() as u64) + f <= u64::MAX,
        ensures
            r is Err <==> miner_fees_of(self@.utxos, template_txs(self@.mempool)) is Err,
            r matches Ok(b) ==> exists|now: Timestamp, id: u128| #[trigger] template_built(self@, pubkey@, now, id, b@),
    {
        let now = Timestamp::now();
        let id = crate::crypto::new_uuid();
        let r = self.create_block_template_with(pubkey, now, id);
        proof {
            if r is Ok {
                assert(template_built(self@, pubkey@, now, id, r->Ok_0@));
            }
        }
        r
    }

    /// The blocks, oldest first.
    pub fn blocks(&self) -> (r: &Vec<Block>)
        ensures
            blocks_view(r@) == self@.blocks,
    {
        &self.blocks
    }

    /// The unspent outputs: hash, flag, output.
    pub fn utxos(&self) -> (r: &Vec<(crate::hash::Hash, bool, TransactionOutput)>)
        ensures
            utxo_map(r@) == self@.utxos,
            r@ == self.utxo_list(),
    {
        &self.utxos
    }

    /// The pending transactions with the instants they were admitted.
    pub fn mempool(&self) -> (r: &Vec<(Timestamp, Transaction)>)
        ensures
            mempool_view(r@) == self@.mempool,
    {
        &self.mempool
    }
}


/// Whether a list is ordered by non-increasing fee.
pub open spec fn fee_sorted(m: UtxoMap, s: Seq<(Timestamp, TxView)>) -> bool {
    forall|i: int, j: int| 0 <= i < j < s.len() ==> fee_key(m, (#[trigger] s[i]).1) >= fee_key(m, (#[trigger] s[j]).1)
}

/// Inserting by fee adds exactly the one entry and keeps the order.
pub proof fn lemma_insert_by_fee(m: UtxoMap, s: Seq<(Timestamp, TxView)>, e: (Timestamp, TxView))
    requires
        fee_sorted(m, s),
    ensures
        insert_by_fee(m, s, e).len() == s.len() + 1,
        fee_sorted(m, insert_by_fee(m, s, e)),
        forall|i: int| 0 <= i < insert_by_fee(m, s, e).len() ==>
            (#[trigger] insert_by_fee(m, s, e)[i] == e || s.contains(insert_by_fee(m, s, e)[i])),
    decreases s.len(),
{
    if s.len() > 0 {
        let r = insert_by_fee(m, s, e);
        if fee_key(m, s.last().1) >= fee_key(m, e.1) {
            assert forall|i: int, j: int| 0 <= i < j < r.len() implies fee_key(m, (#[trigger] r[i]).1) >= fee_key(m, (#[trigger] r[j]).1) by {
                if j == s.len() {
                    if i < s.len() - 1 {
                        assert(fee_key(m, s[i].1) >= fee_key(m, s[s.len() - 1].1));
                    }
                }
            }
            assert forall|i: int| 0 <= i < r.len() implies (#[trigger] r[i] == e || s.contains(r[i])) by {
                if i < s.len() {
                    assert(s[i] == r[i]);
                }
            }
        } else {
            let p = insert_by_fee(m, s.drop_last(), e);
            assert(fee_sorted(m, s.drop_last())) by {
                assert forall|i: int, j: int| 0 <= i < j < s.drop_last().len() implies
                    fee_key(m, (#[trigger] s.drop_last()[i]).1) >= fee_key(m, (#[trigger] s.drop_last()[j]).1) by {
                    assert(fee_key(m, s[i].1) >= fee_key(m, s[j].1));
                }
            }
            lemma_insert_by_fee(m, s.drop_last(), e);
            assert forall|i: int| 0 <= i < p.len() implies fee_key(m, (#[trigger] p[i]).1) >= fee_key(m, s.last().1) by {
                if p[i] != e {
                    let k = choose|k: int| 0 <= k < s.drop_last().len() && s.drop_last()[k] == p[i];
                    assert(fee_key(m, s[k].1) >= fee_key(m, s[s.len() - 1].1));
                }
            }
            assert forall|i: int, j: int| 0 <= i < j < r.len() implies fee_key(m, (#[trigger] r[i]).1) >= fee_key(m, (#[trigger] r[j]).1) by {
                if j < p.len() {
                    assert(r[i] == p[i] && r[j] == p[j]);
                } else {
                    assert(r[i] == p[i]);
                }
            }
            assert forall|i: int| 0 <= i < r.len() implies (#[trigger] r[i] == e || s.contains(r[i])) by {
                if i < p.len() {
                    assert(r[i] == p[i]);
                    if p[i] != e {
                        let k = choose|k: int| 0 <= k < s.drop_last().len() && s.drop_last()[k] == p[i];
                        assert(s[k] == p[i]);
                    }
                } else {
                    assert(r[i] == s[s.len() - 1]);
                }
            }
        }
    }
}

/// The mempool order: sorting by fee keeps every entry, in order of
/// non-increasing fee.
pub proof fn lemma_sort_by_fee(m: UtxoMap, s: Seq<(Timestamp, TxView)>)
    ensures
        sort_by_fee(m, s).len() == s.len(),
        fee_sorted(m, sort_by_fee(m, s)),
        forall|i: int| 0 <= i < s.len() ==> s.contains(#[trigger] sort_by_fee(m, s)[i]),
    decreases s.len(),
{
    if s.len() > 0 {
        let p = sort_by_fee(m, s.drop_last());
        lemma_sort_by_fee(m, s.drop_last());
        lemma_insert_by_fee(m, p, s.last());
        let r = sort_by_fee(m, s);
        assert forall|i: int| 0 <= i < s.len() implies s.contains(#[trigger] r[i]) by {
            if r[i] != s.last() {
                let k = choose|k: int| 0 <= k < p.len() && p[k] == r[i];
                assert(s.drop_last().contains(p[k]));
                let q = choose|q: int| 0 <= q < s.drop_last().len() && s.drop_last()[q] == p[k];
                assert(s[q] == r[i]);
            } else {
                assert(s[s.len() - 1] == r[i]);
            }
        }
    } else {
        assert(fee_sorted(m, sort_by_fee(m, s)));
    }
}

/// The reward halves every `HALVING_INTERVAL` blocks (rounding down).
pub proof fn lemma_reward_halves(h: u64)
    requires
        h + crate::HALVING_INTERVAL <= u64::MAX,
        ((h + crate::HALVING_INTERVAL) as u64) / crate::HALVING_INTERVAL < 64,
    ensures
        block_reward((h + crate::HALVING_INTERVAL) as u64) == block_reward(h) / 2,
{
    let e = (h / crate::HALVING_INTERVAL) as nat;
    assert(((h + crate::HALVING_INTERVAL) as u64) / crate::HALVING_INTERVAL == h / crate::HALVING_INTERVAL + 1);
    assert(((((h + crate::HALVING_INTERVAL) as u64) / crate::HALVING_INTERVAL) as u32) as nat == e + 1);
    assert(((h / crate::HALVING_INTERVAL) as u32) as nat == e);
    vstd::arithmetic::power2::lemma_pow2_unfold(e + 1);
    vstd::arithmetic::power2::lemma_pow2_pos(e);
    vstd::arithmetic::div_mod::lemma_div_denominator(5_000_000_000int, vstd::arithmetic::power2::pow2(e) as int, 2);
    assert(vstd::arithmetic::power2::pow2(e) * 2 == vstd::arithmetic::power2::pow2(e + 1)) by (nonlinear_arith)
        requires vstd::arithmetic::power2::pow2(e + 1) == 2 * vstd::arithmetic::power2::pow2(e);
}

/// An adjustment never moves the target by more than a factor of four,
/// nor past the minimum difficulty.
pub proof fn lemma_retarget_bounded(t: nat, bs: Seq<BlockView>)
    requires
        t <= crate::min_target_value(),
    ensures
        t / 4 <= retarget_value(t, bs) <= t * 4,
        retarget_value(t, bs) <= crate::min_target_value(),
{
}

/// Flags only ever come from pending spends: outputs recomputed from the
/// blocks are all unflagged.
pub proof fn lemma_rebuilt_unflagged(bs: Seq<BlockView>)
    ensures
        forall|h: crate::hash::Hash| #[trigger] utxos_of(bs).contains_key(h) ==> !utxos_of(bs)[h].0,
    decreases bs.len(),
{
    lemma_apply_blocks_unflagged(Map::empty(), bs);
}

/// Applying blocks to unflagged outputs leaves them unflagged.
pub proof fn lemma_apply_blocks_unflagged(m: UtxoMap, bs: Seq<BlockView>)
    requires
        forall|h: crate::hash::Hash| #[trigger] m.contains_key(h) ==> !m[h].0,
    ensures
        forall|h: crate::hash::Hash| #[trigger] apply_blocks(m, bs).contains_key(h) ==> !apply_blocks(m, bs)[h].0,
    decreases bs.len(),
{
    if bs.len() > 0 {
        lemma_apply_blocks_unflagged(m, bs.drop_last());
        lemma_apply_txs_unflagged(apply_blocks(m, bs.drop_last()), bs.last().transactions);
    }
}

/// Applying transactions to unflagged outputs leaves them unflagged.
pub proof fn lemma_apply_txs_unflagged(m: UtxoMap, txs: Seq<TxView>)
    requires
        forall|h: crate::hash::Hash| #[trigger] m.contains_key(h) ==> !m[h].0,
    ensures
        forall|h: crate::hash::Hash| #[trigger] apply_txs(m, txs).contains_key(h) ==> !apply_txs(m, txs)[h].0,
    decreases txs.len(),
{
    if txs.len() > 0 {
        lemma_apply_txs_unflagged(m, txs.drop_last());
        let p = apply_txs(m, txs.drop_last());
        lemma_remove_spent_unflagged(p, spent_hashes(txs.last()));
        lemma_add_outputs_unflagged(remove_spent(p, spent_hashes(txs.last())), txs.last().outputs);
    }
}

/// Removing outputs keeps the rest unflagged.
pub proof fn lemma_remove_spent_unflagged(m: UtxoMap, hs: Seq<crate::hash::Hash>)
    requires
        forall|h: crate::hash::Hash| #[trigger] m.contains_key(h) ==> !m[h].0,
    ensures
        forall|h: crate::hash::Hash| #[trigger] remove_spent(m, hs).contains_key(h) ==> !remove_spent(m, hs)[h].0,
    decreases hs.len(),
{
    if hs.len() > 0 {
        lemma_remove_spent_unflagged(m, hs.drop_last());
        let p = remove_spent(m, hs.drop_last());
        assert forall|h: crate::hash::Hash| #[trigger] p.remove(hs.last()).contains_key(h) implies !p.remove(hs.last())[h].0 by {
            assert(p.contains_key(h));
        }
    }
}

/// Adding unflagged outputs keeps everything unflagged.
pub proof fn lemma_add_outputs_unflagged(m: UtxoMap, outs: Seq<OutputView>)
    requires
        forall|h: crate::hash::Hash| #[trigger] m.contains_key(h) ==> !m[h].0,
    ensures
        forall|h: crate::hash::Hash| #[trigger] add_outputs(m, outs).contains_key(h) ==> !add_outputs(m, outs)[h].0,
    decreases outs.len(),
{
    if outs.len() > 0 {
        lemma_add_outputs_unflagged(m, outs.drop_last());
        let p = add_outputs(m, outs.drop_last());
        let k = output_hash(outs.last());
        assert forall|h: crate::hash::Hash| #[trigger] p.insert(k, (false, outs.last())).contains_key(h)
            implies !p.insert(k, (false, outs.last()))[h].0 by {
            if h != k {
                assert(p.contains_key(h));
            }
        }
    }
}

/// The Merkle root of a single transaction is its own hash.
pub proof fn lemma_merkle_single(t: TxView)
    ensures
        crate::chain::merkle_root_of_txs(seq![t]) == crate::chain::tx_hash(t),
{
    assert(seq![t].map_values(|x: TxView| crate::chain::tx_hash(x)) =~= seq![crate::chain::tx_hash(t)]);
}

/// Whether the values of `outs` sum to at most `u64::MAX`.
fn outputs_fit(outs: &Vec<TransactionOutput>) -> (b: bool)
    ensures
        b == (output_sum(crate::chain::outputs_view(outs@)) <= u64::MAX),
{
    let ghost ov = crate::chain::outputs_view(outs@);
    let mut acc: u64 = 0;
    let mut i: usize = 0;
    while i < outs.len()
        invariant
            i <= outs@.len(),
            ov == crate::chain::outputs_view(outs@),
            acc == output_sum(ov.take(i as int)),
        decreases outs.len() - i,
    {
        assert(ov.take(i + 1).drop_last() =~= ov.take(i as int));
        let v = outs[i].value;
        if v > u64::MAX - acc {
            proof { lemma_output_sum_prefix(ov, i + 1); }
            return false;
        }
        acc = acc + v;
        i = i + 1;
    }
    assert(ov.take(ov.len() as int) =~= ov);
    true
}

impl Blockchain {
    /// Whether every prefix of `t`'s inputs that spends only unspent
    /// outputs sums to at most `u64::MAX`; see `prefix_sums_fit`.
    fn inputs_fit(&self, t: &Transaction) -> (b: bool)
        requires
            self.wf(),
        ensures
            b == prefix_sums_fit(self@.utxos, t@.inputs),
    {
        let ghost m = self@.utxos;
        let ghost ins = t@.inputs;
        let mut acc: u64 = 0;
        let mut i: usize = 0;
        while i < t.inputs.len()
            invariant
                i <= ins.len(),
                ins == t@.inputs,
                m == self@.utxos,
                self.wf(),
                forall|q: int| 0 <= q < i ==> m.contains_key(#[trigger] ins[q].prev_transaction_output_hash),
                acc == input_sum(m, ins.take(i as int)),
                forall|n: int| 0 <= n <= i ==> input_sum(m, #[trigger] ins.take(n)) <= u64::MAX,
            decreases t.inputs.len() - i,
        {
            let h = &t.inputs[i].prev_transaction_output_hash;
            assert(ins[i as int].prev_transaction_output_hash == *h);
            let k = match self.find_utxo(h) {
                None => {
                    assert forall|n: int| 0 <= n <= ins.len()
                        && (forall|q: int| 0 <= q < n ==> m.contains_key(#[trigger] ins[q].prev_transaction_output_hash))
                        implies input_sum(m, #[trigger] ins.take(n)) <= u64::MAX by {
                        if n > i {
                            assert(m.contains_key(ins[i as int].prev_transaction_output_hash));
                        }
                    }
                    return true;
                },
                Some(k) => k,
            };
            assert(ins.take(i + 1).drop_last() =~= ins.take(i as int));
            assert(ins.take(i + 1).last() == ins[i as int]);
            let v = self.utxos[k].2.value;
            assert(m[*h].1.value == v);
            if v > u64::MAX - acc {
                assert(input_sum(m, ins.take(i + 1)) > u64::MAX);
                assert(forall|q: int| 0 <= q < i + 1 ==> m.contains_key(#[trigger] ins[q].prev_transaction_output_hash));
                return false;
            }
            acc = acc + v;
            i = i + 1;
        }
        assert(ins.take(ins.len() as int) =~= ins);
        true
    }

    /// Whether all of `t`'s inputs spend unspent outputs.
    fn inputs_known(&self, t: &Transaction) -> (b: bool)
        requires
            self.wf(),
        ensures
            b == forall|q: int| 0 <= q < t@.inputs.len() ==> self@.utxos.contains_key(#[trigger] t@.inputs[q].prev_transaction_output_hash),
    {
        let ghost ins = t@.inputs;
        let mut i: usize = 0;
        while i < t.inputs.len()
            invariant
                i <= ins.len(),
                ins == t@.inputs,
                self.wf(),
                forall|q: int| 0 <= q < i ==> self@.utxos.contains_key(#[trigger] ins[q].prev_transaction_output_hash),
            decreases t.inputs.len() - i,
        {
            let h = &t.inputs[i].prev_transaction_output_hash;
            assert(ins[i as int].prev_transaction_output_hash == *h);
            if self.find_utxo(h).is_none() {
                return false;
            }
            i = i + 1;
        }
        true
    }
}

/// Once the fees of a prefix are an error, so are those of every longer
/// prefix.
proof fn lemma_fees_err_after(m: UtxoMap, txs: Seq<TxView>, j: int)
    requires
        0 <= j <= txs.len(),
        miner_fees_of(m, txs.take(j)) is Err,
    ensures
        forall|n: int| j <= n <= txs.len() ==> (#[trigger] miner_fees_of(m, txs.take(n))) is Err,
{
    assert forall|n: int| j <= n <= txs.len() implies (#[trigger] miner_fees_of(m, txs.take(n))) is Err by {
        assert(txs.take(n).take(j) =~= txs.take(j));
        lemma_fees_err_extends(m, txs.take(n), j);
    }
}

impl Blockchain {
    /// Whether summing the fees of `txs` from position `start` on fits in
    /// a `u64` as far as it goes; see `block_sums_fit`.
    fn block_sums_check(&self, txs: &Vec<Transaction>, start: usize) -> (b: bool)
        requires
            self.wf(),
            start <= txs@.len(),
        ensures
            b == block_sums_fit(self@.utxos, txs_view(txs@).skip(start as int)),
    {
        let ghost m = self@.utxos;
        let ghost rest = txs_view(txs@).skip(start as int);
        let mut total: u64 = 0;
        let mut k: usize = start;
        assert(rest.take(0) =~= Seq::<TxView>::empty());
        while k < txs.len()
            invariant
                start <= k <= txs@.len(),
                rest == txs_view(txs@).skip(start as int),
                rest.len() == txs@.len() - start,
                m == self@.utxos,
                self.wf(),
                forall|j: int| 0 <= j < k - start ==>
                    ((#[trigger] miner_fees_of(m, rest.take(j))) matches Ok(f) ==> fee_step_fits(m, rest[j], f)),
                miner_fees_of(m, rest.take(k - start)) == Ok::<nat, BtcError>(total as nat),
            decreases txs.len() - k,
        {
            let t = &txs[k];
            let ghost j = k - start;
            assert(rest[j] == t@);
            assert(rest.take(j + 1).drop_last() =~= rest.take(j));
            assert(rest.take(j + 1).last() == t@);
            if !self.inputs_fit(t) {
                return false;
            }
            if !self.inputs_known(t) {
                proof {
                    assert(miner_fees_of(m, rest.take(j + 1)) is Err);
                    lemma_fees_err_after(m, rest, j + 1);
                }
                return true;
            }
            if !outputs_fit(&t.outputs) {
                return false;
            }
            assert(t@.inputs.take(t@.inputs.len() as int) =~= t@.inputs);
            assert(input_sum(m, t@.inputs.take(t@.inputs.len() as int)) <= u64::MAX);
            match self.transaction_fee(t) {
                Err(_) => {
                    proof {
                        assert(miner_fees_of(m, rest.take(j + 1)) is Err);
                        lemma_fees_err_after(m, rest, j + 1);
                    }
                    return true;
                },
                Ok(fee) => {
                    if fee > u64::MAX - total {
                        return false;
                    }
                    assert(miner_fees_of(m, rest.take(j + 1)) == Ok::<nat, BtcError>((total + fee) as nat));
                    total = total + fee;
                },
            }
            k = k + 1;
        }
        assert(rest.take(rest.len() as int) =~= rest);
        true
    }
}

impl Blockchain {
    /// Whether the checks of `block` at the next height can run without a
    /// panic; see `block_check_fits`.
    fn block_fits_check(&self, block: &Block) -> (b: bool)
        requires
            self.wf(),
        ensures
            b == block_check_fits(self@.utxos, block@, self@.blocks.len() as u64),
    {
        if block.transactions.len() == 0 {
            return true;
        }
        let ghost bv = block@;
        assert(bv.transactions[0] == block.transactions@[0]@);
        if block.transactions[0].inputs.len() > 0 {
            return true;
        }
        assert(rest_txs(bv.transactions) =~= txs_view(block.transactions@).skip(1));
        if !self.block_sums_check(&block.transactions, 1) {
            return false;
        }
        match fees_from(self, &block.transactions, 1) {
            Err(_) => true,
            Ok(f) => {
                let height = self.block_height();
                let halvings = #[verifier::truncate] ((height / crate::HALVING_INTERVAL) as u32);
                if halvings >= 64 {
                    return false;
                }
                if !outputs_fit(&block.transactions[0].outputs) {
                    return false;
                }
                let reward = reward_at(halvings as u64);
                f <= u64::MAX - reward
            },
        }
    }

    /// Whether `block_check` of `block` can run without a panic; see
    /// `block_check_fits_chain`.
    fn fits_chain_check(&self, block: &Block) -> (b: bool)
        requires
            self.wf(),
        ensures
            b == block_check_fits_chain(self@, block@),
    {
        let n = self.blocks.len();
        assert(self@.blocks.len() == n);
        if n == 0 {
            return true;
        }
        let last = &self.blocks[n - 1];
        assert(self@.blocks.last() == last@);
        if !block.header.prev_block_hash.equals(&last.hash()) || block.header.target != self.target
            || !block.header.hash().matches_target(self.target) {
            return true;
        }
        if block.transactions.len() == 0 {
            return false;
        }
        let root = crate::chain::MerkleRoot::calculate(&block.transactions);
        if !root.0.equals(&block.header.merkle_root.0) || block.header.timestamp.nanos <= last.header.timestamp.nanos {
            return true;
        }
        self.block_fits_check(block)
    }
}

/// For `s > 0`: `q * s <= m` exactly when `q <= m / s`.
proof fn lemma_mul_le_iff(q: nat, s: nat, m: nat)
    requires
        s > 0,
    ensures
        (q * s <= m) == (q <= m / s),
{
    vstd::arithmetic::div_mod::lemma_fundamental_div_mod(m as int, s as int);
    vstd::arithmetic::div_mod::lemma_mod_pos_bound(m as int, s as int);
    let d = m / s;
    if q <= d {
        assert(q * s <= d * s) by (nonlinear_arith) requires q <= d, s > 0;
        assert(d * s <= m) by (nonlinear_arith) requires m == s * d + m % s, m % s >= 0;
    } else {
        assert(q * s >= (d + 1) * s) by (nonlinear_arith) requires q >= d + 1, s > 0;
        assert((d + 1) * s == s * d + s) by (nonlinear_arith);
    }
}

impl Blockchain {
    /// Whether the target adjustment after adding `block` can run without
    /// a panic; see `retarget_fits`.
    fn retarget_check(&self, block: &Block) -> (b: bool)
        requires
            self.wf(),
        ensures
            b == retarget_fits(self@.target@, self@.blocks.push(block@)),
    {
        let ghost bs = self@.blocks.push(block@);
        let n = self.blocks.len();
        assert(self@.blocks.len() == n);
        assert(bs.len() == n + 1);
        if n % 50 != 49 {
            assert((n + 1) % 50 != 0);
            return true;
        }
        assert(bs.len() % 50 == 0);
        let first = &self.blocks[n - 49];
        assert(bs[bs.len() - crate::DIFFICULTY_UPDATE_INTERVAL] == first@);
        assert(bs.last() == block@);
        let start = first.header.timestamp.nanos;
        let end = block.header.timestamp.nanos;
        if start < crate::time::MIN_UTC_NANOS || start > crate::time::MAX_UTC_NANOS
            || end < crate::time::MIN_UTC_NANOS || end > crate::time::MAX_UTC_NANOS {
            return false;
        }
        let d = end - start;
        let secs128: i128 = if d < NANOS_PER_SECOND { 1 } else { d / NANOS_PER_SECOND };
        assert(secs128 == retarget_seconds(bs));
        if secs128 >= 5_000_000_000_000_000_000 {
            return false;
        }
        let secs = secs128 as u64;
        let t = self.target;
        let five_hundred = U256::from_u64(500);
        let (q, r) = t.div_rem(&five_hundred);
        proof {
            lemma_scaled_split(t@, secs as nat);
            lemma_mul_le_iff(q@, secs as nat, (crate::u256::pow256() - 1) as nat);
            assert(r@ * secs < pow256_bound()) by (nonlinear_arith)
                requires r@ < 500, secs < 5_000_000_000_000_000_000u64;
        }
        let bound = U256::max_value().div(&U256::from_u64(secs));
        if !q.le(&bound) {
            assert(t@ * secs / 500 >= q@ * secs);
            return false;
        }
        let a = q.mul_u64(secs);
        let c = r.mul_u64(secs).div(&five_hundred);
        a.checked_add(&c).is_some()
    }
}

/// Whether adding `b` to `c` runs without a panic: its checks fit (see
/// `block_check_fits_chain`), and where they pass, so does the target
/// adjustment that follows (see `retarget_fits`).
pub open spec fn add_block_fits(c: ChainView, b: BlockView) -> bool {
    &&& block_check_fits_chain(c, b)
    &&& block_check(c, b) is Ok ==> retarget_fits(c.target@, c.blocks.push(b))
}

impl Blockchain {
    /// Adds `block` now, as `add_block` does, where that runs without a
    /// panic (`add_block_fits`); otherwise answers `None` and changes
    /// nothing.
    pub fn try_add_block(&mut self, block: Block) -> (r: Option<Result<(), BtcError>>)
        requires
            old(self).wf(),
        ensures
            final(self).wf(),
            r is None <==> !add_block_fits(old(self)@, block@),
            r is None ==> final(self)@ == old(self)@,
            r matches Some(res) ==> {
                &&& res is Err ==> final(self)@ == old(self)@
                &&& exists|now: Timestamp| #[trigger] block_check_at(old(self)@, block@, now) == res
                    && (res is Ok ==> added(old(self)@, block@, now, final(self)@))
            },
    {
        if !self.fits_chain_check(&block) {
            return None;
        }
        let passes = match self.check_block(&block) {
            Ok(()) => true,
            Err(_) => false,
        };
        if passes && !self.retarget_check(&block) {
            return None;
        }
        Some(self.add_block(block))
    }
}

/// A transaction is admitted only if every input is validly signed by the
/// key of the output it spends; one with a bad signature on unspent,
/// distinct inputs is answered `InvalidSignature` and leaves the chain as
/// dropping the entries stale at `now` leaves it.
pub proof fn lemma_admission_needs_signatures(c: ChainView, t: TxView, now: Timestamp)
    ensures
        admission(c, t, now).1 is Ok ==> signatures_ok(c.cleaned(now).utxos, t.inputs),
        inputs_ok(c.cleaned(now).utxos, t.inputs) && !signatures_ok(c.cleaned(now).utxos, t.inputs)
            ==> admission(c, t, now) == (c.cleaned(now), Err::<(), BtcError>(BtcError::InvalidSignature)),
{
}

/// A block accepted after the first declares the chain's current target
/// and has a header hash that meets it.
pub proof fn lemma_accepted_block_meets_target(c: ChainView, b: BlockView, now: Timestamp)
    requires
        c.blocks.len() > 0,
        block_check_at(c, b, now) is Ok,
    ensures
        b.header.target == c.target,
        crate::chain::header_hash(b.header)@ <= c.target@,
        b.header.timestamp.nanos - now.nanos <= crate::MAX_FUTURE_BLOCK_DRIFT_SECONDS * NANOS_PER_SECOND,
{
}

impl Blockchain {
    /// Whether `t`'s fee can be computed without a panic; see `fee_fits`.
    fn fee_fits_check(&self, t: &Transaction) -> (b: bool)
        requires
            self.wf(),
        ensures
            b == fee_fits(self@.utxos, t@),
    {
        let ghost m = self@.utxos;
        let ghost ins = t@.inputs;
        if !self.inputs_known(t) {
            return false;
        }
        let inputs = self.inputs_fit(t);
        proof {
            assert(ins.take(ins.len() as int) =~= ins);
            if input_sum(m, ins) <= u64::MAX {
                assert forall|n: int| 0 <= n <= ins.len()
                    && (forall|q: int| 0 <= q < n ==> m.contains_key(#[trigger] ins[q].prev_transaction_output_hash))
                    implies input_sum(m, #[trigger] ins.take(n)) <= u64::MAX by {
                    lemma_input_sum_prefix(m, ins, n);
                }
            }
        }
        inputs && outputs_fit(&t.outputs)
    }
}


/// What dropping positions keeps of a prefix of the mempool is a prefix
/// of what it keeps of the whole.
proof fn lemma_without_prefix(mp: Seq<(Timestamp, TxView)>, cs: Set<int>, n: int)
    requires
        0 <= n <= mp.len(),
    ensures
        without_positions(mp.take(n), cs).len() <= without_positions(mp, cs).len(),
        forall|k: int| 0 <= k < without_positions(mp.take(n), cs).len()
            ==> without_positions(mp, cs)[k] == #[trigger] without_positions(mp.take(n), cs)[k],
    decreases mp.len(),
{
    if n == mp.len() {
        assert(mp.take(n) =~= mp);
    } else {
        assert(mp.drop_last().take(n) =~= mp.take(n));
        lemma_without_prefix(mp.drop_last(), cs, n);
    }
}

/// Dropping the stale entries twice at one instant drops nothing more.
proof fn lemma_fresh_idempotent(mp: Seq<(Timestamp, TxView)>, now: Timestamp)
    ensures
        fresh_entries(fresh_entries(mp, now), now) == fresh_entries(mp, now),
        stale_inputs(fresh_entries(mp, now), now) == Seq::<crate::hash::Hash>::empty(),
    decreases mp.len(),
{
    if mp.len() > 0 {
        lemma_fresh_idempotent(mp.drop_last(), now);
        if !is_stale(mp.last(), now) {
            let f = fresh_entries(mp.drop_last(), now).push(mp.last());
            assert(f.drop_last() =~= fresh_entries(mp.drop_last(), now));
            assert(f.last() == mp.last());
        }
    }
}

/// A chain cleaned at `now` is left as it is by cleaning it again.
proof fn lemma_cleaned_idempotent(c: ChainView, now: Timestamp)
    ensures
        c.cleaned(now).cleaned(now) == c.cleaned(now),
{
    lemma_fresh_idempotent(c.mempool, now);
    let s1 = c.cleaned(now);
    assert(set_marks(s1.utxos, Seq::<crate::hash::Hash>::empty(), false) == s1.utxos);
}

/// The scan of inputs that never name `h` leaves the entry of `h` alone.
proof fn lemma_scan_flag_untouched(m: UtxoMap, mp: Seq<(Timestamp, TxView)>, ins: Seq<InputView>, fee: u64, h: crate::hash::Hash)
    requires
        forall|j: int| 0 <= j < ins.len() ==> (#[trigger] ins[j]).prev_transaction_output_hash != h,
    ensures
        conflict_scan(m, mp, ins, fee).0.contains_key(h) == m.contains_key(h),
        m.contains_key(h) ==> conflict_scan(m, mp, ins, fee).0[h] == m[h],
    decreases ins.len(),
{
    if ins.len() > 0 {
        assert forall|j: int| 0 <= j < ins.drop_last().len() implies (#[trigger] ins.drop_last()[j]).prev_transaction_output_hash != h by {
            assert(ins.drop_last()[j] == ins[j]);
        }
        lemma_scan_flag_untouched(m, mp, ins.drop_last(), fee, h);
        assert(ins.last() == ins[ins.len() - 1]);
    }
}

/// Once the scan has failed, no later input is read.
proof fn lemma_scan_reads_after_failure(m: UtxoMap, mp: Seq<(Timestamp, TxView)>, ins: Seq<InputView>, fee: u64, n: int)
    requires
        0 <= n <= ins.len(),
        conflict_scan(m, mp, ins.take(n), fee).2,
    ensures
        forall|j: int| n <= j < ins.len() ==> #[trigger] scan_read_fits(m, mp, ins, fee, j),
{
    assert forall|j: int| n <= j < ins.len() implies #[trigger] scan_read_fits(m, mp, ins, fee, j) by {
        assert(ins.take(j).take(n) =~= ins.take(n));
        lemma_scan_failed_extends(m, mp, ins.take(j), fee, n);
    }
}

impl Blockchain {
    /// Follows the conflict scan of `t`'s inputs without changing anything:
    /// `None` where a fee it reads does not fit, else whether it fails
    /// and, where it passes, the conflicting positions.
    fn scan_reads_check(&self, t: &Transaction, fee: u64) -> (r: Option<(bool, Vec<usize>)>)
        requires
            self.wf(),
            inputs_ok(self@.utxos, t@.inputs),
        ensures
            r is None <==> !scan_fees_fit(self@.utxos, self@.mempool, t@.inputs, fee),
            r matches Some(p) ==> p.0 == conflict_scan(self@.utxos, self@.mempool, t@.inputs, fee).2
                && (!p.0 ==> positions_set(p.1@) == conflict_scan(self@.utxos, self@.mempool, t@.inputs, fee).1),
    {
        let ghost m = self@.utxos;
        let ghost mp = self@.mempool;
        let ghost ins = t@.inputs;
        let mut c: Vec<usize> = Vec::new();
        let mut i: usize = 0;
        assert(positions_set(c@) =~= Set::<int>::empty());
        assert(ins.take(0) =~= Seq::<InputView>::empty());
        while i < t.inputs.len()
            invariant
                i <= ins.len(),
                ins == t@.inputs,
                m == self@.utxos,
                mp == self@.mempool,
                self.wf(),
                inputs_ok(m, ins),
                !conflict_scan(m, mp, ins.take(i as int), fee).2,
                positions_set(c@) == conflict_scan(m, mp, ins.take(i as int), fee).1,
                forall|j: int| 0 <= j < i ==> #[trigger] scan_read_fits(m, mp, ins, fee, j),
            decreases t.inputs.len() - i,
        {
            let ghost pre = ins.take(i as int);
            assert(ins.take(i + 1).drop_last() =~= pre);
            assert(ins.take(i + 1).last() == ins[i as int]);
            let h = &t.inputs[i].prev_transaction_output_hash;
            assert(ins[i as int].prev_transaction_output_hash == *h);
            proof {
                assert forall|j: int| 0 <= j < pre.len() implies (#[trigger] pre[j]).prev_transaction_output_hash != *h by {
                    assert(pre[j] == ins[j]);
                }
                lemma_scan_flag_untouched(m, mp, pre, fee, *h);
                lemma_scan_keeps(m, mp, pre, fee);
            }
            assert(m.contains_key(*h));
            let pos = match self.find_utxo(h) {
                Some(p) => p,
                None => {
                    proof { assert(false); }
                    return None;
                },
            };
            if self.utxos[pos].1 {
                match self.find_mempool_index_spending(h) {
                    Some(idx) => {
                        proof { lemma_first_spender_range(mp, *h); }
                        assert(self.mempool@[idx as int].1@ == mp[idx as int].1);
                        if !self.fee_fits_check(&self.mempool[idx].1) {
                            assert(!scan_read_fits(m, mp, ins, fee, i as int));
                            return None;
                        }
                        assert(scan_read_fits(m, mp, ins, fee, i as int));
                        proof { lemma_fee_transfer(m, conflict_scan(m, mp, pre, fee).0, mp[idx as int].1); }
                        let failed = match self.transaction_fee(&self.mempool[idx].1) {
                            Err(_) => true,
                            Ok(old_fee) => fee <= old_fee,
                        };
                        if failed {
                            proof {
                                assert(conflict_scan(m, mp, ins.take(i + 1), fee).2);
                                lemma_scan_failed_extends(m, mp, ins, fee, i + 1);
                                lemma_scan_reads_after_failure(m, mp, ins, fee, i + 1);
                            }
                            return Some((true, c));
                        }
                        if !contains_index(&c, idx) {
                            let ghost before = c@;
                            c.push(idx);
                            assert forall|k: int| #[trigger] positions_set(c@).contains(k)
                                <==> positions_set(before).insert(idx as int).contains(k) by {
                                if positions_set(c@).contains(k) {
                                    let j = choose|j: int| 0 <= j < c@.len() && (#[trigger] c@[j]) as int == k;
                                    if j < before.len() {
                                        assert(before[j] == c@[j]);
                                    }
                                }
                                if positions_set(before).contains(k) {
                                    let j = choose|j: int| 0 <= j < before.len() && (#[trigger] before[j]) as int == k;
                                    assert(c@[j] == before[j]);
                                }
                                if k == idx as int {
                                    assert(c@[before.len() as int] == idx);
                                }
                            }
                            assert(positions_set(c@) =~= positions_set(before).insert(idx as int));
                        } else {
                            assert(positions_set(c@).insert(idx as int) =~= positions_set(c@));
                        }
                    },
                    None => {},
                }
            }
            assert(scan_read_fits(m, mp, ins, fee, i as int));
            i = i + 1;
        }
        assert(ins.take(ins.len() as int) =~= ins);
        Some((false, c))
    }

    /// Whether every entry left by dropping the positions in `c` has a fee
    /// that fits.
    fn survivors_fit(&self, c: &Vec<usize>) -> (b: bool)
        requires
            self.wf(),
        ensures
            b == (forall|k: int| 0 <= k < without_positions(self@.mempool, positions_set(c@)).len()
                ==> fee_fits(self@.utxos, (#[trigger] without_positions(self@.mempool, positions_set(c@))[k]).1)),
    {
        let ghost mp = self@.mempool;
        let ghost cs = positions_set(c@);
        let mut i: usize = 0;
        assert(mp.take(0) =~= Seq::<(Timestamp, TxView)>::empty());
        while i < self.mempool.len()
            invariant
                i <= mp.len(),
                mp == self@.mempool,
                mp.len() == self.mempool@.len(),
                cs == positions_set(c@),
                self.wf(),
                forall|k: int| 0 <= k < without_positions(mp.take(i as int), cs).len()
                    ==> fee_fits(self@.utxos, (#[trigger] without_positions(mp.take(i as int), cs)[k]).1),
            decreases self.mempool.len() - i,
        {
            let ghost w = without_positions(mp.take(i as int), cs);
            assert(mp.take(i + 1).drop_last() =~= mp.take(i as int));
            assert(mp.take(i + 1).last() == mp[i as int]);
            if !contains_index(c, i) {
                assert(mp[i as int].1 == self.mempool@[i as int].1@);
                assert(without_positions(mp.take(i + 1), cs) == w.push(mp[i as int]));
                if !self.fee_fits_check(&self.mempool[i].1) {
                    proof {
                        lemma_without_prefix(mp, cs, i + 1);
                        assert(without_positions(mp.take(i + 1), cs)[w.len() as int] == mp[i as int]);
                        assert(without_positions(mp, cs)[w.len() as int] == mp[i as int]);
                    }
                    return false;
                }
            }
            i = i + 1;
        }
        assert(mp.take(mp.len() as int) =~= mp);
        true
    }

    /// Whether admitting `t` at `now` runs without a panic, on a chain
    /// already cleaned at `now`; see `admission_safe`.
    fn admission_safe_check(&self, t: &Transaction, now: Timestamp) -> (b: bool)
        requires
            self.wf(),
            self@.cleaned(now) == self@,
        ensures
            b == admission_safe(self@, t@, now),
    {
        if !self.check_inputs(t) {
            return true;
        }
        if !self.fee_fits_check(t) {
            return false;
        }
        if !self.check_signatures(t) {
            return true;
        }
        let fee = match self.transaction_fee(t) {
            Err(_) => return true,
            Ok(f) => f,
        };
        match self.scan_reads_check(t, fee) {
            None => false,
            Some((failed, c)) => failed || self.survivors_fit(&c),
        }
    }
}

/// Admitting at `now` runs without a panic exactly where it does after
/// the stale entries go, and the answer is the same.
proof fn lemma_admission_after_cleaning(c: ChainView, t: TxView, now: Timestamp)
    ensures
        admission_safe(c.cleaned(now), t, now) == admission_safe(c, t, now),
        admission(c.cleaned(now), t, now) == admission(c, t, now),
{
    lemma_cleaned_idempotent(c, now);
}

impl Blockchain {
    /// Admits `t` now, as `add_to_mempool` does, where that runs without a
    /// panic at the time it read (`admission_safe`); otherwise answers
    /// `None` with only the stale entries dropped.
    pub fn try_add_to_mempool(&mut self, t: Transaction) -> (r: Option<Result<(), BtcError>>)
        requires
            old(self).wf(),
        ensures
            final(self).wf(),
            exists|now: Timestamp| {
                &&& (r is None <==> !#[trigger] admission_safe(old(self)@, t@, now))
                &&& r is None ==> final(self)@ == old(self)@.cleaned(now)
                &&& r matches Some(res) ==> (final(self)@, res) == admission(old(self)@, t@, now)
            },
    {
        let now = Timestamp::now();
        let ghost tv = t@;
        self.cleanup_mempool(now);
        proof {
            lemma_cleaned_idempotent(old(self)@, now);
            lemma_admission_after_cleaning(old(self)@, tv, now);
        }
        if !self.admission_safe_check(&t, now) {
            return None;
        }
        let res = self.add_to_mempool_at(t, now);
        Some(res)
    }
}

/// Whether a block template for `c` can be built without a panic:
/// summing the fees of the pending transactions it takes fits as far as
/// it goes, and where they are no error, the exponent of the halving is
/// below 64 and the reward plus the fees fits.
pub open spec fn template_fits(c: ChainView) -> bool {
    &&& block_sums_fit(c.utxos, template_txs(c.mempool))
    &&& miner_fees_of(c.utxos, template_txs(c.mempool)) matches Ok(f)
            ==> (c.blocks.len() as u64) / crate::HALVING_INTERVAL < 64
                && block_reward(c.blocks.len() as u64) + f <= u64::MAX
}

impl Blockchain {
    /// A block template for now, as `create_block_template` builds it,
    /// where that runs without a panic (`template_fits`); otherwise `None`.
    pub fn try_create_block_template(&self, pubkey: crate::crypto::PublicKey) -> (r: Option<Result<Block, BtcError>>)
        requires
            self.wf(),
        ensures
            r is None <==> !template_fits(self@),
            r matches Some(res) ==> {
                &&& res is Err <==> miner_fees_of(self@.utxos, template_txs(self@.mempool)) is Err
                &&& res matches Ok(b) ==> exists|now: Timestamp, id: u128| #[trigger] template_built(self@, pubkey@, now, id, b@)
            },
    {
        let txs = self.select_template_txs();
        assert(txs_view(txs@).skip(0) =~= txs_view(txs@));
        if !self.block_sums_check(&txs, 0) {
            return None;
        }
        match fees_from(self, &txs, 0) {
            Ok(f) => {
                let height = self.block_height();
                if height / crate::HALVING_INTERVAL >= 64 {
                    return None;
                }
                let reward = self.calculate_block_reward();
                if f > u64::MAX - reward {
                    return None;
                }
            },
            Err(_) => {},
        }
        Some(self.create_block_template(pubkey))
    }
}

/// When the last adjustment interval took exactly the ideal time
/// (`IDEAL_BLOCK_TIME * DIFFICULTY_UPDATE_INTERVAL` seconds from its first
/// block to its last), the target is left as it was.
pub proof fn lemma_retarget_on_time_keeps_target(t: nat, bs: Seq<BlockView>)
    requires
        retarget_due(bs),
        t <= crate::min_target_value(),
        bs.last().header.timestamp.nanos - bs[bs.len() - crate::DIFFICULTY_UPDATE_INTERVAL].header.timestamp.nanos
            == 500 * NANOS_PER_SECOND,
    ensures
        retarget_value(t, bs) == t,
{
    assert(retarget_seconds(bs) == 500);
    assert(t * 500 / 500 == t) by (nonlinear_arith);
    assert(t / 4 <= t);
}

/// An interval that took twice the ideal time (1000 seconds) doubles the
/// target, where the doubled target is still within the minimum
/// difficulty.
pub proof fn lemma_retarget_twice_slower_doubles(t: nat, bs: Seq<BlockView>)
    requires
        retarget_due(bs),
        t * 2 <= crate::min_target_value(),
        bs.last().header.timestamp.nanos - bs[bs.len() - crate::DIFFICULTY_UPDATE_INTERVAL].header.timestamp.nanos
            == 1000 * NANOS_PER_SECOND,
    ensures
        retarget_value(t, bs) == t * 2,
{
    assert(retarget_seconds(bs) == 1000);
    assert(t * 1000 / 500 == t * 2) by (nonlinear_arith);
}

/// A slower interval never gives a harder target: between two chains
/// due for adjustment from the same target, the one whose last interval
/// (first to last timestamp) took at least as long gets a target at least
/// as large.
pub proof fn lemma_retarget_slower_is_easier(t: nat, bs1: Seq<BlockView>, bs2: Seq<BlockView>)
    requires
        retarget_due(bs1),
        retarget_due(bs2),
        bs1.last().header.timestamp.nanos - bs1[bs1.len() - crate::DIFFICULTY_UPDATE_INTERVAL].header.timestamp.nanos
            <= bs2.last().header.timestamp.nanos - bs2[bs2.len() - crate::DIFFICULTY_UPDATE_INTERVAL].header.timestamp.nanos,
    ensures
        retarget_value(t, bs1) <= retarget_value(t, bs2),
{
    let d1 = bs1.last().header.timestamp.nanos - bs1[bs1.len() - crate::DIFFICULTY_UPDATE_INTERVAL].header.timestamp.nanos;
    let d2 = bs2.last().header.timestamp.nanos - bs2[bs2.len() - crate::DIFFICULTY_UPDATE_INTERVAL].header.timestamp.nanos;
    let s1 = retarget_seconds(bs1);
    let s2 = retarget_seconds(bs2);
    if d1 >= NANOS_PER_SECOND {
        vstd::arithmetic::div_mod::lemma_div_is_ordered(d1, d2, NANOS_PER_SECOND as int);
    } else if d2 >= NANOS_PER_SECOND {
        vstd::arithmetic::div_mod::lemma_div_is_ordered(NANOS_PER_SECOND as int, d2, NANOS_PER_SECOND as int);
    }
    assert(s1 <= s2);
    assert(t * s1 <= t * s2) by (nonlinear_arith) requires s1 <= s2;
    vstd::arithmetic::div_mod::lemma_div_is_ordered((t * s1) as int, (t * s2) as int, 500);
}

/// Dropping the stale entries at `now` keeps exactly the entries at most
/// `MAX_MEMPOOL_TRANSACTION_AGE` seconds older than `now`: everything kept
/// was in the mempool and is that young, and everything that young is
/// kept.
pub proof fn lemma_cleanup_keeps_the_young(mp: Seq<(Timestamp, TxView)>, now: Timestamp)
    ensures
        forall|k: int| 0 <= k < fresh_entries(mp, now).len() ==> {
            &&& mp.contains(#[trigger] fresh_entries(mp, now)[k])
            &&& now.nanos - fresh_entries(mp, now)[k].0.nanos <= crate::MAX_MEMPOOL_TRANSACTION_AGE * NANOS_PER_SECOND
        },
        forall|j: int| 0 <= j < mp.len() && now.nanos - (#[trigger] mp[j]).0.nanos <= crate::MAX_MEMPOOL_TRANSACTION_AGE * NANOS_PER_SECOND
            ==> fresh_entries(mp, now).contains(mp[j]),
    decreases mp.len(),
{
    lemma_fresh_from(mp, now);
    if mp.len() > 0 {
        let p = mp.drop_last();
        lemma_cleanup_keeps_the_young(p, now);
        let f = fresh_entries(mp, now);
        let fp = fresh_entries(p, now);
        assert forall|k: int| 0 <= k < f.len() implies
            now.nanos - (#[trigger] f[k]).0.nanos <= crate::MAX_MEMPOOL_TRANSACTION_AGE * NANOS_PER_SECOND by {
            if k < fp.len() {
                assert(f[k] == fp[k]);
            }
        }
        assert forall|j: int| 0 <= j < mp.len() && now.nanos - (#[trigger] mp[j]).0.nanos <= crate::MAX_MEMPOOL_TRANSACTION_AGE * NANOS_PER_SECOND
            implies f.contains(mp[j]) by {
            if j < p.len() {
                assert(p[j] == mp[j]);
                assert(fp.contains(p[j]));
                let q = choose|q: int| 0 <= q < fp.len() && fp[q] == p[j];
                assert(f[q] == fp[q]);
            } else {
                assert(mp[j] == mp.last());
                assert(f[f.len() - 1] == mp.last());
            }
        }
    }
}

/// After cleanup at `now`, the pending transactions are exactly the
/// young entries of the mempool (see `lemma_cleanup_keeps_the_young`): an
/// entry older than `MAX_MEMPOOL_TRANSACTION_AGE` seconds is gone.
pub proof fn lemma_cleanup_drops_the_old(c: ChainView, now: Timestamp, e: (Timestamp, TxView))
    requires
        c.mempool.contains(e),
        now.nanos - e.0.nanos > crate::MAX_MEMPOOL_TRANSACTION_AGE * NANOS_PER_SECOND,
    ensures
        !c.cleaned(now).mempool.contains(e),
{
    lemma_cleanup_keeps_the_young(c.mempool, now);
    if c.cleaned(now).mempool.contains(e) {
        let k = choose|k: int| 0 <= k < c.cleaned(now).mempool.len() && c.cleaned(now).mempool[k] == e;
        assert(fresh_entries(c.mempool, now)[k] == e);
    }
}

/// Setting the flags of `hs` leaves every one of them set so (where it is
/// an unspent output) and keeps which outputs are unspent.
proof fn lemma_set_marks_sets(m: UtxoMap, hs: Seq<crate::hash::Hash>, flag: bool, h: crate::hash::Hash)
    requires
        hs.contains(h),
        m.contains_key(h),
    ensures
        set_marks(m, hs, flag).contains_key(h),
        set_marks(m, hs, flag)[h].0 == flag,
    decreases hs.len(),
{
    lemma_set_marks_keeps(m, hs, flag);
    if hs.last() != h {
        let j = choose|j: int| 0 <= j < hs.len() && hs[j] == h;
        assert(hs.drop_last()[j] == h);
        lemma_set_marks_sets(m, hs.drop_last(), flag, h);
        lemma_set_marks_keeps(m, hs.drop_last(), flag);
    } else {
        lemma_set_marks_keeps(m, hs.drop_last(), flag);
    }
}

/// What a stale entry spends is among the stale inputs.
proof fn lemma_stale_inputs_cover(mp: Seq<(Timestamp, TxView)>, now: Timestamp, j: int, h: crate::hash::Hash)
    requires
        0 <= j < mp.len(),
        is_stale(mp[j], now),
        spends(mp[j].1, h),
    ensures
        stale_inputs(mp, now).contains(h),
    decreases mp.len(),
{
    if j == mp.len() - 1 {
        let q = choose|q: int| 0 <= q < mp[j].1.inputs.len() && (#[trigger] mp[j].1.inputs[q]).prev_transaction_output_hash == h;
        let prev = stale_inputs(mp.drop_last(), now);
        assert(spent_hashes(mp.last().1)[q] == h);
        assert((prev + spent_hashes(mp.last().1))[prev.len() + q] == h);
    } else {
        assert(mp.drop_last()[j] == mp[j]);
        lemma_stale_inputs_cover(mp.drop_last(), now, j, h);
        let prev = stale_inputs(mp.drop_last(), now);
        let q = choose|q: int| 0 <= q < prev.len() && prev[q] == h;
        if is_stale(mp.last(), now) {
            assert((prev + spent_hashes(mp.last().1))[q] == h);
        }
    }
}

/// Cleanup at `now` clears the flag of every unspent output that an entry
/// older than `MAX_MEMPOOL_TRANSACTION_AGE` seconds spent.
pub proof fn lemma_cleanup_unmarks_the_old(c: ChainView, now: Timestamp, j: int, h: crate::hash::Hash)
    requires
        0 <= j < c.mempool.len(),
        now.nanos - c.mempool[j].0.nanos > crate::MAX_MEMPOOL_TRANSACTION_AGE * NANOS_PER_SECOND,
        spends(c.mempool[j].1, h),
        c.utxos.contains_key(h),
    ensures
        c.cleaned(now).utxos.contains_key(h),
        !c.cleaned(now).utxos[h].0,
{
    lemma_stale_inputs_cover(c.mempool, now, j, h);
    lemma_set_marks_sets(c.utxos, stale_inputs(c.mempool, now), false, h);
}

/// An interval of at least four times the ideal time (2000 seconds)
/// makes the target four times easier, or the minimum difficulty where
/// that is lower.
pub proof fn lemma_retarget_very_slow_quadruples(t: nat, bs: Seq<BlockView>)
    requires
        retarget_due(bs),
        bs.last().header.timestamp.nanos - bs[bs.len() - crate::DIFFICULTY_UPDATE_INTERVAL].header.timestamp.nanos
            >= 2000 * NANOS_PER_SECOND,
    ensures
        retarget_value(t, bs) == if t * 4 <= crate::min_target_value() { t * 4 } else { crate::min_target_value() },
{
    let d = bs.last().header.timestamp.nanos - bs[bs.len() - crate::DIFFICULTY_UPDATE_INTERVAL].header.timestamp.nanos;
    vstd::arithmetic::div_mod::lemma_div_is_ordered(2000 * NANOS_PER_SECOND, d, NANOS_PER_SECOND as int);
    let secs = retarget_seconds(bs);
    assert(secs >= 2000);
    assert(t * secs >= t * 2000) by (nonlinear_arith) requires secs >= 2000;
    vstd::arithmetic::div_mod::lemma_div_is_ordered((t * 2000) as int, (t * secs) as int, 500);
    assert(t * 2000 / 500 == t * 4) by (nonlinear_arith);
}

/// An interval shorter than a quarter of the ideal time (125 seconds)
/// makes the target four times harder, for a target within the minimum
/// difficulty.
pub proof fn lemma_retarget_very_fast_quarters(t: nat, bs: Seq<BlockView>)
    requires
        retarget_due(bs),
        t <= crate::min_target_value(),
        bs.last().header.timestamp.nanos - bs[bs.len() - crate::DIFFICULTY_UPDATE_INTERVAL].header.timestamp.nanos
            < 125 * NANOS_PER_SECOND,
    ensures
        retarget_value(t, bs) == t / 4,
{
    let d = bs.last().header.timestamp.nanos - bs[bs.len() - crate::DIFFICULTY_UPDATE_INTERVAL].header.timestamp.nanos;
    if d >= NANOS_PER_SECOND {
        vstd::arithmetic::div_mod::lemma_div_is_ordered(d, 125 * NANOS_PER_SECOND - 1, NANOS_PER_SECOND as int);
    }
    let secs = retarget_seconds(bs);
    assert(secs <= 124);
    assert(t * secs <= t * 125) by (nonlinear_arith) requires secs <= 124;
    vstd::arithmetic::div_mod::lemma_div_is_ordered((t * secs) as int, (t * 125) as int, 500);
    assert(t * 125 / 500 == t / 4) by (nonlinear_arith);
}

} // verus!
