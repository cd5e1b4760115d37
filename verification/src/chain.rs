//! Transactions, blocks and their hashes.
//!
//! Every hash here is the SHA-256 digest of a fixed byte encoding of the
//! value (see `output_bytes`, `tx_bytes`, `header_bytes`, `block_bytes`):
//! little-endian integers, length-prefixed byte strings and counts.
use vstd::prelude::*;
use crate::crypto::{PublicKey, Signature};
use crate::hash::{digest_of};
use crate::time::Timestamp;
use crate::u256::U256;

verus! {

/// The little-endian bytes of a `u64`.
pub open spec fn u64_le(x: u64) -> Seq<u8> {
    Seq::new(8, |i: int| ((x >> ((8 * i) as u64)) & 0xff) as u8)
}

/// The little-endian bytes of a `u128`.
pub open spec fn u128_le(x: u128) -> Seq<u8> {
    Seq::new(16, |i: int| ((x >> ((8 * i) as u128)) & 0xff) as u8)
}

/// The 32 bytes of a hash: its low half, then its high half, each
/// little-endian.
pub open spec fn hash_le(h: crate::hash::Hash) -> Seq<u8> {
    u128_le(h.0.lo) + u128_le(h.0.hi)
}

/// A byte string with its length in front.
pub open spec fn prefixed(s: Seq<u8>) -> Seq<u8> {
    u64_le(s.len() as u64) + s
}

/// Appends the little-endian bytes of `x`.
pub fn put_u64(buf: &mut Vec<u8>, x: u64)
    ensures
        final(buf)@ == old(buf)@ + u64_le(x),
{
    let ghost start = buf@;
    let mut i: u64 = 0;
    while i < 8
        invariant
            i <= 8,
            buf@ == start + u64_le(x).take(i as int),
        decreases 8 - i,
    {
        buf.push(((x >> (8 * i)) & 0xff) as u8);
        i = i + 1;
        assert(buf@ =~= start + u64_le(x).take(i as int));
    }
    assert(u64_le(x).take(8) =~= u64_le(x));
}

/// Appends the little-endian bytes of `x`.
pub fn put_u128(buf: &mut Vec<u8>, x: u128)
    ensures
        final(buf)@ == old(buf)@ + u128_le(x),
{
    let ghost start = buf@;
    let mut i: u128 = 0;
    while i < 16
        invariant
            i <= 16,
            buf@ == start + u128_le(x).take(i as int),
        decreases 16 - i,
    {
        buf.push(((x >> (8 * i)) & 0xff) as u8);
        i = i + 1;
        assert(buf@ =~= start + u128_le(x).take(i as int));
    }
    assert(u128_le(x).take(16) =~= u128_le(x));
}

/// Appends a hash.
pub fn put_hash(buf: &mut Vec<u8>, h: &crate::hash::Hash)
    ensures
        final(buf)@ == old(buf)@ + hash_le(*h),
{
    let ghost start = buf@;
    put_u128(buf, h.0.lo);
    put_u128(buf, h.0.hi);
    assert(buf@ =~= start + hash_le(*h));
}

/// Appends a byte string with its length in front.
pub fn put_prefixed(buf: &mut Vec<u8>, s: &[u8])
    ensures
        final(buf)@ == old(buf)@ + prefixed(s@),
{
    let ghost start = buf@;
    put_u64(buf, s.len() as u64);
    let ghost mid = buf@;
    let mut i: usize = 0;
    while i < s.len()
        invariant
            i <= s@.len(),
            buf@ == mid + s@.take(i as int),
        decreases s.len() - i,
    {
        buf.push(s[i]);
        i = i + 1;
        assert(buf@ =~= mid + s@.take(i as int));
    }
    assert(s@.take(s@.len() as int) =~= s@);
    assert(buf@ =~= start + prefixed(s@));
}

/// A coin: `value` base units locked to `pubkey`, told apart from equal
/// coins by `unique_id`.
#[derive(Debug)]
pub struct TransactionOutput {
    pub value: u64,
    pub unique_id: u128,
    pub pubkey: PublicKey,
}

/// What a `TransactionOutput` holds.
pub struct OutputView {
    pub value: u64,
    pub unique_id: u128,
    pub pubkey: Seq<u8>,
}

impl View for TransactionOutput {
    type V = OutputView;

    open spec fn view(&self) -> OutputView {
        OutputView { value: self.value, unique_id: self.unique_id, pubkey: self.pubkey@ }
    }
}

/// A spend of an earlier output, named by its hash and signed by the key
/// it is locked to.
#[derive(Debug)]
pub struct TransactionInput {
    pub prev_transaction_output_hash: crate::hash::Hash,
    pub signature: Signature,
}

/// What a `TransactionInput` holds.
pub struct InputView {
    pub prev_transaction_output_hash: crate::hash::Hash,
    pub signature: Seq<u8>,
}

impl View for TransactionInput {
    type V = InputView;

    open spec fn view(&self) -> InputView {
        InputView { prev_transaction_output_hash: self.prev_transaction_output_hash, signature: self.signature@ }
    }
}

/// A transfer: the outputs it spends and the outputs it creates.
#[derive(Debug)]
pub struct Transaction {
    pub inputs: Vec<TransactionInput>,
    pub outputs: Vec<TransactionOutput>,
}

/// What a `Transaction` holds.
pub struct TxView {
    pub inputs: Seq<InputView>,
    pub outputs: Seq<OutputView>,
}

/// A list of inputs read through their views.
pub open spec fn inputs_view(s: Seq<TransactionInput>) -> Seq<InputView> {
    s.map_values(|i: TransactionInput| i@)
}

/// A list of outputs read through their views.
pub open spec fn outputs_view(s: Seq<TransactionOutput>) -> Seq<OutputView> {
    s.map_values(|o: TransactionOutput| o@)
}

impl View for Transaction {
    type V = TxView;

    open spec fn view(&self) -> TxView {
        TxView { inputs: inputs_view(self.inputs@), outputs: outputs_view(self.outputs@) }
    }
}

/// The root of a block's Merkle tree of transaction hashes.
#[derive(Clone, Copy, Debug, PartialEq, Eq, Structural)]
pub struct MerkleRoot(pub crate::hash::Hash);

/// A block's header: what its proof of work commits to.
#[derive(Clone, Copy, Debug)]
pub struct BlockHeader {
    pub timestamp: Timestamp,
    pub nonce: u64,
    pub prev_block_hash: crate::hash::Hash,
    pub merkle_root: MerkleRoot,
    pub target: U256,
}

/// A block: a header and its transactions, the coinbase first.
#[derive(Debug)]
pub struct Block {
    pub header: BlockHeader,
    pub transactions: Vec<Transaction>,
}

/// What a `Block` holds.
pub struct BlockView {
    pub header: BlockHeader,
    pub transactions: Seq<TxView>,
}

/// A list of transactions read through their views.
pub open spec fn txs_view(s: Seq<Transaction>) -> Seq<TxView> {
    s.map_values(|t: Transaction| t@)
}

impl View for Block {
    type V = BlockView;

    open spec fn view(&self) -> BlockView {
        BlockView { header: self.header, transactions: txs_view(self.transactions@) }
    }
}

/// The bytes an output is hashed from.
pub open spec fn output_bytes(o: OutputView) -> Seq<u8> {
    u64_le(o.value) + u128_le(o.unique_id) + prefixed(o.pubkey)
}

/// The bytes of an input.
pub open spec fn input_bytes(i: InputView) -> Seq<u8> {
    hash_le(i.prev_transaction_output_hash) + prefixed(i.signature)
}

/// The bytes of a list of inputs, one after the other.
pub open spec fn inputs_bytes(s: Seq<InputView>) -> Seq<u8>
    decreases s.len(),
{
    if s.len() == 0 {
        Seq::empty()
    } else {
        inputs_bytes(s.drop_last()) + input_bytes(s.last())
    }
}

/// The bytes of a list of outputs, one after the other.
pub open spec fn outputs_bytes(s: Seq<OutputView>) -> Seq<u8>
    decreases s.len(),
{
    if s.len() == 0 {
        Seq::empty()
    } else {
        outputs_bytes(s.drop_last()) + output_bytes(s.last())
    }
}

/// The bytes a transaction is hashed from: its inputs, then its outputs,
/// each list preceded by its length.
pub open spec fn tx_bytes(t: TxView) -> Seq<u8> {
    u64_le(t.inputs.len() as u64) + inputs_bytes(t.inputs) + u64_le(t.outputs.len() as u64) + outputs_bytes(t.outputs)
}

/// The bytes a header is hashed from.
pub open spec fn header_bytes(h: BlockHeader) -> Seq<u8> {
    u128_le(h.timestamp.nanos as u128) + u64_le(h.nonce) + hash_le(h.prev_block_hash)
        + hash_le(h.merkle_root.0) + u128_le(h.target.lo) + u128_le(h.target.hi)
}

/// The bytes of a list of transactions, one after the other.
pub open spec fn txs_bytes(s: Seq<TxView>) -> Seq<u8>
    decreases s.len(),
{
    if s.len() == 0 {
        Seq::empty()
    } else {
        txs_bytes(s.drop_last()) + tx_bytes(s.last())
    }
}

/// The bytes a whole block is hashed from: header, then its transactions
/// preceded by their number.
pub open spec fn block_bytes(b: BlockView) -> Seq<u8> {
    header_bytes(b.header) + u64_le(b.transactions.len() as u64) + txs_bytes(b.transactions)
}

/// The hash of an output.
pub open spec fn output_hash(o: OutputView) -> crate::hash::Hash {
    digest_of(output_bytes(o))
}

/// The hash of a transaction.
pub open spec fn tx_hash(t: TxView) -> crate::hash::Hash {
    digest_of(tx_bytes(t))
}

/// The hash of a header: what its proof of work is measured on.
pub open spec fn header_hash(h: BlockHeader) -> crate::hash::Hash {
    digest_of(header_bytes(h))
}

/// The hash of a whole block: what the next block names as its parent.
pub open spec fn block_hash(b: BlockView) -> crate::hash::Hash {
    digest_of(block_bytes(b))
}

/// One level up a Merkle tree: each pair hashed together, an odd last
/// hash paired with itself.
pub open spec fn merkle_parents(layer: Seq<crate::hash::Hash>) -> Seq<crate::hash::Hash> {
    Seq::new(((layer.len() + 1) / 2) as nat, |i: int| {
        let left = layer[2 * i];
        let right = if 2 * i + 1 < layer.len() { layer[2 * i + 1] } else { layer[2 * i] };
        digest_of(hash_le(left) + hash_le(right))
    })
}

/// The root of the Merkle tree over a non-empty layer of hashes.
pub open spec fn merkle_root_of(layer: Seq<crate::hash::Hash>) -> crate::hash::Hash
    decreases layer.len(),
{
    if layer.len() <= 1 {
        layer[0]
    } else {
        merkle_root_of(merkle_parents(layer))
    }
}

/// Whether header `h` with nonce `n` meets its own target.
pub open spec fn meets_target_with_nonce(h: BlockHeader, n: u64) -> bool {
    header_hash(BlockHeader { nonce: n, ..h })@ <= h.target@
}

/// The Merkle root of a list of transactions.
pub open spec fn merkle_root_of_txs(txs: Seq<TxView>) -> crate::hash::Hash {
    merkle_root_of(txs.map_values(|t: TxView| tx_hash(t)))
}


/// Appends the bytes of an output.
pub fn encode_output(buf: &mut Vec<u8>, o: &TransactionOutput)
    ensures
        final(buf)@ == old(buf)@ + output_bytes(o@),
{
    let ghost start = buf@;
    put_u64(buf, o.value);
    put_u128(buf, o.unique_id);
    let key = o.pubkey.to_sec1_bytes();
    put_prefixed(buf, key.as_slice());
    assert(buf@ =~= start + output_bytes(o@));
}

/// Appends the bytes of a transaction.
pub fn encode_tx(buf: &mut Vec<u8>, t: &Transaction)
    ensures
        final(buf)@ == old(buf)@ + tx_bytes(t@),
{
    let ghost start = buf@;
    let ghost iv = inputs_view(t.inputs@);
    let ghost ov = outputs_view(t.outputs@);
    put_u64(buf, t.inputs.len() as u64);
    let ghost after_count = buf@;
    let mut i: usize = 0;
    while i < t.inputs.len()
        invariant
            i <= t.inputs@.len(),
            iv == inputs_view(t.inputs@),
            buf@ == after_count + inputs_bytes(iv.take(i as int)),
        decreases t.inputs.len() - i,
    {
        assert(iv.take(i + 1).drop_last() =~= iv.take(i as int));
        let ghost before = buf@;
        put_hash(buf, &t.inputs[i].prev_transaction_output_hash);
        let sig = t.inputs[i].signature.to_bytes();
        put_prefixed(buf, sig.as_slice());
        assert(buf@ =~= before + input_bytes(iv[i as int]));
        i = i + 1;
        assert(buf@ =~= after_count + inputs_bytes(iv.take(i as int)));
    }
    assert(iv.take(iv.len() as int) =~= iv);
    put_u64(buf, t.outputs.len() as u64);
    let ghost after_inputs = buf@;
    let mut j: usize = 0;
    while j < t.outputs.len()
        invariant
            j <= t.outputs@.len(),
            ov == outputs_view(t.outputs@),
            buf@ == after_inputs + outputs_bytes(ov.take(j as int)),
        decreases t.outputs.len() - j,
    {
        assert(ov.take(j + 1).drop_last() =~= ov.take(j as int));
        encode_output(buf, &t.outputs[j]);
        j = j + 1;
        assert(buf@ =~= after_inputs + outputs_bytes(ov.take(j as int)));
    }
    assert(ov.take(ov.len() as int) =~= ov);
    assert(buf@ =~= start + tx_bytes(t@));
}

/// Appends the bytes of a header.
pub fn encode_header(buf: &mut Vec<u8>, h: &BlockHeader)
    ensures
        final(buf)@ == old(buf)@ + header_bytes(*h),
{
    let ghost start = buf@;
    put_u128(buf, h.timestamp.nanos as u128);
    put_u64(buf, h.nonce);
    put_hash(buf, &h.prev_block_hash);
    put_hash(buf, &h.merkle_root.0);
    put_u128(buf, h.target.lo);
    put_u128(buf, h.target.hi);
    assert(buf@ =~= start + header_bytes(*h));
}

impl TransactionOutput {
    /// The hash of this output: what an input spending it names.
    pub fn hash(&self) -> (h: crate::hash::Hash)
        ensures
            h == output_hash(self@),
    {
        let mut buf: Vec<u8> = Vec::new();
        encode_output(&mut buf, self);
        assert(buf@ =~= output_bytes(self@));
        crate::hash::Hash::hash_bytes(buf.as_slice())
    }

    /// A copy of the output.
    pub fn copy(&self) -> (o: TransactionOutput)
        ensures
            o@ == self@,
    {
        TransactionOutput { value: self.value, unique_id: self.unique_id, pubkey: self.pubkey.duplicate() }
    }
}

impl TransactionInput {
    /// A copy of the input.
    pub fn copy(&self) -> (i: TransactionInput)
        ensures
            i@ == self@,
    {
        TransactionInput {
            prev_transaction_output_hash: self.prev_transaction_output_hash,
            signature: Signature::from_bytes(self.signature.to_bytes()),
        }
    }
}

impl Transaction {
    /// A transaction spending `inputs` into `outputs`.
    pub fn new(inputs: Vec<TransactionInput>, outputs: Vec<TransactionOutput>) -> (t: Transaction)
        ensures
            t@.inputs == inputs_view(inputs@),
            t@.outputs == outputs_view(outputs@),
    {
        Transaction { inputs, outputs }
    }

    /// The hash of this transaction.
    pub fn hash(&self) -> (h: crate::hash::Hash)
        ensures
            h == tx_hash(self@),
    {
        let mut buf: Vec<u8> = Vec::new();
        encode_tx(&mut buf, self);
        assert(buf@ =~= tx_bytes(self@));
        crate::hash::Hash::hash_bytes(buf.as_slice())
    }

    /// A copy of the transaction.
    pub fn copy(&self) -> (t: Transaction)
        ensures
            t@ == self@,
    {
        let mut inputs: Vec<TransactionInput> = Vec::new();
        let mut i: usize = 0;
        while i < self.inputs.len()
            invariant
                i <= self.inputs@.len(),
                inputs_view(inputs@) == inputs_view(self.inputs@).take(i as int),
            decreases self.inputs.len() - i,
        {
            let c = self.inputs[i].copy();
            let ghost prev = inputs@;
            inputs.push(c);
            assert(inputs_view(inputs@) =~= inputs_view(prev).push(c@));
            i = i + 1;
            assert(inputs_view(inputs@) =~= inputs_view(self.inputs@).take(i as int));
        }
        let mut outputs: Vec<TransactionOutput> = Vec::new();
        let mut j: usize = 0;
        while j < self.outputs.len()
            invariant
                j <= self.outputs@.len(),
                outputs_view(outputs@) == outputs_view(self.outputs@).take(j as int),
            decreases self.outputs.len() - j,
        {
            let c = self.outputs[j].copy();
            let ghost prev = outputs@;
            outputs.push(c);
            assert(outputs_view(outputs@) =~= outputs_view(prev).push(c@));
            j = j + 1;
            assert(outputs_view(outputs@) =~= outputs_view(self.outputs@).take(j as int));
        }
        assert(inputs_view(self.inputs@).take(self.inputs@.len() as int) =~= inputs_view(self.inputs@));
        assert(outputs_view(self.outputs@).take(self.outputs@.len() as int) =~= outputs_view(self.outputs@));
        Transaction { inputs, outputs }
    }
}

/// Copies of a list of transactions.
pub fn copy_txs(s: &Vec<Transaction>) -> (r: Vec<Transaction>)
    ensures
        txs_view(r@) == txs_view(s@),
{
    let mut r: Vec<Transaction> = Vec::new();
    let mut i: usize = 0;
    while i < s.len()
        invariant
            i <= s@.len(),
            txs_view(r@) == txs_view(s@).take(i as int),
        decreases s.len() - i,
    {
        let c = s[i].copy();
        let ghost prev = r@;
        r.push(c);
        assert(txs_view(r@) =~= txs_view(prev).push(c@));
        i = i + 1;
        assert(txs_view(r@) =~= txs_view(s@).take(i as int));
    }
    assert(txs_view(s@).take(s@.len() as int) =~= txs_view(s@));
    r
}

impl BlockHeader {
    /// A header with the given fields.
    pub fn new(timestamp: Timestamp, nonce: u64, prev_block_hash: crate::hash::Hash, merkle_root: MerkleRoot, target: U256) -> (h: BlockHeader)
        ensures
            h == (BlockHeader { timestamp, nonce, prev_block_hash, merkle_root, target }),
    {
        BlockHeader { timestamp, nonce, prev_block_hash, merkle_root, target }
    }

    /// The hash of this header.
    pub fn hash(&self) -> (h: crate::hash::Hash)
        ensures
            h == header_hash(*self),
    {
        let mut buf: Vec<u8> = Vec::new();
        encode_header(&mut buf, self);
        assert(buf@ =~= header_bytes(*self));
        crate::hash::Hash::hash_bytes(buf.as_slice())
    }

    /// Tries up to `steps` further nonces, stopping at the first whose
    /// header hash meets the target; returns whether the header now meets
    /// it.  Past the largest nonce the count restarts at zero with a fresh
    /// timestamp.
    pub fn mine(&mut self, steps: usize) -> (found: bool)
        ensures
            found == (header_hash(*final(self))@ <= final(self).target@),
            final(self).prev_block_hash == old(self).prev_block_hash,
            final(self).merkle_root == old(self).merkle_root,
            final(self).target == old(self).target,
            old(self).nonce + steps <= u64::MAX ==> {
                &&& final(self).timestamp == old(self).timestamp
                &&& old(self).nonce <= final(self).nonce <= old(self).nonce + steps
                &&& !found ==> final(self).nonce == old(self).nonce + steps
                &&& forall|n: u64| old(self).nonce <= n < final(self).nonce ==> !#[trigger] meets_target_with_nonce(*old(self), n)
            },
    {
        if self.hash().matches_target(self.target) {
            return true;
        }
        let mut k: usize = 0;
        while k < steps
            invariant
                k <= steps,
                self.prev_block_hash == old(self).prev_block_hash,
                self.merkle_root == old(self).merkle_root,
                self.target == old(self).target,
                !(header_hash(*self)@ <= self.target@),
                old(self).nonce + steps <= u64::MAX ==> {
                    &&& self.timestamp == old(self).timestamp
                    &&& self.nonce == old(self).nonce + k
                    &&& forall|n: u64| old(self).nonce <= n <= self.nonce ==> !#[trigger] meets_target_with_nonce(*old(self), n)
                },
            decreases steps - k,
        {
            proof {
                if old(self).nonce + steps <= u64::MAX {
                    assert(*self == BlockHeader { nonce: self.nonce, ..*old(self) });
                }
            }
            match self.nonce.checked_add(1) {
                Some(n) => {
                    self.nonce = n;
                },
                None => {
                    self.nonce = 0;
                    self.timestamp = Timestamp::now();
                },
            }
            k = k + 1;
            if self.hash().matches_target(self.target) {
                proof {
                    if old(self).nonce + steps <= u64::MAX {
                        assert(*self == BlockHeader { nonce: self.nonce, ..*old(self) });
                    }
                }
                return true;
            }
            proof {
                if old(self).nonce + steps <= u64::MAX {
                    assert(*self == BlockHeader { nonce: self.nonce, ..*old(self) });
                }
            }
        }
        false
    }
}

impl Block {
    /// A block with the given header and transactions.
    pub fn new(header: BlockHeader, transactions: Vec<Transaction>) -> (b: Block)
        ensures
            b@.header == header,
            b@.transactions == txs_view(transactions@),
    {
        Block { header, transactions }
    }

    /// The hash of the whole block.
    pub fn hash(&self) -> (h: crate::hash::Hash)
        ensures
            h == block_hash(self@),
    {
        let buf = self.encode();
        crate::hash::Hash::hash_bytes(buf.as_slice())
    }

    /// The number of bytes the block encodes to.
    pub fn serialized_size(&self) -> (n: usize)
        ensures
            n == block_bytes(self@).len(),
    {
        self.encode().len()
    }

    /// The bytes of the whole block: header, then its transactions
    /// preceded by their number.
    pub fn encode(&self) -> (buf: Vec<u8>)
        ensures
            buf@ == block_bytes(self@),
    {
        let mut buf: Vec<u8> = Vec::new();
        encode_header(&mut buf, &self.header);
        put_u64(&mut buf, self.transactions.len() as u64);
        let ghost tv = txs_view(self.transactions@);
        let ghost after_count = buf@;
        let mut i: usize = 0;
        while i < self.transactions.len()
            invariant
                i <= self.transactions@.len(),
                tv == txs_view(self.transactions@),
                buf@ == after_count + txs_bytes(tv.take(i as int)),
            decreases self.transactions.len() - i,
        {
            assert(tv.take(i + 1).drop_last() =~= tv.take(i as int));
            encode_tx(&mut buf, &self.transactions[i]);
            i = i + 1;
            assert(buf@ =~= after_count + txs_bytes(tv.take(i as int)));
        }
        assert(tv.take(tv.len() as int) =~= tv);
        assert(buf@ =~= block_bytes(self@));
        buf
    }

    /// A copy of the block.
    pub fn copy(&self) -> (b: Block)
        ensures
            b@ == self@,
    {
        Block { header: self.header, transactions: copy_txs(&self.transactions) }
    }
}

impl MerkleRoot {
    /// The Merkle root of a non-empty list of transactions (an empty list
    /// has none).
    pub fn calculate(transactions: &Vec<Transaction>) -> (r: MerkleRoot)
        requires
            transactions@.len() > 0,
        ensures
            r.0 == merkle_root_of_txs(txs_view(transactions@)),
    {
        let ghost hashes = txs_view(transactions@).map_values(|t: TxView| tx_hash(t));
        let mut layer: Vec<crate::hash::Hash> = Vec::new();
        let mut i: usize = 0;
        while i < transactions.len()
            invariant
                i <= transactions@.len(),
                hashes == txs_view(transactions@).map_values(|t: TxView| tx_hash(t)),
                layer@ == hashes.take(i as int),
            decreases transactions.len() - i,
        {
            let h = transactions[i].hash();
            layer.push(h);
            i = i + 1;
            assert(layer@ =~= hashes.take(i as int));
        }
        assert(hashes.take(hashes.len() as int) =~= hashes);
        while layer.len() > 1
            invariant
                layer@.len() >= 1,
                merkle_root_of(layer@) == merkle_root_of(hashes),
            decreases layer@.len(),
        {
            let ghost parents = merkle_parents(layer@);
            let mut next: Vec<crate::hash::Hash> = Vec::new();
            let n = layer.len();
            let half = n / 2 + n % 2;
            let mut k: usize = 0;
            while k < half
                invariant
                    n == layer@.len(),
                    n > 1,
                    half == n / 2 + n % 2,
                    k <= half,
                    parents == merkle_parents(layer@),
                    parents.len() == half,
                    next@ == parents.take(k as int),
                decreases half - k,
            {
                let left = layer[2 * k];
                let right = if 2 * k + 1 < n { layer[2 * k + 1] } else { layer[2 * k] };
                let mut buf: Vec<u8> = Vec::new();
                put_hash(&mut buf, &left);
                put_hash(&mut buf, &right);
                let h = crate::hash::Hash::hash_bytes(buf.as_slice());
                assert(h == parents[k as int]);
                next.push(h);
                k = k + 1;
                assert(next@ =~= parents.take(k as int));
            }
            assert(next@ =~= parents);
            layer = next;
        }
        MerkleRoot(layer[0])
    }
}

} // verus!
