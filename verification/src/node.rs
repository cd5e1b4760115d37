//! What a node answers its peers, computed from its chain state.
use vstd::prelude::*;
use crate::chain::{Block, BlockHeader, BlockView, Transaction, TransactionOutput, OutputView, TxView, block_hash};
use crate::crypto::PublicKey;
use crate::ledger::{Blockchain, ChainView, add_block_fits, added, admission, admission_safe, block_check_at,
    miner_fees_of, template_built, template_fits, template_txs};
use crate::sync::{block_sizes, connects, fetch_batch_spec};
use crate::time::Timestamp;
use crate::u256::{U256, pow256};

verus! {

/// The unspent outputs paying `key`, in list order, each with whether
/// it is already spoken for.
pub open spec fn outputs_for(s: Seq<(crate::hash::Hash, bool, TransactionOutput)>, key: Seq<u8>) -> Seq<(OutputView, bool)>
    decreases s.len(),
{
    if s.len() == 0 {
        Seq::empty()
    } else {
        let prev = outputs_for(s.drop_last(), key);
        if s.last().2@.pubkey == key { prev.push((s.last().2@, s.last().1)) } else { prev }
    }
}

/// The answer to a request for `key`'s unspent outputs: those of
/// `utxos` (a chain's list) that pay `key`, with their flags.
pub fn utxos_for_key(utxos: &Vec<(crate::hash::Hash, bool, TransactionOutput)>, key: &PublicKey) -> (r: Vec<(TransactionOutput, bool)>)
    ensures
        r@.map_values(|e: (TransactionOutput, bool)| (e.0@, e.1)) == outputs_for(utxos@, key@),
{
    let mut out: Vec<(TransactionOutput, bool)> = Vec::new();
    let mut i: usize = 0;
    while i < utxos.len()
        invariant
            i <= utxos@.len(),
            out@.map_values(|e: (TransactionOutput, bool)| (e.0@, e.1)) == outputs_for(utxos@.take(i as int), key@),
        decreases utxos.len() - i,
    {
        assert(utxos@.take(i + 1).drop_last() =~= utxos@.take(i as int));
        let e = &utxos[i];
        if e.2.pubkey.same_as(key) {
            let o = e.2.copy();
            let ghost before = out@;
            out.push((o, e.1));
            assert(out@.map_values(|e: (TransactionOutput, bool)| (e.0@, e.1))
                =~= before.map_values(|e: (TransactionOutput, bool)| (e.0@, e.1)).push((o@, e.1)));
        }
        i = i + 1;
    }
    assert(utxos@.take(utxos@.len() as int) =~= utxos@);
    out
}

/// The hash a new block must name as its parent: the last block's, or
/// the zero hash on an empty chain.
pub open spec fn tip_hash(blocks: Seq<crate::chain::BlockView>) -> crate::hash::Hash {
    if blocks.len() == 0 {
        crate::hash::Hash(crate::u256::U256 { hi: 0, lo: 0 })
    } else {
        block_hash(blocks.last())
    }
}

/// Whether a miner's template is still worth mining: it builds on the
/// chain's tip and has the chain's current target (a retarget may have
/// happened since it was made).
pub fn template_is_current(chain: &Blockchain, header: &BlockHeader) -> (b: bool)
    ensures
        b == (header.prev_block_hash == tip_hash(chain@.blocks) && header.target == chain@.target),
{
    let blocks = chain.blocks();
    let tip = if blocks.len() == 0 {
        crate::hash::Hash(crate::u256::U256 { hi: 0, lo: 0 })
    } else {
        blocks[blocks.len() - 1].hash()
    };
    proof {
        if blocks@.len() > 0 {
            assert(crate::ledger::blocks_view(blocks@).last() == blocks@.last()@);
        }
    }
    let target = chain.target();
    header.prev_block_hash == tip && header.target == target
}

/// A request a node gets from a peer, with what it carries.
#[derive(Debug)]
pub enum PeerRequest {
    /// The unspent outputs paying a key.
    FetchUtxos(PublicKey),
    /// A block a peer relays.
    NewBlock(Block),
    /// A transaction a peer relays.
    NewTransaction(Transaction),
    /// Whether a miner's template is still worth mining.
    ValidateTemplate(Block),
    /// A block a miner found.
    SubmitTemplate(Block),
    /// A transaction a wallet sends.
    SubmitTransaction(Transaction),
    /// A block template paying a key.
    FetchTemplate(PublicKey),
    /// Up to `count` blocks from height `start`.
    FetchBlocks { start: usize, count: u32 },
    /// The height of the chain and the work behind it.
    AskChainTip,
    /// The peers this node knows.
    DiscoverNodes,
    /// A message only a node sends to its clients, never one a node gets.
    ClientOnly,
}

/// A node's answer to a request.
#[derive(Debug)]
pub enum NodeReply {
    /// Unspent outputs, each with whether it is spoken for.
    Utxos(Vec<(TransactionOutput, bool)>),
    /// Whether a template is still current.
    TemplateValidity(bool),
    /// A block template.
    Template(Block),
    /// Blocks, oldest first.
    Blocks(Vec<Block>),
    /// The chain's height and the work behind it (none where a block's
    /// target has no work value or the total reaches `2^256`).
    ChainTip { height: u32, work: Option<U256> },
    /// Peer addresses.
    NodeList(Vec<String>),
}

/// What a node does about a request.
#[derive(Debug)]
pub struct NodeAction {
    /// The answer to send back, if any.
    pub reply: Option<NodeReply>,
    /// A strike against the peer, severe or not, if any.
    pub strike: Option<bool>,
    /// Whether to close the connection.
    pub close: bool,
    /// Whether the chain took a new block, to be persisted.
    pub persist: bool,
    /// Whether to relay the request's block or transaction to the other
    /// peers.
    pub broadcast: bool,
}

/// An action with no answer and the given strike and flags.
pub open spec fn plain(r: NodeAction, strike: Option<bool>, close: bool, persist: bool, broadcast: bool) -> bool {
    r.reply is None && r.strike == strike && r.close == close && r.persist == persist && r.broadcast == broadcast
}

/// An action that only answers.
pub open spec fn answers(r: NodeAction) -> bool {
    r.reply is Some && r.strike is None && !r.close && !r.persist && !r.broadcast
}

/// A block from a peer taken by the chain `c`, leaving `after`: one that
/// does not connect to the tip is left alone (its parent may come
/// later); one whose checks would overflow, or that is refused, earns a
/// strike and the connection closes; an accepted one is persisted, and
/// relayed where `relay`.
pub open spec fn block_outcome(c: ChainView, b: BlockView, after: ChainView, r: NodeAction, relay: bool) -> bool {
    if !connects(c, b) {
        plain(r, None, false, false, false) && after == c
    } else if !add_block_fits(c, b) {
        plain(r, Some(false), true, false, false) && after == c
    } else {
        exists|now: Timestamp| {
            ||| #[trigger] block_check_at(c, b, now) is Ok && added(c, b, now, after) && plain(r, None, false, true, relay)
            ||| block_check_at(c, b, now) is Err && after == c && plain(r, Some(false), true, false, false)
        }
    }
}

/// An action with no answer.
fn plain_action(strike: Option<bool>, close: bool, persist: bool, broadcast: bool) -> (r: NodeAction)
    ensures
        plain(r, strike, close, persist, broadcast),
{
    NodeAction { reply: None, strike, close, persist, broadcast }
}

/// An action that only sends `reply`.
fn answer(reply: NodeReply) -> (r: NodeAction)
    ensures
        answers(r),
        r.reply == Some(reply),
{
    NodeAction { reply: Some(reply), strike: None, close: false, persist: false, broadcast: false }
}

/// Takes a block from a peer; see `block_outcome`.
fn take_block(chain: &mut Blockchain, b: Block, relay: bool) -> (r: NodeAction)
    requires
        old(chain).wf(),
    ensures
        final(chain).wf(),
        block_outcome(old(chain)@, b@, final(chain)@, r, relay),
{
    if !crate::sync::connects_to_tip(chain, &b) {
        return plain_action(None, false, false, false);
    }
    match chain.try_add_block(b) {
        None => plain_action(Some(false), true, false, false),
        Some(Ok(())) => plain_action(None, false, true, relay),
        Some(Err(_)) => plain_action(Some(false), true, false, false),
    }
}

/// The work behind the blocks `bs`: the sum of the work of each block's
/// declared target.
pub open spec fn chain_work_of(bs: Seq<BlockView>) -> nat
    decreases bs.len(),
{
    if bs.len() == 0 {
        0
    } else {
        chain_work_of(bs.drop_last()) + crate::work_value(bs.last().header.target@)
    }
}

/// Every block's target has a work value: it is neither zero nor the
/// largest 256-bit value.
pub open spec fn works_defined(bs: Seq<BlockView>) -> bool {
    forall|i: int| 0 <= i < bs.len() ==> 0 < (#[trigger] bs[i]).header.target@ < pow256() - 1
}

/// The work behind a prefix is at most the work behind the whole.
proof fn lemma_chain_work_prefix(bs: Seq<BlockView>, n: int)
    requires
        0 <= n <= bs.len(),
    ensures
        chain_work_of(bs.take(n)) <= chain_work_of(bs),
    decreases bs.len(),
{
    if n == bs.len() {
        assert(bs.take(n) =~= bs);
    } else {
        assert(bs.drop_last().take(n) =~= bs.take(n));
        lemma_chain_work_prefix(bs.drop_last(), n);
    }
}

/// The work behind the chain's blocks, where every target has a work
/// value and the total stays below `2^256`.
pub fn chain_work(chain: &Blockchain) -> (r: Option<U256>)
    ensures
        r is Some <==> works_defined(chain@.blocks) && chain_work_of(chain@.blocks) < pow256(),
        r matches Some(w) ==> w@ == chain_work_of(chain@.blocks),
{
    let blocks = chain.blocks();
    let ghost bs = chain@.blocks;
    assert(blocks@.len() == bs.len());
    let mut acc = U256::zero();
    let mut i: usize = 0;
    assert(bs.take(0) =~= Seq::<BlockView>::empty());
    while i < blocks.len()
        invariant
            i <= bs.len(),
            bs == crate::ledger::blocks_view(blocks@),
            bs == chain@.blocks,
            bs.len() == blocks@.len(),
            acc@ == chain_work_of(bs.take(i as int)),
            forall|j: int| 0 <= j < i ==> 0 < (#[trigger] bs[j]).header.target@ < pow256() - 1,
        decreases blocks.len() - i,
    {
        assert(bs[i as int] == blocks@[i as int]@);
        assert(bs.take(i + 1).drop_last() =~= bs.take(i as int));
        assert(bs.take(i + 1).last() == bs[i as int]);
        let t = blocks[i].header.target;
        if t.is_zero() || !t.lt(&U256::max_value()) {
            assert(!(0 < bs[i as int].header.target@ < pow256() - 1));
            return None;
        }
        let w = crate::work_from_target(t);
        match acc.checked_add(&w) {
            None => {
                proof {
                    if works_defined(bs) {
                        lemma_chain_work_prefix(bs, i + 1);
                    }
                }
                return None;
            },
            Some(sum) => {
                acc = sum;
            },
        }
        i = i + 1;
    }
    assert(bs.take(bs.len() as int) =~= bs);
    proof { crate::u256::lemma_value_facts(acc); }
    Some(acc)
}

/// Copies of the peer addresses.
fn copy_peers(peers: &Vec<String>) -> (r: Vec<String>)
    ensures
        r@ == peers@,
{
    let mut r: Vec<String> = Vec::new();
    let mut i: usize = 0;
    while i < peers.len()
        invariant
            i <= peers@.len(),
            r@ == peers@.take(i as int),
        decreases peers.len() - i,
    {
        r.push(peers[i].clone());
        i = i + 1;
        assert(r@ =~= peers@.take(i as int));
    }
    assert(peers@.take(peers@.len() as int) =~= peers@);
    r
}

/// A transaction from a peer taken by the chain `c` at `now`, leaving
/// `after`: where admitting it would panic, only the stale entries go; else
/// it is admitted or refused as `admission` says.  A relayed one never
/// earns anything; a submitted one is relayed once admitted, and earns a
/// strike (closing the connection) otherwise.
pub open spec fn tx_outcome(c: ChainView, t: TxView, now: Timestamp, after: ChainView, r: NodeAction, submitted: bool) -> bool {
    let refused = plain(r, Some(false), true, false, false);
    if !admission_safe(c, t, now) {
        after == c.cleaned(now) && if submitted { refused } else { plain(r, None, false, false, false) }
    } else {
        &&& after == admission(c, t, now).0
        &&& if !submitted {
                plain(r, None, false, false, false)
            } else if admission(c, t, now).1 is Ok {
                plain(r, None, false, false, true)
            } else {
                refused
            }
    }
}

/// Takes a transaction from a peer; see `tx_outcome`.
fn take_transaction(chain: &mut Blockchain, t: Transaction, submitted: bool) -> (r: NodeAction)
    requires
        old(chain).wf(),
    ensures
        final(chain).wf(),
        exists|now: Timestamp| #[trigger] tx_outcome(old(chain)@, t@, now, final(chain)@, r, submitted),
{
    let ghost tv = t@;
    let res = chain.try_add_to_mempool(t);
    let r = match res {
        Some(Ok(())) => if submitted { plain_action(None, false, false, true) } else { plain_action(None, false, false, false) },
        _ => if submitted { plain_action(Some(false), true, false, false) } else { plain_action(None, false, false, false) },
    };
    proof {
        let now = choose|now: Timestamp| {
            &&& (res is None <==> !#[trigger] admission_safe(old(chain)@, tv, now))
            &&& res is None ==> chain@ == old(chain)@.cleaned(now)
            &&& res matches Some(x) ==> (chain@, x) == admission(old(chain)@, tv, now)
        };
        assert(tx_outcome(old(chain)@, tv, now, chain@, r, submitted));
    }
    r
}

/// Whether `r` answers a template request for `k` on the chain `c`: with
/// a template built for it where one can be, else by closing the
/// connection.
pub open spec fn template_served(c: ChainView, k: Seq<u8>, r: NodeAction) -> bool {
    &&& r.strike is None && !r.persist && !r.broadcast
    &&& if template_fits(c) && miner_fees_of(c.utxos, template_txs(c.mempool)) is Ok {
            !r.close && (r.reply matches Some(NodeReply::Template(b))
                && exists|now: Timestamp, id: u128| #[trigger] template_built(c, k, now, id, b@))
        } else {
            r.close && r.reply is None
        }
}

/// Answers a request for a template paying `k`; see `template_served`.
fn serve_template(chain: &Blockchain, k: PublicKey) -> (r: NodeAction)
    requires
        chain.wf(),
    ensures
        template_served(chain@, k@, r),
{
    let ghost kv = k@;
    let res = chain.try_create_block_template(k);
    match res {
        Some(Ok(b)) => {
            let ghost bv = b@;
            assert(exists|now: Timestamp, id: u128| #[trigger] template_built(chain@, kv, now, id, bv));
            let r = answer(NodeReply::Template(b));
            proof {
                assert(r.reply matches Some(NodeReply::Template(b2)) && b2@ == bv);
            }
            r
        },
        _ => plain_action(None, true, false, false),
    }
}

/// What a node does about `request` from a peer, on its chain, knowing
/// the peers `peers`.
pub fn handle_request(chain: &mut Blockchain, peers: &Vec<String>, request: PeerRequest) -> (r: NodeAction)
    requires
        old(chain).wf(),
    ensures
        final(chain).wf(),
        request is AskChainTip ==> answers(r) && final(chain)@ == old(chain)@
            && (r.reply matches Some(NodeReply::ChainTip { height, work })
                && height == (old(chain)@.blocks.len() as u64) as u32
                && (work is Some <==> works_defined(old(chain)@.blocks) && chain_work_of(old(chain)@.blocks) < pow256())
                && (work matches Some(w) ==> w@ == chain_work_of(old(chain)@.blocks))),
        request is DiscoverNodes ==> answers(r) && final(chain)@ == old(chain)@
            && (r.reply matches Some(NodeReply::NodeList(v)) && v@ == peers@),
        request is ClientOnly ==> plain(r, Some(true), true, false, false) && final(chain)@ == old(chain)@,
        request matches PeerRequest::FetchUtxos(k) ==> answers(r) && final(chain)@ == old(chain)@
            && (r.reply matches Some(NodeReply::Utxos(v))
                && v@.map_values(|e: (TransactionOutput, bool)| (e.0@, e.1)) == outputs_for(old(chain).utxo_list(), k@)),
        request matches PeerRequest::FetchBlocks { start, count } ==> answers(r) && final(chain)@ == old(chain)@
            && (r.reply matches Some(NodeReply::Blocks(v))
                && v@.len() == fetch_batch_spec(block_sizes(old(chain)@.blocks), start as int, count as int)
                && forall|j: int| 0 <= j < v@.len() ==> (#[trigger] v@[j])@ == old(chain)@.blocks[start + j]),
        request matches PeerRequest::ValidateTemplate(b) ==> answers(r) && final(chain)@ == old(chain)@
            && r.reply == Some(NodeReply::TemplateValidity(
                b.header.prev_block_hash == tip_hash(old(chain)@.blocks) && b.header.target == old(chain)@.target)),
        request matches PeerRequest::NewBlock(b) ==> block_outcome(old(chain)@, b@, final(chain)@, r, false),
        request matches PeerRequest::SubmitTemplate(b) ==> block_outcome(old(chain)@, b@, final(chain)@, r, true),
        request matches PeerRequest::NewTransaction(t) ==> exists|now: Timestamp| #[trigger] tx_outcome(old(chain)@, t@, now, final(chain)@, r, false),
        request matches PeerRequest::SubmitTransaction(t) ==> exists|now: Timestamp| #[trigger] tx_outcome(old(chain)@, t@, now, final(chain)@, r, true),
        request matches PeerRequest::FetchTemplate(k) ==> final(chain)@ == old(chain)@ && template_served(old(chain)@, k@, r),
{
    match request {
        PeerRequest::ClientOnly => plain_action(Some(true), true, false, false),
        PeerRequest::AskChainTip => {
            let height = #[verifier::truncate] (chain.block_height() as u32);
            answer(NodeReply::ChainTip { height, work: chain_work(chain) })
        },
        PeerRequest::DiscoverNodes => answer(NodeReply::NodeList(copy_peers(peers))),
        PeerRequest::FetchUtxos(k) => answer(NodeReply::Utxos(utxos_for_key(chain.utxos(), &k))),
        PeerRequest::FetchBlocks { start, count } => answer(NodeReply::Blocks(crate::sync::fetch_blocks(chain, start, count))),
        PeerRequest::ValidateTemplate(b) => answer(NodeReply::TemplateValidity(template_is_current(chain, &b.header))),
        PeerRequest::NewBlock(b) => take_block(chain, b, false),
        PeerRequest::SubmitTemplate(b) => take_block(chain, b, true),
        PeerRequest::NewTransaction(t) => take_transaction(chain, t, false),
        PeerRequest::SubmitTransaction(t) => take_transaction(chain, t, true),
        PeerRequest::FetchTemplate(k) => serve_template(chain, k),
    }
}

/// Work is cumulative: a chain with one more block carries the work of
/// the shorter chain plus the work of the new block's target, so it
/// carries strictly more wherever that target has a work value.
pub proof fn lemma_chain_work_grows(bs: Seq<BlockView>, b: BlockView)
    ensures
        chain_work_of(bs.push(b)) == chain_work_of(bs) + crate::work_value(b.header.target@),
        0 < b.header.target@ < pow256() - 1 ==> chain_work_of(bs.push(b)) > chain_work_of(bs),
{
    assert(bs.push(b).drop_last() =~= bs);
    if 0 < b.header.target@ < pow256() - 1 {
        crate::lemma_work_positive(b.header.target@);
    }
}

/// The work behind two runs of blocks, one after the other, is the sum of
/// the work behind each.
pub proof fn lemma_chain_work_concat(a: Seq<BlockView>, c: Seq<BlockView>)
    ensures
        chain_work_of(a + c) == chain_work_of(a) + chain_work_of(c),
    decreases c.len(),
{
    if c.len() == 0 {
        assert(a + c =~= a);
    } else {
        lemma_chain_work_concat(a, c.drop_last());
        assert((a + c).drop_last() =~= a + c.drop_last());
        assert((a + c).last() == c.last());
    }
}

} // verus!
