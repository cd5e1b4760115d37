//! Batch synchronization between nodes: which blocks a fetch is answered
//! with, what a syncing node asks for next, and what it does with the
//! blocks that come back.
use vstd::prelude::*;
use crate::chain::{Block, BlockView, block_bytes};
use crate::ledger::{Blockchain, BtcError, ChainView, blocks_view, add_block_fits, block_check_at, added};
use crate::time::Timestamp;

verus! {

/// How many leading entries of `sizes`, at most `limit` of them, fit one
/// after the other within `budget` bytes.
pub open spec fn fit_run(sizes: Seq<usize>, limit: nat, budget: int) -> nat
    decreases limit,
{
    if limit == 0 || sizes.len() == 0 {
        0
    } else if sizes[0] <= budget {
        1 + fit_run(sizes.drop_first(), (limit - 1) as nat, budget - sizes[0])
    } else {
        0
    }
}

/// The most blocks a fetch of `count` blocks from `start` may be answered
/// with: the fewest of `count`, `BLOCKS_PER_FETCH_BATCH` and the blocks
/// there are from `start` on.
pub open spec fn fetch_limit(len: nat, start: int, count: int) -> int {
    let avail: int = if start < len { len - start } else { 0 };
    let batch: int = crate::BLOCKS_PER_FETCH_BATCH as int;
    if count <= batch && count <= avail { count } else if batch <= avail { batch } else { avail }
}

/// How many blocks, of the encoded sizes `sizes`, a fetch of `count`
/// blocks from `start` is answered with: the longest run from `start`
/// within `fetch_limit` whose sizes add up to at most
/// `MAX_FETCH_BATCH_BYTES`, but always the first block where there is
/// one, however large.
pub open spec fn fetch_batch_spec(sizes: Seq<usize>, start: int, count: int) -> nat {
    let limit = fetch_limit(sizes.len(), start, count);
    if limit <= 0 {
        0
    } else {
        1 + fit_run(sizes.skip(start + 1), (limit - 1) as nat, crate::MAX_FETCH_BATCH_BYTES - sizes[start])
    }
}

/// `fit_run` reads only the first `limit` sizes.
proof fn lemma_fit_run_prefix(a: Seq<usize>, b: Seq<usize>, limit: nat, budget: int)
    requires
        a.len() >= limit,
        b.len() >= limit,
        forall|j: int| 0 <= j < limit ==> a[j] == b[j],
    ensures
        fit_run(a, limit, budget) == fit_run(b, limit, budget),
    decreases limit,
{
    if limit > 0 {
        assert(a[0] == b[0]);
        let a1 = a.drop_first();
        let b1 = b.drop_first();
        assert forall|j: int| 0 <= j < limit - 1 implies a1[j] == b1[j] by {
            assert(a[j + 1] == b[j + 1]);
        }
        lemma_fit_run_prefix(a1, b1, (limit - 1) as nat, budget - a[0]);
    }
}

/// `fit_run` counts at most `limit` entries.
proof fn lemma_fit_run_bound(a: Seq<usize>, limit: nat, budget: int)
    ensures
        fit_run(a, limit, budget) <= limit,
    decreases limit,
{
    if limit > 0 && a.len() > 0 {
        lemma_fit_run_bound(a.drop_first(), (limit - 1) as nat, budget - a[0]);
    }
}

/// A negative budget fits nothing.
proof fn lemma_fit_run_negative(a: Seq<usize>, limit: nat, budget: int)
    requires
        budget < 0,
    ensures
        fit_run(a, limit, budget) == 0,
{
}

/// The number of blocks, of the encoded sizes `sizes`, that a fetch of
/// `count` blocks from `start` is answered with; see `fetch_batch_spec`.
pub fn fetch_batch_len(sizes: &Vec<usize>, start: usize, count: u32) -> (n: usize)
    ensures
        n == fetch_batch_spec(sizes@, start as int, count as int),
{
    if start >= sizes.len() {
        return 0;
    }
    let avail = sizes.len() - start;
    let mut limit: usize = count as usize;
    if limit > crate::BLOCKS_PER_FETCH_BATCH {
        limit = crate::BLOCKS_PER_FETCH_BATCH;
    }
    if limit > avail {
        limit = avail;
    }
    assert(limit == fetch_limit(sizes@.len(), start as int, count as int));
    if limit == 0 {
        return 0;
    }
    let ghost s = sizes@;
    let first = sizes[start];
    if first > crate::MAX_FETCH_BATCH_BYTES {
        proof { lemma_fit_run_negative(s.skip(start + 1), (limit - 1) as nat, crate::MAX_FETCH_BATCH_BYTES - first); }
        return 1;
    }
    let mut budget: usize = crate::MAX_FETCH_BATCH_BYTES - first;
    let mut n: usize = 1;
    let mut full = false;
    while n < limit && !full
        invariant
            1 <= n <= limit,
            limit <= avail,
            avail == s.len() - start,
            start < s.len(),
            s == sizes@,
            start + avail == sizes.len(),
            fit_run(s.skip(start + 1), (limit - 1) as nat, crate::MAX_FETCH_BATCH_BYTES - first)
                == (n - 1) + fit_run(s.skip(start + n), (limit - n) as nat, budget as int),
            full ==> fit_run(s.skip(start + n), (limit - n) as nat, budget as int) == 0,
        decreases limit - n, if full { 0int } else { 1int },
    {
        let size = sizes[start + n];
        let ghost rest = s.skip(start + n);
        assert(rest[0] == size);
        assert(rest.drop_first() =~= s.skip(start + n + 1));
        if size > budget {
            full = true;
        } else {
            budget = budget - size;
            n = n + 1;
        }
    }
    n
}

/// The encoded size of each block.
pub open spec fn block_sizes(bs: Seq<BlockView>) -> Seq<usize> {
    bs.map_values(|b: BlockView| block_bytes(b).len() as usize)
}

/// The blocks a fetch of `count` blocks from `start` is answered with:
/// copies of the first `fetch_batch_spec` blocks from `start`.
pub fn fetch_blocks(chain: &Blockchain, start: usize, count: u32) -> (r: Vec<Block>)
    ensures
        r@.len() == fetch_batch_spec(block_sizes(chain@.blocks), start as int, count as int),
        forall|j: int| 0 <= j < r@.len() ==> (#[trigger] r@[j])@ == chain@.blocks[start + j],
{
    let blocks = chain.blocks();
    let ghost bs = chain@.blocks;
    let ghost full = block_sizes(bs);
    assert(blocks@.len() == bs.len());
    if start >= blocks.len() {
        return Vec::new();
    }
    let avail = blocks.len() - start;
    let mut limit: usize = count as usize;
    if limit > crate::BLOCKS_PER_FETCH_BATCH {
        limit = crate::BLOCKS_PER_FETCH_BATCH;
    }
    if limit > avail {
        limit = avail;
    }
    assert(limit == fetch_limit(bs.len(), start as int, count as int));
    let mut window: Vec<usize> = Vec::new();
    let mut i: usize = 0;
    while i < limit
        invariant
            i <= limit <= avail,
            avail == blocks@.len() - start,
            start + avail == blocks.len(),
            start < blocks@.len(),
            bs == blocks_view(blocks@),
            full == block_sizes(bs),
            window@.len() == i,
            forall|j: int| 0 <= j < i ==> #[trigger] window@[j] == full[start + j],
        decreases limit - i,
    {
        assert(bs[start + i] == blocks@[start + i]@);
        let size = blocks[start + i].serialized_size();
        window.push(size);
        i = i + 1;
    }
    let n = fetch_batch_len(&window, 0, count);
    proof {
        assert(fetch_limit(window@.len(), 0, count as int) == limit);
        if limit > 0 {
            lemma_fit_run_bound(window@.skip(1), (limit - 1) as nat, crate::MAX_FETCH_BATCH_BYTES - window@[0]);
            assert(window@[0] == full[start as int]);
            lemma_fit_run_prefix(window@.skip(1), full.skip(start + 1), (limit - 1) as nat,
                crate::MAX_FETCH_BATCH_BYTES - full[start as int]);
        }
    }
    let mut r: Vec<Block> = Vec::new();
    let mut k: usize = 0;
    while k < n
        invariant
            k <= n <= limit <= avail,
            avail == blocks@.len() - start,
            start + avail == blocks.len(),
            bs == blocks_view(blocks@),
            bs == chain@.blocks,
            r@.len() == k,
            forall|j: int| 0 <= j < k ==> (#[trigger] r@[j])@ == bs[start + j],
        decreases n - k,
    {
        assert(bs[start + k] == blocks@[start + k]@);
        r.push(blocks[start + k].copy());
        k = k + 1;
    }
    r
}

/// What a syncing node does next.
#[derive(Clone, Copy, Debug, PartialEq, Eq, Structural)]
pub enum SyncStep {
    /// It has reached the height it aimed for.
    Done,
    /// It asks for `count` blocks from height `start`.
    Fetch { start: u64, count: u32 },
}

/// The next step of a node at `height` syncing up to `target`: done once
/// there, else a fetch from its height of the blocks still missing, at
/// most `BLOCKS_PER_FETCH_BATCH` of them.
pub fn next_sync_request(height: u64, target: u32) -> (r: SyncStep)
    ensures
        r == (if height >= target {
            SyncStep::Done
        } else if target - height <= crate::BLOCKS_PER_FETCH_BATCH {
            SyncStep::Fetch { start: height, count: (target - height) as u32 }
        } else {
            SyncStep::Fetch { start: height, count: crate::BLOCKS_PER_FETCH_BATCH as u32 }
        }),
{
    if height >= target as u64 {
        return SyncStep::Done;
    }
    let missing = target - height as u32;
    if missing as usize <= crate::BLOCKS_PER_FETCH_BATCH {
        SyncStep::Fetch { start: height, count: missing }
    } else {
        SyncStep::Fetch { start: height, count: crate::BLOCKS_PER_FETCH_BATCH as u32 }
    }
}

/// How a reply of blocks was taken.
#[derive(Clone, Copy, Debug, PartialEq, Eq, Structural)]
pub enum SyncReply {
    /// The reply was empty: the peer has nothing past our height, and the
    /// sync stops.
    Exhausted,
    /// All `count` blocks were added; the sync goes on.
    Applied { count: usize },
    /// The block after the first `applied` does not connect to our tip
    /// (our chain moved since the peer was chosen): the sync stops, and
    /// the peer is not to blame.
    Orphan { applied: usize },
    /// The block after the first `applied` was refused with `error`: the
    /// sync stops, and the peer is struck.
    Refused { applied: usize, error: BtcError },
    /// The checks of the block after the first `applied` would overflow,
    /// so it cannot be valid: the sync stops, and the peer is struck.
    Overflow { applied: usize },
}

impl SyncReply {
    /// Whether the peer that sent the blocks is to be struck.
    pub fn strikes_peer(&self) -> (b: bool)
        ensures
            b == (*self is Refused || *self is Overflow),
    {
        match self {
            SyncReply::Refused { .. } | SyncReply::Overflow { .. } => true,
            _ => false,
        }
    }
}

/// Whether `b` names our tip as its parent (the zero hash on an empty
/// chain).
pub open spec fn connects(c: ChainView, b: BlockView) -> bool {
    if c.blocks.len() == 0 {
        b.header.prev_block_hash@ == 0
    } else {
        b.header.prev_block_hash == crate::chain::block_hash(c.blocks.last())
    }
}

/// One block added during a sync: its checks fit, it passed them at
/// `now`, and `after` is the chain with it added.
pub open spec fn sync_step(c: ChainView, b: BlockView, now: Timestamp, after: ChainView) -> bool {
    &&& add_block_fits(c, b)
    &&& block_check_at(c, b, now) is Ok
    &&& added(c, b, now, after)
}

/// Whether `c` is `c0` with the first `k` of `bs` added in order, each at
/// some reading of the clock.
pub open spec fn sync_applied(c0: ChainView, bs: Seq<BlockView>, k: nat, c: ChainView) -> bool
    decreases k,
{
    if k == 0 {
        c == c0
    } else if k > bs.len() {
        false
    } else {
        exists|prev: ChainView, now: Timestamp|
            #[trigger] sync_step(prev, bs[k - 1], now, c) && sync_applied(c0, bs, (k - 1) as nat, prev)
    }
}

/// One more block added extends what was applied.
proof fn lemma_sync_extend(c0: ChainView, bs: Seq<BlockView>, k: nat, prev: ChainView, now: Timestamp, after: ChainView)
    requires
        k < bs.len(),
        sync_applied(c0, bs, k, prev),
        sync_step(prev, bs[k as int], now, after),
    ensures
        sync_applied(c0, bs, k + 1, after),
{
    assert(bs[(k + 1) - 1] == bs[k as int]);
}

/// Whether `b` names the last block of `chain` (the zero hash on an empty
/// chain) as its parent.
pub(crate) fn connects_to_tip(chain: &Blockchain, b: &Block) -> (r: bool)
    ensures
        r == connects(chain@, b@),
{
    let blocks = chain.blocks();
    let n = blocks.len();
    assert(chain@.blocks.len() == n);
    if n == 0 {
        b.header.prev_block_hash.equals(&crate::hash::Hash::zero())
    } else {
        assert(chain@.blocks.last() == blocks@[n - 1]@);
        b.header.prev_block_hash.equals(&blocks[n - 1].hash())
    }
}

/// Takes a reply of `blocks` to a fetch: an empty one ends the sync;
/// otherwise the blocks are added in order, and the first that does not
/// connect to the tip, is refused, or cannot be checked stops the sync,
/// keeping the blocks added before it.
pub fn apply_sync_reply(chain: &mut Blockchain, blocks: Vec<Block>) -> (r: SyncReply)
    requires
        old(chain).wf(),
    ensures
        final(chain).wf(),
        blocks@.len() == 0 <==> r == SyncReply::Exhausted,
        r == SyncReply::Exhausted ==> final(chain)@ == old(chain)@,
        r matches SyncReply::Applied { count } ==> count == blocks@.len()
            && sync_applied(old(chain)@, blocks_view(blocks@), count as nat, final(chain)@),
        r matches SyncReply::Orphan { applied } ==> applied < blocks@.len()
            && sync_applied(old(chain)@, blocks_view(blocks@), applied as nat, final(chain)@)
            && !connects(final(chain)@, blocks@[applied as int]@),
        r matches SyncReply::Refused { applied, error } ==> applied < blocks@.len()
            && sync_applied(old(chain)@, blocks_view(blocks@), applied as nat, final(chain)@)
            && connects(final(chain)@, blocks@[applied as int]@)
            && add_block_fits(final(chain)@, blocks@[applied as int]@)
            && exists|now: Timestamp| #[trigger] block_check_at(final(chain)@, blocks@[applied as int]@, now) == Err::<(), BtcError>(error),
        r matches SyncReply::Overflow { applied } ==> applied < blocks@.len()
            && sync_applied(old(chain)@, blocks_view(blocks@), applied as nat, final(chain)@)
            && connects(final(chain)@, blocks@[applied as int]@)
            && !add_block_fits(final(chain)@, blocks@[applied as int]@),
{
    if blocks.len() == 0 {
        return SyncReply::Exhausted;
    }
    let ghost bs = blocks_view(blocks@);
    let ghost c0 = chain@;
    let mut i: usize = 0;
    while i < blocks.len()
        invariant
            i <= blocks@.len(),
            blocks@.len() > 0,
            bs == blocks_view(blocks@),
            c0 == old(chain)@,
            chain.wf(),
            sync_applied(c0, bs, i as nat, chain@),
        decreases blocks.len() - i,
    {
        let b = blocks[i].copy();
        assert(bs[i as int] == b@);
        if !connects_to_tip(chain, &b) {
            return SyncReply::Orphan { applied: i };
        }
        let ghost prev = chain@;
        match chain.try_add_block(b) {
            None => {
                return SyncReply::Overflow { applied: i };
            },
            Some(Err(e)) => {
                return SyncReply::Refused { applied: i, error: e };
            },
            Some(Ok(())) => {
                proof {
                    let now = choose|now: Timestamp| #[trigger] block_check_at(prev, bs[i as int], now) == Ok::<(), BtcError>(())
                        && added(prev, bs[i as int], now, chain@);
                    lemma_sync_extend(c0, bs, i as nat, prev, now, chain@);
                }
            },
        }
        i = i + 1;
    }
    SyncReply::Applied { count: i }
}

/// A fetch is answered with at most the blocks asked for, at most
/// `BLOCKS_PER_FETCH_BATCH`, only blocks that exist from `start` on, and
/// at least one block where one was asked for and exists.
pub proof fn lemma_fetch_bounds(sizes: Seq<usize>, start: int, count: int)
    requires
        0 <= start,
    ensures
        fetch_batch_spec(sizes, start, count) <= crate::BLOCKS_PER_FETCH_BATCH,
        count >= 0 ==> fetch_batch_spec(sizes, start, count) <= count,
        fetch_batch_spec(sizes, start, count) > 0 ==> start + fetch_batch_spec(sizes, start, count) <= sizes.len(),
        start < sizes.len() && count > 0 ==> fetch_batch_spec(sizes, start, count) >= 1,
{
    let limit = fetch_limit(sizes.len(), start, count);
    if limit > 0 {
        lemma_fit_run_bound(sizes.skip(start + 1), (limit - 1) as nat, crate::MAX_FETCH_BATCH_BYTES - sizes[start]);
    }
}

} // verus!
