//! Core library of the ITX chain and its agent task market.

pub mod api;
pub mod auth;
pub mod board;
pub mod chain;
pub mod crypto;
pub mod hash;
pub mod hexcodec;
pub mod keymap;
pub mod ledger;
pub mod mining;
pub mod node;
pub mod payment;
pub mod peers;
pub mod protocol;
pub mod ratelimit;
pub mod storage;
pub mod sync;
pub mod text;
pub mod time;
pub mod u256;

pub use u256::U256;

use vstd::prelude::*;
use vstd::arithmetic::div_mod::{lemma_fundamental_div_mod, lemma_fundamental_div_mod_converse, lemma_div_is_ordered_by_denominator};
use crate::u256::{pow256, lemma_value_facts};

verus! {

/// Initial block reward, in whole coins (times `10^8` base units).
pub const INITIAL_REWARD: u64 = 50;
/// Blocks between two halvings of the reward.
pub const HALVING_INTERVAL: u64 = 210;
/// Ideal time between blocks, in seconds.
pub const IDEAL_BLOCK_TIME: u64 = 10;
/// Blocks between two difficulty adjustments.
pub const DIFFICULTY_UPDATE_INTERVAL: u64 = 50;
/// Longest time, in seconds, that a transaction may stay in the mempool.
pub const MAX_MEMPOOL_TRANSACTION_AGE: u64 = 600;
/// Largest serialized size of a block's non-coinbase transactions.
pub const BLOCK_BYTE_CAP: usize = 1_000_000;
/// Magic number exchanged in the peer handshake.
pub const PROTOCOL_MAGIC: u32 = 0x49_54_58_00;
/// Wire protocol version.
pub const PROTOCOL_VERSION: u32 = 2;
/// Largest length-prefixed wire message accepted.
pub const MAX_MESSAGE_SIZE: usize = 10 * 1024 * 1024;
/// How far ahead of the local clock a block's timestamp may be, in seconds.
pub const MAX_FUTURE_BLOCK_DRIFT_SECONDS: i64 = 2 * 60 * 60;
/// Most blocks one fetch during synchronization asks for or is answered
/// with.
pub const BLOCKS_PER_FETCH_BATCH: usize = 500;
/// Most encoded bytes of blocks one fetch is answered with, beyond its
/// first block.
pub const MAX_FETCH_BATCH_BYTES: usize = 8 * 1024 * 1024;
/// Depth below the tip past which a side branch is pruned.
pub const SIDE_BRANCH_PRUNE_DEPTH: u64 = 2 * DIFFICULTY_UPDATE_INTERVAL;

/// The easiest target a block may have: `2^240 - 1`, the words
/// `[!0, !0, !0, 0x0000_FFFF_FFFF_FFFF]`, least significant first.
pub open spec fn min_target_value() -> nat {
    0xFFFF_FFFF_FFFF_FFFF_FFFF_FFFF_FFFF_FFFF_FFFF_FFFF_FFFF_FFFF_FFFF_FFFF_FFFFnat
}

/// The easiest target a block may have.
pub fn min_target() -> (t: U256)
    ensures
        t@ == min_target_value(),
{
    U256::from_halves(0x0000_FFFF_FFFF_FFFF_FFFF_FFFF_FFFF_FFFFu128, 0xFFFF_FFFF_FFFF_FFFF_FFFF_FFFF_FFFF_FFFFu128)
}

/// The expected work behind one block mined against `target`:
/// `2^256 / (target + 1)`.
pub open spec fn work_value(target: nat) -> nat {
    pow256() / (target + 1)
}

/// Converts a proof-of-work target into the expected amount of work it
/// takes to meet it, computed as `(2^256 - 1 - target) / (target + 1) + 1`
/// so that nothing exceeds 256 bits.  A target of zero (whose work is
/// `2^256` itself) and the largest value (where `target + 1` overflows)
/// have no such value, so they are left out.
pub fn work_from_target(target: U256) -> (w: U256)
    requires
        0 < target@ < pow256() - 1,
    ensures
        w@ == ((pow256() - 1 - target@) as nat) / (target@ + 1) + 1,
        w@ == work_value(target@),
{
    let max = U256::max_value();
    let rest = max.sub(&target);
    let divisor = target.add(&U256::from_u64(1));
    let q = rest.div(&divisor);
    proof {
        lemma_work_identity(target@);
        lemma_value_facts(q);
    }
    q.add(&U256::from_u64(1))
}

/// `(2^256 - 1 - t) / (t + 1) + 1 == 2^256 / (t + 1)`, and it stays
/// below `2^256` once `t > 0`.
proof fn lemma_work_identity(t: nat)
    requires
        0 < t < pow256() - 1,
    ensures
        ((pow256() - 1 - t) as nat) / (t + 1) + 1 == pow256() / (t + 1),
        pow256() / (t + 1) < pow256(),
{
    let d = t + 1;
    let n = pow256();
    lemma_fundamental_div_mod(n as int, d as int);
    let q = n / d;
    let r = n % d;
    assert(q >= 1) by (nonlinear_arith) requires n == d * q + r, r < d, d <= n, q >= 0;
    assert((n - 1 - t) as int == (q - 1) * d + r) by (nonlinear_arith) requires n == d * q + r, d == t + 1;
    lemma_fundamental_div_mod_converse((n - 1 - t) as int, d as int, (q - 1) as int, r as int);
    assert(q < n) by (nonlinear_arith) requires n == d * q + r, d >= 2, q >= 1, r >= 0;
}

/// A harder (smaller) target never means less work.
pub proof fn lemma_work_antitone(t1: nat, t2: nat)
    requires
        t1 <= t2,
    ensures
        work_value(t2) <= work_value(t1),
{
    lemma_div_is_ordered_by_denominator(pow256() as int, (t1 + 1) as int, (t2 + 1) as int);
}

/// Every target allowed by `work_from_target` carries positive work.
pub proof fn lemma_work_positive(t: nat)
    requires
        0 < t < pow256() - 1,
    ensures
        work_value(t) >= 1,
{
    lemma_work_identity(t);
}

} // verus!
