//! How mining work is shared among threads, and which node connections a
//! miner keeps.
use vstd::prelude::*;

verus! {

/// Nonces one `mine` call tries, and the width of each thread's window.
pub const STEPS_PER_CALL: usize = 2_000_000;

/// The nonce thread `thread_index` starts from: thread `t` searches the
/// window that starts at `t * steps`, so threads mining one template in
/// parallel never repeat each other's work.  The product must fit in a
/// `u64`.
pub fn thread_start_nonce(thread_index: usize, steps: usize) -> (n: u64)
    requires
        thread_index * steps <= u64::MAX,
    ensures
        n == thread_index * steps,
{
    proof {
        vstd::arithmetic::mul::lemma_mul_nonnegative(thread_index as int, steps as int);
    }
    thread_index as u64 * steps as u64
}

/// Consecutive threads' windows adjoin: each starts `steps` after the
/// one before it.
pub proof fn lemma_windows_adjoin(thread_index: nat, steps: nat)
    ensures
        (thread_index + 1) * steps == thread_index * steps + steps,
{
    vstd::arithmetic::mul::lemma_mul_is_distributive_add_other_way(steps as int, thread_index as int, 1);
}

/// Distinct threads start in distinct windows: a later thread starts at
/// least a full window after an earlier one.
pub proof fn lemma_windows_disjoint(t1: nat, t2: nat, steps: nat)
    requires
        t1 < t2,
    ensures
        t1 * steps + steps <= t2 * steps,
{
    vstd::arithmetic::mul::lemma_mul_inequality((t1 + 1) as int, t2 as int, steps as int);
    lemma_windows_adjoin(t1, steps);
}

/// What becomes of a node connection attempt while a miner starts.
#[derive(Clone, Copy, Debug, PartialEq, Eq, Structural)]
pub enum ConnectStep {
    /// Keep the connection.
    Keep,
    /// Drop this secondary node and go on with the rest.
    Skip,
    /// The primary node (the template source) is unreachable: give up.
    Fatal,
}

/// The decision for the connection attempt to the `index`th address: a
/// failed primary (index 0) is fatal, a failed secondary is skipped.
pub fn connect_step(index: usize, connected: bool) -> (s: ConnectStep)
    ensures
        connected ==> s == ConnectStep::Keep,
        !connected && index == 0 ==> s == ConnectStep::Fatal,
        !connected && index > 0 ==> s == ConnectStep::Skip,
{
    if connected {
        ConnectStep::Keep
    } else if index == 0 {
        ConnectStep::Fatal
    } else {
        ConnectStep::Skip
    }
}

} // verus!
