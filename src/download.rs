//! Retry decisions for archive downloads.
use vstd::prelude::*;

verus! {

/// Attempts made for one archive before giving up.
pub const MAX_RETRIES: u32 = 3;

/// Seconds before the first connection attempt times out.
pub const CONNECT_TIMEOUT_SECS: u64 = 30;

/// Seconds before a whole download times out.
pub const TOTAL_TIMEOUT_SECS: u64 = 300;

/// Two to the power `n`.
pub open spec fn pow2(n: nat) -> nat
    decreases n,
{
    if n == 0 {
        1
    } else {
        2 * pow2((n - 1) as nat)
    }
}

/// What to do after an attempt.
#[derive(Debug, Clone, Copy, PartialEq, Eq, Structural)]
pub enum RetryStep {
    /// The download succeeded.
    Done,
    /// Wait `delay_secs` seconds, then make attempt number `attempt`.
    Retry { attempt: u32, delay_secs: u64 },
    /// Every attempt failed: report the last error.
    GiveUp,
}

/// The step after attempt `attempt` (counted from zero) succeeded or failed.
pub open spec fn retry_step_of(attempt: u32, max_retries: u32, succeeded: bool) -> RetryStep {
    if succeeded {
        RetryStep::Done
    } else if attempt + 1 < max_retries {
        RetryStep::Retry { attempt: (attempt + 1) as u32, delay_secs: pow2((attempt + 1) as nat) as u64 }
    } else {
        RetryStep::GiveUp
    }
}

/// Decides what follows attempt `attempt` of a download: done on success,
/// else another attempt after `2^(attempt+1)` seconds while attempts remain.
pub fn retry_step(attempt: u32, max_retries: u32, succeeded: bool) -> (r: RetryStep)
    requires
        max_retries <= 63,
    ensures
        r == retry_step_of(attempt, max_retries, succeeded),
{
    if succeeded {
        return RetryStep::Done;
    }
    if attempt < max_retries && attempt + 1 < max_retries {
        let next = attempt + 1;
        let mut delay: u64 = 1;
        let mut i: u32 = 0;
        while i < next
            invariant
                i <= next,
                next < 63,
                delay == pow2(i as nat),
            decreases next - i,
        {
            proof {
                lemma_pow2_bound(i as nat);
            }
            delay = delay * 2;
            i = i + 1;
        }
        RetryStep::Retry { attempt: next, delay_secs: delay }
    } else {
        RetryStep::GiveUp
    }
}

proof fn lemma_pow2_mono(a: nat, b: nat)
    requires
        a <= b,
    ensures
        pow2(a) <= pow2(b),
    decreases b - a,
{
    if a < b {
        lemma_pow2_mono(a, (b - 1) as nat);
    }
}

proof fn lemma_pow2_bound(n: nat)
    requires
        n < 63,
    ensures
        2 * pow2(n) <= 0x8000_0000_0000_0000,
{
    reveal_with_fuel(pow2, 64);
    assert(pow2(63) == 0x8000_0000_0000_0000);
    lemma_pow2_mono(n + 1, 63);
}

} // verus!
