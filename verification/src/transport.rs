//! The transport layer's reconnect policy: how long the re-connect loop
//! waits before each retry. The delay doubles from one second per attempt
//! and is capped at thirty seconds; the loop that sleeps, and the jitter it
//! draws, live with the connection handling outside this crate.

use vstd::prelude::*;

verus! {

/// First retry delay, in milliseconds.
pub const INITIAL_RECONNECT_DELAY_MS: u64 = 1000;

/// Longest retry delay, in milliseconds.
pub const MAX_RECONNECT_DELAY_MS: u64 = 30000;

/// The full delay before retry number `attempt`: doubled each attempt,
/// capped.
pub open spec fn backoff_ms(attempt: nat) -> u64
    decreases attempt,
{
    if attempt == 0 {
        INITIAL_RECONNECT_DELAY_MS
    } else if 2 * backoff_ms((attempt - 1) as nat) >= MAX_RECONNECT_DELAY_MS {
        MAX_RECONNECT_DELAY_MS
    } else {
        (2 * backoff_ms((attempt - 1) as nat)) as u64
    }
}

/// Computes the delay before retry number `attempt`. A jittered sleep picks
/// a duration up to this bound.
pub fn reconnect_backoff_ms(attempt: u32) -> (r: u64)
    ensures
        r == backoff_ms(attempt as nat),
        INITIAL_RECONNECT_DELAY_MS <= r <= MAX_RECONNECT_DELAY_MS,
{
    let mut delay: u64 = INITIAL_RECONNECT_DELAY_MS;
    let mut i: u32 = 0;
    proof {
        lemma_backoff_bounds(attempt as nat);
        lemma_backoff_bounds(0);
    }
    while i < attempt
        invariant
            i <= attempt,
            delay == backoff_ms(i as nat),
            INITIAL_RECONNECT_DELAY_MS <= delay <= MAX_RECONNECT_DELAY_MS,
        decreases attempt - i,
    {
        delay = if delay >= MAX_RECONNECT_DELAY_MS / 2 {
            MAX_RECONNECT_DELAY_MS
        } else {
            delay * 2
        };
        i = i + 1;
        proof {
            lemma_backoff_bounds(i as nat);
        }
    }
    delay
}

/// Every delay sits between the initial and the cap.
pub proof fn lemma_backoff_bounds(attempt: nat)
    ensures
        INITIAL_RECONNECT_DELAY_MS <= backoff_ms(attempt) <= MAX_RECONNECT_DELAY_MS,
    decreases attempt,
{
    if attempt > 0 {
        lemma_backoff_bounds((attempt - 1) as nat);
    }
}

} // verus!
