//! The reconnection policy: how long to wait after a failed connection attempt, and
//! when to give up.
use vstd::prelude::*;

verus! {

/// Attempts that are followed, on failure, by a pause and another attempt.
pub const BACKOFF_ATTEMPTS: u32 = 3;

/// The pause after the first failed attempt; each later pause is one step longer.
pub const BACKOFF_STEP_MS: u64 = 100;

/// After attempt number `failed_attempt` (counting from 0) has failed: the pause in
/// milliseconds before the next attempt, or `None` when the failure is final. Attempts
/// 0, 1 and 2 are followed by pauses of 100, 200 and 300 ms; attempt 3 is the last.
pub fn retry_delay_ms(failed_attempt: u32) -> (r: Option<u64>)
    ensures
        failed_attempt < BACKOFF_ATTEMPTS ==> r == Some(
            (BACKOFF_STEP_MS * (failed_attempt + 1)) as u64,
        ),
        failed_attempt >= BACKOFF_ATTEMPTS ==> r is None,
{
    if failed_attempt < BACKOFF_ATTEMPTS {
        Some(BACKOFF_STEP_MS * (failed_attempt as u64 + 1))
    } else {
        None
    }
}

} // verus!
