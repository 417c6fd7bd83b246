//! Points in time, in milliseconds on the local monotonic clock.

use vstd::prelude::*;

verus! {

/// The time `ttl` after `now`, or the end of time where that is beyond it.
pub open spec fn expiry_at(now: u64, ttl: u64) -> u64 {
    if now + ttl > u64::MAX {
        u64::MAX
    } else {
        (now + ttl) as u64
    }
}

/// The time `wait` after `now`, or the end of time where that is beyond it.
pub fn later(now: u64, wait: u64) -> (t: u64)
    ensures
        t == expiry_at(now, wait),
{
    if now > u64::MAX - wait {
        u64::MAX
    } else {
        now + wait
    }
}

} // verus!
