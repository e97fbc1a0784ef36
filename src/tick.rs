//! Pacing of the scrape loop.
use vstd::prelude::*;

verus! {

/// How long to sleep before the next tick, in milliseconds: what is left of
/// the interval, or nothing when the tick took the whole interval or more.
pub fn remaining_sleep_ms(interval_ms: u64, elapsed_ms: u64) -> (r: u64)
    ensures
        r == if elapsed_ms < interval_ms { interval_ms - elapsed_ms } else { 0 },
        r <= interval_ms,
{
    if elapsed_ms < interval_ms {
        interval_ms - elapsed_ms
    } else {
        0
    }
}

} // verus!
