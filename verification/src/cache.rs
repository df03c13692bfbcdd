use vstd::prelude::*;

verus! {

/// Whether a snapshot taken at `timestamp` (seconds since the epoch) is
/// still fresh at `now`: strictly younger than `max_age_seconds` and not
/// from the future. The surrounding program reads the snapshot and the
/// clock; this decides.
pub fn cache_is_fresh(now: u64, timestamp: u64, max_age_seconds: u64) -> (r: bool)
    ensures
        r == (timestamp <= now && now - timestamp < max_age_seconds),
{
    timestamp <= now && now - timestamp < max_age_seconds
}

} // verus!
