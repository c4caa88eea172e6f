//! The cache-freshness policy: cached data for an owner is served until it is
//! older than a fixed time-to-live; after that a new fetch is required.

use vstd::prelude::*;

verus! {

/// Maximum age, in seconds, before an owner's cached snapshot is stale.
pub const TTL_SECONDS: u64 = 86400;

/// A cached snapshot taken at `last_refresh` is stale at `now` when more than
/// `TTL_SECONDS` have passed since the refresh.
pub open spec fn spec_stale(last_refresh: u64, now: u64) -> bool {
    now > last_refresh + TTL_SECONDS
}

/// Decides whether a snapshot refreshed at `last_refresh` must be fetched
/// again at time `now`.
pub fn stale(last_refresh: u64, now: u64) -> (r: bool)
    ensures
        r == spec_stale(last_refresh, now),
{
    now > TTL_SECONDS && now - TTL_SECONDS > last_refresh
}

} // verus!
