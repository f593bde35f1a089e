//! Dataset cache freshness policy.
//!
//! The GeoIP dataset is cached on disk and refreshed when it is older
//! than a fixed retention window, missing, or a refresh is forced. A
//! failed refetch falls back to a stale cache when one exists and is
//! fatal otherwise. The clock and the filesystem stay outside: these
//! functions decide from plain readings what the caller must do.

use vstd::prelude::*;

verus! {

/// Days a cached dataset stays fresh.
pub const CACHE_MAX_AGE_DAYS: u32 = 30;

/// Seconds a cached dataset stays fresh.
pub const CACHE_MAX_AGE_SECS: u64 = 30 * 24 * 60 * 60;

/// A cache reading is stale when no modification time could be read,
/// when the file is from the future, or when it is over the window.
pub open spec fn spec_cache_stale(now: u64, modified: Option<u64>) -> bool {
    match modified {
        None => true,
        Some(m) => now < m || now - m > CACHE_MAX_AGE_SECS,
    }
}

/// Decide staleness from the clock and the file's modification time,
/// both in seconds since the Unix epoch; `None` when the file or its
/// modification time could not be read.
pub fn is_cache_stale(now: u64, modified: Option<u64>) -> (stale: bool)
    ensures
        stale == spec_cache_stale(now, modified),
{
    match modified {
        None => true,
        Some(m) => now < m || now - m > CACHE_MAX_AGE_SECS,
    }
}

/// Why the dataset must be refetched.
#[derive(Debug, Clone, Copy, PartialEq, Eq, Structural)]
pub enum RefreshReason {
    /// A refresh was forced by the caller.
    Requested,
    /// No cache file exists yet.
    CacheMissing,
    /// The cache is older than the retention window.
    CacheStale,
}

/// Whether the dataset must be refetched, and why: a forced refresh
/// first, then a missing cache, then staleness; otherwise the cache is
/// used as it is.
pub fn refresh_reason(force: bool, cache_exists: bool, stale: bool) -> (r: Option<RefreshReason>)
    ensures
        r == (if force {
            Some(RefreshReason::Requested)
        } else if !cache_exists {
            Some(RefreshReason::CacheMissing)
        } else if stale {
            Some(RefreshReason::CacheStale)
        } else {
            None::<RefreshReason>
        }),
{
    if force {
        Some(RefreshReason::Requested)
    } else if !cache_exists {
        Some(RefreshReason::CacheMissing)
    } else if stale {
        Some(RefreshReason::CacheStale)
    } else {
        None
    }
}

/// What a failed refetch means for the run.
#[derive(Debug, Clone, Copy, PartialEq, Eq, Structural)]
pub enum FetchFailure {
    /// A cache exists: warn and continue with the stale copy.
    UseStaleCache,
    /// No cache exists: the run cannot continue.
    Fatal,
}

/// A failed refetch is downgraded to a warning exactly when a cache
/// file already exists to fall back on.
pub fn fetch_failure_outcome(cache_exists: bool) -> (r: FetchFailure)
    ensures
        r == (if cache_exists {
            FetchFailure::UseStaleCache
        } else {
            FetchFailure::Fatal
        }),
{
    if cache_exists {
        FetchFailure::UseStaleCache
    } else {
        FetchFailure::Fatal
    }
}

} // verus!
