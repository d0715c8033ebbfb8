//! Size buckets for latency histograms.

use vstd::prelude::*;
use crate::constants::{bucket_bounds, BUCKET_BOUNDARIES, NUM_BUCKETS};

verus! {

/// The bucket of a byte count: the first bucket whose inclusive upper bound
/// is at least the count.
pub open spec fn is_bucket_of(nbytes: nat, k: int) -> bool {
    &&& 0 <= k < NUM_BUCKETS
    &&& nbytes <= bucket_bounds()[k]
    &&& (k == 0 || nbytes > bucket_bounds()[k - 1])
}

/// Determine which size bucket a given byte count belongs to.
pub fn bucket_index(nbytes: usize) -> (r: usize)
    ensures
        is_bucket_of(nbytes as nat, r as int),
{
    if nbytes == 0 {
        0
    } else if nbytes <= 8 * 1024 {
        1
    } else if nbytes <= 64 * 1024 {
        2
    } else if nbytes <= 512 * 1024 {
        3
    } else if nbytes <= 4 * 1024 * 1024 {
        4
    } else if nbytes <= 32 * 1024 * 1024 {
        5
    } else if nbytes <= 256 * 1024 * 1024 {
        6
    } else if nbytes <= 2 * 1024 * 1024 * 1024 {
        7
    } else {
        8
    }
}

/// Every byte count has exactly one bucket, and the bucket boundaries are
/// what `BUCKET_BOUNDARIES` holds: no gaps, no overlaps.
pub proof fn law_bucket_unique(nbytes: nat, k: int, m: int)
    requires
        is_bucket_of(nbytes, k),
        is_bucket_of(nbytes, m),
    ensures
        k == m,
        BUCKET_BOUNDARIES@ == bucket_bounds(),
{
    crate::constants::law_bucket_boundaries_sorted();
    if k < m {
        assert(bucket_bounds()[k] <= bucket_bounds()[m - 1]);
    } else if m < k {
        assert(bucket_bounds()[m] <= bucket_bounds()[k - 1]);
    }
}

/// Buckets are monotone: a larger byte count never lands in an earlier bucket.
pub proof fn law_bucket_monotone(a: nat, b: nat, ka: int, kb: int)
    requires
        a <= b,
        is_bucket_of(a, ka),
        is_bucket_of(b, kb),
    ensures
        ka <= kb,
{
    crate::constants::law_bucket_boundaries_sorted();
    if kb < ka {
        assert(bucket_bounds()[kb] <= bucket_bounds()[ka - 1]);
    }
}

} // verus!
