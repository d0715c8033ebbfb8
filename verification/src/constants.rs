//! Constants shared across the benchmark: histogram size buckets, size units
//! and defaults for generated directory trees.

use vstd::prelude::*;
use vstd::string::*;
use crate::fixed_point::{
    fixed_digits, fixed_exec, fixed_quotient, lemma_nearest_double_close, lemma_two_pow_consts,
    nearest_double, nearest_double_exec, quotient_double, two_pow,
};
use crate::text::{dec, u64_to_dec};

verus! {

broadcast use vstd::string::group_string_axioms;

/// Number of size buckets for latency histograms.
pub const NUM_BUCKETS: usize = 9;

/// Human-readable labels for the size buckets, one per bucket.
pub const BUCKET_LABELS: [&'static str; NUM_BUCKETS] = [
    "zero",
    "1B-8KiB",
    "8KiB-64KiB",
    "64KiB-512KiB",
    "512KiB-4MiB",
    "4MiB-32MiB",
    "32MiB-256MiB",
    "256MiB-2GiB",
    ">2GiB",
];

/// Inclusive upper bound (in bytes) of each size bucket.
pub const BUCKET_BOUNDARIES: [u64; NUM_BUCKETS] = [
    0,
    8 * 1024,
    64 * 1024,
    512 * 1024,
    4 * 1024 * 1024,
    32 * 1024 * 1024,
    256 * 1024 * 1024,
    2 * 1024 * 1024 * 1024,
    u64::MAX,
];

/// Binary size units.
pub const KIB: u64 = 1024;

pub const MIB: u64 = 1024 * KIB;

pub const GIB: u64 = 1024 * MIB;

pub const TIB: u64 = 1024 * GIB;

/// Decimal size units.
pub const KB: u64 = 1000;

pub const MB: u64 = 1000 * KB;

pub const GB: u64 = 1000 * MB;

pub const TB: u64 = 1000 * GB;

/// Default width of a generated directory tree.
pub const DEFAULT_TREE_WIDTH: usize = 10;

/// Default depth of a generated directory tree.
pub const DEFAULT_TREE_DEPTH: usize = 3;

/// Default number of files per directory.
pub const DEFAULT_FILES_PER_DIR: usize = 100;

/// Minimum concurrency (at least one worker).
pub const MIN_CONCURRENCY: usize = 1;

/// Maximum concurrency.
pub const MAX_CONCURRENCY: usize = 10_000;

/// Minimum workload duration (seconds).
pub const MIN_DURATION_SECS: u64 = 1;

/// Maximum workload duration (seconds).
pub const MAX_DURATION_SECS: u64 = 86400;

/// The bucket boundaries as a sequence.
pub open spec fn bucket_bounds() -> Seq<u64> {
    seq![
        0u64,
        8192,
        65536,
        524288,
        4194304,
        33554432,
        268435456,
        2147483648,
        0xffff_ffff_ffff_ffffu64,
    ]
}

/// The bucket boundaries are strictly increasing, one per bucket, and the
/// constant holds exactly them.
pub proof fn law_bucket_boundaries_sorted()
    ensures
        BUCKET_BOUNDARIES@ == bucket_bounds(),
        bucket_bounds().len() == NUM_BUCKETS,
        BUCKET_LABELS@.len() == NUM_BUCKETS,
        forall|i: int, j: int| 0 <= i < j < NUM_BUCKETS ==> bucket_bounds()[i] < bucket_bounds()[j],
{
    assert(BUCKET_BOUNDARIES@ =~= bucket_bounds());
}

/// `bytes` in a binary unit of `2^sh` bytes with two decimals, as
/// `{:.2}` prints `bytes as f64 / unit as f64`.
pub open spec fn in_binary_unit(b: nat, sh: nat, unit: Seq<char>) -> Seq<char> {
    fixed_digits(nearest_double(b), sh, 2) + unit
}

/// `bytes` in a decimal unit of `d` bytes with two decimals, as `{:.2}`
/// prints `bytes as f64 / unit as f64` (the quotient rounded to the nearest double).
pub open spec fn in_decimal_unit(b: nat, d: nat, unit: Seq<char>) -> Seq<char> {
    let q = quotient_double(nearest_double(b), d);
    fixed_digits(q.0, q.1, 2) + unit
}

/// Human-readable size in binary units.
pub open spec fn bytes_binary_spec(b: nat) -> Seq<char> {
    if b >= TIB {
        in_binary_unit(b, 40, " TiB"@)
    } else if b >= GIB {
        in_binary_unit(b, 30, " GiB"@)
    } else if b >= MIB {
        in_binary_unit(b, 20, " MiB"@)
    } else if b >= KIB {
        in_binary_unit(b, 10, " KiB"@)
    } else {
        dec(b) + " B"@
    }
}

/// Human-readable size in decimal units.
pub open spec fn bytes_decimal_spec(b: nat) -> Seq<char> {
    if b >= TB {
        in_decimal_unit(b, TB as nat, " TB"@)
    } else if b >= GB {
        in_decimal_unit(b, GB as nat, " GB"@)
    } else if b >= MB {
        in_decimal_unit(b, MB as nat, " MB"@)
    } else if b >= KB {
        in_decimal_unit(b, KB as nat, " KB"@)
    } else {
        dec(b) + " B"@
    }
}

/// Convert bytes to a human-readable string (binary units: KiB, MiB, GiB, TiB),
/// e.g. `1536` gives `1.50 KiB`.
pub fn format_bytes_binary(bytes: u64) -> (r: String)
    ensures
        r@ == bytes_binary_spec(bytes as nat),
{
    proof {
        lemma_two_pow_consts();
    }
    if bytes < KIB {
        let mut r = u64_to_dec(bytes);
        r.append(" B");
        return r;
    }
    let m = nearest_double_exec(bytes);
    let (sh, unit): (u32, &str) = if bytes >= TIB {
        (40, " TiB")
    } else if bytes >= GIB {
        (30, " GiB")
    } else if bytes >= MIB {
        (20, " MiB")
    } else {
        (10, " KiB")
    };
    let (mut r, _h) = fixed_exec(m, sh, 2);
    r.append(unit);
    r
}

/// `bytes` (at least `d`, with `bytes / d` below `2^53`) in units of `d` bytes.
fn decimal_unit(bytes: u64, d: u64, unit: &str) -> (r: String)
    requires
        0 < d <= bytes,
        d <= 1_000_000_000_000,
        bytes / d < 0x20_0000_0000_0000,
        bytes < 0x20_0000_0000_0000 || d == 1_000_000_000_000,
    ensures
        r@ == in_decimal_unit(bytes as nat, d as nat, unit@),
{
    proof {
        lemma_two_pow_consts();
        lemma_nearest_double_close(bytes as nat);
    }
    let a = nearest_double_exec(bytes);
    proof {
        if bytes >= 0x20_0000_0000_0000 {
            assert(a + 2048 > bytes);
            assert(a >= d);
            assert(a <= 0x1_0000_0000_0000_0000);
            assert(a / (d as u128) <= 18446744int) by (nonlinear_arith)
                requires
                    a <= 0x1_0000_0000_0000_0000int,
                    d == 1_000_000_000_000int,
            ;
        } else {
            assert(a == bytes);
        }
    }
    let (mut r, _h) = fixed_quotient(a, d as u128, 2);
    r.append(unit);
    r
}

/// Convert bytes to a human-readable string (decimal units: KB, MB, GB, TB),
/// e.g. `1500` gives `1.50 KB`.
pub fn format_bytes_decimal(bytes: u64) -> (r: String)
    ensures
        r@ == bytes_decimal_spec(bytes as nat),
{
    if bytes >= TB {
        proof {
            assert(bytes / 1_000_000_000_000 < 0x20_0000_0000_0000) by (nonlinear_arith)
                requires
                    bytes <= 0xffff_ffff_ffff_ffff,
            ;
        }
        decimal_unit(bytes, TB, " TB")
    } else if bytes >= GB {
        decimal_unit(bytes, GB, " GB")
    } else if bytes >= MB {
        decimal_unit(bytes, MB, " MB")
    } else if bytes >= KB {
        decimal_unit(bytes, KB, " KB")
    } else {
        let mut r = u64_to_dec(bytes);
        r.append(" B");
        r
    }
}

} // verus!
