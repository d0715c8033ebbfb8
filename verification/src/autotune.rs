//! The autotune sweep plan: which channel counts are swept, the full matrix
//! of cases in loop order, and what each trial runs with.

use vstd::prelude::*;
use vstd::string::*;
use crate::cli::{
    CliError, RapidModeArg, TuneCase, TuneOps, first_bad_usize, parse_csv_usize, usize_values,
};
use crate::text::{
    all_ascii_digits, csv_tokens, dec, digits_value, lemma_dec_digits, starts_with, starts_with_str,
    u64_to_dec,
};

verus! {

broadcast use vstd::string::group_string_axioms;

// ----------------------------------------------------------------------------
// Channel sweep
// ----------------------------------------------------------------------------

/// How GCS gRPC channel counts are swept.
#[derive(Clone, Debug)]
pub enum ChannelSpec {
    /// Absolute channel counts.
    Absolute(Vec<usize>),
    /// Multipliers of the thread count; the flag marks the default (one per thread).
    PerThread(Vec<usize>, bool),
}

/// Whether a URI names Google Cloud Storage (`gs://` or `gcs://`).
pub open spec fn is_gcs_spec(uri: Seq<char>) -> bool {
    starts_with(uri, "gs://"@) || starts_with(uri, "gcs://"@)
}

/// Whether a URI names Google Cloud Storage.
pub fn is_gcs_uri(uri: &str) -> (r: bool)
    ensures
        r == is_gcs_spec(uri@),
{
    starts_with_str(uri, "gs://") || starts_with_str(uri, "gcs://")
}

/// A numeric list parses (what `parse_csv_usize` accepts).
pub open spec fn csv_usize_ok(s: Seq<char>) -> bool {
    first_bad_usize(csv_tokens(s)) is None && csv_tokens(s).len() > 0
}

/// The error `parse_csv_usize` reports for a list that does not parse.
pub open spec fn csv_usize_error(s: Seq<char>, e: CliError) -> bool {
    match first_bad_usize(csv_tokens(s)) {
        Some(k) => e matches CliError::InvalidInteger(t) && t@ == csv_tokens(s)[k],
        None => csv_tokens(s).len() == 0 && (e matches CliError::NoNumericValues(t) && t@ == s),
    }
}

/// The view of a channel spec: per-thread or absolute, the values, and
/// whether it is the default.
pub open spec fn channel_spec_view(c: ChannelSpec) -> (bool, Seq<usize>, bool) {
    match c {
        ChannelSpec::Absolute(v) => (false, v@, false),
        ChannelSpec::PerThread(v, d) => (true, v@, d),
    }
}

/// Choose the channel sweep: off GCS a single absolute placeholder `0`;
/// on GCS the `channels_per_thread` multipliers when given (none may be 0),
/// else the absolute `channels` when given, else one channel per thread.
pub fn channel_spec(is_gcs: bool, channels_per_thread: Option<&str>, channels: Option<&str>) -> (r:
    Result<ChannelSpec, CliError>)
    ensures
        !is_gcs ==> (r matches Ok(c) && channel_spec_view(c) == (false, seq![0usize], false)),
        is_gcs ==> match channels_per_thread {
            Some(cpt) => if !csv_usize_ok(cpt@) {
                r matches Err(e) && csv_usize_error(cpt@, e)
            } else if usize_values(csv_tokens(cpt@)).contains(0) {
                r matches Err(CliError::ZeroChannelMultiplier)
            } else {
                r matches Ok(c) && channel_spec_view(c) == (true, usize_values(csv_tokens(cpt@)), false)
            },
            None => match channels {
                Some(ch) => if !csv_usize_ok(ch@) {
                    r matches Err(e) && csv_usize_error(ch@, e)
                } else {
                    r matches Ok(c) && channel_spec_view(c) == (false, usize_values(csv_tokens(ch@)), false)
                },
                None => r matches Ok(c) && channel_spec_view(c) == (true, seq![1usize], true),
            },
        },
{
    if !is_gcs {
        let v = vec![0usize];
        assert(v@ =~= seq![0usize]);
        return Ok(ChannelSpec::Absolute(v));
    }
    match channels_per_thread {
        Some(cpt) => {
            let cpts = parse_csv_usize(cpt)?;
            let mut i: usize = 0;
            while i < cpts.len()
                invariant
                    is_gcs,
                    channels_per_thread == Some(cpt),
                    csv_usize_ok(cpt@),
                    cpts@ == usize_values(csv_tokens(cpt@)),
                    i <= cpts@.len(),
                    forall|k: int| 0 <= k < i ==> cpts@[k] != 0,
                decreases cpts@.len() - i,
            {
                if cpts[i] == 0 {
                    assert(cpts@[i as int] == 0);
                    return Err(CliError::ZeroChannelMultiplier);
                }
                i = i + 1;
            }
            assert(!cpts@.contains(0));
            Ok(ChannelSpec::PerThread(cpts, false))
        },
        None => match channels {
            Some(ch) => {
                let vals = parse_csv_usize(ch)?;
                Ok(ChannelSpec::Absolute(vals))
            },
            None => {
                let v = vec![1usize];
                assert(v@ =~= seq![1usize]);
                Ok(ChannelSpec::PerThread(v, true))
            },
        },
    }
}

/// The (effective channels, multiplier) pairs swept for a thread count.
pub open spec fn channel_pairs(c: ChannelSpec, th: usize) -> Seq<(usize, Option<usize>)> {
    match c {
        ChannelSpec::Absolute(v) => v@.map_values(|x: usize| (x, None::<usize>)),
        ChannelSpec::PerThread(v, _) => v@.map_values(|m: usize| ((th * m) as usize, Some(m))),
    }
}

/// Effective channel counts fit in a `usize` for every thread count.
pub open spec fn pairs_fit(c: ChannelSpec, threads: Seq<usize>) -> bool {
    match c {
        ChannelSpec::Absolute(_) => true,
        ChannelSpec::PerThread(v, _) => forall|i: int, j: int|
            0 <= i < threads.len() && 0 <= j < v@.len() ==> #[trigger] threads[i] * #[trigger] v@[j]
                <= usize::MAX,
    }
}

// ----------------------------------------------------------------------------
// Sweep matrix
// ----------------------------------------------------------------------------

/// One case of the sweep.
pub open spec fn tune_case(
    size: usize,
    th: usize,
    pair: (usize, Option<usize>),
    re: bool,
    rt: usize,
    chunk: usize,
) -> TuneCase {
    TuneCase {
        size_bytes: size,
        threads: th,
        channels: pair.0,
        channels_per_thread: pair.1,
        range_enabled: re,
        range_threshold_mb: rt,
        gcs_write_chunk_size: chunk,
    }
}

/// Innermost loop: one case per write chunk size.
pub open spec fn chunk_cases(
    size: usize,
    th: usize,
    pair: (usize, Option<usize>),
    re: bool,
    rt: usize,
    chunks: Seq<usize>,
) -> Seq<TuneCase> {
    chunks.map_values(|g: usize| tune_case(size, th, pair, re, rt, g))
}

/// Loop over range thresholds.
pub open spec fn threshold_cases(
    size: usize,
    th: usize,
    pair: (usize, Option<usize>),
    re: bool,
    rts: Seq<usize>,
    chunks: Seq<usize>,
) -> Seq<TuneCase>
    decreases rts.len(),
{
    if rts.len() == 0 {
        Seq::empty()
    } else {
        threshold_cases(size, th, pair, re, rts.drop_last(), chunks) + chunk_cases(
            size,
            th,
            pair,
            re,
            rts.last(),
            chunks,
        )
    }
}

/// Loop over range-download settings.
pub open spec fn range_cases(
    size: usize,
    th: usize,
    pair: (usize, Option<usize>),
    res: Seq<bool>,
    rts: Seq<usize>,
    chunks: Seq<usize>,
) -> Seq<TuneCase>
    decreases res.len(),
{
    if res.len() == 0 {
        Seq::empty()
    } else {
        range_cases(size, th, pair, res.drop_last(), rts, chunks) + threshold_cases(
            size,
            th,
            pair,
            res.last(),
            rts,
            chunks,
        )
    }
}

/// Loop over channel pairs.
pub open spec fn pair_cases(
    size: usize,
    th: usize,
    pairs: Seq<(usize, Option<usize>)>,
    res: Seq<bool>,
    rts: Seq<usize>,
    chunks: Seq<usize>,
) -> Seq<TuneCase>
    decreases pairs.len(),
{
    if pairs.len() == 0 {
        Seq::empty()
    } else {
        pair_cases(size, th, pairs.drop_last(), res, rts, chunks) + range_cases(
            size,
            th,
            pairs.last(),
            res,
            rts,
            chunks,
        )
    }
}

/// Loop over thread counts.
pub open spec fn thread_cases(
    size: usize,
    threads: Seq<usize>,
    c: ChannelSpec,
    res: Seq<bool>,
    rts: Seq<usize>,
    chunks: Seq<usize>,
) -> Seq<TuneCase>
    decreases threads.len(),
{
    if threads.len() == 0 {
        Seq::empty()
    } else {
        thread_cases(size, threads.drop_last(), c, res, rts, chunks) + pair_cases(
            size,
            threads.last(),
            channel_pairs(c, threads.last()),
            res,
            rts,
            chunks,
        )
    }
}

/// The whole sweep: sizes outermost, then threads, channel pairs, range
/// settings, range thresholds and write chunk sizes innermost.
pub open spec fn sweep_cases(
    sizes: Seq<usize>,
    threads: Seq<usize>,
    c: ChannelSpec,
    res: Seq<bool>,
    rts: Seq<usize>,
    chunks: Seq<usize>,
) -> Seq<TuneCase>
    decreases sizes.len(),
{
    if sizes.len() == 0 {
        Seq::empty()
    } else {
        sweep_cases(sizes.drop_last(), threads, c, res, rts, chunks) + thread_cases(
            sizes.last(),
            threads,
            c,
            res,
            rts,
            chunks,
        )
    }
}

fn push_chunks(
    out: &mut Vec<TuneCase>,
    size: usize,
    th: usize,
    pair: (usize, Option<usize>),
    re: bool,
    rt: usize,
    chunks: &Vec<usize>,
)
    ensures
        final(out)@ == old(out)@ + chunk_cases(size, th, pair, re, rt, chunks@),
{
    let ghost start = out@;
    let mut i: usize = 0;
    while i < chunks.len()
        invariant
            i <= chunks@.len(),
            out@ == start + chunk_cases(size, th, pair, re, rt, chunks@.take(i as int)),
        decreases chunks@.len() - i,
    {
        out.push(
            TuneCase {
                size_bytes: size,
                threads: th,
                channels: pair.0,
                channels_per_thread: pair.1,
                range_enabled: re,
                range_threshold_mb: rt,
                gcs_write_chunk_size: chunks[i],
            },
        );
        assert(chunk_cases(size, th, pair, re, rt, chunks@.take(i + 1)) =~= chunk_cases(
            size,
            th,
            pair,
            re,
            rt,
            chunks@.take(i as int),
        ).push(tune_case(size, th, pair, re, rt, chunks@[i as int])));
        i = i + 1;
    }
    assert(chunks@.take(chunks@.len() as int) =~= chunks@);
}

fn push_thresholds(
    out: &mut Vec<TuneCase>,
    size: usize,
    th: usize,
    pair: (usize, Option<usize>),
    re: bool,
    rts: &Vec<usize>,
    chunks: &Vec<usize>,
)
    ensures
        final(out)@ == old(out)@ + threshold_cases(size, th, pair, re, rts@, chunks@),
{
    let ghost start = out@;
    let mut i: usize = 0;
    assert(rts@.take(0) =~= Seq::<usize>::empty());
    while i < rts.len()
        invariant
            i <= rts@.len(),
            out@ == start + threshold_cases(size, th, pair, re, rts@.take(i as int), chunks@),
        decreases rts@.len() - i,
    {
        let ghost before = out@;
        push_chunks(out, size, th, pair, re, rts[i], chunks);
        assert(rts@.take(i + 1).drop_last() =~= rts@.take(i as int));
        assert(out@ =~= start + threshold_cases(size, th, pair, re, rts@.take(i + 1), chunks@));
        i = i + 1;
    }
    assert(rts@.take(rts@.len() as int) =~= rts@);
}

fn push_ranges(
    out: &mut Vec<TuneCase>,
    size: usize,
    th: usize,
    pair: (usize, Option<usize>),
    res: &Vec<bool>,
    rts: &Vec<usize>,
    chunks: &Vec<usize>,
)
    ensures
        final(out)@ == old(out)@ + range_cases(size, th, pair, res@, rts@, chunks@),
{
    let ghost start = out@;
    let mut i: usize = 0;
    assert(res@.take(0) =~= Seq::<bool>::empty());
    while i < res.len()
        invariant
            i <= res@.len(),
            out@ == start + range_cases(size, th, pair, res@.take(i as int), rts@, chunks@),
        decreases res@.len() - i,
    {
        push_thresholds(out, size, th, pair, res[i], rts, chunks);
        assert(res@.take(i + 1).drop_last() =~= res@.take(i as int));
        assert(out@ =~= start + range_cases(size, th, pair, res@.take(i + 1), rts@, chunks@));
        i = i + 1;
    }
    assert(res@.take(res@.len() as int) =~= res@);
}

fn push_pairs(
    out: &mut Vec<TuneCase>,
    size: usize,
    th: usize,
    c: &ChannelSpec,
    res: &Vec<bool>,
    rts: &Vec<usize>,
    chunks: &Vec<usize>,
)
    requires
        match *c {
            ChannelSpec::Absolute(_) => true,
            ChannelSpec::PerThread(v, _) => forall|j: int| 0 <= j < v@.len() ==> th * v@[j] <= usize::MAX,
        },
    ensures
        final(out)@ == old(out)@ + pair_cases(size, th, channel_pairs(*c, th), res@, rts@, chunks@),
{
    let ghost start = out@;
    let ghost pairs = channel_pairs(*c, th);
    let n = match c {
        ChannelSpec::Absolute(v) => v.len(),
        ChannelSpec::PerThread(v, _) => v.len(),
    };
    let mut i: usize = 0;
    assert(pairs.take(0) =~= Seq::<(usize, Option<usize>)>::empty());
    while i < n
        invariant
            i <= n,
            n == pairs.len(),
            pairs == channel_pairs(*c, th),
            match *c {
                ChannelSpec::Absolute(_) => true,
                ChannelSpec::PerThread(v, _) => forall|j: int| 0 <= j < v@.len() ==> th * v@[j] <= usize::MAX,
            },
            out@ == start + pair_cases(size, th, pairs.take(i as int), res@, rts@, chunks@),
        decreases n - i,
    {
        let pair: (usize, Option<usize>) = match c {
            ChannelSpec::Absolute(v) => (v[i], None),
            ChannelSpec::PerThread(v, _) => {
                assert(th * v@[i as int] <= usize::MAX);
                (th * v[i], Some(v[i]))
            },
        };
        assert(pair == pairs[i as int]);
        push_ranges(out, size, th, pair, res, rts, chunks);
        assert(pairs.take(i + 1).drop_last() =~= pairs.take(i as int));
        assert(out@ =~= start + pair_cases(size, th, pairs.take(i + 1), res@, rts@, chunks@));
        i = i + 1;
    }
    assert(pairs.take(n as int) =~= pairs);
}

/// The autotune sweep matrix, in loop order (see `sweep_cases`).
pub fn build_sweep(
    sizes: &Vec<usize>,
    threads: &Vec<usize>,
    c: &ChannelSpec,
    range_enabled: &Vec<bool>,
    range_thresholds: &Vec<usize>,
    chunk_sizes: &Vec<usize>,
) -> (r: Vec<TuneCase>)
    requires
        pairs_fit(*c, threads@),
    ensures
        r@ == sweep_cases(sizes@, threads@, *c, range_enabled@, range_thresholds@, chunk_sizes@),
{
    let mut out: Vec<TuneCase> = Vec::new();
    let mut i: usize = 0;
    assert(sizes@.take(0) =~= Seq::<usize>::empty());
    while i < sizes.len()
        invariant
            i <= sizes@.len(),
            pairs_fit(*c, threads@),
            out@ == sweep_cases(
                sizes@.take(i as int),
                threads@,
                *c,
                range_enabled@,
                range_thresholds@,
                chunk_sizes@,
            ),
        decreases sizes@.len() - i,
    {
        let size = sizes[i];
        let ghost before = out@;
        let mut t: usize = 0;
        assert(threads@.take(0) =~= Seq::<usize>::empty());
        while t < threads.len()
            invariant
                t <= threads@.len(),
                pairs_fit(*c, threads@),
                out@ == before + thread_cases(
                    size,
                    threads@.take(t as int),
                    *c,
                    range_enabled@,
                    range_thresholds@,
                    chunk_sizes@,
                ),
            decreases threads@.len() - t,
        {
            let th = threads[t];
            proof {
                if let ChannelSpec::PerThread(v, _) = c {
                    assert forall|j: int| 0 <= j < v@.len() implies th * v@[j] <= usize::MAX by {
                        assert(threads@[t as int] * v@[j] <= usize::MAX);
                    }
                }
            }
            push_pairs(&mut out, size, th, c, range_enabled, range_thresholds, chunk_sizes);
            assert(threads@.take(t + 1).drop_last() =~= threads@.take(t as int));
            assert(out@ =~= before + thread_cases(
                size,
                threads@.take(t + 1),
                *c,
                range_enabled@,
                range_thresholds@,
                chunk_sizes@,
            ));
            t = t + 1;
        }
        assert(threads@.take(threads@.len() as int) =~= threads@);
        assert(sizes@.take(i + 1).drop_last() =~= sizes@.take(i as int));
        i = i + 1;
    }
    assert(sizes@.take(sizes@.len() as int) =~= sizes@);
    out
}

proof fn lemma_mul_step(n: int, k: int)
    requires
        n >= 1,
    ensures
        (n - 1) * k + k == n * k,
{
    assert((n - 1) * k + k == n * k) by (nonlinear_arith);
}

/// The number of channel pairs does not depend on the thread count.
pub open spec fn pair_count(c: ChannelSpec) -> nat {
    match c {
        ChannelSpec::Absolute(v) => v@.len(),
        ChannelSpec::PerThread(v, _) => v@.len(),
    }
}

proof fn lemma_threshold_len(
    size: usize,
    th: usize,
    pair: (usize, Option<usize>),
    re: bool,
    rts: Seq<usize>,
    chunks: Seq<usize>,
)
    ensures
        threshold_cases(size, th, pair, re, rts, chunks).len() == rts.len() * chunks.len(),
    decreases rts.len(),
{
    if rts.len() > 0 {
        lemma_threshold_len(size, th, pair, re, rts.drop_last(), chunks);
        lemma_mul_step(rts.len() as int, chunks.len() as int);
    }
}

proof fn lemma_range_len(
    size: usize,
    th: usize,
    pair: (usize, Option<usize>),
    res: Seq<bool>,
    rts: Seq<usize>,
    chunks: Seq<usize>,
)
    ensures
        range_cases(size, th, pair, res, rts, chunks).len() == res.len() * (rts.len()
            * chunks.len()),
    decreases res.len(),
{
    if res.len() > 0 {
        lemma_range_len(size, th, pair, res.drop_last(), rts, chunks);
        lemma_threshold_len(size, th, pair, res.last(), rts, chunks);
        lemma_mul_step(res.len() as int, (rts.len() * chunks.len()) as int);
    }
}

proof fn lemma_pair_len(
    size: usize,
    th: usize,
    pairs: Seq<(usize, Option<usize>)>,
    res: Seq<bool>,
    rts: Seq<usize>,
    chunks: Seq<usize>,
)
    ensures
        pair_cases(size, th, pairs, res, rts, chunks).len() == pairs.len() * (res.len() * (
        rts.len() * chunks.len())),
    decreases pairs.len(),
{
    if pairs.len() > 0 {
        lemma_pair_len(size, th, pairs.drop_last(), res, rts, chunks);
        lemma_range_len(size, th, pairs.last(), res, rts, chunks);
        lemma_mul_step(pairs.len() as int, (res.len() * (rts.len() * chunks.len())) as int);
    }
}

proof fn lemma_thread_len(
    size: usize,
    threads: Seq<usize>,
    c: ChannelSpec,
    res: Seq<bool>,
    rts: Seq<usize>,
    chunks: Seq<usize>,
)
    ensures
        thread_cases(size, threads, c, res, rts, chunks).len() == threads.len() * (pair_count(c)
            * (res.len() * (rts.len() * chunks.len()))),
    decreases threads.len(),
{
    if threads.len() > 0 {
        lemma_thread_len(size, threads.drop_last(), c, res, rts, chunks);
        let pairs = channel_pairs(c, threads.last());
        assert(pairs.len() == pair_count(c));
        lemma_pair_len(size, threads.last(), pairs, res, rts, chunks);
        lemma_mul_step(
            threads.len() as int,
            (pair_count(c) * (res.len() * (rts.len() * chunks.len()))) as int,
        );
    }
}

/// The sweep has one case per combination of its dimensions: sizes ×
/// threads × channel values × range settings × thresholds × chunk sizes.
pub proof fn law_sweep_size(
    sizes: Seq<usize>,
    threads: Seq<usize>,
    c: ChannelSpec,
    res: Seq<bool>,
    rts: Seq<usize>,
    chunks: Seq<usize>,
)
    ensures
        sweep_cases(sizes, threads, c, res, rts, chunks).len() == sizes.len() * (threads.len() * (
        pair_count(c) * (res.len() * (rts.len() * chunks.len())))),
    decreases sizes.len(),
{
    if sizes.len() > 0 {
        law_sweep_size(sizes.drop_last(), threads, c, res, rts, chunks);
        lemma_thread_len(sizes.last(), threads, c, res, rts, chunks);
        lemma_mul_step(
            sizes.len() as int,
            (threads.len() * (pair_count(c) * (res.len() * (rts.len() * chunks.len())))) as int,
        );
    }
}

// ----------------------------------------------------------------------------
// Trials
// ----------------------------------------------------------------------------

fn owned(s: &str) -> (r: String)
    ensures
        r@ == s@,
{
    let mut r = String::new();
    r.append(s);
    r
}

fn decimal(n: usize) -> (r: String)
    ensures
        r@ == dec(n as nat),
{
    u64_to_dec(n as u64)
}

/// The environment a trial of a case runs with: range-download settings
/// always; on GCS also the channel count, the write chunk size and, unless
/// RAPID mode is left to auto-detection, the RAPID switch.
pub open spec fn trial_env_spec(c: TuneCase, is_gcs: bool, rapid: RapidModeArg) -> Seq<
    (Seq<char>, Seq<char>),
> {
    let base = seq![
        ("S3DLIO_ENABLE_RANGE_OPTIMIZATION"@, if c.range_enabled { "1"@ } else { "0"@ }),
        ("S3DLIO_RANGE_THRESHOLD_MB"@, dec(c.range_threshold_mb as nat)),
    ];
    if !is_gcs {
        base
    } else {
        let g = base + seq![
            ("S3DLIO_GCS_GRPC_CHANNELS"@, dec(c.channels as nat)),
            ("S3DLIO_GRPC_WRITE_CHUNK_SIZE"@, dec(c.gcs_write_chunk_size as nat)),
        ];
        match rapid {
            RapidModeArg::On => g.push(("S3DLIO_GCS_RAPID"@, "true"@)),
            RapidModeArg::Off => g.push(("S3DLIO_GCS_RAPID"@, "false"@)),
            RapidModeArg::Auto => g,
        }
    }
}

/// The view of name/value pairs.
pub open spec fn pairs_view(v: Seq<(String, String)>) -> Seq<(Seq<char>, Seq<char>)> {
    v.map_values(|p: (String, String)| (p.0@, p.1@))
}

/// The environment variables of a trial (see `trial_env_spec`).
pub fn trial_env(c: &TuneCase, is_gcs: bool, rapid: RapidModeArg) -> (r: Vec<(String, String)>)
    ensures
        pairs_view(r@) == trial_env_spec(*c, is_gcs, rapid),
{
    let mut r: Vec<(String, String)> = Vec::new();
    let flag = if c.range_enabled {
        owned("1")
    } else {
        owned("0")
    };
    r.push((owned("S3DLIO_ENABLE_RANGE_OPTIMIZATION"), flag));
    r.push((owned("S3DLIO_RANGE_THRESHOLD_MB"), decimal(c.range_threshold_mb)));
    if is_gcs {
        r.push((owned("S3DLIO_GCS_GRPC_CHANNELS"), decimal(c.channels)));
        r.push((owned("S3DLIO_GRPC_WRITE_CHUNK_SIZE"), decimal(c.gcs_write_chunk_size)));
        match rapid {
            RapidModeArg::On => r.push((owned("S3DLIO_GCS_RAPID"), owned("true"))),
            RapidModeArg::Off => r.push((owned("S3DLIO_GCS_RAPID"), owned("false"))),
            RapidModeArg::Auto => {},
        }
    }
    assert(pairs_view(r@) =~= trial_env_spec(*c, is_gcs, rapid));
    r
}

/// Whether an environment sets variable `name`.
pub open spec fn env_sets(env: Seq<(Seq<char>, Seq<char>)>, name: Seq<char>) -> bool {
    exists|i: int| 0 <= i < env.len() && (#[trigger] env[i]).0 == name
}

/// Whether an environment sets variable `name` to `value`.
pub open spec fn env_sets_to(env: Seq<(Seq<char>, Seq<char>)>, name: Seq<char>, value: Seq<char>) -> bool {
    exists|i: int| 0 <= i < env.len() && #[trigger] env[i] == (name, value)
}

/// The RAPID switch of a trial: on GCS the environment sets
/// `S3DLIO_GCS_RAPID` exactly when the user fixed the mode, to `true` for on
/// and `false` for off, and holds it once; elsewhere it never sets it.  The
/// GCS channel count and write chunk size are set exactly on GCS, and the
/// range settings always.
pub proof fn law_trial_env_switches(c: TuneCase, is_gcs: bool, rapid: RapidModeArg)
    ensures
        env_sets(trial_env_spec(c, is_gcs, rapid), "S3DLIO_GCS_RAPID"@) <==> (is_gcs && rapid
            != RapidModeArg::Auto),
        is_gcs && rapid == RapidModeArg::On ==> env_sets_to(
            trial_env_spec(c, is_gcs, rapid),
            "S3DLIO_GCS_RAPID"@,
            "true"@,
        ) && !env_sets_to(trial_env_spec(c, is_gcs, rapid), "S3DLIO_GCS_RAPID"@, "false"@),
        is_gcs && rapid == RapidModeArg::Off ==> env_sets_to(
            trial_env_spec(c, is_gcs, rapid),
            "S3DLIO_GCS_RAPID"@,
            "false"@,
        ) && !env_sets_to(trial_env_spec(c, is_gcs, rapid), "S3DLIO_GCS_RAPID"@, "true"@),
        env_sets(trial_env_spec(c, is_gcs, rapid), "S3DLIO_GCS_GRPC_CHANNELS"@) <==> is_gcs,
        env_sets(trial_env_spec(c, is_gcs, rapid), "S3DLIO_GRPC_WRITE_CHUNK_SIZE"@) <==> is_gcs,
        env_sets(trial_env_spec(c, is_gcs, rapid), "S3DLIO_ENABLE_RANGE_OPTIMIZATION"@),
        env_sets(trial_env_spec(c, is_gcs, rapid), "S3DLIO_RANGE_THRESHOLD_MB"@),
{
    reveal_strlit("S3DLIO_GCS_RAPID");
    reveal_strlit("S3DLIO_GCS_GRPC_CHANNELS");
    reveal_strlit("S3DLIO_GRPC_WRITE_CHUNK_SIZE");
    reveal_strlit("S3DLIO_ENABLE_RANGE_OPTIMIZATION");
    reveal_strlit("S3DLIO_RANGE_THRESHOLD_MB");
    reveal_strlit("true");
    reveal_strlit("false");
    let env = trial_env_spec(c, is_gcs, rapid);
    let rapid_name = "S3DLIO_GCS_RAPID"@;
    let chan = "S3DLIO_GCS_GRPC_CHANNELS"@;
    let chunk = "S3DLIO_GRPC_WRITE_CHUNK_SIZE"@;
    let rng = "S3DLIO_ENABLE_RANGE_OPTIMIZATION"@;
    let thr = "S3DLIO_RANGE_THRESHOLD_MB"@;
    // The variable names are pairwise different.
    assert(rapid_name != chan) by { assert(rapid_name.len() != chan.len()); }
    assert(rapid_name != chunk) by { assert(rapid_name.len() != chunk.len()); }
    assert(rapid_name != rng) by { assert(rapid_name.len() != rng.len()); }
    assert(rapid_name != thr) by { assert(rapid_name.len() != thr.len()); }
    assert(chan != chunk) by { assert(chan.len() != chunk.len()); }
    assert(chan != rng) by { assert(chan.len() != rng.len()); }
    assert(chan != thr) by { assert(chan[9] != thr[9]); }
    assert(chunk != rng) by { assert(chunk.len() != rng.len()); }
    assert(chunk != thr) by { assert(chunk[7] != thr[7]); }
    assert("true"@ != "false"@) by { assert("true"@.len() != "false"@.len()); }
    assert(env[0].0 == rng);
    assert(env[1].0 == thr);
    if is_gcs {
        assert(env[2].0 == chan);
        assert(env[3].0 == chunk);
        match rapid {
            RapidModeArg::On => {
                assert(env.len() == 5);
                assert(env[4] == (rapid_name, "true"@));
            },
            RapidModeArg::Off => {
                assert(env.len() == 5);
                assert(env[4] == (rapid_name, "false"@));
            },
            RapidModeArg::Auto => {
                assert(env.len() == 4);
            },
        }
        assert forall|i: int| 0 <= i < env.len() && env[i].0 == rapid_name implies i == 4 by {
            if i < 4 {
                assert(env[i].0 != rapid_name);
            }
        }
    } else {
        assert(env.len() == 2);
    }
}

/// Every value a trial environment gives reads back as the case's setting:
/// the range switch is `1` when range reads are on and `0` otherwise, and
/// the threshold, channel count and write chunk size are the decimal digits
/// of the case's numbers.
pub proof fn law_trial_env_values(c: TuneCase, is_gcs: bool, rapid: RapidModeArg)
    ensures
        forall|i: int|
            0 <= i < trial_env_spec(c, is_gcs, rapid).len() && (#[trigger] trial_env_spec(
                c,
                is_gcs,
                rapid,
            )[i]).0 == "S3DLIO_ENABLE_RANGE_OPTIMIZATION"@ ==> trial_env_spec(c, is_gcs, rapid)[i].1
                == (if c.range_enabled { "1"@ } else { "0"@ }),
        forall|i: int|
            0 <= i < trial_env_spec(c, is_gcs, rapid).len() && (#[trigger] trial_env_spec(
                c,
                is_gcs,
                rapid,
            )[i]).0 == "S3DLIO_RANGE_THRESHOLD_MB"@ ==> all_ascii_digits(
                trial_env_spec(c, is_gcs, rapid)[i].1,
            ) && digits_value(trial_env_spec(c, is_gcs, rapid)[i].1) == c.range_threshold_mb,
        forall|i: int|
            0 <= i < trial_env_spec(c, is_gcs, rapid).len() && (#[trigger] trial_env_spec(
                c,
                is_gcs,
                rapid,
            )[i]).0 == "S3DLIO_GCS_GRPC_CHANNELS"@ ==> all_ascii_digits(
                trial_env_spec(c, is_gcs, rapid)[i].1,
            ) && digits_value(trial_env_spec(c, is_gcs, rapid)[i].1) == c.channels,
        forall|i: int|
            0 <= i < trial_env_spec(c, is_gcs, rapid).len() && (#[trigger] trial_env_spec(
                c,
                is_gcs,
                rapid,
            )[i]).0 == "S3DLIO_GRPC_WRITE_CHUNK_SIZE"@ ==> all_ascii_digits(
                trial_env_spec(c, is_gcs, rapid)[i].1,
            ) && digits_value(trial_env_spec(c, is_gcs, rapid)[i].1) == c.gcs_write_chunk_size,
{
    reveal_strlit("S3DLIO_GCS_RAPID");
    reveal_strlit("S3DLIO_GCS_GRPC_CHANNELS");
    reveal_strlit("S3DLIO_GRPC_WRITE_CHUNK_SIZE");
    reveal_strlit("S3DLIO_ENABLE_RANGE_OPTIMIZATION");
    reveal_strlit("S3DLIO_RANGE_THRESHOLD_MB");
    let env = trial_env_spec(c, is_gcs, rapid);
    let rapid_name = "S3DLIO_GCS_RAPID"@;
    let chan = "S3DLIO_GCS_GRPC_CHANNELS"@;
    let chunk = "S3DLIO_GRPC_WRITE_CHUNK_SIZE"@;
    let rng = "S3DLIO_ENABLE_RANGE_OPTIMIZATION"@;
    let thr = "S3DLIO_RANGE_THRESHOLD_MB"@;
    assert(rapid_name != chan) by { assert(rapid_name.len() != chan.len()); }
    assert(rapid_name != chunk) by { assert(rapid_name.len() != chunk.len()); }
    assert(rapid_name != rng) by { assert(rapid_name.len() != rng.len()); }
    assert(rapid_name != thr) by { assert(rapid_name.len() != thr.len()); }
    assert(chan != chunk) by { assert(chan.len() != chunk.len()); }
    assert(chan != rng) by { assert(chan.len() != rng.len()); }
    assert(chan != thr) by { assert(chan[9] != thr[9]); }
    assert(chunk != rng) by { assert(chunk.len() != rng.len()); }
    assert(chunk != thr) by { assert(chunk[7] != thr[7]); }
    assert(rng != thr) by { assert(rng.len() != thr.len()); }
    lemma_dec_digits(c.range_threshold_mb as nat);
    lemma_dec_digits(c.channels as nat);
    lemma_dec_digits(c.gcs_write_chunk_size as nat);
    assert(env[0] == (rng, if c.range_enabled { "1"@ } else { "0"@ }));
    assert(env[1] == (thr, dec(c.range_threshold_mb as nat)));
    if is_gcs {
        assert(env[2] == (chan, dec(c.channels as nat)));
        assert(env[3] == (chunk, dec(c.gcs_write_chunk_size as nat)));
        if env.len() == 5 {
            assert(env[4].0 == rapid_name);
        }
    }
}

/// Arguments of a PUT trial: `util put --uri U --object-size S --objects N
/// --concurrency T`.
pub open spec fn put_args_spec(uri: Seq<char>, size: nat, objects: nat, threads: nat) -> Seq<
    Seq<char>,
> {
    seq![
        "util"@,
        "put"@,
        "--uri"@,
        uri,
        "--object-size"@,
        dec(size),
        "--objects"@,
        dec(objects),
        "--concurrency"@,
        dec(threads),
    ]
}

/// Arguments of a GET trial: `util get --uri U --jobs T`.
pub open spec fn get_args_spec(uri: Seq<char>, threads: nat) -> Seq<Seq<char>> {
    seq!["util"@, "get"@, "--uri"@, uri, "--jobs"@, dec(threads)]
}

/// The view of a list of strings.
pub open spec fn strings_view(v: Seq<String>) -> Seq<Seq<char>> {
    v.map_values(|s: String| s@)
}

/// The arguments of a PUT trial (see `put_args_spec`).
pub fn put_trial_args(trial_uri: &str, c: &TuneCase, objects: usize) -> (r: Vec<String>)
    ensures
        strings_view(r@) == put_args_spec(
            trial_uri@,
            c.size_bytes as nat,
            objects as nat,
            c.threads as nat,
        ),
{
    let r = vec![
        owned("util"),
        owned("put"),
        owned("--uri"),
        owned(trial_uri),
        owned("--object-size"),
        decimal(c.size_bytes),
        owned("--objects"),
        decimal(objects),
        owned("--concurrency"),
        decimal(c.threads),
    ];
    assert(strings_view(r@) =~= put_args_spec(
        trial_uri@,
        c.size_bytes as nat,
        objects as nat,
        c.threads as nat,
    ));
    r
}

/// The arguments of a GET trial (see `get_args_spec`).
pub fn get_trial_args(trial_uri: &str, c: &TuneCase) -> (r: Vec<String>)
    ensures
        strings_view(r@) == get_args_spec(trial_uri@, c.threads as nat),
{
    let r = vec![
        owned("util"),
        owned("get"),
        owned("--uri"),
        owned(trial_uri),
        owned("--jobs"),
        decimal(c.threads),
    ];
    assert(strings_view(r@) =~= get_args_spec(trial_uri@, c.threads as nat));
    r
}

/// A PUT trial runs `util put` on the trial URI, and each numeric flag is
/// followed by the decimal digits of its own number: the object size, the
/// object count and the concurrency, in that order of flags.  A GET trial
/// runs `util get` on the trial URI with the thread count as its jobs.
pub proof fn law_trial_args_read_back(uri: Seq<char>, size: nat, objects: nat, threads: nat)
    ensures
        put_args_spec(uri, size, objects, threads).len() == 10,
        put_args_spec(uri, size, objects, threads)[0] == "util"@,
        put_args_spec(uri, size, objects, threads)[1] == "put"@,
        put_args_spec(uri, size, objects, threads)[2] == "--uri"@,
        put_args_spec(uri, size, objects, threads)[3] == uri,
        put_args_spec(uri, size, objects, threads)[4] == "--object-size"@,
        all_ascii_digits(put_args_spec(uri, size, objects, threads)[5]),
        digits_value(put_args_spec(uri, size, objects, threads)[5]) == size,
        put_args_spec(uri, size, objects, threads)[6] == "--objects"@,
        all_ascii_digits(put_args_spec(uri, size, objects, threads)[7]),
        digits_value(put_args_spec(uri, size, objects, threads)[7]) == objects,
        put_args_spec(uri, size, objects, threads)[8] == "--concurrency"@,
        all_ascii_digits(put_args_spec(uri, size, objects, threads)[9]),
        digits_value(put_args_spec(uri, size, objects, threads)[9]) == threads,
        get_args_spec(uri, threads).len() == 6,
        get_args_spec(uri, threads)[0] == "util"@,
        get_args_spec(uri, threads)[1] == "get"@,
        get_args_spec(uri, threads)[2] == "--uri"@,
        get_args_spec(uri, threads)[3] == uri,
        get_args_spec(uri, threads)[4] == "--jobs"@,
        all_ascii_digits(get_args_spec(uri, threads)[5]),
        digits_value(get_args_spec(uri, threads)[5]) == threads,
{
    lemma_dec_digits(size);
    lemma_dec_digits(objects);
    lemma_dec_digits(threads);
}

/// One command of a trial.
#[derive(Clone, Copy, Debug, PartialEq, Eq, Structural)]
pub enum TrialStep {
    /// A measured PUT.
    Put,
    /// A PUT that only seeds objects for a GET-only sweep (not measured).
    SeedPut,
    /// A measured GET.
    Get,
}

/// The commands of one trial, in order: PUT alone; a seeding PUT then GET;
/// or PUT then GET.
pub fn trial_steps(ops: TuneOps) -> (r: Vec<TrialStep>)
    ensures
        r@ == match ops {
            TuneOps::Put => seq![TrialStep::Put],
            TuneOps::Get => seq![TrialStep::SeedPut, TrialStep::Get],
            TuneOps::Both => seq![TrialStep::Put, TrialStep::Get],
        },
{
    let r = match ops {
        TuneOps::Put => vec![TrialStep::Put],
        TuneOps::Get => vec![TrialStep::SeedPut, TrialStep::Get],
        TuneOps::Both => vec![TrialStep::Put, TrialStep::Get],
    };
    assert(r@ =~= match ops {
        TuneOps::Put => seq![TrialStep::Put],
        TuneOps::Get => seq![TrialStep::SeedPut, TrialStep::Get],
        TuneOps::Both => seq![TrialStep::Put, TrialStep::Get],
    });
    r
}

/// A case draws every value from the sweep's lists, and its channel count
/// is an absolute value of the sweep or its thread count times a multiplier
/// of the sweep.
pub open spec fn case_from(
    c: TuneCase,
    sizes: Seq<usize>,
    threads: Seq<usize>,
    spec: ChannelSpec,
    res: Seq<bool>,
    rts: Seq<usize>,
    chunks: Seq<usize>,
) -> bool {
    &&& sizes.contains(c.size_bytes)
    &&& threads.contains(c.threads)
    &&& res.contains(c.range_enabled)
    &&& rts.contains(c.range_threshold_mb)
    &&& chunks.contains(c.gcs_write_chunk_size)
    &&& match spec {
        ChannelSpec::Absolute(v) => c.channels_per_thread is None && v@.contains(c.channels),
        ChannelSpec::PerThread(v, _) => c.channels_per_thread matches Some(m) && v@.contains(m)
            && c.channels == c.threads * m,
    }
}

/// All cases of a sequence come from the sweep's lists.
pub open spec fn all_from(
    cases: Seq<TuneCase>,
    sizes: Seq<usize>,
    threads: Seq<usize>,
    spec: ChannelSpec,
    res: Seq<bool>,
    rts: Seq<usize>,
    chunks: Seq<usize>,
) -> bool {
    forall|i: int|
        0 <= i < cases.len() ==> case_from(#[trigger] cases[i], sizes, threads, spec, res, rts, chunks)
}

proof fn lemma_all_from_concat(
    a: Seq<TuneCase>,
    b: Seq<TuneCase>,
    sizes: Seq<usize>,
    threads: Seq<usize>,
    spec: ChannelSpec,
    res: Seq<bool>,
    rts: Seq<usize>,
    chunks: Seq<usize>,
)
    requires
        all_from(a, sizes, threads, spec, res, rts, chunks),
        all_from(b, sizes, threads, spec, res, rts, chunks),
    ensures
        all_from(a + b, sizes, threads, spec, res, rts, chunks),
{
    assert forall|i: int| 0 <= i < (a + b).len() implies case_from(
        #[trigger] (a + b)[i],
        sizes,
        threads,
        spec,
        res,
        rts,
        chunks,
    ) by {
        if i < a.len() {
            assert((a + b)[i] == a[i]);
        } else {
            assert((a + b)[i] == b[i - a.len()]);
        }
    }
}

/// Whether a pair is one the spec produces for a thread count.
pub open spec fn pair_of(pair: (usize, Option<usize>), spec: ChannelSpec, th: usize) -> bool {
    match spec {
        ChannelSpec::Absolute(v) => pair.1 is None && v@.contains(pair.0),
        ChannelSpec::PerThread(v, _) => pair.1 matches Some(m) && v@.contains(m) && pair.0 == th * m,
    }
}

proof fn lemma_threshold_from(
    size: usize,
    th: usize,
    pair: (usize, Option<usize>),
    re: bool,
    rts_part: Seq<usize>,
    sizes: Seq<usize>,
    threads: Seq<usize>,
    spec: ChannelSpec,
    res: Seq<bool>,
    rts: Seq<usize>,
    chunks: Seq<usize>,
)
    requires
        sizes.contains(size),
        threads.contains(th),
        pair_of(pair, spec, th),
        res.contains(re),
        forall|k: int| 0 <= k < rts_part.len() ==> rts.contains(#[trigger] rts_part[k]),
    ensures
        all_from(threshold_cases(size, th, pair, re, rts_part, chunks), sizes, threads, spec, res, rts, chunks),
    decreases rts_part.len(),
{
    if rts_part.len() > 0 {
        let init = rts_part.drop_last();
        assert forall|k: int| 0 <= k < init.len() implies rts.contains(#[trigger] init[k]) by {
            assert(init[k] == rts_part[k]);
        }
        lemma_threshold_from(size, th, pair, re, init, sizes, threads, spec, res, rts, chunks);
        let rt = rts_part.last();
        assert(rts.contains(rts_part[rts_part.len() - 1]));
        let tail = chunk_cases(size, th, pair, re, rt, chunks);
        assert forall|i: int| 0 <= i < tail.len() implies case_from(
            #[trigger] tail[i],
            sizes,
            threads,
            spec,
            res,
            rts,
            chunks,
        ) by {
            assert(chunks.contains(chunks[i]));
        }
        lemma_all_from_concat(
            threshold_cases(size, th, pair, re, init, chunks),
            tail,
            sizes,
            threads,
            spec,
            res,
            rts,
            chunks,
        );
    }
}

proof fn lemma_range_from(
    size: usize,
    th: usize,
    pair: (usize, Option<usize>),
    res_part: Seq<bool>,
    sizes: Seq<usize>,
    threads: Seq<usize>,
    spec: ChannelSpec,
    res: Seq<bool>,
    rts: Seq<usize>,
    chunks: Seq<usize>,
)
    requires
        sizes.contains(size),
        threads.contains(th),
        pair_of(pair, spec, th),
        forall|k: int| 0 <= k < res_part.len() ==> res.contains(#[trigger] res_part[k]),
    ensures
        all_from(range_cases(size, th, pair, res_part, rts, chunks), sizes, threads, spec, res, rts, chunks),
    decreases res_part.len(),
{
    if res_part.len() > 0 {
        let init = res_part.drop_last();
        assert forall|k: int| 0 <= k < init.len() implies res.contains(#[trigger] init[k]) by {
            assert(init[k] == res_part[k]);
        }
        lemma_range_from(size, th, pair, init, sizes, threads, spec, res, rts, chunks);
        assert(res.contains(res_part[res_part.len() - 1]));
        assert forall|k: int| 0 <= k < rts.len() implies rts.contains(#[trigger] rts[k]) by {}
        lemma_threshold_from(size, th, pair, res_part.last(), rts, sizes, threads, spec, res, rts, chunks);
        lemma_all_from_concat(
            range_cases(size, th, pair, init, rts, chunks),
            threshold_cases(size, th, pair, res_part.last(), rts, chunks),
            sizes,
            threads,
            spec,
            res,
            rts,
            chunks,
        );
    }
}

proof fn lemma_pair_from(
    size: usize,
    th: usize,
    pairs: Seq<(usize, Option<usize>)>,
    sizes: Seq<usize>,
    threads: Seq<usize>,
    spec: ChannelSpec,
    res: Seq<bool>,
    rts: Seq<usize>,
    chunks: Seq<usize>,
)
    requires
        sizes.contains(size),
        threads.contains(th),
        forall|k: int| 0 <= k < pairs.len() ==> pair_of(#[trigger] pairs[k], spec, th),
    ensures
        all_from(pair_cases(size, th, pairs, res, rts, chunks), sizes, threads, spec, res, rts, chunks),
    decreases pairs.len(),
{
    if pairs.len() > 0 {
        let init = pairs.drop_last();
        assert forall|k: int| 0 <= k < init.len() implies pair_of(#[trigger] init[k], spec, th) by {
            assert(init[k] == pairs[k]);
        }
        lemma_pair_from(size, th, init, sizes, threads, spec, res, rts, chunks);
        assert(pair_of(pairs[pairs.len() - 1], spec, th));
        assert forall|k: int| 0 <= k < res.len() implies res.contains(#[trigger] res[k]) by {}
        lemma_range_from(size, th, pairs.last(), res, sizes, threads, spec, res, rts, chunks);
        lemma_all_from_concat(
            pair_cases(size, th, init, res, rts, chunks),
            range_cases(size, th, pairs.last(), res, rts, chunks),
            sizes,
            threads,
            spec,
            res,
            rts,
            chunks,
        );
    }
}

proof fn lemma_thread_from(
    size: usize,
    threads_part: Seq<usize>,
    sizes: Seq<usize>,
    threads: Seq<usize>,
    spec: ChannelSpec,
    res: Seq<bool>,
    rts: Seq<usize>,
    chunks: Seq<usize>,
)
    requires
        sizes.contains(size),
        forall|k: int| 0 <= k < threads_part.len() ==> threads.contains(#[trigger] threads_part[k]),
        pairs_fit(spec, threads),
    ensures
        all_from(thread_cases(size, threads_part, spec, res, rts, chunks), sizes, threads, spec, res, rts, chunks),
    decreases threads_part.len(),
{
    if threads_part.len() > 0 {
        let init = threads_part.drop_last();
        assert forall|k: int| 0 <= k < init.len() implies threads.contains(#[trigger] init[k]) by {
            assert(init[k] == threads_part[k]);
        }
        lemma_thread_from(size, init, sizes, threads, spec, res, rts, chunks);
        let th = threads_part.last();
        assert(threads.contains(threads_part[threads_part.len() - 1]));
        let pairs = channel_pairs(spec, th);
        assert forall|k: int| 0 <= k < pairs.len() implies pair_of(#[trigger] pairs[k], spec, th) by {
            match spec {
                ChannelSpec::Absolute(v) => {
                    assert(v@.contains(v@[k]));
                },
                ChannelSpec::PerThread(v, _) => {
                    assert(v@.contains(v@[k]));
                    let j = choose|j: int| 0 <= j < threads.len() && threads[j] == th;
                    assert(threads[j] * v@[k] <= usize::MAX);
                },
            }
        }
        lemma_pair_from(size, th, pairs, sizes, threads, spec, res, rts, chunks);
        lemma_all_from_concat(
            thread_cases(size, init, spec, res, rts, chunks),
            pair_cases(size, th, pairs, res, rts, chunks),
            sizes,
            threads,
            spec,
            res,
            rts,
            chunks,
        );
    }
}

proof fn lemma_sweep_from(
    sizes_part: Seq<usize>,
    sizes: Seq<usize>,
    threads: Seq<usize>,
    spec: ChannelSpec,
    res: Seq<bool>,
    rts: Seq<usize>,
    chunks: Seq<usize>,
)
    requires
        forall|k: int| 0 <= k < sizes_part.len() ==> sizes.contains(#[trigger] sizes_part[k]),
        pairs_fit(spec, threads),
    ensures
        all_from(sweep_cases(sizes_part, threads, spec, res, rts, chunks), sizes, threads, spec, res, rts, chunks),
    decreases sizes_part.len(),
{
    if sizes_part.len() > 0 {
        let init = sizes_part.drop_last();
        assert forall|k: int| 0 <= k < init.len() implies sizes.contains(#[trigger] init[k]) by {
            assert(init[k] == sizes_part[k]);
        }
        lemma_sweep_from(init, sizes, threads, spec, res, rts, chunks);
        assert(sizes.contains(sizes_part[sizes_part.len() - 1]));
        assert forall|k: int| 0 <= k < threads.len() implies threads.contains(#[trigger] threads[k]) by {}
        lemma_thread_from(sizes_part.last(), threads, sizes, threads, spec, res, rts, chunks);
        lemma_all_from_concat(
            sweep_cases(init, threads, spec, res, rts, chunks),
            thread_cases(sizes_part.last(), threads, spec, res, rts, chunks),
            sizes,
            threads,
            spec,
            res,
            rts,
            chunks,
        );
    }
}

/// Every case of the sweep uses only the configured values, and its
/// channel count is a configured absolute count or its thread count times
/// a configured multiplier.
pub proof fn law_sweep_cases_from_lists(
    sizes: Seq<usize>,
    threads: Seq<usize>,
    spec: ChannelSpec,
    res: Seq<bool>,
    rts: Seq<usize>,
    chunks: Seq<usize>,
)
    requires
        pairs_fit(spec, threads),
    ensures
        all_from(sweep_cases(sizes, threads, spec, res, rts, chunks), sizes, threads, spec, res, rts, chunks),
{
    assert forall|k: int| 0 <= k < sizes.len() implies sizes.contains(#[trigger] sizes[k]) by {}
    lemma_sweep_from(sizes, sizes, threads, spec, res, rts, chunks);
}

} // verus!
