//! Values of the command line and of autotune files: mode keywords,
//! comma-separated lists, URI selection, trial URIs and number grouping.

use vstd::prelude::*;
use vstd::string::*;
use crate::fixed_point::{
    fixed_exec, lemma_nearest_double_close, lemma_two_pow_consts, lemma_two_pow_mono,
    lemma_two_pow_pos, nearest_double, nearest_double_exec, quotient_double, quotient_double_exec,
    scaled, ten_pow, ten_pow_exec, two_pow, two_pow_exec, u128_to_dec, lemma_bit_len_le,
};
use crate::metadata_cache::{parse_url, url_parse_result};
use crate::glob::string_views;
use crate::text::{
    ascii_lower, ascii_lower_eq, ascii_lower_seq, csv_tokens, csv_tokens_exec, dec, ends_with, ends_with_str,
    find_char, first_index_of, parse_usize, trim_end_char, trim_end_matches_char, parse_usize_spec, str_eq, trim, trim_spec,
    u64_to_dec, u64_to_dec_padded, zero_pad, lemma_dec_digits, is_ascii_digit,
};

verus! {

broadcast use vstd::string::group_string_axioms;

/// What to optimise an autotune sweep for.
#[derive(Clone, Copy, Debug, PartialEq, Eq, Structural)]
pub enum OptimizeFor {
    Throughput,
    Latency,
}

/// Which operations an autotune sweep measures.
#[derive(Clone, Copy, Debug, PartialEq, Eq, Structural)]
pub enum TuneOps {
    Put,
    Get,
    Both,
}

/// GCS RAPID mode selection.
#[derive(Clone, Copy, Debug, PartialEq, Eq, Structural)]
pub enum RapidModeArg {
    Auto,
    On,
    Off,
}

/// One case of an autotune sweep.
#[derive(Clone, Debug)]
pub struct TuneCase {
    pub size_bytes: usize,
    pub threads: usize,
    /// Effective (absolute) number of GCS gRPC channels used for this trial.
    pub channels: usize,
    /// Multiplier used to derive `channels` from `threads` (None = absolute sweep).
    pub channels_per_thread: Option<usize>,
    pub range_enabled: bool,
    pub range_threshold_mb: usize,
    pub gcs_write_chunk_size: usize,
}

/// Errors of command-line value handling; each carries the text it refers to.
#[derive(Clone, Debug)]
pub enum CliError {
    /// An unknown `gcs_rapid_mode` value (as given).
    InvalidRapidMode(String),
    /// An unknown `optimize_for` value (as given).
    InvalidOptimizeFor(String),
    /// An unknown `ops` value (as given).
    InvalidTuneOps(String),
    /// A URI was given both as positional argument and as flag, differently.
    ConflictingUri,
    /// No URI was given.
    MissingUri,
    /// A list token that is not an unsigned integer (trimmed).
    InvalidInteger(String),
    /// A numeric list without any value (the whole input).
    NoNumericValues(String),
    /// A list token that is not a boolean word (trimmed).
    InvalidBool(String),
    /// A boolean list without any value (the whole input).
    NoBoolValues(String),
    /// A URI that does not parse.
    InvalidUri,
    /// A URI of an unsupported scheme (the scheme).
    UnsupportedScheme(String),
    /// A channel multiplier of zero in `channels_per_thread`.
    ZeroChannelMultiplier,
}

/// The message of each error.
pub open spec fn cli_error_message(e: CliError) -> Seq<char> {
    match e {
        CliError::InvalidRapidMode(s) => "Invalid gcs_rapid_mode '"@ + s@ + "'. Use auto|on|off"@,
        CliError::InvalidOptimizeFor(s) => "Invalid optimize_for '"@ + s@
            + "'. Use throughput|latency"@,
        CliError::InvalidTuneOps(s) => "Invalid ops '"@ + s@ + "'. Use put|get|both"@,
        CliError::ConflictingUri => "Provide URI either as positional <URI> or --uri <URI>, not both"@,
        CliError::MissingUri => "Missing URI: use positional <URI> or --uri <URI>"@,
        CliError::InvalidInteger(s) => "Invalid integer: "@ + s@,
        CliError::NoNumericValues(s) => "Expected at least one numeric value, got '"@ + s@ + "'."@,
        CliError::InvalidBool(s) => "Invalid bool '"@ + s@ + "'. Use true/false."@,
        CliError::NoBoolValues(s) => "Expected at least one bool value, got '"@ + s@ + "'."@,
        CliError::InvalidUri => "Invalid URI format"@,
        CliError::UnsupportedScheme(s) => "Unsupported backend scheme '"@ + s@
            + "'. Supported schemes: file://, direct://, s3://, az://, gs://"@,
        CliError::ZeroChannelMultiplier =>
            "channels_per_thread: all values must be ≥ 1 (0 is not a valid channel multiplier)"@,
    }
}

impl CliError {
    /// The human-readable message of the error.
    pub fn message(&self) -> (r: String)
        ensures
            r@ == cli_error_message(*self),
    {
        let mut m = String::new();
        match self {
            CliError::InvalidRapidMode(s) => {
                m.append("Invalid gcs_rapid_mode '");
                m.append(s.as_str());
                m.append("'. Use auto|on|off");
            },
            CliError::InvalidOptimizeFor(s) => {
                m.append("Invalid optimize_for '");
                m.append(s.as_str());
                m.append("'. Use throughput|latency");
            },
            CliError::InvalidTuneOps(s) => {
                m.append("Invalid ops '");
                m.append(s.as_str());
                m.append("'. Use put|get|both");
            },
            CliError::ConflictingUri => {
                m.append("Provide URI either as positional <URI> or --uri <URI>, not both");
            },
            CliError::MissingUri => {
                m.append("Missing URI: use positional <URI> or --uri <URI>");
            },
            CliError::InvalidInteger(s) => {
                m.append("Invalid integer: ");
                m.append(s.as_str());
            },
            CliError::NoNumericValues(s) => {
                m.append("Expected at least one numeric value, got '");
                m.append(s.as_str());
                m.append("'.");
            },
            CliError::InvalidBool(s) => {
                m.append("Invalid bool '");
                m.append(s.as_str());
                m.append("'. Use true/false.");
            },
            CliError::NoBoolValues(s) => {
                m.append("Expected at least one bool value, got '");
                m.append(s.as_str());
                m.append("'.");
            },
            CliError::InvalidUri => {
                m.append("Invalid URI format");
            },
            CliError::UnsupportedScheme(s) => {
                m.append("Unsupported backend scheme '");
                m.append(s.as_str());
                m.append("'. Supported schemes: file://, direct://, s3://, az://, gs://");
            },
            CliError::ZeroChannelMultiplier => {
                m.append(
                    "channels_per_thread: all values must be ≥ 1 (0 is not a valid channel multiplier)",
                );
            },
        }
        m
    }
}

/// The keyword of a value: trimmed and ASCII-lowercased.
pub open spec fn keyword(s: Seq<char>) -> Seq<char> {
    ascii_lower_seq(trim_spec(s))
}

/// The RAPID mode a keyword names.
pub open spec fn rapid_mode_of(s: Seq<char>) -> Option<RapidModeArg> {
    let k = keyword(s);
    if k == "auto"@ {
        Some(RapidModeArg::Auto)
    } else if k == "on"@ || k == "true"@ || k == "1"@ || k == "yes"@ {
        Some(RapidModeArg::On)
    } else if k == "off"@ || k == "false"@ || k == "0"@ || k == "no"@ {
        Some(RapidModeArg::Off)
    } else {
        None
    }
}

/// The optimisation goal a keyword names.
pub open spec fn optimize_for_of(s: Seq<char>) -> Option<OptimizeFor> {
    let k = keyword(s);
    if k == "throughput"@ {
        Some(OptimizeFor::Throughput)
    } else if k == "latency"@ {
        Some(OptimizeFor::Latency)
    } else {
        None
    }
}

/// The operation set a keyword names.
pub open spec fn tune_ops_of(s: Seq<char>) -> Option<TuneOps> {
    let k = keyword(s);
    if k == "put"@ {
        Some(TuneOps::Put)
    } else if k == "get"@ {
        Some(TuneOps::Get)
    } else if k == "both"@ {
        Some(TuneOps::Both)
    } else {
        None
    }
}

proof fn lemma_ascii_lower_idempotent(s: Seq<char>)
    ensures
        ascii_lower_seq(ascii_lower_seq(s)) == ascii_lower_seq(s),
{
    assert forall|i: int| 0 <= i < s.len() implies ascii_lower(ascii_lower(s[i])) == ascii_lower(s[i]) by {
        let c = s[i];
        if 'A' <= c && c <= 'Z' {
            assert((c as int) + 32 >= 97);
        }
    }
    assert(ascii_lower_seq(ascii_lower_seq(s)) =~= ascii_lower_seq(s));
}

/// A fixed RAPID mode is named by exactly the words that name a boolean:
/// a keyword other than `auto` turns RAPID on exactly when it is a true
/// word and off exactly when it is a false word; `auto` alone leaves it to
/// detection.
pub proof fn law_rapid_switch_words_are_bool_words(s: Seq<char>)
    ensures
        rapid_mode_of(s) == Some(RapidModeArg::Auto) <==> keyword(s) == "auto"@,
        keyword(s) != "auto"@ ==> (rapid_mode_of(s) == Some(RapidModeArg::On) <==> bool_word(
            keyword(s),
        ) == Some(true)),
        keyword(s) != "auto"@ ==> (rapid_mode_of(s) == Some(RapidModeArg::Off) <==> bool_word(
            keyword(s),
        ) == Some(false)),
{
    lemma_ascii_lower_idempotent(trim_spec(s));
}

/// Parse a `gcs_rapid_mode` value: `auto`, `on|true|1|yes` or
/// `off|false|0|no`, ignoring surrounding whitespace and ASCII case.
pub fn parse_rapid_mode_str(s: &str) -> (r: Result<RapidModeArg, CliError>)
    ensures
        match rapid_mode_of(s@) {
            Some(m) => r == Ok::<RapidModeArg, CliError>(m),
            None => r matches Err(CliError::InvalidRapidMode(t)) && t@ == s@,
        },
{
    let t = trim(s);
    if ascii_lower_eq(t, "auto") {
        Ok(RapidModeArg::Auto)
    } else if ascii_lower_eq(t, "on") || ascii_lower_eq(t, "true") || ascii_lower_eq(t, "1")
        || ascii_lower_eq(t, "yes") {
        Ok(RapidModeArg::On)
    } else if ascii_lower_eq(t, "off") || ascii_lower_eq(t, "false") || ascii_lower_eq(t, "0")
        || ascii_lower_eq(t, "no") {
        Ok(RapidModeArg::Off)
    } else {
        Err(CliError::InvalidRapidMode(String::from_str(s)))
    }
}

/// Parse an `optimize_for` value: `throughput` or `latency`, ignoring
/// surrounding whitespace and ASCII case.
pub fn parse_optimize_for_str(s: &str) -> (r: Result<OptimizeFor, CliError>)
    ensures
        match optimize_for_of(s@) {
            Some(m) => r == Ok::<OptimizeFor, CliError>(m),
            None => r matches Err(CliError::InvalidOptimizeFor(t)) && t@ == s@,
        },
{
    let t = trim(s);
    if ascii_lower_eq(t, "throughput") {
        Ok(OptimizeFor::Throughput)
    } else if ascii_lower_eq(t, "latency") {
        Ok(OptimizeFor::Latency)
    } else {
        Err(CliError::InvalidOptimizeFor(String::from_str(s)))
    }
}

/// Parse an `ops` value: `put`, `get` or `both`, ignoring surrounding
/// whitespace and ASCII case.
pub fn parse_tune_ops_str(s: &str) -> (r: Result<TuneOps, CliError>)
    ensures
        match tune_ops_of(s@) {
            Some(m) => r == Ok::<TuneOps, CliError>(m),
            None => r matches Err(CliError::InvalidTuneOps(t)) && t@ == s@,
        },
{
    let t = trim(s);
    if ascii_lower_eq(t, "put") {
        Ok(TuneOps::Put)
    } else if ascii_lower_eq(t, "get") {
        Ok(TuneOps::Get)
    } else if ascii_lower_eq(t, "both") {
        Ok(TuneOps::Both)
    } else {
        Err(CliError::InvalidTuneOps(String::from_str(s)))
    }
}

/// Pick the URI of a utility command from its flag and positional forms:
/// either one alone, or both when they are the same.
pub fn resolve_util_uri(uri_flag: Option<String>, uri_pos: Option<String>) -> (r: Result<String, CliError>)
    ensures
        match (uri_flag, uri_pos) {
            (Some(a), None) => r matches Ok(u) && u@ == a@,
            (None, Some(b)) => r matches Ok(u) && u@ == b@,
            (Some(a), Some(b)) => if a@ == b@ {
                r matches Ok(u) && u@ == a@
            } else {
                r matches Err(CliError::ConflictingUri)
            },
            (None, None) => r matches Err(CliError::MissingUri),
        },
{
    match uri_flag {
        Some(a) => match uri_pos {
            None => Ok(a),
            Some(b) => {
                if str_eq(a.as_str(), b.as_str()) {
                    Ok(a)
                } else {
                    Err(CliError::ConflictingUri)
                }
            },
        },
        None => match uri_pos {
            Some(b) => Ok(b),
            None => Err(CliError::MissingUri),
        },
    }
}

/// Index of the first token that does not parse as a `usize`.
pub open spec fn first_bad_usize(toks: Seq<Seq<char>>) -> Option<int>
    decreases toks.len(),
{
    if toks.len() == 0 {
        None
    } else {
        match first_bad_usize(toks.drop_last()) {
            Some(k) => Some(k),
            None => if parse_usize_spec(toks.last()) is None {
                Some(toks.len() - 1)
            } else {
                None
            },
        }
    }
}

/// Values of tokens that all parse as `usize`.
pub open spec fn usize_values(toks: Seq<Seq<char>>) -> Seq<usize> {
    toks.map_values(|t: Seq<char>| parse_usize_spec(t).unwrap())
}

proof fn lemma_first_bad_usize_none(toks: Seq<Seq<char>>, i: int)
    requires
        first_bad_usize(toks) is None,
        0 <= i < toks.len(),
    ensures
        parse_usize_spec(toks[i]) is Some,
    decreases toks.len(),
{
    if i < toks.len() - 1 {
        assert(toks.drop_last()[i] == toks[i]);
        lemma_first_bad_usize_none(toks.drop_last(), i);
    }
}

/// Parse a comma-separated list of unsigned integers (tokens are trimmed,
/// empty tokens skipped).  The first token that is not a number is reported;
/// a list without tokens is an error too.
pub fn parse_csv_usize(input: &str) -> (r: Result<Vec<usize>, CliError>)
    ensures
        match r {
            Ok(v) => first_bad_usize(csv_tokens(input@)) is None && csv_tokens(input@).len() > 0
                && v@ == usize_values(csv_tokens(input@)),
            Err(e) => match first_bad_usize(csv_tokens(input@)) {
                Some(k) => e matches CliError::InvalidInteger(t) && t@ == csv_tokens(input@)[k],
                None => csv_tokens(input@).len() == 0 && (e matches CliError::NoNumericValues(t)
                    && t@ == input@),
            },
        },
{
    let toks = csv_tokens_exec(input);
    let ghost tv = toks@.map_values(|t: &str| t@);
    let mut out: Vec<usize> = Vec::new();
    let mut i: usize = 0;
    while i < toks.len()
        invariant
            i <= toks@.len(),
            tv == toks@.map_values(|t: &str| t@),
            tv == csv_tokens(input@),
            first_bad_usize(tv.subrange(0, i as int)) is None,
            out@ == usize_values(tv.subrange(0, i as int)),
        decreases toks@.len() - i,
    {
        let ghost pre = tv.subrange(0, i as int);
        let ghost next = tv.subrange(0, i + 1);
        proof {
            assert(next.drop_last() =~= pre);
            assert(next.last() == toks@[i as int]@);
        }
        match parse_usize(toks[i]) {
            Some(v) => {
                out.push(v);
                proof {
                    assert(out@ =~= usize_values(next));
                }
            },
            None => {
                proof {
                    assert(first_bad_usize(next) == Some(i as int));
                    lemma_first_bad_prefix(tv, i as int);
                }
                return Err(CliError::InvalidInteger(String::from_str(toks[i])));
            },
        }
        i = i + 1;
    }
    proof {
        assert(tv.subrange(0, toks@.len() as int) =~= tv);
    }
    if out.len() == 0 {
        return Err(CliError::NoNumericValues(String::from_str(input)));
    }
    Ok(out)
}

proof fn lemma_first_bad_prefix(toks: Seq<Seq<char>>, i: int)
    requires
        0 <= i < toks.len(),
        first_bad_usize(toks.subrange(0, i + 1)) == Some(i),
    ensures
        first_bad_usize(toks) == Some(i),
    decreases toks.len(),
{
    if toks.len() > i + 1 {
        assert(toks.drop_last().subrange(0, i + 1) =~= toks.subrange(0, i + 1));
        lemma_first_bad_prefix(toks.drop_last(), i);
    } else {
        assert(toks.subrange(0, i + 1) =~= toks);
    }
}

/// The boolean a list token names: `1|true|yes|on` or `0|false|no|off`,
/// in any ASCII case.
pub open spec fn bool_word(t: Seq<char>) -> Option<bool> {
    let k = ascii_lower_seq(t);
    if k == "1"@ || k == "true"@ || k == "yes"@ || k == "on"@ {
        Some(true)
    } else if k == "0"@ || k == "false"@ || k == "no"@ || k == "off"@ {
        Some(false)
    } else {
        None
    }
}

/// Index of the first token that is not a boolean word.
pub open spec fn first_bad_bool(toks: Seq<Seq<char>>) -> Option<int>
    decreases toks.len(),
{
    if toks.len() == 0 {
        None
    } else {
        match first_bad_bool(toks.drop_last()) {
            Some(k) => Some(k),
            None => if bool_word(toks.last()) is None {
                Some(toks.len() - 1)
            } else {
                None
            },
        }
    }
}

/// Values of tokens that are all boolean words.
pub open spec fn bool_values(toks: Seq<Seq<char>>) -> Seq<bool> {
    toks.map_values(|t: Seq<char>| bool_word(t).unwrap())
}

proof fn lemma_first_bad_bool_prefix(toks: Seq<Seq<char>>, i: int)
    requires
        0 <= i < toks.len(),
        first_bad_bool(toks.subrange(0, i + 1)) == Some(i),
    ensures
        first_bad_bool(toks) == Some(i),
    decreases toks.len(),
{
    if toks.len() > i + 1 {
        assert(toks.drop_last().subrange(0, i + 1) =~= toks.subrange(0, i + 1));
        lemma_first_bad_bool_prefix(toks.drop_last(), i);
    } else {
        assert(toks.subrange(0, i + 1) =~= toks);
    }
}

/// The boolean a token names.
fn bool_word_exec(t: &str) -> (r: Option<bool>)
    ensures
        r == bool_word(t@),
{
    if ascii_lower_eq(t, "1") || ascii_lower_eq(t, "true") || ascii_lower_eq(t, "yes")
        || ascii_lower_eq(t, "on") {
        Some(true)
    } else if ascii_lower_eq(t, "0") || ascii_lower_eq(t, "false") || ascii_lower_eq(t, "no")
        || ascii_lower_eq(t, "off") {
        Some(false)
    } else {
        None
    }
}

/// Parse a comma-separated list of booleans (tokens are trimmed, empty
/// tokens skipped).  The first token that is not a boolean word is reported;
/// a list without tokens is an error too.
pub fn parse_csv_bool(input: &str) -> (r: Result<Vec<bool>, CliError>)
    ensures
        match r {
            Ok(v) => first_bad_bool(csv_tokens(input@)) is None && csv_tokens(input@).len() > 0
                && v@ == bool_values(csv_tokens(input@)),
            Err(e) => match first_bad_bool(csv_tokens(input@)) {
                Some(k) => e matches CliError::InvalidBool(t) && t@ == csv_tokens(input@)[k],
                None => csv_tokens(input@).len() == 0 && (e matches CliError::NoBoolValues(t)
                    && t@ == input@),
            },
        },
{
    let toks = csv_tokens_exec(input);
    let ghost tv = toks@.map_values(|t: &str| t@);
    let mut out: Vec<bool> = Vec::new();
    let mut i: usize = 0;
    while i < toks.len()
        invariant
            i <= toks@.len(),
            tv == toks@.map_values(|t: &str| t@),
            tv == csv_tokens(input@),
            first_bad_bool(tv.subrange(0, i as int)) is None,
            out@ == bool_values(tv.subrange(0, i as int)),
        decreases toks@.len() - i,
    {
        let ghost pre = tv.subrange(0, i as int);
        let ghost next = tv.subrange(0, i + 1);
        proof {
            assert(next.drop_last() =~= pre);
            assert(next.last() == toks@[i as int]@);
        }
        match bool_word_exec(toks[i]) {
            Some(v) => {
                out.push(v);
                proof {
                    assert(out@ =~= bool_values(next));
                }
            },
            None => {
                proof {
                    assert(first_bad_bool(next) == Some(i as int));
                    lemma_first_bad_bool_prefix(tv, i as int);
                }
                return Err(CliError::InvalidBool(String::from_str(toks[i])));
            },
        }
        i = i + 1;
    }
    proof {
        assert(tv.subrange(0, toks@.len() as int) =~= tv);
    }
    if out.len() == 0 {
        return Err(CliError::NoBoolValues(String::from_str(input)));
    }
    Ok(out)
}

/// The trial tag `trial{id:03}`.
pub open spec fn trial_tag(id: nat) -> Seq<char> {
    "trial"@ + zero_pad(dec(id), 3)
}

/// The object URI pattern of one autotune trial: a glob has its first `*`
/// replaced by `trial{id:03}_*`; a directory gets `autotune/trial{id:03}/obj*.dat`;
/// any other base gets `.trial{id:03}.*` appended.
pub open spec fn trial_uri_spec(base: Seq<char>, id: nat) -> Seq<char> {
    match first_index_of(base, '*', 0) {
        Some(k) => base.subrange(0, k as int) + trial_tag(id) + "_*"@ + base.subrange(
            k + 1 as int,
            base.len() as int,
        ),
        None => if ends_with(base, "/"@) {
            base + "autotune/"@ + trial_tag(id) + "/obj*.dat"@
        } else {
            base + "."@ + trial_tag(id) + ".*"@
        },
    }
}

/// Build the URI pattern of one autotune trial (see `trial_uri_spec`).
pub fn build_trial_uri(base_uri: &str, trial_id: usize) -> (r: String)
    ensures
        r@ == trial_uri_spec(base_uri@, trial_id as nat),
{
    let tag_num = u64_to_dec_padded(trial_id as u64, 3);
    let mut r = String::new();
    match find_char(base_uri, '*') {
        Some(k) => {
            let n = base_uri.unicode_len();
            r.append(base_uri.substring_char(0, k));
            r.append("trial");
            r.append(tag_num.as_str());
            r.append("_*");
            r.append(base_uri.substring_char(k + 1, n));
        },
        None => {
            r.append(base_uri);
            if ends_with_str(base_uri, "/") {
                r.append("autotune/");
                r.append("trial");
                r.append(tag_num.as_str());
                r.append("/obj*.dat");
            } else {
                r.append(".");
                r.append("trial");
                r.append(tag_num.as_str());
                r.append(".*");
            }
        },
    }
    r
}

/// Decimal digits grouped by threes from the right with commas.
pub open spec fn commas(d: Seq<char>) -> Seq<char>
    decreases d.len(),
{
    if d.len() <= 3 {
        d
    } else {
        commas(d.subrange(0, d.len() - 3)) + ","@ + d.subrange(d.len() - 3, d.len() as int)
    }
}

/// A text with every occurrence of `c` left out.
pub open spec fn without_char(s: Seq<char>, c: char) -> Seq<char>
    decreases s.len(),
{
    if s.len() == 0 {
        s
    } else if s.last() == c {
        without_char(s.drop_last(), c)
    } else {
        without_char(s.drop_last(), c).push(s.last())
    }
}

proof fn lemma_without_char_concat(a: Seq<char>, b: Seq<char>, c: char)
    ensures
        without_char(a + b, c) == without_char(a, c) + without_char(b, c),
    decreases b.len(),
{
    if b.len() == 0 {
        assert(a + b =~= a);
        assert(without_char(a, c) + without_char(b, c) =~= without_char(a, c));
    } else {
        assert((a + b).drop_last() =~= a + b.drop_last());
        assert((a + b).last() == b.last());
        lemma_without_char_concat(a, b.drop_last(), c);
        if b.last() != c {
            assert(without_char(a, c) + without_char(b.drop_last(), c).push(b.last()) =~= (
            without_char(a, c) + without_char(b.drop_last(), c)).push(b.last()));
        }
    }
}

proof fn lemma_without_absent_char(s: Seq<char>, c: char)
    requires
        forall|j: int| 0 <= j < s.len() ==> s[j] != c,
    ensures
        without_char(s, c) == s,
    decreases s.len(),
{
    if s.len() > 0 {
        assert(s[s.len() - 1] != c);
        lemma_without_absent_char(s.drop_last(), c);
        assert(s.drop_last().push(s.last()) =~= s);
    }
}

/// Grouping digits with commas only inserts commas, one before every third
/// digit counted from the right: leaving the commas out gives the digits
/// back, a comma stands exactly at the positions whose distance from the end
/// is one more than a multiple of four, and a text of `n` digits gets
/// `(n - 1) / 3` commas.
pub proof fn law_commas_group_by_three(d: Seq<char>)
    requires
        forall|j: int| 0 <= j < d.len() ==> d[j] != ',',
    ensures
        without_char(commas(d), ',') == d,
        d.len() > 0 ==> commas(d).len() == d.len() + (d.len() - 1) / 3,
        forall|i: int|
            0 <= i < commas(d).len() ==> (#[trigger] commas(d)[i] == ',' <==> (commas(d).len() - 1 - i)
                % 4 == 3),
    decreases d.len(),
{
    reveal_strlit(",");
    if d.len() <= 3 {
        lemma_without_absent_char(d, ',');
        assert forall|i: int| 0 <= i < commas(d).len() implies !(#[trigger] commas(d)[i] == ',') && (
        commas(d).len() - 1 - i) % 4 != 3 by {}
    } else {
        let pre = d.subrange(0, d.len() - 3);
        let last = d.subrange(d.len() - 3, d.len() as int);
        assert forall|j: int| 0 <= j < pre.len() implies pre[j] != ',' by {
            assert(pre[j] == d[j]);
        }
        assert forall|j: int| 0 <= j < last.len() implies last[j] != ',' by {
            assert(last[j] == d[d.len() - 3 + j]);
        }
        law_commas_group_by_three(pre);
        let cp = commas(pre);
        let r = commas(d);
        assert(r == cp + ","@ + last);
        lemma_without_char_concat(cp + ","@, last, ',');
        lemma_without_char_concat(cp, ","@, ',');
        lemma_without_absent_char(last, ',');
        assert(","@.len() == 1 && ","@[0] == ',');
        assert(","@.last() == ',');
        assert(","@.drop_last() =~= Seq::<char>::empty());
        assert(without_char(Seq::<char>::empty(), ',') == Seq::<char>::empty());
        assert(without_char(","@, ',') == without_char(","@.drop_last(), ','));
        assert(without_char(","@, ',') =~= Seq::<char>::empty());
        assert(pre + last =~= d);
        assert(r.len() == cp.len() + 4);
        assert forall|i: int| 0 <= i < r.len() implies (#[trigger] r[i] == ',' <==> (r.len() - 1 - i) % 4
            == 3) by {
            if i < cp.len() {
                assert(r[i] == cp[i]);
                assert((r.len() - 1 - i) % 4 == (cp.len() - 1 - i) % 4) by {
                    assert(r.len() - 1 - i == (cp.len() - 1 - i) + 4);
                }
            } else if i == cp.len() {
                assert(r[i] == ',');
            } else {
                assert(r[i] == last[i - cp.len() - 1]);
            }
        }
    }
}

/// Formatting a number with commas gives its decimal digits back once the
/// commas are left out, grouped by three from the right.
pub proof fn law_fmt_commas_digits(n: nat)
    ensures
        without_char(commas(dec(n)), ',') == dec(n),
        forall|i: int|
            0 <= i < commas(dec(n)).len() ==> (#[trigger] commas(dec(n))[i] == ',' <==> (commas(
                dec(n),
            ).len() - 1 - i) % 4 == 3),
{
    lemma_dec_digits(n);
    assert forall|j: int| 0 <= j < dec(n).len() implies dec(n)[j] != ',' by {
        assert(is_ascii_digit(dec(n)[j]));
    }
    law_commas_group_by_three(dec(n));
}

fn group_commas(d: &str) -> (r: String)
    ensures
        r@ == commas(d@),
    decreases d@.len(),
{
    let n = d.unicode_len();
    if n <= 3 {
        return String::from_str(d);
    }
    let mut r = group_commas(d.substring_char(0, n - 3));
    r.append(",");
    r.append(d.substring_char(n - 3, n));
    r
}

/// Format an integer with comma separators between groups of three digits.
pub fn fmt_commas(n: u64) -> (r: String)
    ensures
        r@ == commas(dec(n as nat)),
{
    let d = u64_to_dec(n);
    group_commas(d.as_str())
}

/// Whether a scheme names a supported storage backend.
pub open spec fn supported_scheme(s: Seq<char>) -> bool {
    s == "file"@ || s == "direct"@ || s == "s3"@ || s == "az"@ || s == "gs"@ || s == "gcs"@
}

/// Check that a URI parses and names a supported backend (`file`, `direct`,
/// `s3`, `az`, `gs`, `gcs`); the URI is returned unchanged.
pub fn validate_uri(uri: &str) -> (r: Result<String, CliError>)
    ensures
        match url_parse_result(uri@) {
            None => r matches Err(CliError::InvalidUri),
            Some(parts) => if supported_scheme(parts.0) {
                r matches Ok(u) && u@ == uri@
            } else {
                r matches Err(CliError::UnsupportedScheme(s)) && s@ == parts.0
            },
        },
{
    match parse_url(uri) {
        None => Err(CliError::InvalidUri),
        Some(parts) => {
            let s = parts.scheme.as_str();
            if str_eq(s, "file") || str_eq(s, "direct") || str_eq(s, "s3") || str_eq(s, "az")
                || str_eq(s, "gs") || str_eq(s, "gcs") {
                Ok(String::from_str(uri))
            } else {
                Err(CliError::UnsupportedScheme(parts.scheme))
            }
        },
    }
}

/// The backends a URI may name are file, direct, s3, az, gs and gcs, and no
/// others: for a URI that parses, `validate_uri` gives it back unchanged when
/// its scheme is one of these and an `UnsupportedScheme` error naming the
/// scheme otherwise.  Every scheme that error message lists is among them.
pub proof fn law_validate_uri_backends(s: Seq<char>)
    ensures
        supported_scheme(s) <==> (s == "file"@ || s == "direct"@ || s == "s3"@ || s == "az"@
            || s == "gs"@ || s == "gcs"@),
        supported_scheme("file"@) && supported_scheme("direct"@) && supported_scheme("s3"@)
            && supported_scheme("az"@) && supported_scheme("gs"@) && supported_scheme("gcs"@),
{
}

/// Decimal places for five significant digits of a latency value
/// `m / 2^sh`: 4 below 10, 3 below 100, 2 below 1000, else 1.
pub open spec fn lat_places(m: nat, sh: nat) -> nat {
    if m < 10 * two_pow(sh) {
        4
    } else if m < 100 * two_pow(sh) {
        3
    } else if m < 1000 * two_pow(sh) {
        2
    } else {
        1
    }
}

/// A latency value `m / 2^sh` with its unit: five significant digits, and a
/// comma after the first digit of a four-digit integer part.
pub open spec fn lat_text(m: nat, sh: nat, unit: Seq<char>) -> Seq<char> {
    let p = lat_places(m, sh);
    let h = scaled(m, sh, p);
    let ip = dec(h / ten_pow(p));
    let fp = "."@ + zero_pad(dec(h % ten_pow(p)), p);
    if ip.len() == 4 {
        ip.subrange(0, 1) + ","@ + ip.subrange(1, 4) + fp + unit
    } else {
        ip + fp + unit
    }
}

/// A latency value `m / 2^sh` with its unit (see `lat_text`).
fn lat_exec(m: u128, sh: u32, unit: &str) -> (r: String)
    requires
        m <= two_pow(64),
        sh <= 52,
    ensures
        r@ == lat_text(m as nat, sh as nat, unit@),
{
    proof {
        lemma_two_pow_consts();
        lemma_two_pow_mono(sh as nat, 52);
        lemma_two_pow_pos(sh as nat);
    }
    let base = two_pow_exec(sh);
    proof {
        assert(base <= 0x10_0000_0000_0000);
        assert(1000 * base <= 0x10_0000_0000_0000int * 1000) by (nonlinear_arith)
            requires
                base <= 0x10_0000_0000_0000int,
        ;
    }
    let p: u32 = if m < 10 * base {
        4
    } else if m < 100 * base {
        3
    } else if m < 1000 * base {
        2
    } else {
        1
    };
    let (_digits, h) = fixed_exec(m, sh, p);
    let t = ten_pow_exec(p);
    proof {
        reveal_with_fuel(ten_pow, 5);
    }
    let ip = u128_to_dec(h / t);
    let f = u64_to_dec_padded((h % t) as u64, p as usize);
    let mut r = String::new();
    if ip.unicode_len() == 4 {
        r.append(ip.as_str().substring_char(0, 1));
        r.append(",");
        r.append(ip.as_str().substring_char(1, 4));
    } else {
        r.append(ip.as_str());
    }
    r.append(".");
    r.append(f.as_str());
    r.append(unit);
    proof {
        if ip@.len() == 4 {
            assert(ip@ =~= ip@.subrange(0, 1) + ip@.subrange(1, 4));
        }
    }
    r
}

/// The latency of `n` units of `d` (with `n / d` at least 1 and far below
/// `2^53`), through the nearest double of the quotient.
pub open spec fn lat_quotient(n: nat, d: nat, unit: Seq<char>) -> Seq<char> {
    let q = quotient_double(nearest_double(n), d);
    lat_text(q.0, q.1, unit)
}

fn lat_quotient_exec(n: u64, d: u64, unit: &str) -> (r: String)
    requires
        0 < d <= n,
        1000 <= d <= 1_000_000_000,
        n < 0x20_0000_0000_0000 || d >= 1_000_000,
        n / d < 0x20_0000_0000_0000,
    ensures
        r@ == lat_quotient(n as nat, d as nat, unit@),
{
    proof {
        lemma_two_pow_consts();
        lemma_nearest_double_close(n as nat);
    }
    let a = nearest_double_exec(n);
    proof {
        if n >= 0x20_0000_0000_0000 {
            assert(a >= d);
            assert(a / (d as u128) <= 18446744073710int) by (nonlinear_arith)
                requires
                    a <= 0x1_0000_0000_0000_0000int,
                    d >= 1_000_000int,
            ;
        } else {
            assert(a == n);
        }
        lemma_bit_len_le((a / (d as u128)) as nat, 53);
    }
    let (m, sh) = quotient_double_exec(a, d as u128);
    lat_exec(m, sh, unit)
}

/// Latency text of a nanosecond count with adaptive units: plain below
/// 10,000 ns, else µs, ms or s with five significant digits.
pub open spec fn latency_ns_spec(ns: nat) -> Seq<char> {
    if ns < 10_000 {
        commas(dec(ns)) + "ns"@
    } else if ns < 10_000_000 {
        lat_quotient(ns, 1_000, "µs"@)
    } else if ns < 10_000_000_000 {
        lat_quotient(ns, 1_000_000, "ms"@)
    } else {
        lat_quotient(ns, 1_000_000_000, "s"@)
    }
}

/// Format a nanosecond latency value with adaptive units (ns, µs, ms, s).
pub fn fmt_latency_ns(ns: u64) -> (r: String)
    ensures
        r@ == latency_ns_spec(ns as nat),
{
    if ns < 10_000 {
        let mut r = fmt_commas(ns);
        r.append("ns");
        r
    } else if ns < 10_000_000 {
        lat_quotient_exec(ns, 1_000, "µs")
    } else if ns < 10_000_000_000 {
        lat_quotient_exec(ns, 1_000_000, "ms")
    } else {
        lat_quotient_exec(ns, 1_000_000_000, "s")
    }
}

/// Latency text of a microsecond count with adaptive units: plain below
/// 10,000 µs, else ms or s with five significant digits.
pub open spec fn latency_us_spec(us: nat) -> Seq<char> {
    if us < 10_000 {
        commas(dec(us)) + "µs"@
    } else if us < 10_000_000 {
        lat_quotient(us, 1_000, "ms"@)
    } else {
        lat_quotient(us, 1_000_000, "s"@)
    }
}

/// Format a microsecond latency value with adaptive units (µs, ms, s).
pub fn fmt_latency_us(us: u64) -> (r: String)
    ensures
        r@ == latency_us_spec(us as nat),
{
    if us < 10_000 {
        let mut r = fmt_commas(us);
        r.append("µs");
        r
    } else if us < 10_000_000 {
        lat_quotient_exec(us, 1_000, "ms")
    } else {
        lat_quotient_exec(us, 1_000_000, "s")
    }
}

/// Byte-count text with adaptive binary units: plain below 10,000 bytes,
/// else KiB, MiB, GiB or TiB with five significant digits.
pub open spec fn bytes_text_spec(b: nat) -> Seq<char> {
    if b < 10_000 {
        commas(dec(b)) + " bytes"@
    } else if b < 10_000 * 1024 {
        lat_text(nearest_double(b), 10, "KiB"@)
    } else if b < 10_000 * 1024 * 1024 {
        lat_text(nearest_double(b), 20, "MiB"@)
    } else if b < 10_000 * 1024 * 1024 * 1024 {
        lat_text(nearest_double(b), 30, "GiB"@)
    } else {
        lat_text(nearest_double(b), 40, "TiB"@)
    }
}

/// Format a byte count with adaptive binary units, five significant digits.
pub fn fmt_bytes(bytes: u64) -> (r: String)
    ensures
        r@ == bytes_text_spec(bytes as nat),
{
    if bytes < 10_000 {
        let mut r = fmt_commas(bytes);
        r.append(" bytes");
        return r;
    }
    let m = nearest_double_exec(bytes);
    if bytes < 10_000 * 1024 {
        lat_exec(m, 10, "KiB")
    } else if bytes < 10_000 * 1024 * 1024 {
        lat_exec(m, 20, "MiB")
    } else if bytes < 10_000 * 1024 * 1024 * 1024 {
        lat_exec(m, 30, "GiB")
    } else {
        lat_exec(m, 40, "TiB")
    }
}

// ----------------------------------------------------------------------------
// Run flag combinations
// ----------------------------------------------------------------------------

/// A combination of run flags that cannot be used together.
#[derive(Clone, Copy, Debug, PartialEq, Eq, Structural)]
pub enum RunFlagConflict {
    PrepareOnlyWithVerify,
    PrepareOnlyWithSkipPrepare,
    PrepareOnlyWithCleanupOnly,
    CleanupOnlyWithSkipPrepare,
    CleanupOnlyWithVerify,
    CleanupOnlyWithNoCleanup,
    VerifyWithSkipPrepare,
}

/// The first conflicting pair of run flags, in the order they are checked.
pub open spec fn first_run_flag_conflict(
    prepare_only: bool,
    cleanup_only: bool,
    verify: bool,
    skip_prepare: bool,
    no_cleanup: bool,
) -> Option<RunFlagConflict> {
    if prepare_only && verify {
        Some(RunFlagConflict::PrepareOnlyWithVerify)
    } else if prepare_only && skip_prepare {
        Some(RunFlagConflict::PrepareOnlyWithSkipPrepare)
    } else if prepare_only && cleanup_only {
        Some(RunFlagConflict::PrepareOnlyWithCleanupOnly)
    } else if cleanup_only && skip_prepare {
        Some(RunFlagConflict::CleanupOnlyWithSkipPrepare)
    } else if cleanup_only && verify {
        Some(RunFlagConflict::CleanupOnlyWithVerify)
    } else if cleanup_only && no_cleanup {
        Some(RunFlagConflict::CleanupOnlyWithNoCleanup)
    } else if verify && skip_prepare {
        Some(RunFlagConflict::VerifyWithSkipPrepare)
    } else {
        None
    }
}

impl RunFlagConflict {
    /// The error text of the conflict.
    pub fn message(&self) -> (r: &'static str)
        ensures
            r@ == match *self {
                RunFlagConflict::PrepareOnlyWithVerify => "Cannot use both --prepare-only and --verify"@,
                RunFlagConflict::PrepareOnlyWithSkipPrepare =>
                    "Cannot use both --prepare-only and --skip-prepare"@,
                RunFlagConflict::PrepareOnlyWithCleanupOnly =>
                    "Cannot use both --prepare-only and --cleanup-only"@,
                RunFlagConflict::CleanupOnlyWithSkipPrepare =>
                    "Cannot use both --cleanup-only and --skip-prepare (cleanup requires knowing what objects were prepared)"@,
                RunFlagConflict::CleanupOnlyWithVerify => "Cannot use both --cleanup-only and --verify"@,
                RunFlagConflict::CleanupOnlyWithNoCleanup => "Cannot use --cleanup-only with --no-cleanup"@,
                RunFlagConflict::VerifyWithSkipPrepare => "Cannot use both --verify and --skip-prepare"@,
            },
    {
        match self {
            RunFlagConflict::PrepareOnlyWithVerify => "Cannot use both --prepare-only and --verify",
            RunFlagConflict::PrepareOnlyWithSkipPrepare =>
                "Cannot use both --prepare-only and --skip-prepare",
            RunFlagConflict::PrepareOnlyWithCleanupOnly =>
                "Cannot use both --prepare-only and --cleanup-only",
            RunFlagConflict::CleanupOnlyWithSkipPrepare =>
                "Cannot use both --cleanup-only and --skip-prepare (cleanup requires knowing what objects were prepared)",
            RunFlagConflict::CleanupOnlyWithVerify => "Cannot use both --cleanup-only and --verify",
            RunFlagConflict::CleanupOnlyWithNoCleanup => "Cannot use --cleanup-only with --no-cleanup",
            RunFlagConflict::VerifyWithSkipPrepare => "Cannot use both --verify and --skip-prepare",
        }
    }
}

/// Check the run flags: the first conflicting pair, or `Ok` when none.
pub fn check_run_flags(
    prepare_only: bool,
    cleanup_only: bool,
    verify: bool,
    skip_prepare: bool,
    no_cleanup: bool,
) -> (r: Result<(), RunFlagConflict>)
    ensures
        r == match first_run_flag_conflict(prepare_only, cleanup_only, verify, skip_prepare, no_cleanup) {
            Some(c) => Err::<(), RunFlagConflict>(c),
            None => Ok::<(), RunFlagConflict>(()),
        },
{
    if prepare_only && verify {
        Err(RunFlagConflict::PrepareOnlyWithVerify)
    } else if prepare_only && skip_prepare {
        Err(RunFlagConflict::PrepareOnlyWithSkipPrepare)
    } else if prepare_only && cleanup_only {
        Err(RunFlagConflict::PrepareOnlyWithCleanupOnly)
    } else if cleanup_only && skip_prepare {
        Err(RunFlagConflict::CleanupOnlyWithSkipPrepare)
    } else if cleanup_only && verify {
        Err(RunFlagConflict::CleanupOnlyWithVerify)
    } else if cleanup_only && no_cleanup {
        Err(RunFlagConflict::CleanupOnlyWithNoCleanup)
    } else if verify && skip_prepare {
        Err(RunFlagConflict::VerifyWithSkipPrepare)
    } else {
        Ok(())
    }
}

/// Accepted run flags select at most one of prepare-only, cleanup-only and
/// verify; none of them goes with skip-prepare, and cleanup-only does not go
/// with no-cleanup.
pub proof fn law_run_modes_exclusive(p: bool, c: bool, v: bool, s: bool, n: bool)
    ensures
        first_run_flag_conflict(p, c, v, s, n) is None <==> (!(p && v) && !(p && c) && !(c && v)
            && !(s && (p || c || v)) && !(c && n)),
{
}

// ----------------------------------------------------------------------------
// Pre-flight listing prefix
// ----------------------------------------------------------------------------

/// A target URI and a relative path joined with one `/` between them.
pub open spec fn uri_join_spec(target: Seq<char>, path: Seq<char>) -> Seq<char> {
    if ends_with(target, "/"@) {
        target + path
    } else {
        target + "/"@ + path
    }
}

/// Where the pre-flight check lists objects of a GET path: the target and
/// the path joined, then trailing `*` and, after them, trailing `/` removed.
pub open spec fn preflight_prefix_spec(target: Seq<char>, path: Seq<char>) -> Seq<char> {
    trim_end_char(trim_end_char(uri_join_spec(target, path), '*'), '/')
}

/// The listing prefix of a GET path under a target (see `preflight_prefix_spec`).
pub fn preflight_list_prefix(target: &str, path: &str) -> (r: String)
    ensures
        r@ == preflight_prefix_spec(target@, path@),
{
    let mut full = String::new();
    full.append(target);
    if !ends_with_str(target, "/") {
        full.append("/");
    }
    full.append(path);
    let a = trim_end_matches_char(full.as_str(), '*');
    let b = trim_end_matches_char(a, '/');
    let mut r = String::new();
    r.append(b);
    r
}

/// How many GET paths the pre-flight check lists at most.
pub const PREFLIGHT_MAX_PATHS: usize = 3;

/// The prefixes the pre-flight check may list, in order: those of the first
/// (at most three) GET paths under the target.
pub open spec fn preflight_prefixes_spec(target: Seq<char>, paths: Seq<Seq<char>>) -> Seq<Seq<char>> {
    let n = if paths.len() < 3 { paths.len() } else { 3 };
    Seq::new(n, |i: int| preflight_prefix_spec(target, paths[i]))
}

/// What listing one prefix gave: some number of objects, or an error.
#[derive(Clone, Copy, Debug, PartialEq, Eq, Structural)]
pub enum ListingOutcome {
    Listed(usize),
    Failed,
}

/// The pre-flight check of GET paths: list the prefixes in order and stop
/// at the first that lists objects; every prefix that lists none (or fails)
/// is remembered for the warning.
pub struct PreflightCheck {
    prefixes: Vec<String>,
    next: usize,
    checked: Vec<String>,
    found: bool,
}

impl PreflightCheck {
    /// The prefixes to try, in order.
    pub closed spec fn prefixes_spec(&self) -> Seq<Seq<char>> {
        string_views(self.prefixes@)
    }

    /// The prefixes tried that listed no objects, in order.
    pub closed spec fn checked_spec(&self) -> Seq<Seq<char>> {
        string_views(self.checked@)
    }

    /// Whether a prefix listed objects.
    pub closed spec fn found_spec(&self) -> bool {
        self.found
    }

    /// The prefixes tried so far are the first ones, and the check goes on
    /// only while nothing was found.
    pub closed spec fn wf(&self) -> bool {
        &&& self.next <= self.prefixes@.len()
        &&& self.checked_spec() == self.prefixes_spec().take(self.next as int)
    }

    /// The check is over: objects were found or every prefix was tried.
    pub open spec fn done_spec(&self) -> bool {
        self.found_spec() || self.checked_spec().len() == self.prefixes_spec().len()
    }

    /// A check of the first (at most three) GET paths under `target`.
    pub fn new(target: &str, get_paths: &Vec<String>) -> (r: Self)
        ensures
            r.wf(),
            r.prefixes_spec() == preflight_prefixes_spec(target@, string_views(get_paths@)),
            r.checked_spec() == Seq::<Seq<char>>::empty(),
            !r.found_spec(),
    {
        let ghost want = preflight_prefixes_spec(target@, string_views(get_paths@));
        let n = if get_paths.len() < PREFLIGHT_MAX_PATHS { get_paths.len() } else { PREFLIGHT_MAX_PATHS };
        let mut prefixes: Vec<String> = Vec::new();
        let mut i: usize = 0;
        while i < n
            invariant
                n <= get_paths@.len(),
                n == want.len(),
                i <= n,
                want == preflight_prefixes_spec(target@, string_views(get_paths@)),
                string_views(prefixes@) == want.take(i as int),
                prefixes@.len() == i,
            decreases n - i,
        {
            let p = preflight_list_prefix(target, get_paths[i].as_str());
            proof {
                assert(string_views(get_paths@)[i as int] == get_paths@[i as int]@);
                assert(want[i as int] == p@);
            }
            let ghost before = prefixes@;
            prefixes.push(p);
            proof {
                assert forall|j: int| 0 <= j < i + 1 implies #[trigger] string_views(prefixes@)[j]
                    == want.take(i + 1)[j] by {
                    if j < i {
                        assert(prefixes@[j] == before[j]);
                        assert(string_views(before)[j] == want.take(i as int)[j]);
                    }
                }
                assert(string_views(prefixes@) =~= want.take(i + 1));
            }
            i = i + 1;
        }
        let r = PreflightCheck { prefixes, next: 0, checked: Vec::new(), found: false };
        proof {
            assert(want.take(n as int) =~= want);
            assert(r.checked_spec() =~= Seq::<Seq<char>>::empty());
            assert(r.prefixes_spec().take(0) =~= Seq::<Seq<char>>::empty());
        }
        r
    }

    /// The prefix to list next; `None` once the check is over.
    pub fn next_prefix(&self) -> (r: Option<&String>)
        requires
            self.wf(),
        ensures
            self.done_spec() <==> r is None,
            r matches Some(p) ==> p@ == self.prefixes_spec()[self.checked_spec().len() as int],
    {
        if self.found || self.next >= self.prefixes.len() {
            None
        } else {
            Some(&self.prefixes[self.next])
        }
    }

    /// Take in what listing the next prefix gave: objects end the check;
    /// no objects or an error put the prefix on the checked list.
    pub fn record(&mut self, outcome: ListingOutcome)
        requires
            old(self).wf(),
            !old(self).done_spec(),
        ensures
            final(self).wf(),
            final(self).prefixes_spec() == old(self).prefixes_spec(),
            (outcome matches ListingOutcome::Listed(n) && n > 0) ==> final(self).found_spec()
                && final(self).checked_spec() == old(self).checked_spec(),
            !(outcome matches ListingOutcome::Listed(n) && n > 0) ==> !final(self).found_spec()
                && final(self).checked_spec() == old(self).checked_spec().push(
                old(self).prefixes_spec()[old(self).checked_spec().len() as int],
            ),
    {
        let found_objects = match outcome {
            ListingOutcome::Listed(n) => n > 0,
            ListingOutcome::Failed => false,
        };
        proof {
            assert(self.checked_spec().len() == self.next);
            assert(self.prefixes_spec().len() == self.prefixes@.len());
            assert(!self.found_spec() && self.checked_spec().len() != self.prefixes_spec().len());
            assert(self.next < self.prefixes.len());
        }
        if found_objects {
            self.found = true;
        } else {
            let p = self.prefixes[self.next].clone();
            self.checked.push(p);
            self.next = self.next + 1;
            proof {
                assert(self.checked_spec() =~= self.prefixes_spec().take(self.next as int));
            }
        }
    }

    /// Whether a prefix listed objects.
    pub fn found(&self) -> (r: bool)
        ensures
            r == self.found_spec(),
    {
        self.found
    }

    /// The prefixes tried that listed no objects, for the warning.
    pub fn checked(&self) -> (r: &Vec<String>)
        ensures
            string_views(r@) == self.checked_spec(),
    {
        &self.checked
    }

    /// Whether the warning is due: the check is over, there was something to
    /// check, and no prefix listed objects.
    pub fn warning_due(&self) -> (r: bool)
        requires
            self.wf(),
        ensures
            r == (self.done_spec() && !self.found_spec() && self.prefixes_spec().len() > 0),
    {
        !self.found && self.next >= self.prefixes.len() && self.prefixes.len() > 0
    }
}

} // verus!
