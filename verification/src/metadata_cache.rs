//! Bookkeeping of the distributed metadata cache: flush policies, object
//! states and entries, checkpoint coverage, shared-storage detection between
//! endpoints, file-index extraction from object paths and the configuration
//! hash that namespaces cache keys.

use vstd::prelude::*;
use vstd::string::*;
use vstd::utf8::encode_utf8;
use crate::text::{
    ends_with, ends_with_str, hex, last_index_of, parse_usize, parse_usize_spec, rfind_char,
    starts_with, starts_with_str, str_eq, trim_end_char, trim_end_matches_char, trim_start_char,
    trim_start_matches_char, u64_to_dec, u64_to_hex, pad_zeros, zero_pad, dec, first_index_of,
    find_char, lemma_zero_pad_dec_value, lemma_last_index_of_concat, is_ascii_digit,
    unsigned_body, parse_unsigned, all_ascii_digits, digits_value, leading_count, trailing_count,
};
use crate::directory_tree::file_name_spec;
use crate::endpoint_records::add_state_bytes;

verus! {

broadcast use vstd::string::group_string_axioms;

/// Write batch flush policy: how cache writes are batched before they are
/// flushed to persistent storage.
#[derive(Debug, Clone, Copy, PartialEq, Eq, Structural)]
pub enum FlushPolicy {
    /// Flush immediately after each write.
    Immediate,
    /// Flush after N write operations.
    BatchSize(u64),
    /// Time-based background flush, interval in seconds.
    AsyncInterval(u64),
}

impl Default for FlushPolicy {
    /// A 30-second background flush.
    fn default() -> (r: Self)
        ensures
            r == FlushPolicy::AsyncInterval(30),
    {
        FlushPolicy::AsyncInterval(30)
    }
}

/// One write under a flush policy with `pending` unflushed writes: the new
/// pending count and whether to persist now.
pub open spec fn flush_step(p: FlushPolicy, pending: u64) -> (u64, bool) {
    match p {
        FlushPolicy::Immediate => (pending, true),
        FlushPolicy::BatchSize(n) => if pending + 1 >= n {
            (0u64, true)
        } else {
            ((pending + 1) as u64, false)
        },
        FlushPolicy::AsyncInterval(_) => (
            if pending == u64::MAX {
                0u64
            } else {
                (pending + 1) as u64
            },
            false,
        ),
    }
}

/// The pending count and the number of persists after `k` writes.
pub open spec fn after_writes(p: FlushPolicy, pending: u64, k: nat) -> (u64, nat)
    decreases k,
{
    if k == 0 {
        (pending, 0)
    } else {
        let prev = after_writes(p, pending, (k - 1) as nat);
        let step = flush_step(p, prev.0);
        (step.0, prev.1 + if step.1 { 1nat } else { 0nat })
    }
}

/// Flush policies over a run of writes: a batch of `n` persists exactly once
/// every `n` writes (after `k` writes from none pending, `k % n` are pending
/// and `k / n` persists happened); immediate persists on every write; the
/// background interval never persists on a write.
pub proof fn law_flush_cadence(n: u64, secs: u64, pending: u64, k: nat)
    requires
        n >= 1,
    ensures
        after_writes(FlushPolicy::BatchSize(n), 0, k) == ((k % (n as nat)) as u64, k / (n as nat)),
        after_writes(FlushPolicy::Immediate, pending, k) == (pending, k),
        after_writes(FlushPolicy::AsyncInterval(secs), pending, k).1 == 0,
    decreases k,
{
    if k == 0 {
        vstd::arithmetic::div_mod::lemma_small_mod(0, n as nat);
        vstd::arithmetic::div_mod::lemma_div_of0(n as int);
    } else {
        let k1 = (k - 1) as nat;
        law_flush_cadence(n, secs, pending, k1);
        crate::directory_tree::lemma_div_mod_succ(k1, n as nat);
        vstd::arithmetic::div_mod::lemma_mod_bound(k1 as int, n as int);
    }
}

impl FlushPolicy {
    /// Account for one cache write with `pending` unflushed writes before it:
    /// returns the new pending count and whether to persist now.  Immediate
    /// persists every write (the count is left alone); a batch of `n`
    /// persists, and restarts the count, once `n` writes are pending; the
    /// background interval never persists here (the count wraps as an atomic
    /// counter does).
    pub fn on_write(&self, pending: u64) -> (r: (u64, bool))
        requires
            *self matches FlushPolicy::BatchSize(_) ==> pending < u64::MAX,
        ensures
            r == flush_step(*self, pending),
    {
        match self {
            FlushPolicy::Immediate => (pending, true),
            FlushPolicy::BatchSize(n) => {
                let p = pending + 1;
                if p >= *n {
                    (0, true)
                } else {
                    (p, false)
                }
            },
            FlushPolicy::AsyncInterval(_) => (pending.wrapping_add(1), false),
        }
    }

    /// A batch-size policy; size 0 means flushing immediately.
    pub fn batch(size: u64) -> (r: Self)
        ensures
            size == 0 ==> r == FlushPolicy::Immediate,
            size != 0 ==> r == FlushPolicy::BatchSize(size),
    {
        if size == 0 {
            FlushPolicy::Immediate
        } else {
            FlushPolicy::BatchSize(size)
        }
    }
}

/// The pending count of a policy after `k` writes from none pending.
pub open spec fn pending_after(p: FlushPolicy, k: nat) -> nat {
    match p {
        FlushPolicy::Immediate => 0,
        FlushPolicy::BatchSize(n) => if n == 0 {
            0
        } else {
            k % (n as nat)
        },
        FlushPolicy::AsyncInterval(_) => k % 0x1_0000_0000_0000_0000,
    }
}

/// Writes counted against a flush policy: how many are pending, and when a
/// write must persist.  A batch policy never holds as many pending writes as
/// its size.
pub struct WriteCounter {
    policy: FlushPolicy,
    pending: u64,
}

impl WriteCounter {
    /// The policy in force.
    pub closed spec fn policy_spec(&self) -> FlushPolicy {
        self.policy
    }

    /// The pending writes.
    pub closed spec fn pending_spec(&self) -> u64 {
        self.pending
    }

    /// Pending writes of a batch policy stay below the batch size.
    pub closed spec fn wf(&self) -> bool {
        match self.policy {
            FlushPolicy::BatchSize(n) => self.pending == 0 || self.pending < n,
            _ => true,
        }
    }

    /// A counter under `policy` with nothing pending.
    pub fn new(policy: FlushPolicy) -> (r: Self)
        ensures
            r.wf(),
            r.policy_spec() == policy,
            r.pending_spec() == 0,
    {
        WriteCounter { policy, pending: 0 }
    }

    /// The policy in force.
    pub fn policy(&self) -> (r: FlushPolicy)
        ensures
            r == self.policy_spec(),
    {
        self.policy
    }

    /// The pending writes.
    pub fn pending(&self) -> (r: u64)
        ensures
            r == self.pending_spec(),
    {
        self.pending
    }

    /// Count one write; returns whether to persist now (see `flush_step`).
    pub fn record_write(&mut self) -> (persist: bool)
        requires
            old(self).wf(),
        ensures
            final(self).wf(),
            final(self).policy_spec() == old(self).policy_spec(),
            (final(self).pending_spec(), persist) == flush_step(
                old(self).policy_spec(),
                old(self).pending_spec(),
            ),
    {
        let (p, persist) = self.policy.on_write(self.pending);
        self.pending = p;
        persist
    }

    /// Switch to another policy; nothing is pending afterwards.
    pub fn set_policy(&mut self, policy: FlushPolicy)
        ensures
            final(self).wf(),
            final(self).policy_spec() == policy,
            final(self).pending_spec() == 0,
    {
        self.policy = policy;
        self.pending = 0;
    }

    /// A forced flush: returns the pending count, which becomes zero.
    pub fn take_pending(&mut self) -> (r: u64)
        ensures
            final(self).wf(),
            r == old(self).pending_spec(),
            final(self).policy_spec() == old(self).policy_spec(),
            final(self).pending_spec() == 0,
    {
        let r = self.pending;
        self.pending = 0;
        r
    }
}

/// After a policy is set (or a forced flush) and `k` writes follow, the
/// pending count is 0 under Immediate or a zero batch size, `k mod n` under a
/// batch of `n`, and `k` (as a wrapping 64-bit count) under the background
/// interval.
pub proof fn law_pending_after_writes(p: FlushPolicy, k: nat)
    ensures
        after_writes(p, 0, k).0 == pending_after(p, k),
    decreases k,
{
    if k > 0 {
        law_pending_after_writes(p, (k - 1) as nat);
        let k1 = (k - 1) as nat;
        match p {
            FlushPolicy::Immediate => {},
            FlushPolicy::BatchSize(n) => {
                if n > 0 {
                    law_flush_cadence(n, 0, 0, k);
                }
            },
            FlushPolicy::AsyncInterval(_) => {
                let m: nat = 0x1_0000_0000_0000_0000;
                vstd::arithmetic::div_mod::lemma_mod_bound(k1 as int, m as int);
                crate::directory_tree::lemma_div_mod_succ(k1, m);
            },
        }
    }
}

/// Object state in the metadata cache: desired state (planned) and current
/// state (creating, created, failed, deleted).
#[derive(Debug, Clone, Copy, PartialEq, Eq, Structural, Hash, PartialOrd, Ord)]
pub enum ObjectState {
    /// Directory or bucket container does not exist yet.
    DirectoryNonExistent,
    /// Object should exist but has not been created yet.
    Planned,
    /// Object creation in progress.
    Creating,
    /// Object successfully created.
    Created,
    /// Object creation failed.
    Failed,
    /// Object was created and later deleted.
    Deleted,
}

/// The byte code of a state (its position in declaration order).
pub open spec fn state_code(s: ObjectState) -> u8 {
    match s {
        ObjectState::DirectoryNonExistent => 0,
        ObjectState::Planned => 1,
        ObjectState::Creating => 2,
        ObjectState::Created => 3,
        ObjectState::Failed => 4,
        ObjectState::Deleted => 5,
    }
}

impl ObjectState {
    /// Parse from a byte code; codes above 5 have no state.
    pub fn from_u8(value: u8) -> (r: Option<Self>)
        ensures
            value <= 5 ==> (r matches Some(s) && state_code(s) == value),
            value > 5 ==> r is None,
    {
        match value {
            0 => Some(ObjectState::DirectoryNonExistent),
            1 => Some(ObjectState::Planned),
            2 => Some(ObjectState::Creating),
            3 => Some(ObjectState::Created),
            4 => Some(ObjectState::Failed),
            5 => Some(ObjectState::Deleted),
            _ => None,
        }
    }

    /// The byte code of this state.
    pub fn to_u8(self) -> (r: u8)
        ensures
            r == state_code(self),
    {
        match self {
            ObjectState::DirectoryNonExistent => 0,
            ObjectState::Planned => 1,
            ObjectState::Creating => 2,
            ObjectState::Created => 3,
            ObjectState::Failed => 4,
            ObjectState::Deleted => 5,
        }
    }

    /// Terminal success state.
    pub fn is_created(&self) -> (r: bool)
        ensures
            r == (*self == ObjectState::Created),
    {
        match self {
            ObjectState::Created => true,
            _ => false,
        }
    }

    /// Failure state.
    pub fn is_failed(&self) -> (r: bool)
        ensures
            r == (*self == ObjectState::Failed),
    {
        match self {
            ObjectState::Failed => true,
            _ => false,
        }
    }

    /// A state that still requires creating the object (planned or failed).
    pub fn needs_creation(&self) -> (r: bool)
        ensures
            r == (*self == ObjectState::Planned || *self == ObjectState::Failed),
    {
        match self {
            ObjectState::Planned | ObjectState::Failed => true,
            _ => false,
        }
    }
}

/// Decoding a state's code gives the state back.
pub proof fn law_state_code_round_trip(s: ObjectState)
    ensures
        state_code(s) <= 5,
        forall|t: ObjectState| state_code(t) == state_code(s) ==> t == s,
{
}

/// Cached object entry: desired configuration and current state.
#[derive(Debug, Clone)]
pub struct ObjectEntry {
    /// Relative path from the endpoint base.
    pub path: String,
    /// Expected object size in bytes.
    pub size: u64,
    /// Current state.
    pub state: ObjectState,
    /// Endpoint index in a multi-endpoint configuration.
    pub endpoint_idx: usize,
    /// Creation time (epoch seconds), if created.
    pub created_at: Option<u64>,
    /// Optional checksum for validation.
    pub checksum: Option<u64>,
}

impl ObjectEntry {
    /// A new planned entry (desired state).
    pub fn new_planned(path: String, size: u64, endpoint_idx: usize) -> (r: Self)
        ensures
            r.path == path,
            r.size == size,
            r.state == ObjectState::Planned,
            r.endpoint_idx == endpoint_idx,
            r.created_at is None,
            r.checksum is None,
    {
        ObjectEntry {
            path,
            size,
            state: ObjectState::Planned,
            endpoint_idx,
            created_at: None,
            checksum: None,
        }
    }
}


// ----------------------------------------------------------------------------
// File index extraction
// ----------------------------------------------------------------------------

/// The file-name part of a path: what follows the last `/`.
pub open spec fn file_name_part(path: Seq<char>) -> Seq<char> {
    match last_index_of(path, '/') {
        Some(i) => path.subrange(i + 1 as int, path.len() as int),
        None => path,
    }
}

/// A name without its `.dat` suffix.
pub open spec fn strip_dat(s: Seq<char>) -> Seq<char> {
    if ends_with(s, ".dat"@) {
        s.subrange(0, s.len() - ".dat"@.len())
    } else {
        s
    }
}

/// Position of the separator before the numeric part: the last `_`, or else the last `-`.
pub open spec fn index_separator(s: Seq<char>) -> Option<nat> {
    match last_index_of(s, '_') {
        Some(i) => Some(i),
        None => last_index_of(s, '-'),
    }
}

/// The file index a prepared object path encodes.
pub open spec fn extract_index_spec(path: Seq<char>) -> Option<usize> {
    let name = strip_dat(file_name_part(path));
    match index_separator(name) {
        Some(i) => parse_usize_spec(name.subrange(i + 1 as int, name.len() as int)),
        None => None,
    }
}

/// Extract the file index from a prepared object path
/// (`d1_w2/file_00000123.dat` → 123, `prepared-00000042.dat` → 42): the
/// digits after the last `_` (or else the last `-`) of the file name,
/// without its `.dat` suffix.
pub fn extract_file_index_from_path(path: &str) -> (r: Option<usize>)
    ensures
        r == extract_index_spec(path@),
{
    let n = path.unicode_len();
    let filename = match rfind_char(path, '/') {
        Some(i) => path.substring_char(i + 1, n),
        None => path,
    };
    let fl = filename.unicode_len();
    let name = if ends_with_str(filename, ".dat") {
        proof {
            reveal_strlit(".dat");
        }
        filename.substring_char(0, fl - 4)
    } else {
        filename
    };
    let sep = match rfind_char(name, '_') {
        Some(i) => Some(i),
        None => rfind_char(name, '-'),
    };
    match sep {
        Some(i) => {
            let nl = name.unicode_len();
            parse_usize(name.substring_char(i + 1, nl))
        },
        None => None,
    }
}

/// The index part of a manifest file name: the name holds no `/`, and the
/// digits after its separator, without `.dat`, read back as the index.
proof fn lemma_file_name_index(i: usize)
    ensures
        forall|k: int| 0 <= k < file_name_spec(i as nat).len() ==> file_name_spec(i as nat)[k] != '/',
        (match index_separator(strip_dat(file_name_spec(i as nat))) {
            Some(j) => parse_usize_spec(
                strip_dat(file_name_spec(i as nat)).subrange(j + 1 as int, strip_dat(file_name_spec(i as nat)).len() as int),
            ),
            None => None,
        }) == Some(i),
{
    reveal_strlit("file_");
    reveal_strlit(".dat");
    let pad = zero_pad(dec(i as nat), 8);
    lemma_zero_pad_dec_value(i as nat, 8);
    let stem = "file_"@ + pad;
    let name = stem + ".dat"@;
    assert(file_name_spec(i as nat) == name);
    assert forall|k: int| 0 <= k < name.len() implies name[k] != '/' by {
        if 5 <= k < 5 + pad.len() {
            assert(name[k] == pad[k - 5]);
            assert(is_ascii_digit(pad[k - 5]));
        }
    }
    assert(name.subrange(name.len() - 4, name.len() as int) =~= ".dat"@);
    assert(strip_dat(name) =~= stem);
    assert forall|k: int| 0 <= k < pad.len() implies pad[k] != '_' by {
        assert(is_ascii_digit(pad[k]));
    }
    lemma_last_index_of_concat("file_"@, pad, '_');
    assert(last_index_of("file_"@, '_') == Some(4nat));
    assert(index_separator(stem) == Some(4nat));
    assert(stem.subrange(5, stem.len() as int) =~= pad);
    assert(unsigned_body(pad) == pad);
    assert(parse_unsigned(pad) == Some(i as nat));
}

/// A manifest file path reads back as its own index: the index extracted
/// from `dir/file_{i:08}.dat` is `i`, whatever the directory.
pub proof fn law_file_index_round_trip(dir: Seq<char>, i: usize)
    ensures
        extract_index_spec(dir + "/"@ + file_name_spec(i as nat)) == Some(i),
{
    reveal_strlit("/");
    lemma_file_name_index(i);
    let name = file_name_spec(i as nat);
    let head = dir + "/"@;
    let full = head + name;
    lemma_last_index_of_concat(head, name, '/');
    assert(head.last() == '/');
    assert(last_index_of(head, '/') == Some((head.len() - 1) as nat));
    assert(file_name_part(full) =~= name);
}

/// A bare manifest file name reads back as its own index: the index
/// extracted from `file_{i:08}.dat` is `i`.
pub proof fn law_file_name_index_round_trip(i: usize)
    ensures
        extract_index_spec(file_name_spec(i as nat)) == Some(i),
{
    lemma_file_name_index(i);
    let name = file_name_spec(i as nat);
    lemma_last_index_of_concat(Seq::<char>::empty(), name, '/');
    assert(Seq::<char>::empty() + name =~= name);
    assert(file_name_part(name) == name);
}

// ----------------------------------------------------------------------------
// Shared storage detection
// ----------------------------------------------------------------------------

/// What `url::Url::parse` reads from a URI: scheme, path and host (`None`
/// when the URI does not parse).
pub uninterp spec fn url_parse_result(uri: Seq<char>) -> Option<(Seq<char>, Seq<char>, Option<Seq<char>>)>;

/// The parts of a parsed URL that storage detection reads.
pub struct UrlParts {
    /// `Url::scheme`.
    pub scheme: String,
    /// `Url::path`.
    pub path: String,
    /// `Url::host_str`.
    pub host: Option<String>,
}

/// The view of an optional string.
pub open spec fn opt_view(o: Option<String>) -> Option<Seq<char>> {
    match o {
        Some(s) => Some(s@),
        None => None,
    }
}

/// `url::Url::parse` followed by reading the URL's scheme, path and host.
/// The contract names the result as a function of the URI alone; nothing
/// is claimed about which URIs parse or what their parts are.
#[verifier::external_body]
pub(crate) fn parse_url(uri: &str) -> (r: Option<UrlParts>)
    ensures
        match r {
            Some(p) => url_parse_result(uri@) == Some((p.scheme@, p.path@, opt_view(p.host))),
            None => url_parse_result(uri@) is None,
        },
{
    match url::Url::parse(uri) {
        Ok(u) => Some(UrlParts {
            scheme: u.scheme().to_string(),
            path: u.path().to_string(),
            host: u.host_str().map(str::to_string),
        }),
        Err(_) => None,
    }
}

/// The text before the first `/`.
pub open spec fn first_segment(s: Seq<char>) -> Seq<char> {
    match first_index_of(s, '/', 0) {
        Some(i) => s.subrange(0, i as int),
        None => s,
    }
}

/// Bucket-style location `prefix + first path segment`, or `None` when that segment is empty.
pub open spec fn bucket_location(prefix: Seq<char>, path: Seq<char>) -> Option<Seq<char>> {
    let b = first_segment(trim_start_char(path, '/'));
    if b.len() == 0 {
        None
    } else {
        Some(prefix + b)
    }
}

/// Normalized storage location of a URI from its parsed parts:
/// `s3://bucket`, `gs://bucket`, `az://container`, `file://path` or
/// `direct://path` (paths without trailing slashes); `None` for other schemes.
pub open spec fn location_from_parts(
    uri: Seq<char>,
    scheme: Seq<char>,
    path: Seq<char>,
    host: Option<Seq<char>>,
) -> Option<Seq<char>> {
    if scheme == "s3"@ {
        bucket_location("s3://"@, path)
    } else if scheme == "gs"@ {
        match host {
            Some(h) => if h.len() == 0 { None } else { Some("gs://"@ + h) },
            None => None,
        }
    } else if scheme == "az"@ || scheme == "azure"@ {
        bucket_location("az://"@, path)
    } else if scheme == "file"@ {
        Some("file://"@ + trim_end_char(path, '/'))
    } else if scheme == "direct"@ {
        if starts_with(uri, "direct://"@) {
            Some(
                "direct://"@ + trim_end_char(
                    uri.subrange("direct://"@.len() as int, uri.len() as int),
                    '/',
                ),
            )
        } else {
            None
        }
    } else {
        None
    }
}

/// Normalized storage location of a URI.
pub open spec fn storage_location_spec(uri: Seq<char>) -> Option<Seq<char>> {
    match url_parse_result(uri) {
        Some(parts) => location_from_parts(uri, parts.0, parts.1, parts.2),
        None => None,
    }
}

/// `prefix + first segment of path without leading slashes`, or `None` when empty.
fn bucket_location_exec(prefix: &str, path: &str) -> (r: Option<String>)
    ensures
        opt_view(r) == bucket_location(prefix@, path@),
{
    let trimmed = trim_start_matches_char(path, '/');
    let seg = match find_char(trimmed, '/') {
        Some(i) => trimmed.substring_char(0, i),
        None => trimmed,
    };
    if seg.unicode_len() == 0 {
        None
    } else {
        let mut r = String::new();
        r.append(prefix);
        r.append(seg);
        Some(r)
    }
}

/// Normalized storage location of a URI from the parts its URL parse gave:
/// buckets and containers for object stores (hosts are ignored), full paths
/// without trailing slashes for `file` and `direct`.
pub fn storage_location_from_parts(uri: &str, parts: &UrlParts) -> (r: Option<String>)
    ensures
        opt_view(r) == location_from_parts(uri@, parts.scheme@, parts.path@, opt_view(parts.host)),
{
    let scheme = parts.scheme.as_str();
    if str_eq(scheme, "s3") {
        bucket_location_exec("s3://", parts.path.as_str())
    } else if str_eq(scheme, "gs") {
        match &parts.host {
            Some(h) => {
                if h.unicode_len() == 0 {
                    None
                } else {
                    let mut r = String::new();
                    r.append("gs://");
                    r.append(h.as_str());
                    Some(r)
                }
            },
            None => None,
        }
    } else if str_eq(scheme, "az") || str_eq(scheme, "azure") {
        bucket_location_exec("az://", parts.path.as_str())
    } else if str_eq(scheme, "file") {
        let mut r = String::new();
        r.append("file://");
        r.append(trim_end_matches_char(parts.path.as_str(), '/'));
        Some(r)
    } else if str_eq(scheme, "direct") {
        if starts_with_str(uri, "direct://") {
            proof {
                reveal_strlit("direct://");
            }
            let n = uri.unicode_len();
            let rest = uri.substring_char(9, n);
            let mut r = String::new();
            r.append("direct://");
            r.append(trim_end_matches_char(rest, '/'));
            Some(r)
        } else {
            None
        }
    } else {
        None
    }
}

/// Normalized storage location of a URI (`None` if it does not parse or
/// has an unknown scheme).
fn extract_storage_location(uri: &str) -> (r: Option<String>)
    ensures
        opt_view(r) == storage_location_spec(uri@),
{
    match parse_url(uri) {
        Some(parts) => storage_location_from_parts(uri, &parts),
        None => None,
    }
}

/// Whether endpoints point to the same underlying storage: more than one
/// endpoint, every location known, and all locations equal.
pub open spec fn shares_storage(uris: Seq<Seq<char>>) -> bool {
    &&& uris.len() > 1
    &&& forall|i: int| 0 <= i < uris.len() ==> (#[trigger] storage_location_spec(uris[i])) is Some
    &&& forall|i: int|
        0 <= i < uris.len() ==> #[trigger] storage_location_spec(uris[i]) == storage_location_spec(
            uris[0],
        )
}

/// Whether multiple endpoints point to the same underlying storage (same
/// bucket, container or path); one endpoint, or any URI whose location is
/// unknown, means independent storage.
pub fn endpoints_share_storage(endpoint_uris: &[String]) -> (r: bool)
    ensures
        r == shares_storage(endpoint_uris@.map_values(|s: String| s@)),
{
    let ghost uris = endpoint_uris@.map_values(|s: String| s@);
    let n = endpoint_uris.len();
    if n <= 1 {
        return false;
    }
    let first = match extract_storage_location(endpoint_uris[0].as_str()) {
        Some(f) => f,
        None => {
            assert(storage_location_spec(uris[0]) is None);
            return false;
        },
    };
    let mut all_same = true;
    let mut i: usize = 1;
    while i < n
        invariant
            n == endpoint_uris@.len(),
            uris == endpoint_uris@.map_values(|s: String| s@),
            1 <= i <= n,
            storage_location_spec(uris[0]) == Some(first@),
            forall|j: int| 0 <= j < i ==> (#[trigger] storage_location_spec(uris[j])) is Some,
            all_same == forall|j: int|
                0 <= j < i ==> #[trigger] storage_location_spec(uris[j]) == storage_location_spec(
                    uris[0],
                ),
        decreases n - i,
    {
        match extract_storage_location(endpoint_uris[i].as_str()) {
            Some(loc) => {
                if !str_eq(loc.as_str(), first.as_str()) {
                    all_same = false;
                }
            },
            None => {
                assert(storage_location_spec(uris[i as int]) is None);
                return false;
            },
        }
        i = i + 1;
    }
    all_same
}

/// Shared storage is a property of every pair of endpoints: all of them
/// have a known location, and any two locations are equal.
pub proof fn law_shared_storage_pairwise(uris: Seq<Seq<char>>)
    ensures
        shares_storage(uris) <==> (uris.len() > 1 && forall|i: int, j: int|
            0 <= i < uris.len() && 0 <= j < uris.len() ==> (#[trigger] storage_location_spec(
                uris[i],
            )) is Some && storage_location_spec(uris[i]) == #[trigger] storage_location_spec(
                uris[j],
            )),
{
    if shares_storage(uris) {
        assert forall|i: int, j: int|
            0 <= i < uris.len() && 0 <= j < uris.len() implies (#[trigger] storage_location_spec(
                uris[i],
            )) is Some && storage_location_spec(uris[i]) == #[trigger] storage_location_spec(
                uris[j],
            ) by {
            assert(storage_location_spec(uris[i]) is Some);
            assert(storage_location_spec(uris[i]) == storage_location_spec(uris[0]));
            assert(storage_location_spec(uris[j]) == storage_location_spec(uris[0]));
        }
    }
    if uris.len() > 1 && forall|i: int, j: int|
        0 <= i < uris.len() && 0 <= j < uris.len() ==> (#[trigger] storage_location_spec(
            uris[i],
        )) is Some && storage_location_spec(uris[i]) == #[trigger] storage_location_spec(uris[j]) {
        assert forall|i: int| 0 <= i < uris.len() implies (#[trigger] storage_location_spec(
            uris[i],
        )) is Some by {
            assert(storage_location_spec(uris[i]) == storage_location_spec(uris[0]));
        }
        assert forall|i: int| 0 <= i < uris.len() implies #[trigger] storage_location_spec(uris[i])
            == storage_location_spec(uris[0]) by {
            assert(storage_location_spec(uris[i]) == storage_location_spec(uris[0]));
        }
    }
}


proof fn lemma_prefix_cancel(p: Seq<char>, a: Seq<char>, b: Seq<char>)
    requires
        p + a == p + b,
    ensures
        a == b,
{
    assert(a =~= (p + a).subrange(p.len() as int, (p + a).len() as int));
    assert(b =~= (p + b).subrange(p.len() as int, (p + b).len() as int));
}

proof fn lemma_first_index_at(s: Seq<char>, c: char, from: nat, k: nat)
    requires
        from <= k < s.len(),
        s[k as int] == c,
        forall|j: int| from <= j < k ==> s[j] != c,
    ensures
        first_index_of(s, c, from) == Some(k),
    decreases k - from,
{
    if from < k {
        lemma_first_index_at(s, c, from + 1, k);
    }
}

proof fn lemma_first_index_none(s: Seq<char>, c: char, from: nat)
    requires
        forall|j: int| from <= j < s.len() ==> s[j] != c,
    ensures
        first_index_of(s, c, from) is None,
    decreases s.len() - from,
{
    if from < s.len() {
        lemma_first_index_none(s, c, from + 1);
    }
}

/// The bucket of a path `/bucket` or `/bucket/...`.
proof fn lemma_bucket_of_path(prefix: Seq<char>, b: Seq<char>, rest: Seq<char>)
    requires
        b.len() > 0,
        !b.contains('/'),
        rest.len() == 0 || rest[0] == '/',
    ensures
        bucket_location(prefix, seq!['/'] + b + rest) == Some(prefix + b),
{
    let path = seq!['/'] + b + rest;
    let t = b + rest;
    assert(path.drop_first() =~= t);
    assert(t[0] == b[0]);
    assert(b[0] != '/') by {
        if b[0] == '/' {
            assert(b.contains('/'));
        }
    }
    assert(leading_count(t, '/') == 0);
    assert(leading_count(path, '/') == 1);
    assert(trim_start_char(path, '/') =~= t);
    assert forall|j: int| 0 <= j < b.len() implies t[j] != '/' by {
        assert(t[j] == b[j]);
        if b[j] == '/' {
            assert(b.contains('/'));
        }
    }
    if rest.len() == 0 {
        assert(t =~= b);
        lemma_first_index_none(t, '/', 0);
        assert(first_segment(t) == b);
    } else {
        assert(t[b.len() as int] == rest[0]);
        lemma_first_index_at(t, '/', 0, b.len());
        assert(first_segment(t) =~= b);
    }
}

/// The storage location of an S3 endpoint is `s3://` and the bucket, the
/// first segment of its path, whatever host or address it names.
pub proof fn law_s3_location_is_bucket(
    uri: Seq<char>,
    b: Seq<char>,
    rest: Seq<char>,
    host: Option<Seq<char>>,
)
    requires
        b.len() > 0,
        !b.contains('/'),
        rest.len() == 0 || rest[0] == '/',
    ensures
        location_from_parts(uri, "s3"@, seq!['/'] + b + rest, host) == Some("s3://"@ + b),
{
    reveal_strlit("s3");
    lemma_bucket_of_path("s3://"@, b, rest);
}

/// The storage location of an Azure endpoint is `az://` and the container,
/// the first segment of its path, whatever account host it names.
pub proof fn law_az_location_is_container(
    uri: Seq<char>,
    scheme: Seq<char>,
    b: Seq<char>,
    rest: Seq<char>,
    host: Option<Seq<char>>,
)
    requires
        scheme == "az"@ || scheme == "azure"@,
        b.len() > 0,
        !b.contains('/'),
        rest.len() == 0 || rest[0] == '/',
    ensures
        location_from_parts(uri, scheme, seq!['/'] + b + rest, host) == Some("az://"@ + b),
{
    reveal_strlit("s3");
    reveal_strlit("gs");
    reveal_strlit("az");
    reveal_strlit("azure");
    assert(scheme[0] == 'a');
    assert(scheme != "s3"@ && scheme != "gs"@) by {
        assert("s3"@[0] == 's');
        assert("gs"@[0] == 'g');
    }
    lemma_bucket_of_path("az://"@, b, rest);
}

/// The storage location of a GCS endpoint is `gs://` and the bucket, which
/// is the URL's host; without a host there is no location.
pub proof fn law_gs_location_is_bucket(uri: Seq<char>, path: Seq<char>, host: Option<Seq<char>>)
    ensures
        match host {
            Some(h) => if h.len() > 0 {
                location_from_parts(uri, "gs"@, path, host) == Some("gs://"@ + h)
            } else {
                location_from_parts(uri, "gs"@, path, host) is None
            },
            None => location_from_parts(uri, "gs"@, path, host) is None,
        },
{
    reveal_strlit("s3");
    reveal_strlit("gs");
    assert("gs"@ != "s3"@) by {
        assert("gs"@[0] != "s3"@[0]);
    }
}

/// Two GCS endpoints whose buckets differ are independent storage.
pub proof fn law_gs_buckets_independent(
    u1: Seq<char>,
    u2: Seq<char>,
    p1: Seq<char>,
    p2: Seq<char>,
    h1: Seq<char>,
    h2: Seq<char>,
)
    requires
        url_parse_result(u1) == Some(("gs"@, p1, Some(h1))),
        url_parse_result(u2) == Some(("gs"@, p2, Some(h2))),
        h1.len() > 0,
        h2.len() > 0,
        h1 != h2,
    ensures
        storage_location_spec(u1) != storage_location_spec(u2),
        !shares_storage(seq![u1, u2]),
{
    law_gs_location_is_bucket(u1, p1, Some(h1));
    law_gs_location_is_bucket(u2, p2, Some(h2));
    if "gs://"@ + h1 == "gs://"@ + h2 {
        lemma_prefix_cancel("gs://"@, h1, h2);
    }
    assert(seq![u1, u2][1] == u2);
    assert(seq![u1, u2][0] == u1);
}

/// Two S3 endpoints name the same storage exactly when their buckets are
/// equal, whatever hosts or addresses they go through.
pub proof fn law_s3_shared_iff_same_bucket(
    u1: Seq<char>,
    u2: Seq<char>,
    b1: Seq<char>,
    b2: Seq<char>,
    r1: Seq<char>,
    r2: Seq<char>,
    h1: Option<Seq<char>>,
    h2: Option<Seq<char>>,
)
    requires
        url_parse_result(u1) == Some(("s3"@, seq!['/'] + b1 + r1, h1)),
        url_parse_result(u2) == Some(("s3"@, seq!['/'] + b2 + r2, h2)),
        b1.len() > 0 && !b1.contains('/') && (r1.len() == 0 || r1[0] == '/'),
        b2.len() > 0 && !b2.contains('/') && (r2.len() == 0 || r2[0] == '/'),
    ensures
        shares_storage(seq![u1, u2]) <==> b1 == b2,
{
    law_s3_location_is_bucket(u1, b1, r1, h1);
    law_s3_location_is_bucket(u2, b2, r2, h2);
    let s = seq![u1, u2];
    assert(s[1] == u2);
    assert(s[0] == u1);
    if shares_storage(s) {
        assert(storage_location_spec(s[1]) == storage_location_spec(s[0]));
        lemma_prefix_cancel("s3://"@, b1, b2);
    }
    if b1 == b2 {
        assert forall|i: int| 0 <= i < s.len() implies (#[trigger] storage_location_spec(s[i])) is Some by {}
        assert forall|i: int| 0 <= i < s.len() implies #[trigger] storage_location_spec(s[i])
            == storage_location_spec(s[0]) by {}
    }
}

proof fn lemma_trim_end_slash(p: Seq<char>)
    requires
        p.len() == 0 || p.last() != '/',
    ensures
        trim_end_char(p, '/') == p,
        trim_end_char(p + seq!['/'], '/') == p,
{
    assert(trailing_count(p, '/') == 0);
    assert(p.subrange(0, p.len() as int) =~= p);
    let q = p + seq!['/'];
    assert(q.drop_last() =~= p);
    assert(trailing_count(q, '/') == 1);
    assert(q.subrange(0, p.len() as int) =~= p);
}

/// The storage location of a `file://` endpoint is `file://` and its path,
/// with a trailing `/` ignored: the same directory named with or without the
/// slash is the same storage.
pub proof fn law_file_location_is_path(uri: Seq<char>, p: Seq<char>, host: Option<Seq<char>>)
    requires
        p.len() == 0 || p.last() != '/',
    ensures
        location_from_parts(uri, "file"@, p, host) == Some("file://"@ + p),
        location_from_parts(uri, "file"@, p + seq!['/'], host) == Some("file://"@ + p),
{
    reveal_strlit("s3");
    reveal_strlit("gs");
    reveal_strlit("az");
    reveal_strlit("azure");
    reveal_strlit("file");
    assert("file"@ != "s3"@ && "file"@ != "gs"@ && "file"@ != "az"@ && "file"@ != "azure"@) by {
        assert("file"@[0] == 'f');
        assert("s3"@[0] == 's' && "gs"@[0] == 'g' && "az"@[0] == 'a' && "azure"@[0] == 'a');
    }
    lemma_trim_end_slash(p);
}

/// The storage location of a `direct://` endpoint is `direct://` and the
/// text after the scheme, with a trailing `/` ignored.
pub proof fn law_direct_location_is_path(p: Seq<char>, path: Seq<char>, host: Option<Seq<char>>)
    requires
        p.len() == 0 || p.last() != '/',
    ensures
        location_from_parts("direct://"@ + p, "direct"@, path, host) == Some("direct://"@ + p),
        location_from_parts("direct://"@ + p + seq!['/'], "direct"@, path, host) == Some(
            "direct://"@ + p,
        ),
{
    reveal_strlit("s3");
    reveal_strlit("gs");
    reveal_strlit("az");
    reveal_strlit("azure");
    reveal_strlit("file");
    reveal_strlit("direct");
    reveal_strlit("direct://");
    assert("direct"@ != "s3"@ && "direct"@ != "gs"@ && "direct"@ != "az"@ && "direct"@ != "azure"@
        && "direct"@ != "file"@) by {
        assert("direct"@[0] == 'd');
        assert("s3"@[0] == 's' && "gs"@[0] == 'g' && "az"@[0] == 'a' && "azure"@[0] == 'a' && "file"@[0] == 'f');
    }
    lemma_trim_end_slash(p);
    let u1 = "direct://"@ + p;
    let u2 = "direct://"@ + p + seq!['/'];
    assert(u1.subrange(0, 9) =~= "direct://"@);
    assert(u2.subrange(0, 9) =~= "direct://"@);
    assert(u1.subrange(9, u1.len() as int) =~= p);
    assert(u2.subrange(9, u2.len() as int) =~= p + seq!['/']);
}

/// Two `file://` endpoints share storage exactly when their paths are the
/// same directory (a trailing `/` aside).
pub proof fn law_file_shared_iff_same_path(
    u1: Seq<char>,
    u2: Seq<char>,
    p1: Seq<char>,
    p2: Seq<char>,
    h1: Option<Seq<char>>,
    h2: Option<Seq<char>>,
)
    requires
        url_parse_result(u1) == Some(("file"@, p1, h1)),
        url_parse_result(u2) == Some(("file"@, p2, h2)),
        p1.len() == 0 || p1.last() != '/',
        p2.len() == 0 || p2.last() != '/',
    ensures
        shares_storage(seq![u1, u2]) <==> p1 == p2,
{
    law_file_location_is_path(u1, p1, h1);
    law_file_location_is_path(u2, p2, h2);
    let s = seq![u1, u2];
    assert(s[1] == u2);
    assert(s[0] == u1);
    if shares_storage(s) {
        assert(storage_location_spec(s[1]) == storage_location_spec(s[0]));
        lemma_prefix_cancel("file://"@, p1, p2);
    }
    if p1 == p2 {
        assert forall|i: int| 0 <= i < s.len() implies (#[trigger] storage_location_spec(s[i])) is Some by {}
        assert forall|i: int| 0 <= i < s.len() implies #[trigger] storage_location_spec(s[i])
            == storage_location_spec(s[0]) by {}
    }
}

// ----------------------------------------------------------------------------
// Configuration hash
// ----------------------------------------------------------------------------

/// Strings joined with `,` (`slice::join(",")`).
pub open spec fn join_comma(v: Seq<Seq<char>>) -> Seq<char>
    decreases v.len(),
{
    if v.len() == 0 {
        Seq::empty()
    } else if v.len() == 1 {
        v[0]
    } else {
        join_comma(v.drop_last()) + ","@ + v.last()
    }
}

/// The text hashed for a cache configuration:
/// `files:{n},` then `dir:{cfg},` when given, then `endpoints:{a,b,...}`.
pub open spec fn cache_hash_text(total: nat, dir: Option<Seq<char>>, eps: Seq<Seq<char>>) -> Seq<char> {
    "files:"@ + dec(total) + ","@ + match dir {
        Some(d) => "dir:"@ + d + ","@,
        None => Seq::empty(),
    } + "endpoints:"@ + join_comma(eps)
}

/// What `seahash::hash` returns for a byte string.
pub uninterp spec fn seahash_of(bytes: Seq<u8>) -> u64;

/// `seahash::hash`: the SeaHash digest of a byte string, a function of the
/// bytes alone (fixed seeds).  Its value is named, not stated.
#[verifier::external_body]
pub(crate) fn seahash_hash(buf: &[u8]) -> (r: u64)
    ensures
        r == seahash_of(buf@),
{
    seahash::hash(buf)
}

/// Configuration hash for cache key namespacing: the SeaHash of the cache
/// hash text, as 16 lowercase hexadecimal digits.
pub fn compute_config_hash(
    total_files: usize,
    directory_config: Option<&str>,
    endpoints: &[String],
) -> (r: String)
    ensures
        r@ == zero_pad(
            hex(
                seahash_of(
                    encode_utf8(
                        cache_hash_text(
                            total_files as nat,
                            match directory_config {
                                Some(d) => Some(d@),
                                None => None,
                            },
                            endpoints@.map_values(|e: String| e@),
                        ),
                    ),
                ) as nat,
            ),
            16,
        ),
{
    let ghost eps = endpoints@.map_values(|e: String| e@);
    let mut input = String::new();
    input.append("files:");
    let n = u64_to_dec(total_files as u64);
    input.append(n.as_str());
    input.append(",");
    match directory_config {
        Some(d) => {
            input.append("dir:");
            input.append(d);
            input.append(",");
        },
        None => {},
    }
    input.append("endpoints:");
    let ghost before = input@;
    let mut i: usize = 0;
    while i < endpoints.len()
        invariant
            i <= endpoints@.len(),
            eps == endpoints@.map_values(|e: String| e@),
            input@ == before + join_comma(eps.subrange(0, i as int)),
        decreases endpoints@.len() - i,
    {
        let ghost prev = eps.subrange(0, i as int);
        assert(eps.subrange(0, i + 1).drop_last() =~= prev);
        if i > 0 {
            input.append(",");
        }
        input.append(endpoints[i].as_str());
        proof {
            reveal_strlit(",");
            if i == 0 {
                assert(eps.subrange(0, 1) =~= seq![eps[0]]);
                assert(prev =~= Seq::<Seq<char>>::empty());
            }
            assert(input@ =~= before + join_comma(eps.subrange(0, i + 1)));
        }
        i = i + 1;
    }
    proof {
        assert(eps.subrange(0, endpoints@.len() as int) =~= eps);
        let dopt = match directory_config {
            Some(d) => Some(d@),
            None => None,
        };
        assert(input@ == cache_hash_text(total_files as nat, dopt, eps));
    }
    let bytes = input.as_str().as_bytes();
    assert(bytes@ == encode_utf8(input@));
    let h = seahash_hash(bytes);
    pad_zeros(u64_to_hex(h), 16)
}

// ----------------------------------------------------------------------------
// Checkpoint coverage
// ----------------------------------------------------------------------------

/// Sum of counts.
pub open spec fn sum_counts(s: Seq<usize>) -> nat
    decreases s.len(),
{
    if s.len() == 0 {
        0
    } else {
        sum_counts(s.drop_last()) + (s.last() as nat)
    }
}

/// How completely a cache checkpoint covers the expected object population.
#[derive(Debug, Clone)]
pub struct CheckpointCoverage {
    /// Number of objects in the `Created` state.
    pub created_count: usize,
    /// Number of objects in the `Planned` state.
    pub planned_count: usize,
    /// Number of objects in the `Failed` state.
    pub failed_count: usize,
    /// Total objects tracked (all states).
    pub total_tracked: usize,
    /// The expected total from the prepare configuration.
    pub expected_count: usize,
    /// `created_count >= expected_count` with a non-zero expectation: safe to skip LIST.
    pub covers_all: bool,
    /// Count per state, indexed by the state's byte code.
    pub state_counts: Vec<usize>,
    /// Bytes per state, indexed by the state's byte code.
    pub bytes_by_state: Vec<u64>,
}

impl CheckpointCoverage {
    /// Build from per-state counts and byte totals (indexed by state code).
    pub fn from_state_counts(
        state_counts: Vec<usize>,
        bytes_by_state: Vec<u64>,
        expected_count: usize,
    ) -> (r: Self)
        requires
            state_counts@.len() == 6,
            sum_counts(state_counts@) <= usize::MAX,
        ensures
            r.created_count == state_counts@[3],
            r.planned_count == state_counts@[1],
            r.failed_count == state_counts@[4],
            r.total_tracked == sum_counts(state_counts@),
            r.expected_count == expected_count,
            r.covers_all == (state_counts@[3] >= expected_count && expected_count > 0),
            r.state_counts@ == state_counts@,
            r.bytes_by_state@ == bytes_by_state@,
    {
        let created_count = state_counts[3];
        let planned_count = state_counts[1];
        let failed_count = state_counts[4];
        let mut total_tracked: usize = 0;
        let mut i: usize = 0;
        while i < state_counts.len()
            invariant
                i <= state_counts@.len(),
                state_counts@.len() == 6,
                sum_counts(state_counts@) <= usize::MAX,
                total_tracked == sum_counts(state_counts@.subrange(0, i as int)),
            decreases state_counts@.len() - i,
        {
            assert(state_counts@.subrange(0, i + 1).drop_last() =~= state_counts@.subrange(
                0,
                i as int,
            ));
            proof {
                lemma_sum_counts_prefix(state_counts@, i + 1);
            }
            total_tracked = total_tracked + state_counts[i];
            i = i + 1;
        }
        assert(state_counts@.subrange(0, 6) =~= state_counts@);
        let covers_all = created_count >= expected_count && expected_count > 0;
        CheckpointCoverage {
            created_count,
            planned_count,
            failed_count,
            total_tracked,
            expected_count,
            covers_all,
            state_counts,
            bytes_by_state,
        }
    }
}

impl CheckpointCoverage {
    /// Coverage from per-state counts aggregated over all endpoints; `None`
    /// when no object is tracked at all.
    pub fn from_aggregate(
        state_counts: Vec<usize>,
        bytes_by_state: Vec<u64>,
        expected_count: usize,
    ) -> (r: Option<Self>)
        requires
            state_counts@.len() == 6,
            sum_counts(state_counts@) <= usize::MAX,
        ensures
            sum_counts(state_counts@) == 0 <==> r is None,
            r matches Some(c) ==> c.total_tracked == sum_counts(state_counts@) && c.created_count
                == state_counts@[3] && c.planned_count == state_counts@[1] && c.failed_count
                == state_counts@[4] && c.expected_count == expected_count && c.covers_all == (
            state_counts@[3] >= expected_count && expected_count > 0) && c.state_counts@
                == state_counts@ && c.bytes_by_state@ == bytes_by_state@,
    {
        let c = CheckpointCoverage::from_state_counts(state_counts, bytes_by_state, expected_count);
        if c.total_tracked == 0 {
            None
        } else {
            Some(c)
        }
    }
}

/// Add one endpoint's per-state counts (indexed by state code) into the totals.
pub fn add_state_counts(totals: &mut Vec<usize>, counts: &[usize])
    requires
        old(totals)@.len() == counts@.len(),
        forall|i: int| 0 <= i < counts@.len() ==> old(totals)@[i] + counts@[i] <= usize::MAX,
    ensures
        final(totals)@.len() == old(totals)@.len(),
        forall|i: int|
            0 <= i < counts@.len() ==> #[trigger] final(totals)@[i] == old(totals)@[i] + counts@[i],
{
    let n = counts.len();
    let mut i: usize = 0;
    while i < n
        invariant
            n == counts@.len(),
            totals@.len() == n,
            i <= n,
            forall|j: int| 0 <= j < i ==> #[trigger] totals@[j] == old(totals)@[j] + counts@[j],
            forall|j: int| i <= j < n ==> #[trigger] totals@[j] == old(totals)@[j],
            forall|j: int| 0 <= j < n ==> old(totals)@[j] + counts@[j] <= usize::MAX,
        decreases n - i,
    {
        let v = totals[i] + counts[i];
        totals.set(i, v);
        i = i + 1;
    }
}

/// Total over endpoints of the count each gives for state `i`.
pub open spec fn column_total(per: Seq<Vec<usize>>, i: int) -> nat
    decreases per.len(),
{
    if per.len() == 0 {
        0
    } else {
        column_total(per.drop_last(), i) + (per.last()@[i] as nat)
    }
}

/// Total over endpoints of the bytes each gives for state `i`.
pub open spec fn column_total_bytes(per: Seq<Vec<u64>>, i: int) -> nat
    decreases per.len(),
{
    if per.len() == 0 {
        0
    } else {
        column_total_bytes(per.drop_last(), i) + (per.last()@[i] as nat)
    }
}

/// Total tracked over all endpoints and states.
pub open spec fn grand_total(per: Seq<Vec<usize>>) -> nat {
    column_total(per, 0) + column_total(per, 1) + column_total(per, 2) + column_total(per, 3)
        + column_total(per, 4) + column_total(per, 5)
}

/// Every endpoint gives one count and one byte total per state, and the
/// totals over endpoints fit their integer types.
pub open spec fn endpoint_totals_fit(per_counts: Seq<Vec<usize>>, per_bytes: Seq<Vec<u64>>) -> bool {
    &&& per_counts.len() == per_bytes.len()
    &&& forall|e: int| 0 <= e < per_counts.len() ==> (#[trigger] per_counts[e])@.len() == 6
    &&& forall|e: int| 0 <= e < per_bytes.len() ==> (#[trigger] per_bytes[e])@.len() == 6
    &&& forall|i: int| 0 <= i < 6 ==> #[trigger] column_total_bytes(per_bytes, i) <= u64::MAX
    &&& grand_total(per_counts) <= usize::MAX
}

proof fn lemma_column_total_step(per: Seq<Vec<usize>>, e: int, i: int)
    requires
        0 <= e < per.len(),
    ensures
        column_total(per.take(e + 1), i) == column_total(per.take(e), i) + (per[e]@[i] as nat),
        column_total(per.take(e + 1), i) <= column_total(per, i),
    decreases per.len(),
{
    assert(per.take(e + 1).drop_last() =~= per.take(e));
    if e + 1 < per.len() {
        lemma_column_total_step(per.drop_last(), e, i);
        assert(per.drop_last().take(e + 1) =~= per.take(e + 1));
        assert(per.drop_last().take(e) =~= per.take(e));
    } else {
        assert(per.take(e + 1) =~= per);
    }
}

proof fn lemma_column_total_bytes_step(per: Seq<Vec<u64>>, e: int, i: int)
    requires
        0 <= e < per.len(),
    ensures
        column_total_bytes(per.take(e + 1), i) == column_total_bytes(per.take(e), i) + (per[e]@[i] as nat),
        column_total_bytes(per.take(e + 1), i) <= column_total_bytes(per, i),
    decreases per.len(),
{
    assert(per.take(e + 1).drop_last() =~= per.take(e));
    if e + 1 < per.len() {
        lemma_column_total_bytes_step(per.drop_last(), e, i);
        assert(per.drop_last().take(e + 1) =~= per.take(e + 1));
        assert(per.drop_last().take(e) =~= per.take(e));
    } else {
        assert(per.take(e + 1) =~= per);
    }
}

/// Coverage of a whole cache from the per-state counts and byte totals of
/// each of its endpoints: the counts and bytes are summed state by state,
/// and the coverage is `None` exactly when nothing is tracked anywhere.
pub fn coverage_over_endpoints(
    per_counts: &Vec<Vec<usize>>,
    per_bytes: &Vec<Vec<u64>>,
    expected_count: usize,
) -> (r: Option<CheckpointCoverage>)
    requires
        endpoint_totals_fit(per_counts@, per_bytes@),
    ensures
        r is None <==> grand_total(per_counts@) == 0,
        r matches Some(c) ==> c.state_counts@.len() == 6 && c.bytes_by_state@.len() == 6 && (
        forall|i: int|
            0 <= i < 6 ==> c.state_counts@[i] == column_total(per_counts@, i)
                && c.bytes_by_state@[i] == column_total_bytes(per_bytes@, i))
            && c.total_tracked == grand_total(per_counts@) && c.created_count == column_total(
            per_counts@,
            3,
        ) && c.planned_count == column_total(per_counts@, 1) && c.failed_count == column_total(
            per_counts@,
            4,
        ) && c.expected_count == expected_count && c.covers_all == (column_total(per_counts@, 3)
            >= expected_count && expected_count > 0),
{
    let mut counts: Vec<usize> = Vec::new();
    let mut bytes: Vec<u64> = Vec::new();
    let mut k: usize = 0;
    while k < 6
        invariant
            k <= 6,
            counts@.len() == k,
            bytes@.len() == k,
            forall|i: int| 0 <= i < k ==> counts@[i] == 0 && bytes@[i] == 0,
        decreases 6 - k,
    {
        counts.push(0);
        bytes.push(0);
        k = k + 1;
    }
    let n = per_counts.len();
    let mut e: usize = 0;
    proof {
        assert(per_counts@.take(0) =~= Seq::<Vec<usize>>::empty());
        assert(per_bytes@.take(0) =~= Seq::<Vec<u64>>::empty());
    }
    while e < n
        invariant
            n == per_counts@.len(),
            endpoint_totals_fit(per_counts@, per_bytes@),
            e <= n,
            counts@.len() == 6,
            bytes@.len() == 6,
            forall|i: int| 0 <= i < 6 ==> #[trigger] counts@[i] == column_total(per_counts@.take(e as int), i),
            forall|i: int| 0 <= i < 6 ==> #[trigger] bytes@[i] == column_total_bytes(per_bytes@.take(e as int), i),
        decreases n - e,
    {
        proof {
            assert forall|i: int| 0 <= i < 6 implies column_total(per_counts@.take(e + 1), i)
                == column_total(per_counts@.take(e as int), i) + (per_counts@[e as int]@[i] as nat)
                && column_total(per_counts@.take(e + 1), i) <= usize::MAX by {
                lemma_column_total_step(per_counts@, e as int, i);
            }
            assert forall|i: int| 0 <= i < 6 implies column_total_bytes(per_bytes@.take(e + 1), i)
                == column_total_bytes(per_bytes@.take(e as int), i) + (per_bytes@[e as int]@[i] as nat)
                && column_total_bytes(per_bytes@.take(e + 1), i) <= u64::MAX by {
                lemma_column_total_bytes_step(per_bytes@, e as int, i);
            }
            assert(per_counts@[e as int]@.len() == 6);
            assert(per_bytes@[e as int]@.len() == 6);
        }
        add_state_counts(&mut counts, per_counts[e].as_slice());
        add_state_bytes(&mut bytes, per_bytes[e].as_slice());
        e = e + 1;
    }
    proof {
        assert(per_counts@.take(n as int) =~= per_counts@);
        assert(per_bytes@.take(n as int) =~= per_bytes@);
        reveal_with_fuel(sum_counts, 7);
        assert(sum_counts(counts@) == grand_total(per_counts@));
    }
    CheckpointCoverage::from_aggregate(counts, bytes, expected_count)
}

pub proof fn lemma_sum_counts_prefix(s: Seq<usize>, i: int)
    requires
        0 <= i <= s.len(),
    ensures
        sum_counts(s.subrange(0, i)) <= sum_counts(s),
    decreases s.len(),
{
    if i < s.len() {
        assert(s.drop_last().subrange(0, i) =~= s.subrange(0, i));
        lemma_sum_counts_prefix(s.drop_last(), i);
    } else {
        assert(s.subrange(0, i) =~= s);
    }
}

#[verifier::external_type_specification]
#[verifier::external_body]
pub struct ExPathBuf(std::path::PathBuf);

/// Cache statistics for reporting.
#[derive(Debug)]
pub struct CacheStats {
    /// Endpoint index.
    pub endpoint_index: usize,
    /// Endpoint URI.
    pub endpoint_uri: String,
    /// Physical cache location.
    pub cache_location: std::path::PathBuf,
    /// Number of cached objects.
    pub objects_count: usize,
    /// Size of the cache on disk.
    pub cache_size_bytes: u64,
}

} // verus!
