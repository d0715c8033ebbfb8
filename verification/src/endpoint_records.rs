//! Record layout of the per-endpoint object cache: key formats, file
//! ownership, value framing of the endpoint-map and seed tables, entry state
//! transitions, and the scans that select and count entries by state.

use vstd::prelude::*;
use vstd::string::*;
use vstd::utf8::encode_utf8;
use crate::fixed_point::two_pow;
use crate::fs_metadata::{path_join, path_join_spec};
use crate::metadata_cache::{
    ObjectEntry, ObjectState, state_code, seahash_of, seahash_hash, parse_url, url_parse_result,
};
use crate::text::{
    dec, hex, zero_pad, ends_with, u64_to_hex, pad_zeros, ends_with_str, starts_with, parse_usize_spec, u64_to_dec, u64_to_dec_padded, parse_usize,
    starts_with_str, lemma_zero_pad_dec_value, unsigned_body, parse_unsigned, lemma_dec_digits,
};

verus! {

broadcast use vstd::string::group_string_axioms;

// ----------------------------------------------------------------------------
// Keys
// ----------------------------------------------------------------------------

/// `{:08}` of a number: its decimal digits, zero-padded to eight.
pub open spec fn pad8(n: nat) -> Seq<char> {
    zero_pad(dec(n), 8)
}

/// Object-table key: `{config_hash}:{file_idx:08}`.
pub open spec fn object_key_spec(hash: Seq<char>, idx: nat) -> Seq<char> {
    hash + seq![':'] + pad8(idx)
}

/// Key of an indexed table (endpoint map, seeds):
/// `{config_hash}:{table}:{index:08}`.
pub open spec fn indexed_key_spec(hash: Seq<char>, table: Seq<char>, idx: nat) -> Seq<char> {
    hash + seq![':'] + table + seq![':'] + pad8(idx)
}

/// Listing-cache key: `{config_hash}:list_timestamp:{timestamp}`.
pub open spec fn listing_key_spec(hash: Seq<char>, timestamp: nat) -> Seq<char> {
    hash + ":list_timestamp:"@ + dec(timestamp)
}

/// Key of a named per-configuration record: `{config_hash}:{name}`.
pub open spec fn named_key_spec(hash: Seq<char>, name: Seq<char>) -> Seq<char> {
    hash + seq![':'] + name
}

/// The prefix shared by all object keys of one configuration.
pub open spec fn scan_prefix(hash: Seq<char>) -> Seq<char> {
    hash + seq![':']
}

/// The file index an object key names, for the given configuration: the
/// rest of the key after the prefix, read as a `usize`.
pub open spec fn key_file_index(key: Seq<char>, hash: Seq<char>) -> Option<usize> {
    if starts_with(key, scan_prefix(hash)) {
        parse_usize_spec(key.skip(scan_prefix(hash).len() as int))
    } else {
        None
    }
}

/// `format!("{}:{:08}", config_hash, file_idx)`.
pub fn object_key(config_hash: &str, file_idx: usize) -> (k: String)
    ensures
        k@ == object_key_spec(config_hash@, file_idx as nat),
{
    let mut k = String::new();
    k.append(config_hash);
    proof {
        reveal_strlit(":");
    }
    k.append(":");
    let digits = u64_to_dec_padded(file_idx as u64, 8);
    k.append(digits.as_str());
    k
}

/// `format!("{}:{}:{:08}", config_hash, table, index)`.
pub fn indexed_key(config_hash: &str, table: &str, index: usize) -> (k: String)
    ensures
        k@ == indexed_key_spec(config_hash@, table@, index as nat),
{
    let mut k = String::new();
    proof {
        reveal_strlit(":");
    }
    k.append(config_hash);
    k.append(":");
    k.append(table);
    k.append(":");
    let digits = u64_to_dec_padded(index as u64, 8);
    k.append(digits.as_str());
    k
}

/// `format!("{}:list_timestamp:{}", config_hash, timestamp)`.
pub fn listing_key(config_hash: &str, timestamp: u64) -> (k: String)
    ensures
        k@ == listing_key_spec(config_hash@, timestamp as nat),
{
    let mut k = String::new();
    k.append(config_hash);
    k.append(":list_timestamp:");
    let digits = u64_to_dec(timestamp);
    k.append(digits.as_str());
    k
}

/// `format!("{}:{}", config_hash, name)`.
pub fn named_key(config_hash: &str, name: &str) -> (k: String)
    ensures
        k@ == named_key_spec(config_hash@, name@),
{
    let mut k = String::new();
    proof {
        reveal_strlit(":");
    }
    k.append(config_hash);
    k.append(":");
    k.append(name);
    k
}

/// The file index of an object key of this configuration: `None` when the
/// key belongs to another configuration or its index does not parse.
pub fn file_index_from_key(key: &str, config_hash: &str) -> (r: Option<usize>)
    ensures
        r == key_file_index(key@, config_hash@),
{
    let mut prefix = String::new();
    proof {
        reveal_strlit(":");
    }
    prefix.append(config_hash);
    prefix.append(":");
    assert(prefix@ =~= scan_prefix(config_hash@));
    if !starts_with_str(key, prefix.as_str()) {
        return None;
    }
    let m = prefix.as_str().unicode_len();
    let n = key.unicode_len();
    let rest = key.substring_char(m, n);
    assert(rest@ =~= key@.skip(m as int));
    parse_usize(rest)
}

/// An object key names its file index again: reading the index back out
/// of `{config_hash}:{file_idx:08}` gives `file_idx`.
pub proof fn law_object_key_round_trip(hash: Seq<char>, idx: usize)
    ensures
        key_file_index(object_key_spec(hash, idx as nat), hash) == Some(idx),
{
    let key = object_key_spec(hash, idx as nat);
    let p = scan_prefix(hash);
    assert(key.subrange(0, p.len() as int) =~= p);
    assert(key.skip(p.len() as int) =~= pad8(idx as nat));
    lemma_zero_pad_dec_value(idx as nat, 8);
    assert(unsigned_body(pad8(idx as nat)) == pad8(idx as nat));
    assert(parse_unsigned(pad8(idx as nat)) == Some(idx as nat));
}

// ----------------------------------------------------------------------------
// Ownership
// ----------------------------------------------------------------------------

/// Whether endpoint `e` owns file `f` among `n` endpoints (round robin).
pub open spec fn owns_spec(e: nat, f: nat, n: nat) -> bool {
    f % n == e
}

/// Every file has exactly one owner among the endpoints: the endpoint its
/// round-robin slot names.
pub proof fn law_single_owner(f: nat, n: nat)
    requires
        n > 0,
    ensures
        f % n < n,
        owns_spec(f % n, f, n),
        forall|e: nat| #[trigger] owns_spec(e, f, n) ==> e == f % n,
{
    vstd::arithmetic::div_mod::lemma_mod_bound(f as int, n as int);
}

/// Round-robin owner of a file: `file_idx % num_endpoints`.
pub fn endpoint_for_file_index(file_idx: usize, num_endpoints: usize) -> (r: usize)
    requires
        num_endpoints > 0,
    ensures
        r == file_idx % num_endpoints,
        r < num_endpoints,
{
    file_idx % num_endpoints
}

/// Whether endpoint `endpoint_index` owns `file_idx` among `total_endpoints`
/// (`file_idx % total_endpoints == endpoint_index`).
pub fn owns_file(endpoint_index: usize, file_idx: usize, total_endpoints: usize) -> (r: bool)
    requires
        total_endpoints > 0,
    ensures
        r == owns_spec(endpoint_index as nat, file_idx as nat, total_endpoints as nat),
{
    file_idx % total_endpoints == endpoint_index
}

// ----------------------------------------------------------------------------
// Little-endian value framing
// ----------------------------------------------------------------------------

/// Value of little-endian bytes.
pub open spec fn le_value(b: Seq<u8>) -> nat
    decreases b.len(),
{
    if b.len() == 0 {
        0
    } else {
        b[0] as nat + 256 * le_value(b.drop_first())
    }
}

proof fn lemma_le4(b: Seq<u8>)
    requires
        b.len() == 4,
    ensures
        le_value(b) == b[0] + 256 * b[1] + 65536 * b[2] + 16777216 * b[3],
{
    let b1 = b.drop_first();
    let b2 = b1.drop_first();
    let b3 = b2.drop_first();
    let b4 = b3.drop_first();
    assert(b4.len() == 0);
    assert(le_value(b4) == 0);
    assert(le_value(b3) == b3[0] as nat);
    assert(le_value(b2) == b2[0] + 256 * b3[0]);
    assert(le_value(b1) == b1[0] + 256 * b2[0] + 65536 * b3[0]);
}

proof fn lemma_le8(b: Seq<u8>)
    requires
        b.len() == 8,
    ensures
        le_value(b) == le_value(b.subrange(0, 4)) + 4294967296 * le_value(b.subrange(4, 8)),
{
    let lo = b.subrange(0, 4);
    let hi = b.subrange(4, 8);
    let b1 = b.drop_first();
    let b2 = b1.drop_first();
    let b3 = b2.drop_first();
    let b4 = b3.drop_first();
    assert(b4 =~= hi);
    assert(lo.drop_first() =~= b1.subrange(0, 3));
    lemma_le4(lo);
    assert(le_value(b3) == b3[0] + 256 * le_value(hi));
    assert(le_value(b2) == b2[0] + 256 * b3[0] + 65536 * le_value(hi));
    assert(le_value(b1) == b1[0] + 256 * b2[0] + 65536 * b3[0] + 16777216 * le_value(hi));
}

/// `(idx as u32).to_le_bytes()`: the low 32 bits of an endpoint index as
/// four little-endian bytes.
pub fn encode_endpoint_index(idx: usize) -> (r: Vec<u8>)
    ensures
        r@.len() == 4,
        le_value(r@) == idx as nat % 0x1_0000_0000,
{
    let v: u64 = idx as u64;
    let b0: u8 = (v & 0xff) as u8;
    let b1: u8 = ((v >> 8u64) & 0xff) as u8;
    let b2: u8 = ((v >> 16u64) & 0xff) as u8;
    let b3: u8 = ((v >> 24u64) & 0xff) as u8;
    assert(b0 + 256 * b1 + 65536 * b2 + 16777216 * b3 == v % 0x1_0000_0000) by (bit_vector)
        requires
            b0 == (v & 0xff) as u8,
            b1 == ((v >> 8u64) & 0xff) as u8,
            b2 == ((v >> 16u64) & 0xff) as u8,
            b3 == ((v >> 24u64) & 0xff) as u8,
    ;
    let r = vec![b0, b1, b2, b3];
    proof {
        lemma_le4(r@);
    }
    r
}

/// `u32::from_le_bytes` of a stored endpoint index; `None` unless exactly
/// four bytes are stored.
pub fn decode_endpoint_index(bytes: &[u8]) -> (r: Option<usize>)
    ensures
        bytes@.len() == 4 ==> r == Some(le_value(bytes@) as usize),
        bytes@.len() != 4 ==> r is None,
        r matches Some(v) ==> v < 0x1_0000_0000,
{
    if bytes.len() != 4 {
        return None;
    }
    let b0 = bytes[0] as u64;
    let b1 = bytes[1] as u64;
    let b2 = bytes[2] as u64;
    let b3 = bytes[3] as u64;
    proof {
        lemma_le4(bytes@);
    }
    let v: u64 = b0 + 256 * b1 + 65536 * b2 + 16777216 * b3;
    assert(v < 0x1_0000_0000);
    Some(v as usize)
}

/// `seed.to_le_bytes()`.
pub fn encode_seed(seed: u64) -> (r: Vec<u8>)
    ensures
        r@.len() == 8,
        le_value(r@) == seed,
{
    let mut r: Vec<u8> = Vec::new();
    let mut i: u64 = 0;
    while i < 8
        invariant
            i <= 8,
            r@.len() == i,
            forall|k: int| 0 <= k < i ==> r@[k] == ((seed >> (8 * k) as u64) & 0xff) as u8,
        decreases 8 - i,
    {
        let b: u8 = ((seed >> (8 * i)) & 0xff) as u8;
        r.push(b);
        i = i + 1;
    }
    let ghost lo = r@.subrange(0, 4);
    let ghost hi = r@.subrange(4, 8);
    let c0 = r[0];
    let c1 = r[1];
    let c2 = r[2];
    let c3 = r[3];
    let c4 = r[4];
    let c5 = r[5];
    let c6 = r[6];
    let c7 = r[7];
    assert(c0 + 256 * c1 + 65536 * c2 + 16777216 * c3 + 4294967296 * (c4 + 256 * c5 + 65536 * c6
        + 16777216 * c7) == seed) by (bit_vector)
        requires
            c0 == ((seed >> 0u64) & 0xff) as u8,
            c1 == ((seed >> 8u64) & 0xff) as u8,
            c2 == ((seed >> 16u64) & 0xff) as u8,
            c3 == ((seed >> 24u64) & 0xff) as u8,
            c4 == ((seed >> 32u64) & 0xff) as u8,
            c5 == ((seed >> 40u64) & 0xff) as u8,
            c6 == ((seed >> 48u64) & 0xff) as u8,
            c7 == ((seed >> 56u64) & 0xff) as u8,
    ;
    proof {
        lemma_le8(r@);
        lemma_le4(lo);
        lemma_le4(hi);
    }
    r
}

/// `u64::from_le_bytes` of a stored seed; `None` unless exactly eight
/// bytes are stored.
pub fn decode_seed(bytes: &[u8]) -> (r: Option<u64>)
    ensures
        bytes@.len() == 8 ==> r == Some(le_value(bytes@) as u64),
        bytes@.len() != 8 ==> r is None,
        r matches Some(v) ==> le_value(bytes@) == v,
{
    if bytes.len() != 8 {
        return None;
    }
    let c0 = bytes[0] as u64;
    let c1 = bytes[1] as u64;
    let c2 = bytes[2] as u64;
    let c3 = bytes[3] as u64;
    let c4 = bytes[4] as u64;
    let c5 = bytes[5] as u64;
    let c6 = bytes[6] as u64;
    let c7 = bytes[7] as u64;
    proof {
        lemma_le8(bytes@);
        lemma_le4(bytes@.subrange(0, 4));
        lemma_le4(bytes@.subrange(4, 8));
    }
    let lo: u64 = c0 + 256 * c1 + 65536 * c2 + 16777216 * c3;
    let hi: u64 = c4 + 256 * c5 + 65536 * c6 + 16777216 * c7;
    assert(hi < 0x1_0000_0000);
    assert(lo < 0x1_0000_0000);
    assert(hi * 4294967296 + lo <= u64::MAX) by (nonlinear_arith)
        requires
            hi < 0x1_0000_0000,
            lo < 0x1_0000_0000,
    ;
    Some(hi * 4294967296 + lo)
}


// ----------------------------------------------------------------------------
// Entry state transitions
// ----------------------------------------------------------------------------

/// An entry with its state replaced, everything else kept
/// (what `mark_creating`, `mark_failed` and `mark_deleted` store).
pub fn with_state(entry: ObjectEntry, state: ObjectState) -> (r: ObjectEntry)
    ensures
        r.state == state,
        r.path == entry.path,
        r.size == entry.size,
        r.endpoint_idx == entry.endpoint_idx,
        r.created_at == entry.created_at,
        r.checksum == entry.checksum,
{
    let mut e = entry;
    e.state = state;
    e
}

/// An entry marked created at `created_at` with `checksum`
/// (what `mark_created` stores over a planned entry).
pub fn mark_created_entry(entry: ObjectEntry, created_at: u64, checksum: Option<u64>) -> (r:
    ObjectEntry)
    ensures
        r.state == ObjectState::Created,
        r.created_at == Some(created_at),
        r.checksum == checksum,
        r.path == entry.path,
        r.size == entry.size,
        r.endpoint_idx == entry.endpoint_idx,
{
    let mut e = entry;
    e.state = ObjectState::Created;
    e.created_at = Some(created_at);
    e.checksum = checksum;
    e
}

/// Upsert of a created object (`record_created`): the stored entry when
/// there is one, else a fresh planned entry for `path`, `size` and
/// `endpoint_idx`; either way marked created at `created_at` with
/// `checksum`.
pub fn record_created_entry(
    existing: Option<ObjectEntry>,
    path: String,
    size: u64,
    endpoint_idx: usize,
    created_at: u64,
    checksum: Option<u64>,
) -> (r: ObjectEntry)
    ensures
        r.state == ObjectState::Created,
        r.created_at == Some(created_at),
        r.checksum == checksum,
        match existing {
            Some(e) => r.path == e.path && r.size == e.size && r.endpoint_idx == e.endpoint_idx,
            None => r.path == path && r.size == size && r.endpoint_idx == endpoint_idx,
        },
{
    let base = match existing {
        Some(e) => e,
        None => ObjectEntry::new_planned(path, size, endpoint_idx),
    };
    mark_created_entry(base, created_at, checksum)
}

// ----------------------------------------------------------------------------
// Scans over decoded entries
// ----------------------------------------------------------------------------

/// Whether a key belongs to the configuration's object keys.
pub open spec fn in_scope(key: Seq<char>, hash: Seq<char>) -> bool {
    starts_with(key, scan_prefix(hash))
}

/// Whether a key is one of the configuration's object keys (it starts with
/// `{config_hash}:`).
pub fn key_in_scope(key: &str, config_hash: &str) -> (r: bool)
    ensures
        r == in_scope(key@, config_hash@),
{
    let mut prefix = String::new();
    proof {
        reveal_strlit(":");
    }
    prefix.append(config_hash);
    prefix.append(":");
    assert(prefix@ =~= scan_prefix(config_hash@));
    starts_with_str(key, prefix.as_str())
}

/// Number of entries of the configuration whose state has code `code`.
pub open spec fn count_in_state(entries: Seq<(String, ObjectEntry)>, hash: Seq<char>, code: int) -> nat
    decreases entries.len(),
{
    if entries.len() == 0 {
        0
    } else {
        count_in_state(entries.drop_last(), hash, code) + if in_scope(entries.last().0@, hash)
            && state_code(entries.last().1.state) == code {
            1nat
        } else {
            0nat
        }
    }
}

/// Number of entries of the configuration, whatever their state.
pub open spec fn count_in_scope(entries: Seq<(String, ObjectEntry)>, hash: Seq<char>) -> nat
    decreases entries.len(),
{
    if entries.len() == 0 {
        0
    } else {
        count_in_scope(entries.drop_last(), hash) + if in_scope(entries.last().0@, hash) {
            1nat
        } else {
            0nat
        }
    }
}

/// The per-state counts of a scan split the configuration's entries: each
/// entry of the configuration is counted under exactly one state, so the
/// six counts add up to the number of its entries, and entries of other
/// configurations are counted under none.
pub proof fn law_state_counts_partition(entries: Seq<(String, ObjectEntry)>, hash: Seq<char>)
    ensures
        count_in_state(entries, hash, 0) + count_in_state(entries, hash, 1) + count_in_state(
            entries,
            hash,
            2,
        ) + count_in_state(entries, hash, 3) + count_in_state(entries, hash, 4) + count_in_state(
            entries,
            hash,
            5,
        ) == count_in_scope(entries, hash),
    decreases entries.len(),
{
    if entries.len() > 0 {
        law_state_counts_partition(entries.drop_last(), hash);
    }
}

/// Total size of the entries of the configuration whose state has code `code`.
pub open spec fn bytes_in_state(entries: Seq<(String, ObjectEntry)>, hash: Seq<char>, code: int) -> nat
    decreases entries.len(),
{
    if entries.len() == 0 {
        0
    } else {
        bytes_in_state(entries.drop_last(), hash, code) + if in_scope(entries.last().0@, hash)
            && state_code(entries.last().1.state) == code {
            entries.last().1.size as nat
        } else {
            0nat
        }
    }
}

proof fn lemma_count_le_len(entries: Seq<(String, ObjectEntry)>, hash: Seq<char>, code: int)
    ensures
        count_in_state(entries, hash, code) <= entries.len(),
    decreases entries.len(),
{
    if entries.len() > 0 {
        lemma_count_le_len(entries.drop_last(), hash, code);
    }
}

proof fn lemma_bytes_prefix_le(entries: Seq<(String, ObjectEntry)>, hash: Seq<char>, code: int, i: int)
    requires
        0 <= i <= entries.len(),
    ensures
        bytes_in_state(entries.take(i), hash, code) <= bytes_in_state(entries, hash, code),
    decreases entries.len() - i,
{
    if i < entries.len() {
        lemma_bytes_prefix_le(entries, hash, code, i + 1);
        assert(entries.take(i + 1).drop_last() =~= entries.take(i));
    } else {
        assert(entries.take(i) =~= entries);
    }
}

/// Per-state counts and byte totals of the configuration's entries
/// (`count_and_bytes_by_state` over a scan), indexed by state code.
pub fn tally_by_state(entries: &[(String, ObjectEntry)], config_hash: &str) -> (r: (
    Vec<usize>,
    Vec<u64>,
))
    requires
        forall|c: int| 0 <= c < 6 ==> bytes_in_state(entries@, config_hash@, c) <= u64::MAX,
    ensures
        r.0@.len() == 6,
        r.1@.len() == 6,
        forall|c: int|
            0 <= c < 6 ==> r.0@[c] == count_in_state(entries@, config_hash@, c) && r.1@[c]
                == bytes_in_state(entries@, config_hash@, c),
{
    let mut prefix = String::new();
    proof {
        reveal_strlit(":");
    }
    prefix.append(config_hash);
    prefix.append(":");
    assert(prefix@ =~= scan_prefix(config_hash@));
    let mut counts: Vec<usize> = vec![0, 0, 0, 0, 0, 0];
    let mut bytes: Vec<u64> = vec![0, 0, 0, 0, 0, 0];
    let n = entries.len();
    let mut i: usize = 0;
    assert(entries@.take(0) =~= Seq::<(String, ObjectEntry)>::empty());
    while i < n
        invariant
            n == entries@.len(),
            i <= n,
            prefix@ == scan_prefix(config_hash@),
            counts@.len() == 6,
            bytes@.len() == 6,
            forall|c: int| 0 <= c < 6 ==> bytes_in_state(entries@, config_hash@, c) <= u64::MAX,
            forall|c: int|
                0 <= c < 6 ==> counts@[c] == count_in_state(entries@.take(i as int), config_hash@, c)
                    && bytes@[c] == bytes_in_state(entries@.take(i as int), config_hash@, c),
        decreases n - i,
    {
        let ghost before = entries@.take(i as int);
        let ghost after = entries@.take(i + 1);
        assert(after.drop_last() =~= before);
        assert(after.last() == entries@[i as int]);
        let (key, entry) = (&entries[i].0, &entries[i].1);
        if starts_with_str(key.as_str(), prefix.as_str()) {
            let code = entry.state.to_u8() as usize;
            proof {
                lemma_count_le_len(before, config_hash@, code as int);
                lemma_bytes_prefix_le(entries@, config_hash@, code as int, i + 1);
            }
            let c = counts[code] + 1;
            counts.set(code, c);
            let b = bytes[code] + entry.size;
            bytes.set(code, b);
        }
        i = i + 1;
    }
    assert(entries@.take(n as int) =~= entries@);
    (counts, bytes)
}

/// Add one endpoint's per-state byte totals into the running totals.
pub fn add_state_bytes(totals: &mut Vec<u64>, bytes: &[u64])
    requires
        old(totals)@.len() == bytes@.len(),
        forall|i: int| 0 <= i < bytes@.len() ==> old(totals)@[i] + bytes@[i] <= u64::MAX,
    ensures
        final(totals)@.len() == old(totals)@.len(),
        forall|i: int|
            0 <= i < bytes@.len() ==> #[trigger] final(totals)@[i] == old(totals)@[i] + bytes@[i],
{
    let n = bytes.len();
    let mut i: usize = 0;
    while i < n
        invariant
            n == bytes@.len(),
            totals@.len() == n,
            i <= n,
            forall|j: int| 0 <= j < i ==> #[trigger] totals@[j] == old(totals)@[j] + bytes@[j],
            forall|j: int| i <= j < n ==> #[trigger] totals@[j] == old(totals)@[j],
            forall|j: int| 0 <= j < n ==> old(totals)@[j] + bytes@[j] <= u64::MAX,
        decreases n - i,
    {
        let v = totals[i] + bytes[i];
        totals.set(i, v);
        i = i + 1;
    }
}

/// The entries of the configuration in `state`, with their file indices, in
/// scan order; keys whose index does not parse are passed over.
pub open spec fn selected(entries: Seq<(String, ObjectEntry)>, hash: Seq<char>, state: ObjectState) -> Seq<
    (usize, ObjectEntry),
>
    decreases entries.len(),
{
    if entries.len() == 0 {
        Seq::empty()
    } else {
        let prev = selected(entries.drop_last(), hash, state);
        let last = entries.last();
        if last.1.state == state {
            match key_file_index(last.0@, hash) {
                Some(i) => prev.push((i, last.1)),
                None => prev,
            }
        } else {
            prev
        }
    }
}

/// `get_objects_by_state` over a scan: the configuration's entries in
/// `state`, with the file index their key names.
pub fn select_by_state(entries: Vec<(String, ObjectEntry)>, config_hash: &str, state: ObjectState) -> (r:
    Vec<(usize, ObjectEntry)>)
    ensures
        r@ == selected(entries@, config_hash@, state),
{
    let ghost all = entries@;
    let mut out: Vec<(usize, ObjectEntry)> = Vec::new();
    let ghost mut it_index: int = 0;
    assert(all.take(0) =~= Seq::<(String, ObjectEntry)>::empty());
    for item in it: entries.into_iter()
        invariant
            it.seq() == all,
            it_index == it.index(),
            it.index() <= all.len(),
            out@ == selected(all.take(it.index() as int), config_hash@, state),
    {
        let ghost before = all.take(it_index);
        let ghost after = all.take(it_index + 1);
        assert(after.drop_last() =~= before);
        let (key, entry) = item;
        if entry.state == state {
            match file_index_from_key(key.as_str(), config_hash) {
                Some(i) => out.push((i, entry)),
                None => {},
            }
        }
        proof {
            it_index = it_index + 1;
        }
    }
    assert(all.take(all.len() as int) =~= all);
    out
}


// ----------------------------------------------------------------------------
// Cache and checkpoint locations
// ----------------------------------------------------------------------------

/// Sixteen lowercase hexadecimal digits of a 64-bit value (`{:016x}`).
pub open spec fn hex16(n: nat) -> Seq<char> {
    zero_pad(hex(n), 16)
}

/// Directory name of an endpoint's local cache: `sai3-cache-agent-{id}-{hash}`
/// for an agent, `sai3-cache-{hash}` otherwise, where `hash` is the SeaHash
/// of the endpoint URI in sixteen hexadecimal digits.
pub open spec fn cache_dir_name_spec(uri: Seq<char>, agent_id: Option<usize>) -> Seq<char> {
    let h = hex16(seahash_of(encode_utf8(uri)) as nat);
    match agent_id {
        Some(id) => "sai3-cache-agent-"@ + dec(id as nat) + "-"@ + h,
        None => "sai3-cache-"@ + h,
    }
}

/// The local cache directory name for an endpoint (see `cache_dir_name_spec`).
pub fn cache_dir_name(endpoint_uri: &str, agent_id: Option<usize>) -> (r: String)
    ensures
        r@ == cache_dir_name_spec(endpoint_uri@, agent_id),
{
    let bytes = endpoint_uri.as_bytes();
    assert(bytes@ == encode_utf8(endpoint_uri@));
    let h = seahash_hash(bytes);
    let digits = pad_zeros(u64_to_hex(h), 16);
    let mut r = String::new();
    match agent_id {
        Some(id) => {
            r.append("sai3-cache-agent-");
            let d = u64_to_dec(id as u64);
            r.append(d.as_str());
            r.append("-");
        },
        None => {
            r.append("sai3-cache-");
        },
    }
    r.append(digits.as_str());
    r
}

/// File name of a checkpoint archive: `.sai3-cache-agent-{id}.tar.zst` for
/// an agent (hidden), `sai3-kv-cache.tar.zst` otherwise.
pub open spec fn checkpoint_name_spec(agent_id: Option<usize>) -> Seq<char> {
    match agent_id {
        Some(id) => ".sai3-cache-agent-"@ + dec(id as nat) + ".tar.zst"@,
        None => "sai3-kv-cache.tar.zst"@,
    }
}

/// The checkpoint archive's file name (see `checkpoint_name_spec`).
pub fn checkpoint_name(agent_id: Option<usize>) -> (r: String)
    ensures
        r@ == checkpoint_name_spec(agent_id),
{
    let mut r = String::new();
    match agent_id {
        Some(id) => {
            r.append(".sai3-cache-agent-");
            let d = u64_to_dec(id as u64);
            r.append(d.as_str());
            r.append(".tar.zst");
        },
        None => {
            r.append("sai3-kv-cache.tar.zst");
        },
    }
    r
}

/// Where a checkpoint is looked for when restoring: the endpoint URI and the
/// archive name, with one `/` between them.
pub open spec fn checkpoint_uri_spec(endpoint: Seq<char>, name: Seq<char>) -> Seq<char> {
    if ends_with(endpoint, "/"@) {
        endpoint + name
    } else {
        endpoint + "/"@ + name
    }
}

/// The URI a checkpoint is restored from (see `checkpoint_uri_spec`).
pub fn checkpoint_uri(endpoint_uri: &str, name: &str) -> (r: String)
    ensures
        r@ == checkpoint_uri_spec(endpoint_uri@, name@),
{
    let mut r = String::new();
    r.append(endpoint_uri);
    if !ends_with_str(endpoint_uri, "/") {
        r.append("/");
    }
    r.append(name);
    r
}

/// Where a checkpoint archive is written.
#[derive(Debug, Clone)]
pub enum CheckpointTarget {
    /// A file on a local or direct-I/O filesystem, by path.
    LocalFile(String),
    /// An object in cloud storage, by URI.
    ObjectStore(String),
}

/// Why no checkpoint target exists for an endpoint.
#[derive(Debug, Clone, PartialEq, Eq, Structural)]
pub enum CheckpointTargetError {
    /// A `file://` endpoint that does not parse as a URL.
    UnparsableFileUri,
    /// A `file://` URL that names no local path.
    InvalidFilePath,
    /// An endpoint of another scheme.
    UnsupportedScheme,
}

impl CheckpointTargetError {
    /// The error text for an endpoint URI.
    pub fn message(&self, endpoint_uri: &str) -> (r: String)
        ensures
            r@ == match *self {
                CheckpointTargetError::UnparsableFileUri => "Failed to parse file:// URI"@,
                CheckpointTargetError::InvalidFilePath => "Invalid file:// path"@,
                CheckpointTargetError::UnsupportedScheme => "Unsupported URI scheme for checkpointing: "@
                    + endpoint_uri@,
            },
    {
        let mut r = String::new();
        match self {
            CheckpointTargetError::UnparsableFileUri => r.append("Failed to parse file:// URI"),
            CheckpointTargetError::InvalidFilePath => r.append("Invalid file:// path"),
            CheckpointTargetError::UnsupportedScheme => {
                r.append("Unsupported URI scheme for checkpointing: ");
                r.append(endpoint_uri);
            },
        }
        r
    }
}

/// What `url::Url::parse` followed by `Url::to_file_path` gives for a URI,
/// as text (`None` when either step fails or the path is not UTF-8).
pub uninterp spec fn url_file_path(uri: Seq<char>) -> Option<Seq<char>>;

/// `url::Url::parse(uri)` then `Url::to_file_path`, the path as a string.
/// The contract names the result as a function of the URI alone; nothing
/// is claimed about which URIs have a file path or what it is.
#[verifier::external_body]
fn url_to_file_path(uri: &str) -> (r: Option<String>)
    ensures
        match r {
            Some(p) => url_file_path(uri@) == Some(p@),
            None => url_file_path(uri@) is None,
        },
{
    match url::Url::parse(uri) {
        Ok(u) => match u.to_file_path() {
            Ok(p) => p.to_str().map(str::to_string),
            Err(_) => None,
        },
        Err(_) => None,
    }
}

/// The target of a checkpoint archive named `name` for an endpoint:
/// `file://` endpoints write to the URL's file path joined with the name,
/// `direct://` endpoints to the text after the scheme joined with the name,
/// `s3://`, `az://` and `gs://` endpoints upload to the endpoint URI with the
/// name appended; other schemes have no target.
pub open spec fn checkpoint_target_spec(endpoint: Seq<char>, name: Seq<char>) -> Result<
    (bool, Seq<char>),
    CheckpointTargetError,
> {
    if starts_with(endpoint, "file://"@) {
        if url_parse_result(endpoint) is None {
            Err(CheckpointTargetError::UnparsableFileUri)
        } else {
            match url_file_path(endpoint) {
                Some(base) => Ok((true, path_join_spec(base, name))),
                None => Err(CheckpointTargetError::InvalidFilePath),
            }
        }
    } else if starts_with(endpoint, "direct://"@) {
        Ok((true, path_join_spec(endpoint.skip(9), name)))
    } else if starts_with(endpoint, "s3://"@) || starts_with(endpoint, "az://"@) || starts_with(
        endpoint,
        "gs://"@,
    ) {
        Ok((false, endpoint + name))
    } else {
        Err(CheckpointTargetError::UnsupportedScheme)
    }
}

/// Distinct agents write distinct checkpoint archives, and none of them is
/// the archive of a run without agents.
pub proof fn law_checkpoint_names_distinct(a: Option<usize>, b: Option<usize>)
    requires
        a != b,
    ensures
        checkpoint_name_spec(a) != checkpoint_name_spec(b),
{
    reveal_strlit(".sai3-cache-agent-");
    reveal_strlit(".tar.zst");
    reveal_strlit("sai3-kv-cache.tar.zst");
    let pre = ".sai3-cache-agent-"@;
    let suf = ".tar.zst"@;
    match (a, b) {
        (Some(x), Some(y)) => {
            let na = pre + dec(x as nat) + suf;
            let nb = pre + dec(y as nat) + suf;
            if na == nb {
                assert(na.len() == nb.len());
                assert(dec(x as nat) =~= na.subrange(pre.len() as int, na.len() - suf.len()));
                assert(dec(y as nat) =~= nb.subrange(pre.len() as int, nb.len() - suf.len()));
                lemma_dec_digits(x as nat);
                lemma_dec_digits(y as nat);
            }
        },
        (Some(x), None) => {
            assert(checkpoint_name_spec(a)[0] == '.');
            assert(checkpoint_name_spec(b)[0] == 's');
        },
        (None, Some(y)) => {
            assert(checkpoint_name_spec(b)[0] == '.');
            assert(checkpoint_name_spec(a)[0] == 's');
        },
        (None, None) => {},
    }
}

/// Where a checkpoint goes, by the endpoint's scheme: `s3://`, `az://` and
/// `gs://` endpoints upload to the endpoint URI followed by the name;
/// `direct://` endpoints write the name under the text after the scheme;
/// `file://` endpoints write it under the URL's file path; any other scheme
/// has no target.
pub proof fn law_checkpoint_target_by_scheme(endpoint: Seq<char>, name: Seq<char>)
    ensures
        starts_with(endpoint, "s3://"@) || starts_with(endpoint, "az://"@) || starts_with(
            endpoint,
            "gs://"@,
        ) ==> checkpoint_target_spec(endpoint, name) == Ok::<(bool, Seq<char>), CheckpointTargetError>(
            (false, endpoint + name),
        ),
        starts_with(endpoint, "direct://"@) ==> checkpoint_target_spec(endpoint, name) == Ok::<
            (bool, Seq<char>),
            CheckpointTargetError,
        >((true, path_join_spec(endpoint.skip(9), name))),
        starts_with(endpoint, "file://"@) && url_parse_result(endpoint) is Some ==> (match url_file_path(
            endpoint,
        ) {
            Some(base) => checkpoint_target_spec(endpoint, name) == Ok::<
                (bool, Seq<char>),
                CheckpointTargetError,
            >((true, path_join_spec(base, name))),
            None => checkpoint_target_spec(endpoint, name) == Err::<(bool, Seq<char>), CheckpointTargetError>(
                CheckpointTargetError::InvalidFilePath,
            ),
        }),
        !starts_with(endpoint, "s3://"@) && !starts_with(endpoint, "az://"@) && !starts_with(
            endpoint,
            "gs://"@,
        ) && !starts_with(endpoint, "direct://"@) && !starts_with(endpoint, "file://"@)
            ==> checkpoint_target_spec(endpoint, name) == Err::<(bool, Seq<char>), CheckpointTargetError>(
            CheckpointTargetError::UnsupportedScheme,
        ),
{
    reveal_strlit("s3://");
    reveal_strlit("az://");
    reveal_strlit("gs://");
    reveal_strlit("direct://");
    reveal_strlit("file://");
    if starts_with(endpoint, "s3://"@) || starts_with(endpoint, "az://"@) || starts_with(endpoint, "gs://"@) {
        assert(endpoint[0] == 's' || endpoint[0] == 'a' || endpoint[0] == 'g') by {
            if starts_with(endpoint, "s3://"@) {
                assert(endpoint.subrange(0, 5)[0] == endpoint[0]);
            } else if starts_with(endpoint, "az://"@) {
                assert(endpoint.subrange(0, 5)[0] == endpoint[0]);
            } else {
                assert(endpoint.subrange(0, 5)[0] == endpoint[0]);
            }
        }
        if starts_with(endpoint, "file://"@) {
            assert(endpoint.subrange(0, 7)[0] == endpoint[0]);
        }
        if starts_with(endpoint, "direct://"@) {
            assert(endpoint.subrange(0, 9)[0] == endpoint[0]);
        }
    }
    if starts_with(endpoint, "direct://"@) {
        assert(endpoint.subrange(0, 9)[0] == endpoint[0]);
        if starts_with(endpoint, "file://"@) {
            assert(endpoint.subrange(0, 7)[0] == endpoint[0]);
        }
    }
}

/// The view of a target: whether it is a local file, and its path or URI.
pub open spec fn target_view(t: CheckpointTarget) -> (bool, Seq<char>) {
    match t {
        CheckpointTarget::LocalFile(p) => (true, p@),
        CheckpointTarget::ObjectStore(u) => (false, u@),
    }
}

/// Decide where the checkpoint archive `name` of an endpoint is written
/// (see `checkpoint_target_spec`).  Targets are held as text, so a `file://`
/// path that is not valid UTF-8 has no target here and is reported as
/// `InvalidFilePath`.
pub fn checkpoint_target(endpoint_uri: &str, name: &str) -> (r: Result<
    CheckpointTarget,
    CheckpointTargetError,
>)
    ensures
        match r {
            Ok(t) => checkpoint_target_spec(endpoint_uri@, name@) == Ok::<
                (bool, Seq<char>),
                CheckpointTargetError,
            >(target_view(t)),
            Err(e) => checkpoint_target_spec(endpoint_uri@, name@) == Err::<
                (bool, Seq<char>),
                CheckpointTargetError,
            >(e),
        },
{
    proof {
        reveal_strlit("file://");
        reveal_strlit("direct://");
        reveal_strlit("s3://");
        reveal_strlit("az://");
        reveal_strlit("gs://");
    }
    if starts_with_str(endpoint_uri, "file://") {
        if parse_url(endpoint_uri).is_none() {
            return Err(CheckpointTargetError::UnparsableFileUri);
        }
        match url_to_file_path(endpoint_uri) {
            Some(base) => Ok(CheckpointTarget::LocalFile(path_join(base.as_str(), name))),
            None => Err(CheckpointTargetError::InvalidFilePath),
        }
    } else if starts_with_str(endpoint_uri, "direct://") {
        let n = endpoint_uri.unicode_len();
        let base = endpoint_uri.substring_char(9, n);
        assert(base@ =~= endpoint_uri@.skip(9));
        Ok(CheckpointTarget::LocalFile(path_join(base, name)))
    } else if starts_with_str(endpoint_uri, "s3://") || starts_with_str(endpoint_uri, "az://")
        || starts_with_str(endpoint_uri, "gs://") {
        let mut u = String::new();
        u.append(endpoint_uri);
        u.append(name);
        Ok(CheckpointTarget::ObjectStore(u))
    } else {
        Err(CheckpointTargetError::UnsupportedScheme)
    }
}

/// Attempts at writing a checkpoint before giving up.
pub const CHECKPOINT_MAX_ATTEMPTS: u32 = 5;

/// Delay before the second attempt; each later delay doubles it.
pub const CHECKPOINT_BASE_DELAY_MS: u64 = 1000;

/// After failed attempt `attempt` (counting from 1): the delay in
/// milliseconds before the next one, `1000 * 2^(attempt - 1)`, or `None`
/// once the last attempt has failed.
pub fn checkpoint_retry_delay_ms(attempt: u32) -> (r: Option<u64>)
    requires
        1 <= attempt <= CHECKPOINT_MAX_ATTEMPTS,
    ensures
        attempt < CHECKPOINT_MAX_ATTEMPTS ==> r == Some((CHECKPOINT_BASE_DELAY_MS * two_pow(
            (attempt - 1) as nat,
        )) as u64),
        attempt == CHECKPOINT_MAX_ATTEMPTS ==> r is None,
{
    if attempt >= CHECKPOINT_MAX_ATTEMPTS {
        return None;
    }
    let mut d: u64 = CHECKPOINT_BASE_DELAY_MS;
    let mut i: u32 = 1;
    while i < attempt
        invariant
            1 <= i <= attempt,
            attempt < CHECKPOINT_MAX_ATTEMPTS,
            d == CHECKPOINT_BASE_DELAY_MS * two_pow((i - 1) as nat),
            d <= 8000,
        decreases attempt - i,
    {
        assert(two_pow(i as nat) == 2 * two_pow((i - 1) as nat));
        assert(two_pow((i - 1) as nat) <= 4) by {
            reveal_with_fuel(two_pow, 3);
            if i == 1 {
            } else if i == 2 {
            } else {
                assert(i == 3);
            }
        }
        d = d * 2;
        i = i + 1;
    }
    Some(d)
}

/// Each retry waits twice as long as the one before it.
pub proof fn law_retry_backoff_doubles(attempt: nat)
    requires
        1 <= attempt,
    ensures
        CHECKPOINT_BASE_DELAY_MS * two_pow(attempt) == 2 * (CHECKPOINT_BASE_DELAY_MS * two_pow(
            (attempt - 1) as nat,
        )),
{
    assert(two_pow(attempt) == 2 * two_pow((attempt - 1) as nat));
}

/// Seconds allowed for writing an archive of `archive_size` bytes to a
/// filesystem: ten megabytes a second plus four seconds, at least ten.
pub fn checkpoint_write_timeout_secs(archive_size: u64) -> (r: u64)
    ensures
        r == if archive_size / 10_000_000 + 4 > 10 { archive_size / 10_000_000 + 4 } else { 10 },
{
    let t = archive_size / 10_000_000 + 4;
    if t > 10 {
        t
    } else {
        10
    }
}

/// Selecting the entries in a state never yields more than the tally
/// counts for that state: every selected entry is one of the configuration's
/// entries in that state.
pub proof fn law_selection_within_tally(
    entries: Seq<(String, ObjectEntry)>,
    hash: Seq<char>,
    state: ObjectState,
)
    ensures
        selected(entries, hash, state).len() <= count_in_state(entries, hash, state_code(state) as int),
    decreases entries.len(),
{
    if entries.len() > 0 {
        law_selection_within_tally(entries.drop_last(), hash, state);
    }
}

} // verus!
