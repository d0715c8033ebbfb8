//! Per-worker operation-log file naming, the line format of merged logs,
//! and the ordering decisions of merging, checking and sorting operation
//! logs by start time.

use std::path::Path;
use vstd::prelude::*;
use vstd::string::*;
use crate::fs_metadata::{path_join, path_join_spec};
use crate::text::{dec, u64_to_dec};

verus! {

broadcast use vstd::string::group_string_axioms;

/// What `Path::file_stem` gives for a path (as text).
pub uninterp spec fn path_file_stem(p: Seq<char>) -> Option<Seq<char>>;

/// What `Path::extension` gives for a path (as text).
pub uninterp spec fn path_extension(p: Seq<char>) -> Option<Seq<char>>;

/// What `Path::parent` gives for a path (as text).
pub uninterp spec fn path_parent(p: Seq<char>) -> Option<Seq<char>>;

/// `Path::file_stem` of a UTF-8 path, as text; a function of the path alone.
#[verifier::external_body]
fn file_stem_of(p: &str) -> (r: Option<String>)
    ensures
        match r {
            Some(s) => path_file_stem(p@) == Some(s@),
            None => path_file_stem(p@) is None,
        },
{
    Path::new(p).file_stem().and_then(|s| s.to_str()).map(|s| s.to_string())
}

/// `Path::extension` of a UTF-8 path, as text; a function of the path alone.
#[verifier::external_body]
fn extension_of(p: &str) -> (r: Option<String>)
    ensures
        match r {
            Some(s) => path_extension(p@) == Some(s@),
            None => path_extension(p@) is None,
        },
{
    Path::new(p).extension().and_then(|s| s.to_str()).map(|s| s.to_string())
}

/// `Path::parent` of a UTF-8 path, as text; a function of the path alone.
#[verifier::external_body]
fn parent_of(p: &str) -> (r: Option<String>)
    ensures
        match r {
            Some(s) => path_parent(p@) == Some(s@),
            None => path_parent(p@) is None,
        },
{
    Path::new(p).parent().and_then(|s| s.to_str()).map(|s| s.to_string())
}

/// The worker log path of a base path and its parts, given what the path
/// functions return for it: `{parent}/{stem}-worker-{id}.{ext}`, with stem
/// `oplog`, extension `tsv` and parent `.` when the base path has none.
pub open spec fn worker_path_spec(
    stem: Option<Seq<char>>,
    ext: Option<Seq<char>>,
    parent: Option<Seq<char>>,
    worker_id: nat,
) -> Seq<char> {
    let s = match stem {
        Some(x) => x,
        None => "oplog"@,
    };
    let e = match ext {
        Some(x) => x,
        None => "tsv"@,
    };
    let d = match parent {
        Some(x) => x,
        None => "."@,
    };
    path_join_spec(d, s + "-worker-"@ + dec(worker_id) + "."@ + e)
}

/// Build the worker log path from the parts of the base path (see
/// `worker_path_spec`).
pub fn worker_path_from_parts(
    stem: Option<String>,
    ext: Option<String>,
    parent: Option<String>,
    worker_id: usize,
) -> (r: String)
    ensures
        r@ == worker_path_spec(
            match stem {
                Some(x) => Some(x@),
                None => None,
            },
            match ext {
                Some(x) => Some(x@),
                None => None,
            },
            match parent {
                Some(x) => Some(x@),
                None => None,
            },
            worker_id as nat,
        ),
{
    let mut name = String::new();
    match &stem {
        Some(x) => name.append(x.as_str()),
        None => name.append("oplog"),
    }
    name.append("-worker-");
    let id = u64_to_dec(worker_id as u64);
    name.append(id.as_str());
    name.append(".");
    match &ext {
        Some(x) => name.append(x.as_str()),
        None => name.append("tsv"),
    }
    match &parent {
        Some(d) => path_join(d.as_str(), name.as_str()),
        None => path_join(".", name.as_str()),
    }
}

/// Worker-specific op-log path: `/tmp/test.tsv` gives
/// `/tmp/test-worker-0.tsv` for worker 0, and so on.
pub fn worker_oplog_path(base_path: &str, worker_id: usize) -> (r: String)
    ensures
        r@ == worker_path_spec(
            path_file_stem(base_path@),
            path_extension(base_path@),
            path_parent(base_path@),
            worker_id as nat,
        ),
{
    let stem = file_stem_of(base_path);
    let ext = extension_of(base_path);
    let parent = parent_of(base_path);
    worker_path_from_parts(stem, ext, parent, worker_id)
}

// ----------------------------------------------------------------------------
// Ordering of log entries by start time
// ----------------------------------------------------------------------------

/// Whether start time `a` is no later than `b`.  A start time is
/// `(seconds since the epoch, nanoseconds within the second)`, ordered
/// lexicographically as timestamps are.
pub open spec fn start_le(a: (i64, u32), b: (i64, u32)) -> bool {
    a.0 < b.0 || (a.0 == b.0 && a.1 <= b.1)
}

/// Whether start time `a` is strictly earlier than `b`.
pub fn start_before(a: (i64, u32), b: (i64, u32)) -> (r: bool)
    ensures
        r == !start_le(b, a),
{
    a.0 < b.0 || (a.0 == b.0 && a.1 < b.1)
}

/// Entries in order of start time.
pub open spec fn sorted_by_start<T>(s: Seq<((i64, u32), T)>) -> bool {
    forall|i: int, j: int| 0 <= i < j < s.len() ==> start_le(#[trigger] s[i].0, #[trigger] s[j].0)
}

/// Entries pending in a k-way merge of worker logs: each holds its start
/// time, the worker it came from, and the entry.
pub struct MergeQueue<T> {
    entries: Vec<((i64, u32), usize, T)>,
}

impl<T> MergeQueue<T> {
    /// The pending entries (in no particular order).
    pub closed spec fn view_entries(&self) -> Seq<((i64, u32), usize, T)> {
        self.entries@
    }

    /// An empty queue.
    pub fn new() -> (r: Self)
        ensures
            r.view_entries() == Seq::<((i64, u32), usize, T)>::empty(),
    {
        MergeQueue { entries: Vec::new() }
    }

    /// Number of pending entries.
    pub fn len(&self) -> (r: usize)
        ensures
            r == self.view_entries().len(),
    {
        self.entries.len()
    }

    /// Add the next entry of a worker.
    pub fn push(&mut self, start: (i64, u32), worker: usize, item: T)
        ensures
            final(self).view_entries() == old(self).view_entries().push((start, worker, item)),
    {
        self.entries.push((start, worker, item));
    }

    /// Take out an entry with the earliest start time; `None` when empty.
    /// (Which of several entries with the same start time leaves is not fixed.)
    pub fn pop_earliest(&mut self) -> (r: Option<((i64, u32), usize, T)>)
        ensures
            old(self).view_entries().len() == 0 <==> r is None,
            r is None ==> final(self).view_entries() == old(self).view_entries(),
            r matches Some(e) ==> exists|i: int|
                0 <= i < old(self).view_entries().len() && old(self).view_entries()[i] == e
                    && final(self).view_entries() == old(self).view_entries().remove(i),
            r matches Some(e) ==> forall|j: int|
                0 <= j < old(self).view_entries().len() ==> start_le(
                    e.0,
                    #[trigger] old(self).view_entries()[j].0,
                ),
    {
        let n = self.entries.len();
        if n == 0 {
            return None;
        }
        let mut best: usize = 0;
        let mut i: usize = 1;
        while i < n
            invariant
                n == self.entries@.len(),
                1 <= i <= n,
                best < i,
                forall|j: int| 0 <= j < i ==> start_le(self.entries@[best as int].0, #[trigger] self.entries@[j].0),
            decreases n - i,
        {
            if start_before(self.entries[i].0, self.entries[best].0) {
                best = i;
            }
            i = i + 1;
        }
        let ghost before = self.entries@;
        let e = self.entries.remove(best);
        proof {
            assert(before[best as int] == e);
        }
        Some(e)
    }
}

/// Verdict of checking a log's order over its first lines: whether the
/// lines checked are in order, how many lines were checked, and the first
/// line (1-based) that starts earlier than the line before it.
pub open spec fn order_verdict_spec(starts: Seq<(i64, u32)>, max_lines: nat) -> (bool, nat, Option<nat>) {
    let limit = if max_lines == 0 { 1 } else { max_lines };
    let n = if starts.len() < limit { starts.len() } else { limit };
    match first_descent(starts, n) {
        Some(k) => (false, k + 1, Some(k + 1)),
        None => (true, n, None),
    }
}

/// The first index `k` below `n` whose start is earlier than the one before it.
pub open spec fn first_descent(starts: Seq<(i64, u32)>, n: nat) -> Option<nat>
    decreases n,
{
    if n <= 1 {
        None
    } else {
        match first_descent(starts, (n - 1) as nat) {
            Some(k) => Some(k),
            None => if !start_le(starts[n - 2], starts[n - 1]) {
                Some((n - 1) as nat)
            } else {
                None
            },
        }
    }
}

/// What one step of the order check gives.
#[derive(Debug, Clone, Copy, PartialEq, Eq, Structural)]
pub enum OrderStep {
    /// Keep reading.
    Continue,
    /// Stop: the verdict is final.
    Done(bool, usize, Option<usize>),
}

/// Streaming check of a log's order by start time: feed the start times of
/// its entries one by one; it stops at the first entry earlier than the one
/// before it, or after `max_lines` entries (at least one).
pub struct OrderCheck {
    prev: Option<(i64, u32)>,
    lines: usize,
    max: usize,
    seen: Ghost<Seq<(i64, u32)>>,
}

impl OrderCheck {
    /// The start times fed so far.
    pub closed spec fn seen(&self) -> Seq<(i64, u32)> {
        self.seen@
    }

    /// The line limit (no limit is `usize::MAX`).
    pub closed spec fn max_spec(&self) -> nat {
        self.max as nat
    }

    /// The check has not stopped: the lines fed are in order and below the limit.
    pub closed spec fn running(&self) -> bool {
        &&& self.lines == self.seen@.len()
        &&& first_descent(self.seen@, self.seen@.len()) is None
        &&& (self.seen@.len() == 0 || self.seen@.len() < if self.max == 0 { 1 } else { self.max as nat })
        &&& match self.prev {
            Some(p) => self.seen@.len() > 0 && p == self.seen@.last(),
            None => self.seen@.len() == 0,
        }
    }

    /// A check of at most `max_lines` lines (`None`: all lines).
    pub fn new(max_lines: Option<usize>) -> (r: Self)
        ensures
            r.running(),
            r.seen() == Seq::<(i64, u32)>::empty(),
            r.max_spec() == match max_lines {
                Some(m) => m as nat,
                None => usize::MAX as nat,
            },
    {
        let max = match max_lines {
            Some(m) => m,
            None => usize::MAX,
        };
        OrderCheck { prev: None, lines: 0, max, seen: Ghost(Seq::empty()) }
    }

    /// Feed the start time of the next entry.
    pub fn observe(&mut self, start: (i64, u32)) -> (r: OrderStep)
        requires
            old(self).running(),
        ensures
            final(self).seen() == old(self).seen().push(start),
            final(self).max_spec() == old(self).max_spec(),
            r is Continue ==> final(self).running(),
            r matches OrderStep::Done(a, b, c) ==> (a, b as nat, match c {
                Some(x) => Some(x as nat),
                None => None,
            }) == order_verdict_spec(final(self).seen(), final(self).max_spec()),
            r is Continue ==> final(self).seen().len() < order_limit(final(self).max_spec()),
            final(self).seen().len() <= order_limit(final(self).max_spec()),
            first_descent(final(self).seen(), (final(self).seen().len() - 1) as nat) is None,
            r is Done ==> first_descent(final(self).seen(), final(self).seen().len()) is Some
                || final(self).seen().len() >= order_limit(final(self).max_spec()),
    {
        let ghost old_seen = self.seen@;
        proof {
            if self.seen@.len() > 0 {
                assert(self.seen@.len() < usize::MAX);
            }
        }
        self.lines = self.lines + 1;
        self.seen = Ghost(old_seen.push(start));
        let ghost s = self.seen@;
        proof {
            assert(s.subrange(0, s.len() - 1) =~= old_seen);
            lemma_first_descent_prefix(s, old_seen.len());
        }
        match self.prev {
            Some(p) => {
                if start_before(start, p) {
                    proof {
                        assert(first_descent(s, s.len()) == Some((s.len() - 1) as nat));
                    }
                    return OrderStep::Done(false, self.lines, Some(self.lines));
                }
            },
            None => {},
        }
        self.prev = Some(start);
        proof {
            assert(first_descent(s, s.len()) is None);
        }
        if self.lines >= self.max {
            return OrderStep::Done(true, self.lines, None);
        }
        OrderStep::Continue
    }

    /// The verdict when the log ends before the check stops.
    pub fn finish(&self) -> (r: (bool, usize, Option<usize>))
        requires
            self.running(),
        ensures
            r.0 && r.2 is None && r.1 == self.seen().len(),
            self.seen().len() < order_limit(self.max_spec()) ==> (r.0, r.1 as nat, None::<nat>)
                == order_verdict_spec(self.seen(), self.max_spec()),
    {
        (true, self.lines, None)
    }
}

/// At most this many lines are checked (at least one).
pub open spec fn order_limit(max_lines: nat) -> nat {
    if max_lines == 0 { 1 } else { max_lines }
}

proof fn lemma_first_descent_prefix(s: Seq<(i64, u32)>, m: nat)
    requires
        m <= s.len(),
    ensures
        first_descent(s.subrange(0, m as int), m) == first_descent(s, m),
    decreases m,
{
    if m > 1 {
        lemma_first_descent_prefix(s, (m - 1) as nat);
        lemma_first_descent_sub(s, m, (m - 1) as nat);
    }
}

proof fn lemma_first_descent_sub(s: Seq<(i64, u32)>, m: nat, k: nat)
    requires
        k <= m <= s.len(),
    ensures
        first_descent(s.subrange(0, m as int), k) == first_descent(s, k),
    decreases k,
{
    if k > 1 {
        lemma_first_descent_sub(s, m, (k - 1) as nat);
    }
}

/// Check the order of a whole sequence of start times with the streaming
/// check: the verdict is `order_verdict_spec`.
pub fn check_order(starts: &[(i64, u32)], max_lines: Option<usize>) -> (r: (bool, usize, Option<usize>))
    ensures
        (r.0, r.1 as nat, match r.2 {
            Some(x) => Some(x as nat),
            None => None,
        }) == order_verdict_spec(
            starts@,
            match max_lines {
                Some(m) => m as nat,
                None => usize::MAX as nat,
            },
        ),
{
    let mut check = OrderCheck::new(max_lines);
    let ghost max = check.max_spec();
    let mut i: usize = 0;
    while i < starts.len()
        invariant
            i <= starts@.len(),
            check.running(),
            check.max_spec() == max,
            max == match max_lines {
                Some(m) => m as nat,
                None => usize::MAX as nat,
            },
            check.seen() == starts@.subrange(0, i as int),
            i < order_limit(max) || i == 0,
        decreases starts@.len() - i,
    {
        let ghost before = check.seen();
        match check.observe(starts[i]) {
            OrderStep::Continue => {
                proof {
                    assert(starts@.subrange(0, i + 1) =~= before.push(starts@[i as int]));
                }
            },
            OrderStep::Done(a, b, c) => {
                proof {
                    let s = starts@.subrange(0, i + 1);
                    assert(s =~= before.push(starts@[i as int]));
                    lemma_verdict_extends(starts@, (i + 1) as nat, max);
                    assert(check.seen() == s);
                }
                return (a, b, c);
            },
        }
        i = i + 1;
    }
    proof {
        assert(starts@.subrange(0, starts@.len() as int) =~= starts@);
    }
    check.finish()
}

/// A verdict reached on a prefix that stopped the check is the verdict of
/// the whole sequence.
proof fn lemma_verdict_extends(s: Seq<(i64, u32)>, m: nat, max: nat)
    requires
        1 <= m <= s.len(),
        first_descent(s.subrange(0, m as int), m) is Some || m >= order_limit(max),
        first_descent(s.subrange(0, m as int), (m - 1) as nat) is None,
        m <= order_limit(max),
    ensures
        order_verdict_spec(s.subrange(0, m as int), max) == order_verdict_spec(s, max),
{
    let p = s.subrange(0, m as int);
    lemma_first_descent_sub(s, m, m);
    lemma_first_descent_sub(s, m, (m - 1) as nat);
    let limit = order_limit(max);
    let ns = if s.len() < limit { s.len() } else { limit };
    if first_descent(p, m) is None {
        assert(m == limit);
        assert(ns == m);
    } else {
        lemma_first_descent_monotone(s, m, ns);
    }
}

/// Once a descent is found below `m`, it stays the first one below any larger bound.
proof fn lemma_first_descent_monotone(s: Seq<(i64, u32)>, m: nat, n: nat)
    requires
        m <= n,
        first_descent(s, m) is Some,
    ensures
        first_descent(s, n) == first_descent(s, m),
    decreases n,
{
    if n > m {
        lemma_first_descent_monotone(s, m, (n - 1) as nat);
    }
}

proof fn lemma_first_descent_meaning(s: Seq<(i64, u32)>, n: nat)
    requires
        n <= s.len(),
    ensures
        match first_descent(s, n) {
            Some(k) => 1 <= k < n && !start_le(s[k - 1], s[k as int]) && forall|j: int|
                0 < j < k ==> start_le(s[j - 1], #[trigger] s[j]),
            None => forall|j: int| 0 < j < n ==> start_le(s[j - 1], #[trigger] s[j]),
        },
    decreases n,
{
    if n > 1 {
        lemma_first_descent_meaning(s, (n - 1) as nat);
    }
}

/// What the order check reports: `(true, n, None)` when the first `n`
/// start times (all of them, or `max_lines` of them, at least one) are in
/// order; otherwise `(false, k, Some(k))` for the first line `k` (counting
/// from one) that starts earlier than the line before it, every line before
/// it being in order.
pub proof fn law_order_verdict_meaning(s: Seq<(i64, u32)>, max_lines: nat)
    ensures
        ({
            let limit = if max_lines == 0 { 1 } else { max_lines };
            let n = if s.len() < limit { s.len() } else { limit };
            let v = order_verdict_spec(s, max_lines);
            &&& v.0 ==> v.1 == n && v.2 is None && forall|j: int|
                0 < j < n ==> start_le(s[j - 1], #[trigger] s[j])
            &&& !v.0 ==> v.2 == Some(v.1) && 2 <= v.1 <= n && !start_le(s[v.1 - 2], s[v.1 - 1])
                && forall|j: int| 0 < j < v.1 - 1 ==> start_le(s[j - 1], #[trigger] s[j])
        }),
{
    let limit = if max_lines == 0 { 1 } else { max_lines };
    let n = if s.len() < limit { s.len() } else { limit };
    lemma_first_descent_meaning(s, n);
}

/// Window sort of a log by start time: entries are kept in order of start
/// time in a window of bounded size; once the window is over its size, the
/// earliest entries leave it.  The output is in order whenever no entry
/// arrives more than the window size behind its place.
pub struct SortWindow<T> {
    window: Vec<((i64, u32), T)>,
    size: usize,
}

impl<T> SortWindow<T> {
    /// The entries in the window, in order of start time.
    pub closed spec fn view_window(&self) -> Seq<((i64, u32), T)> {
        self.window@
    }

    /// The window size.
    pub closed spec fn size_spec(&self) -> nat {
        self.size as nat
    }

    /// The window is in order and not over its size.
    pub closed spec fn wf(&self) -> bool {
        sorted_by_start(self.window@) && self.window@.len() <= self.size
    }

    /// An empty window of the given size.
    pub fn new(window_size: usize) -> (r: Self)
        ensures
            r.wf(),
            r.view_window() == Seq::<((i64, u32), T)>::empty(),
            r.size_spec() == window_size,
    {
        SortWindow { window: Vec::new(), size: window_size }
    }

    /// Add an entry after every entry that does not start later; then, while
    /// the window is over its size, take out its earliest entry.  Returns the
    /// entries taken out, earliest first.
    pub fn insert(&mut self, start: (i64, u32), item: T) -> (out: Vec<((i64, u32), T)>)
        requires
            old(self).wf(),
        ensures
            final(self).wf(),
            final(self).size_spec() == old(self).size_spec(),
            exists|p: int|
                0 <= p <= old(self).view_window().len() && (forall|j: int|
                    0 <= j < p ==> start_le(#[trigger] old(self).view_window()[j].0, start)) && (
                forall|j: int|
                    p <= j < old(self).view_window().len() ==> !start_le(
                        #[trigger] old(self).view_window()[j].0,
                        start,
                    )) && out@ + final(self).view_window() == old(self).view_window().insert(
                    p,
                    (start, item),
                ),
            sorted_by_start(out@ + final(self).view_window()),
            (out@, final(self).view_window()) == window_step(
                old(self).view_window(),
                (start, item),
                old(self).size_spec(),
            ),
            out@.len() == if old(self).view_window().len() + 1 > old(self).size_spec() {
                old(self).view_window().len() + 1 - old(self).size_spec()
            } else {
                0
            },
    {
        let n = self.window.len();
        let mut lo: usize = 0;
        let mut hi: usize = n;
        while lo < hi
            invariant
                n == self.window@.len(),
                self.window@ == old(self).window@,
                self.size == old(self).size,
                lo <= hi <= n,
                sorted_by_start(self.window@),
                forall|j: int| 0 <= j < lo ==> start_le(#[trigger] self.window@[j].0, start),
                forall|j: int| hi <= j < n ==> !start_le(#[trigger] self.window@[j].0, start),
            decreases hi - lo,
        {
            let mid = lo + (hi - lo) / 2;
            if start_before(start, self.window[mid].0) {
                proof {
                    assert forall|j: int| mid <= j < n implies !start_le(#[trigger] self.window@[j].0, start) by {
                        assert(start_le(self.window@[mid as int].0, self.window@[j].0));
                    }
                }
                hi = mid;
            } else {
                proof {
                    assert forall|j: int| 0 <= j < mid + 1 implies start_le(#[trigger] self.window@[j].0, start) by {
                        assert(start_le(self.window@[j].0, self.window@[mid as int].0));
                    }
                }
                lo = mid + 1;
            }
        }
        let ghost before = self.window@;
        let ghost p = lo as int;
        assert(forall|j: int| 0 <= j < p ==> start_le(#[trigger] before[j].0, start));
        assert(forall|j: int| p <= j < before.len() ==> !start_le(#[trigger] before[j].0, start));
        self.window.insert(lo, (start, item));
        let ghost inserted = self.window@;
        proof {
            assert(inserted == before.insert(p, (start, item)));
            assert forall|i: int, j: int| 0 <= i < j < inserted.len() implies start_le(
                #[trigger] inserted[i].0,
                #[trigger] inserted[j].0,
            ) by {
                if j < p {
                    assert(inserted[i] == before[i] && inserted[j] == before[j]);
                } else if j == p {
                    assert(inserted[i] == before[i]);
                } else if i < p {
                    assert(inserted[i] == before[i] && inserted[j] == before[j - 1]);
                    assert(start_le(before[i].0, start));
                } else if i == p {
                    assert(inserted[j] == before[j - 1]);
                } else {
                    assert(inserted[i] == before[i - 1] && inserted[j] == before[j - 1]);
                }
            }
        }
        let mut out: Vec<((i64, u32), T)> = Vec::new();
        while self.window.len() > self.size
            invariant
                out@ + self.window@ == inserted,
                self.size == old(self).size,
                before == old(self).window@,
                sorted_by_start(self.window@),
                inserted.len() == before.len() + 1,
                before.len() <= self.size,
                out@.len() + self.window@.len() == inserted.len(),
                self.window@.len() >= self.size || out@.len() == 0,
            decreases self.window@.len(),
        {
            let ghost w = self.window@;
            let e = self.window.remove(0);
            out.push(e);
            proof {
                assert(out@ + self.window@ =~= inserted) by {
                    assert(w =~= seq![e] + self.window@);
                }
                assert forall|i: int, j: int| 0 <= i < j < self.window@.len() implies start_le(
                    #[trigger] self.window@[i].0,
                    #[trigger] self.window@[j].0,
                ) by {
                    assert(self.window@[i] == w[i + 1] && self.window@[j] == w[j + 1]);
                }
            }
        }
        proof {
            assert(old(self).view_window() == before);
            assert(self.view_window() == self.window@);
            lemma_count_le_split(before, start, p);
            let mm = out@.len() as int;
            assert(out@ =~= inserted.take(mm));
            assert(self.window@ =~= inserted.skip(mm));
            assert(0 <= p <= old(self).view_window().len() && (forall|j: int|
                0 <= j < p ==> start_le(#[trigger] old(self).view_window()[j].0, start)) && (forall|j: int|
                p <= j < old(self).view_window().len() ==> !start_le(#[trigger] old(self).view_window()[j].0, start))
                && out@ + self.view_window() == old(self).view_window().insert(p, (start, item)));
        }
        out
    }

    /// Take out all entries, earliest first.
    pub fn drain(self) -> (out: Vec<((i64, u32), T)>)
        requires
            self.wf(),
        ensures
            out@ == self.view_window(),
            sorted_by_start(out@),
    {
        self.window
    }
}

/// How many entries of `s` start no later than `k`.
pub open spec fn count_le<T>(s: Seq<((i64, u32), T)>, k: (i64, u32)) -> nat
    decreases s.len(),
{
    if s.len() == 0 {
        0
    } else {
        count_le(s.drop_last(), k) + if start_le(s.last().0, k) {
            1nat
        } else {
            0nat
        }
    }
}

/// One insertion into a sort window of size `size`: the entry goes after
/// every entry that does not start later, then the earliest entries beyond
/// the size leave.  The result is (entries given out, window after).
pub open spec fn window_step<T>(w: Seq<((i64, u32), T)>, x: ((i64, u32), T), size: nat) -> (
    Seq<((i64, u32), T)>,
    Seq<((i64, u32), T)>,
) {
    let ins = w.insert(count_le(w, x.0) as int, x);
    let m: int = if ins.len() > size {
        ins.len() - size
    } else {
        0
    };
    (ins.take(m), ins.skip(m))
}

/// Window sort of a whole input, one insertion per entry, from an empty
/// window: (all entries given out, in order of output; window left).
pub open spec fn window_run<T>(xs: Seq<((i64, u32), T)>, size: nat) -> (
    Seq<((i64, u32), T)>,
    Seq<((i64, u32), T)>,
)
    decreases xs.len(),
{
    if xs.len() == 0 {
        (Seq::empty(), Seq::empty())
    } else {
        let prev = window_run(xs.drop_last(), size);
        let step = window_step(prev.1, xs.last(), size);
        (prev.0 + step.0, step.1)
    }
}

/// No entry arrives more than `size` places behind an entry that starts
/// later: entries further apart than the window size are in order.
pub open spec fn within_window<T>(xs: Seq<((i64, u32), T)>, size: nat) -> bool {
    forall|i: int, k: int|
        0 <= i < k < xs.len() && k - i > size ==> start_le(#[trigger] xs[i].0, #[trigger] xs[k].0)
}

proof fn lemma_count_le_concat<T>(a: Seq<((i64, u32), T)>, b: Seq<((i64, u32), T)>, k: (i64, u32))
    ensures
        count_le(a + b, k) == count_le(a, k) + count_le(b, k),
    decreases b.len(),
{
    if b.len() == 0 {
        assert(a + b =~= a);
    } else {
        assert((a + b).drop_last() =~= a + b.drop_last());
        assert((a + b).last() == b.last());
        lemma_count_le_concat(a, b.drop_last(), k);
    }
}

proof fn lemma_count_le_bounds<T>(s: Seq<((i64, u32), T)>, k: (i64, u32))
    ensures
        count_le(s, k) <= s.len(),
        count_le(s, k) >= 1 ==> exists|j: int| 0 <= j < s.len() && start_le(#[trigger] s[j].0, k),
    decreases s.len(),
{
    if s.len() > 0 {
        lemma_count_le_bounds(s.drop_last(), k);
        if count_le(s, k) >= 1 && !start_le(s.last().0, k) {
            let j = choose|j: int| 0 <= j < s.drop_last().len() && start_le(#[trigger] s.drop_last()[j].0, k);
            assert(s[j] == s.drop_last()[j]);
        }
        if start_le(s.last().0, k) {
            assert(start_le(s[s.len() - 1].0, k));
        }
    }
}

proof fn lemma_count_le_prefix<T>(s: Seq<((i64, u32), T)>, k: (i64, u32), m: nat)
    requires
        m <= s.len(),
        forall|i: int| 0 <= i < m ==> start_le(#[trigger] s[i].0, k),
    ensures
        count_le(s, k) >= m,
    decreases s.len(),
{
    if s.len() > 0 {
        let d = s.drop_last();
        if m == s.len() {
            assert(start_le(s[s.len() - 1].0, k));
            assert forall|i: int| 0 <= i < m - 1 implies start_le(#[trigger] d[i].0, k) by {
                assert(d[i] == s[i]);
            }
            lemma_count_le_prefix(d, k, (m - 1) as nat);
        } else {
            assert forall|i: int| 0 <= i < m implies start_le(#[trigger] d[i].0, k) by {
                assert(d[i] == s[i]);
            }
            lemma_count_le_prefix(d, k, m);
        }
    }
}

/// In a window in order, the entries that start no later than `k` are a
/// prefix, as long as their count.
proof fn lemma_count_le_sorted<T>(w: Seq<((i64, u32), T)>, k: (i64, u32))
    requires
        sorted_by_start(w),
    ensures
        forall|j: int| 0 <= j < count_le(w, k) ==> start_le(#[trigger] w[j].0, k),
        forall|j: int| count_le(w, k) <= j < w.len() ==> !start_le(#[trigger] w[j].0, k),
    decreases w.len(),
{
    if w.len() > 0 {
        let d = w.drop_last();
        assert forall|i: int, j: int| 0 <= i < j < d.len() implies start_le(#[trigger] d[i].0, #[trigger] d[j].0) by {
            assert(d[i] == w[i] && d[j] == w[j]);
        }
        lemma_count_le_sorted(d, k);
        lemma_count_le_bounds(d, k);
        if start_le(w.last().0, k) {
            assert forall|j: int| 0 <= j < count_le(w, k) implies start_le(#[trigger] w[j].0, k) by {
                if j < w.len() - 1 {
                    assert(start_le(w[j].0, w[w.len() - 1].0));
                }
            }
            assert forall|j: int| 0 <= j < count_le(d, k) implies start_le(#[trigger] d[j].0, k) by {}
            lemma_count_le_prefix(d, k, d.len());
        } else {
            assert forall|j: int| 0 <= j < count_le(w, k) implies start_le(#[trigger] w[j].0, k) by {
                assert(w[j] == d[j]);
            }
            assert forall|j: int| count_le(w, k) <= j < w.len() implies !start_le(#[trigger] w[j].0, k) by {
                if j < w.len() - 1 {
                    assert(w[j] == d[j]);
                }
            }
        }
    }
}

/// The insertion point described by its two sides is the count of entries
/// that start no later than the new one.
proof fn lemma_count_le_split<T>(w: Seq<((i64, u32), T)>, k: (i64, u32), p: int)
    requires
        0 <= p <= w.len(),
        forall|j: int| 0 <= j < p ==> start_le(#[trigger] w[j].0, k),
        forall|j: int| p <= j < w.len() ==> !start_le(#[trigger] w[j].0, k),
    ensures
        count_le(w, k) == p,
    decreases w.len(),
{
    if w.len() > 0 {
        let d = w.drop_last();
        if p == w.len() {
            assert(start_le(w[w.len() - 1].0, k));
            lemma_count_le_split(d, k, p - 1);
        } else {
            assert(!start_le(w[w.len() - 1].0, k));
            lemma_count_le_split(d, k, p);
        }
    }
}

proof fn lemma_sorted_concat<T>(a: Seq<((i64, u32), T)>, b: Seq<((i64, u32), T)>)
    requires
        sorted_by_start(a),
        sorted_by_start(b),
        forall|i: int, j: int| 0 <= i < a.len() && 0 <= j < b.len() ==> start_le(#[trigger] a[i].0, #[trigger] b[j].0),
    ensures
        sorted_by_start(a + b),
{
    let s = a + b;
    assert forall|i: int, j: int| 0 <= i < j < s.len() implies start_le(#[trigger] s[i].0, #[trigger] s[j].0) by {
        if j < a.len() {
            assert(s[i] == a[i] && s[j] == a[j]);
        } else if i < a.len() {
            assert(s[i] == a[i] && s[j] == b[j - a.len()]);
        } else {
            assert(s[i] == b[i - a.len()] && s[j] == b[j - a.len()]);
        }
    }
}

/// The state `(o, w)` after the first `n` entries of `full`: output and
/// window in order, the window as full as it can be, every entry counted
/// once, and nothing given out that a later entry would have to precede.
spec fn run_state_ok<T>(
    full: Seq<((i64, u32), T)>,
    size: nat,
    n: nat,
    o: Seq<((i64, u32), T)>,
    w: Seq<((i64, u32), T)>,
) -> bool {
    &&& sorted_by_start(o + w)
    &&& w.len() == if n < size { n } else { size }
    &&& o.len() + w.len() == n
    &&& forall|b: (i64, u32)| #[trigger] count_le(full.take(n as int), b) == count_le(o, b) + count_le(w, b)
    &&& forall|i: int, k: int| 0 <= i < o.len() && n <= k < full.len() ==> start_le(#[trigger] o[i].0, #[trigger] full[k].0)
}

proof fn lemma_insert_sorted<T>(w: Seq<((i64, u32), T)>, x: ((i64, u32), T))
    requires
        sorted_by_start(w),
    ensures
        sorted_by_start(w.insert(count_le(w, x.0) as int, x)),
        count_le(w, x.0) <= w.len(),
{
    lemma_count_le_sorted(w, x.0);
    lemma_count_le_bounds(w, x.0);
    let p = count_le(w, x.0) as int;
    let ins = w.insert(p, x);
    w.insert_ensures(p, x);
    assert forall|i: int, j: int| 0 <= i < j < ins.len() implies start_le(#[trigger] ins[i].0, #[trigger] ins[j].0) by {
        if j < p {
            assert(ins[i] == w[i] && ins[j] == w[j]);
        } else if j == p {
            assert(ins[i] == w[i]);
        } else if i < p {
            assert(ins[i] == w[i] && ins[j] == w[j - 1]);
            assert(start_le(w[i].0, x.0));
        } else if i == p {
            assert(ins[j] == w[j - 1]);
        } else {
            assert(ins[i] == w[i - 1] && ins[j] == w[j - 1]);
        }
    }
}

proof fn lemma_insert_count<T>(w: Seq<((i64, u32), T)>, p: int, x: ((i64, u32), T), b: (i64, u32))
    requires
        0 <= p <= w.len(),
    ensures
        count_le(w.insert(p, x), b) == count_le(w, b) + count_le(seq![x], b),
{
    assert(w.insert(p, x) =~= w.take(p) + seq![x] + w.skip(p));
    lemma_count_le_concat(w.take(p) + seq![x], w.skip(p), b);
    lemma_count_le_concat(w.take(p), seq![x], b);
    lemma_count_le_concat(w.take(p), w.skip(p), b);
    assert(w.take(p) + w.skip(p) =~= w);
}

#[verifier::spinoff_prover]
proof fn lemma_window_run_step<T>(
    full: Seq<((i64, u32), T)>,
    size: nat,
    n: nat,
    o: Seq<((i64, u32), T)>,
    w: Seq<((i64, u32), T)>,
)
    requires
        within_window(full, size),
        n < full.len(),
        run_state_ok(full, size, n, o, w),
    ensures
        run_state_ok(
            full,
            size,
            n + 1,
            o + window_step(w, full[n as int], size).0,
            window_step(w, full[n as int], size).1,
        ),
{
    let x = full[n as int];
    law_window_output_precedes_window(o, w);
    lemma_insert_sorted(w, x);
    let p = count_le(w, x.0) as int;
    let ins = w.insert(p, x);
    w.insert_ensures(p, x);
    let mm: int = if ins.len() > size { ins.len() - size } else { 0 };
    let o2 = ins.take(mm);
    let w2 = ins.skip(mm);
    assert(window_step(w, x, size) == (o2, w2));
    assert(o2 + w2 =~= ins);
    assert((o + o2) + w2 =~= o + ins);
    assert forall|i: int, j: int| 0 <= i < o.len() && 0 <= j < ins.len() implies start_le(#[trigger] o[i].0, #[trigger] ins[j].0) by {
        if j < p {
            assert(ins[j] == w[j]);
        } else if j == p {
            assert(start_le(o[i].0, full[n as int].0));
        } else {
            assert(ins[j] == w[j - 1]);
        }
    }
    lemma_sorted_concat(o, ins);
    let xs = full.take((n + 1) as int);
    let pre = full.take(n as int);
    assert(pre + seq![x] =~= xs);
    assert(seq![x].drop_last() =~= Seq::<((i64, u32), T)>::empty());
    assert forall|b: (i64, u32)| #[trigger] count_le(xs, b) == count_le(o + o2, b) + count_le(w2, b) by {
        lemma_count_le_concat(o, o2, b);
        lemma_count_le_concat(o2, w2, b);
        lemma_insert_count(w, p, x, b);
        lemma_count_le_concat(pre, seq![x], b);
        assert(count_le(pre, b) == count_le(o, b) + count_le(w, b));
    }
    assert forall|i: int, k: int| 0 <= i < (o + o2).len() && n + 1 <= k < full.len() implies start_le(
        #[trigger] (o + o2)[i].0,
        #[trigger] full[k].0,
    ) by {
        if i < o.len() {
            assert((o + o2)[i] == o[i]);
        } else {
            assert(mm == 1);
            assert((o + o2)[i] == ins[0]);
            let b = full[k].0;
            let lo = (n + 1 - size) as nat;
            assert forall|q: int| 0 <= q < lo implies start_le(#[trigger] xs[q].0, b) by {
                assert(xs[q] == full[q]);
            }
            lemma_count_le_prefix(xs, b, lo);
            lemma_count_le_bounds(o, b);
            lemma_count_le_concat(o2, w2, b);
            lemma_count_le_concat(o, o2, b);
            assert(count_le(ins, b) >= 1);
            lemma_count_le_bounds(ins, b);
            let j = choose|j: int| 0 <= j < ins.len() && start_le(#[trigger] ins[j].0, b);
            if j > 0 {
                assert(start_le(ins[0].0, ins[j].0));
            }
        }
    }
}

proof fn lemma_window_run_prefix<T>(full: Seq<((i64, u32), T)>, size: nat, n: nat)
    requires
        within_window(full, size),
        n <= full.len(),
    ensures
        run_state_ok(full, size, n, window_run(full.take(n as int), size).0, window_run(full.take(n as int), size).1),
    decreases n,
{
    if n == 0 {
        assert(full.take(0) =~= Seq::<((i64, u32), T)>::empty());
        assert forall|b: (i64, u32)| #[trigger] count_le(full.take(0), b) == 0nat by {}
    } else {
        let m1 = (n - 1) as nat;
        lemma_window_run_prefix(full, size, m1);
        let xs = full.take(n as int);
        let pre = full.take(m1 as int);
        assert(xs.drop_last() =~= pre);
        assert(xs.last() == full[m1 as int]);
        let prev = window_run(pre, size);
        lemma_window_run_step(full, size, m1, prev.0, prev.1);
    }
}

/// Window sort of a whole log: when no entry arrives more than the window
/// size behind an entry that starts later, the entries given out followed
/// by those drained at the end are all the entries, in order of start time.
pub proof fn law_window_sort_in_order<T>(xs: Seq<((i64, u32), T)>, size: nat)
    requires
        within_window(xs, size),
    ensures
        sorted_by_start(window_run(xs, size).0 + window_run(xs, size).1),
        (window_run(xs, size).0 + window_run(xs, size).1).len() == xs.len(),
        forall|b: (i64, u32)|
            #[trigger] count_le(window_run(xs, size).0 + window_run(xs, size).1, b) == count_le(xs, b),
{
    lemma_window_run_prefix(xs, size, xs.len());
    assert(xs.take(xs.len() as int) =~= xs);
    assert forall|b: (i64, u32)|
        #[trigger] count_le(window_run(xs, size).0 + window_run(xs, size).1, b) == count_le(xs, b) by {
        lemma_count_le_concat(window_run(xs, size).0, window_run(xs, size).1, b);
    }
}

/// The entries a window insertion gives out start no later than any entry
/// left in the window, and both the output and the window stay in order.
pub proof fn law_window_output_precedes_window<T>(out: Seq<((i64, u32), T)>, w: Seq<((i64, u32), T)>)
    requires
        sorted_by_start(out + w),
    ensures
        sorted_by_start(out),
        sorted_by_start(w),
        forall|i: int, j: int| 0 <= i < out.len() && 0 <= j < w.len() ==> start_le(#[trigger] out[i].0, #[trigger] w[j].0),
{
    let s = out + w;
    assert forall|i: int, j: int| 0 <= i < j < out.len() implies start_le(#[trigger] out[i].0, #[trigger] out[j].0) by {
        assert(s[i] == out[i] && s[j] == out[j]);
    }
    assert forall|i: int, j: int| 0 <= i < j < w.len() implies start_le(#[trigger] w[i].0, #[trigger] w[j].0) by {
        assert(s[out.len() + i] == w[i] && s[out.len() + j] == w[j]);
    }
    assert forall|i: int, j: int| 0 <= i < out.len() && 0 <= j < w.len() implies start_le(#[trigger] out[i].0, #[trigger] w[j].0) by {
        assert(s[i] == out[i] && s[out.len() + j] == w[j]);
    }
}

/// The window sort never goes back in time: if every entry in the window and
/// the arriving entry start no earlier than the last entry given out, then so
/// does every entry the insertion gives out.
pub proof fn law_window_outputs_never_earlier<T>(
    last: (i64, u32),
    w: Seq<((i64, u32), T)>,
    p: int,
    x: ((i64, u32), T),
    out: Seq<((i64, u32), T)>,
    rest: Seq<((i64, u32), T)>,
)
    requires
        0 <= p <= w.len(),
        forall|j: int| 0 <= j < w.len() ==> start_le(last, #[trigger] w[j].0),
        start_le(last, x.0),
        out + rest == w.insert(p, x),
    ensures
        forall|i: int| 0 <= i < out.len() ==> start_le(last, #[trigger] out[i].0),
{
    let s = w.insert(p, x);
    w.insert_ensures(p, x);
    assert forall|i: int| 0 <= i < out.len() implies start_le(last, #[trigger] out[i].0) by {
        assert((out + rest)[i] == out[i]);
        if i < p {
            assert(s[i] == w[i]);
        } else if i > p {
            assert(s[(i - 1) + 1] == w[i - 1]);
        }
    }
}

// ----------------------------------------------------------------------------
// Merged log format
// ----------------------------------------------------------------------------

/// Header line of a merged operation log (without the newline).
pub open spec fn merged_header_spec() -> Seq<char> {
    "idx\tthread\top\tclient_id\tn_objects\tbytes\tendpoint\tfile\terror\tstart\tfirst_byte\tend\tduration_ns"@
}

/// The header line of a merged operation log (without the newline).
pub fn merged_header() -> (r: &'static str)
    ensures
        r@ == merged_header_spec(),
{
    "idx\tthread\top\tclient_id\tn_objects\tbytes\tendpoint\tfile\terror\tstart\tfirst_byte\tend\tduration_ns"
}

/// One entry of a merged log (without the newline): its position, thread
/// 0, the operation, no client id, one object, the bytes, endpoint, file and
/// error (empty when none), the start time as given, no first-byte or end
/// time, and the duration (0 when unknown), separated by tabs.
pub open spec fn merged_line_spec(
    idx: nat,
    op: Seq<char>,
    bytes: nat,
    endpoint: Seq<char>,
    file: Seq<char>,
    error: Option<Seq<char>>,
    start: Seq<char>,
    duration_ns: Option<u64>,
) -> Seq<char> {
    dec(idx) + "\t0\t"@ + op + "\t\t1\t"@ + dec(bytes) + "\t"@ + endpoint + "\t"@ + file + "\t"@
        + match error {
        Some(e) => e,
        None => Seq::empty(),
    } + "\t"@ + start + "\t\t\t"@ + dec(
        match duration_ns {
            Some(d) => d as nat,
            None => 0nat,
        },
    )
}

/// Format one entry of a merged log (see `merged_line_spec`).
pub fn merged_line(
    idx: u64,
    op: &str,
    bytes: u64,
    endpoint: &str,
    file: &str,
    error: Option<&str>,
    start: &str,
    duration_ns: Option<u64>,
) -> (r: String)
    ensures
        r@ == merged_line_spec(
            idx as nat,
            op@,
            bytes as nat,
            endpoint@,
            file@,
            match error {
                Some(e) => Some(e@),
                None => None,
            },
            start@,
            duration_ns,
        ),
{
    let mut r = u64_to_dec(idx);
    r.append("\t0\t");
    r.append(op);
    r.append("\t\t1\t");
    let b = u64_to_dec(bytes);
    r.append(b.as_str());
    r.append("\t");
    r.append(endpoint);
    r.append("\t");
    r.append(file);
    r.append("\t");
    match error {
        Some(e) => r.append(e),
        None => {},
    }
    r.append("\t");
    r.append(start);
    r.append("\t\t\t");
    let d = match duration_ns {
        Some(d) => d,
        None => 0,
    };
    let ds = u64_to_dec(d);
    r.append(ds.as_str());
    r
}

// ----------------------------------------------------------------------------
// Names of sorted logs
// ----------------------------------------------------------------------------

/// The file name of the sorted copy of a log: for `x.tsv.zst`, `x.sorted.tsv.zst`;
/// for other names, the stem followed by `.sorted.zst`; `None` when the path
/// has no file stem.
pub open spec fn sorted_name_spec(path: Seq<char>) -> Option<Seq<char>> {
    match path_file_stem(path) {
        None => None,
        Some(stem) => Some(
            if path_extension(path) == Some("zst"@) {
                let base = match path_file_stem(stem) {
                    Some(b) => b,
                    None => stem,
                };
                base + ".sorted.tsv.zst"@
            } else {
                stem + ".sorted.zst"@
            },
        ),
    }
}

/// `Path::with_file_name`: the name joined to the path's parent (a path with
/// a file name always has a parent; the empty parent stands in otherwise).
pub open spec fn with_file_name_spec(path: Seq<char>, name: Seq<char>) -> Seq<char> {
    path_join_spec(
        match path_parent(path) {
            Some(d) => d,
            None => Seq::empty(),
        },
        name,
    )
}

fn with_file_name(path: &str, name: &str) -> (r: String)
    ensures
        r@ == with_file_name_spec(path@, name@),
{
    match parent_of(path) {
        Some(d) => path_join(d.as_str(), name),
        None => {
            proof {
                reveal_strlit("");
            }
            path_join("", name)
        },
    }
}

/// Where the sorted copy of a log is written (beside it, see
/// `sorted_name_spec`); `None` for a path without a file stem.
pub fn sorted_output_path(path: &str) -> (r: Option<String>)
    ensures
        match sorted_name_spec(path@) {
            Some(n) => r matches Some(p) && p@ == with_file_name_spec(path@, n),
            None => r is None,
        },
{
    let stem = match file_stem_of(path) {
        Some(s) => s,
        None => return None,
    };
    let mut name = String::new();
    let is_zst = match extension_of(path) {
        Some(e) => crate::text::str_eq(e.as_str(), "zst"),
        None => false,
    };
    if is_zst {
        match file_stem_of(stem.as_str()) {
            Some(b) => name.append(b.as_str()),
            None => name.append(stem.as_str()),
        }
        name.append(".sorted.tsv.zst");
    } else {
        name.append(stem.as_str());
        name.append(".sorted.zst");
    }
    Some(with_file_name(path, name.as_str()))
}

/// The temporary file of an in-place sort: the log's extension replaced by
/// `tmp.zst` (`Path::with_extension`); a path without a file stem is kept.
pub fn in_place_temp_path(path: &str) -> (r: String)
    ensures
        r@ == match path_file_stem(path@) {
            Some(stem) => with_file_name_spec(path@, stem + ".tmp.zst"@),
            None => path@,
        },
{
    match file_stem_of(path) {
        Some(stem) => {
            let mut name = String::new();
            name.append(stem.as_str());
            name.append(".tmp.zst");
            with_file_name(path, name.as_str())
        },
        None => {
            let mut r = String::new();
            r.append(path);
            r
        },
    }
}

} // verus!
