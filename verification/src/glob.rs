//! Simple `*` globs: the anchored regular expression of a glob, how a URI
//! with a glob is split into the directory to list and the pattern, and
//! the selection of listed objects whose file name matches.

use vstd::prelude::*;
use vstd::string::*;
use crate::text::{last_index_of, rfind_char, find_char, first_index_of, lemma_last_index_of_concat};

verus! {

broadcast use vstd::string::group_string_axioms;

/// The characters that the regex crate treats as meta characters.
pub open spec fn is_meta_char(c: char) -> bool {
    c == '\\' || c == '.' || c == '+' || c == '*' || c == '?' || c == '(' || c == ')'
        || c == '|' || c == '[' || c == ']' || c == '{' || c == '}' || c == '^' || c == '$'
        || c == '#' || c == '&' || c == '-' || c == '~'
}

/// One character as the regex crate escapes it.
pub open spec fn escaped_char(c: char) -> Seq<char> {
    if is_meta_char(c) {
        seq!['\\', c]
    } else {
        seq![c]
    }
}

/// A text with every meta character preceded by a backslash.
pub open spec fn escaped(s: Seq<char>) -> Seq<char>
    decreases s.len(),
{
    if s.len() == 0 {
        Seq::empty()
    } else {
        escaped_char(s[0]) + escaped(s.drop_first())
    }
}

/// `t.replace("\\*", ".*")`: leftmost, non-overlapping replacement.
pub open spec fn replace_escaped_stars(t: Seq<char>) -> Seq<char>
    decreases t.len(),
{
    if t.len() == 0 {
        Seq::empty()
    } else if t.len() >= 2 && t[0] == '\\' && t[1] == '*' {
        seq!['.', '*'] + replace_escaped_stars(t.skip(2))
    } else {
        seq![t[0]] + replace_escaped_stars(t.skip(1))
    }
}

/// How one glob character reads in the regex: `*` matches anything,
/// every other character matches itself.
pub open spec fn glob_char(c: char) -> Seq<char> {
    if c == '*' {
        seq!['.', '*']
    } else {
        escaped_char(c)
    }
}

/// The regex body of a glob, character by character.
pub open spec fn glob_body(s: Seq<char>) -> Seq<char>
    decreases s.len(),
{
    if s.len() == 0 {
        Seq::empty()
    } else {
        glob_char(s[0]) + glob_body(s.drop_first())
    }
}

/// `regex::escape`: each meta character of `text` gets a backslash in
/// front of it; every other character is copied.
#[verifier::external_body]
fn regex_escape(text: &str) -> (r: String)
    ensures
        r@ == escaped(text@),
{
    regex::escape(text)
}

proof fn lemma_escaped_head(s: Seq<char>)
    ensures
        escaped(s).len() == 0 || escaped(s)[0] != '*',
{
    if s.len() > 0 {
        assert((escaped_char(s[0]) + escaped(s.drop_first()))[0] == escaped_char(s[0])[0]);
    }
}

proof fn lemma_replace_one(c: char, t: Seq<char>)
    requires
        t.len() == 0 || t[0] != '*',
    ensures
        replace_escaped_stars(escaped_char(c) + t) == glob_char(c) + replace_escaped_stars(t),
{
    let e = escaped_char(c) + t;
    if c == '*' {
        assert(e.skip(2) =~= t);
        assert(e[0] == '\\' && e[1] == '*');
    } else if is_meta_char(c) {
        let e1 = e.skip(1);
        assert(e1 =~= seq![c] + t);
        assert(e1.skip(1) =~= t);
        if c == '\\' {
            assert(!(e1.len() >= 2 && e1[1] == '*'));
        }
        assert(replace_escaped_stars(e1) == seq![c] + replace_escaped_stars(t));
        assert(replace_escaped_stars(e) == seq!['\\'] + replace_escaped_stars(e1));
        assert(glob_char(c) =~= seq!['\\'] + seq![c]);
        assert(seq!['\\'] + (seq![c] + replace_escaped_stars(t)) =~= (seq!['\\'] + seq![c])
            + replace_escaped_stars(t));
    } else {
        assert(e.skip(1) =~= t);
        assert(glob_char(c) =~= seq![c]);
    }
}

/// Replacing the escaped stars of an escaped glob reads the glob
/// character by character: `*` becomes `.*`, meta characters are escaped,
/// everything else stands for itself.
pub proof fn law_glob_reads_per_character(s: Seq<char>)
    ensures
        replace_escaped_stars(escaped(s)) == glob_body(s),
    decreases s.len(),
{
    if s.len() > 0 {
        let rest = s.drop_first();
        law_glob_reads_per_character(rest);
        lemma_escaped_head(rest);
        lemma_replace_one(s[0], escaped(rest));
    }
}

/// Converts a simple glob (with `*`) into a fully anchored regex string:
/// `^`, the escaped glob with each escaped `*` turned into `.*`, then `$`.
pub fn glob_to_regex(glob: &str) -> (r: String)
    ensures
        r@ == seq!['^'] + replace_escaped_stars(escaped(glob@)) + seq!['$'],
        r@ == seq!['^'] + glob_body(glob@) + seq!['$'],
{
    let esc = regex_escape(glob);
    let t = esc.as_str();
    let n = t.unicode_len();
    let mut out = String::new();
    proof {
        reveal_strlit("^");
    }
    out.append("^");
    let mut k: usize = 0;
    assert(t@.skip(0) =~= t@);
    while k < n
        invariant
            k <= n,
            n == t@.len(),
            seq!['^'] + replace_escaped_stars(t@) == out@ + replace_escaped_stars(t@.skip(k as int)),
        decreases n - k,
    {
        let ghost rest = t@.skip(k as int);
        if k + 1 < n && t.get_char(k) == '\\' && t.get_char(k + 1) == '*' {
            proof {
                reveal_strlit(".*");
                assert(rest.skip(2) =~= t@.skip(k + 2));
            }
            out.append(".*");
            k = k + 2;
        } else {
            let piece = t.substring_char(k, k + 1);
            proof {
                assert(rest.skip(1) =~= t@.skip(k + 1));
                assert(piece@ =~= seq![rest[0]]);
            }
            out.append(piece);
            k = k + 1;
        }
    }
    assert(t@.skip(n as int) =~= Seq::<char>::empty());
    proof {
        reveal_strlit("$");
        law_glob_reads_per_character(glob@);
    }
    out.append("$");
    out
}

// ----------------------------------------------------------------------------
// Selecting listed objects by a glob
// ----------------------------------------------------------------------------

proof fn lemma_last_index_of(s: Seq<char>, c: char)
    ensures
        last_index_of(s, c) is None <==> !s.contains(c),
        last_index_of(s, c) matches Some(k) ==> k < s.len() && s[k as int] == c && forall|j: int|
            k < j < s.len() ==> s[j] != c,
    decreases s.len(),
{
    if s.len() > 0 {
        lemma_last_index_of(s.drop_last(), c);
        if s.last() != c {
            if s.contains(c) {
                let j = choose|j: int| 0 <= j < s.len() && s[j] == c;
                assert(s.drop_last()[j] == c);
            }
            if s.drop_last().contains(c) {
                let j = choose|j: int| 0 <= j < s.drop_last().len() && s.drop_last()[j] == c;
                assert(s[j] == c);
            }
            if let Some(k) = last_index_of(s, c) {
                assert(s[k as int] == s.drop_last()[k as int]);
                assert forall|j: int| k < j < s.len() implies s[j] != c by {
                    if j < s.len() - 1 {
                        assert(s[j] == s.drop_last()[j]);
                    }
                }
            }
        } else {
            assert(s[s.len() - 1] == c);
        }
    }
}

proof fn lemma_first_index_of(s: Seq<char>, c: char, from: nat)
    ensures
        first_index_of(s, c, from) is None <==> forall|j: int| from <= j < s.len() ==> s[j] != c,
    decreases s.len() - from,
{
    if from < s.len() {
        lemma_first_index_of(s, c, from + 1);
    }
}

/// The last path segment of an object name: the text after its last `/`,
/// or the whole name when it has none.
pub open spec fn basename(t: Seq<char>) -> Seq<char> {
    match last_index_of(t, '/') {
        Some(k) => t.skip(k + 1 as int),
        None => t,
    }
}

/// Whether `regex::Regex::new` accepts a pattern.
pub uninterp spec fn regex_valid(p: Seq<char>) -> bool;

/// Whether the compiled pattern matches somewhere in a text (`Regex::is_match`).
pub uninterp spec fn regex_matches(p: Seq<char>, t: Seq<char>) -> bool;

/// `regex::Regex::new(p).is_ok()`.  Whether a pattern compiles is a function
/// of the pattern alone; which patterns compile is named, not stated.
#[verifier::external_body]
pub(crate) fn regex_compiles(p: &str) -> (r: bool)
    ensures
        r == regex_valid(p@),
{
    regex::Regex::new(p).is_ok()
}

/// `regex::Regex::new(p)` then `is_match(t)`: `None` when the pattern does
/// not compile.  The outcome is a function of pattern and text; what it is
/// is named, not stated.
#[verifier::external_body]
pub(crate) fn regex_is_match(p: &str, t: &str) -> (r: Option<bool>)
    ensures
        r == if regex_valid(p@) {
            Some(regex_matches(p@, t@))
        } else {
            None
        },
{
    regex::Regex::new(p).ok().map(|re| re.is_match(t))
}

/// What goes wrong when selecting objects by a glob.
#[derive(Clone, Copy, Debug, PartialEq, Eq, Structural)]
pub enum GlobError {
    /// A URI with a `*` but no `/` before its pattern.
    NoDirectory,
    /// A pattern whose regular expression does not compile.
    InvalidPattern,
}

impl GlobError {
    /// The error text for the URI or pattern it concerns.
    pub fn message(&self, uri: &str) -> (r: String)
        ensures
            r@ == match *self {
                GlobError::NoDirectory => "Invalid URI pattern: "@ + uri@,
                GlobError::InvalidPattern => "Invalid glob pattern"@,
            },
    {
        let mut r = String::new();
        match self {
            GlobError::NoDirectory => {
                r.append("Invalid URI pattern: ");
                r.append(uri);
            },
            GlobError::InvalidPattern => r.append("Invalid glob pattern"),
        }
        r
    }
}

/// Split a URI at its last `/`: the directory (with the `/`) and the part
/// after it; `None` when there is no `/`.
pub fn split_glob_uri(uri: &str) -> (r: Option<(String, String)>)
    ensures
        r is None <==> !uri@.contains('/'),
        r matches Some((d, p)) ==> (last_index_of(uri@, '/') matches Some(k) && d@ == uri@.take(k + 1 as int) && p@ == uri@.skip(k + 1 as int)),
{
    proof {
        lemma_last_index_of(uri@, '/');
    }
    match rfind_char(uri, '/') {
        Some(k) => {
            let n = uri.unicode_len();
            let d = uri.substring_char(0, k + 1);
            let p = uri.substring_char(k + 1, n);
            let mut ds = String::new();
            ds.append(d);
            let mut ps = String::new();
            ps.append(p);
            assert(ds@ =~= uri@.take(k + 1 as int));
            assert(ps@ =~= uri@.skip(k + 1 as int));
            Some((ds, ps))
        },
        None => None,
    }
}

/// The anchored regular expression of a glob (what `glob_to_regex` builds).
pub open spec fn anchored(pat: Seq<char>) -> Seq<char> {
    seq!['^'] + glob_body(pat) + seq!['$']
}

/// The listed names whose last path segment the regex `re` matches, in order.
pub open spec fn matching(listed: Seq<Seq<char>>, re: Seq<char>) -> Seq<Seq<char>>
    decreases listed.len(),
{
    if listed.len() == 0 {
        Seq::empty()
    } else {
        let prev = matching(listed.drop_last(), re);
        if regex_matches(re, basename(listed.last())) {
            prev.push(listed.last())
        } else {
            prev
        }
    }
}

/// Only the file name decides whether a listed object is selected: an
/// object in any directory is kept exactly when its bare name would be.
pub proof fn law_glob_selects_by_file_name(d: Seq<char>, n: Seq<char>, re: Seq<char>)
    requires
        !n.contains('/'),
    ensures
        basename(d + seq!['/'] + n) == n,
        matching(seq![d + seq!['/'] + n], re).len() == matching(seq![n], re).len(),
{
    let head = d + seq!['/'];
    assert forall|i: int| 0 <= i < n.len() implies n[i] != '/' by {
        if n[i] == '/' {
            assert(n.contains('/'));
        }
    }
    lemma_last_index_of_concat(head, n, '/');
    assert(head.last() == '/');
    assert(last_index_of(head, '/') == Some((head.len() - 1) as nat));
    assert((head + n).skip(head.len() as int) =~= n);
    lemma_last_index_of(n, '/');
    assert(basename(n) == n);
    let one = seq![head + n];
    let two = seq![n];
    assert(one.drop_last() =~= Seq::<Seq<char>>::empty());
    assert(two.drop_last() =~= Seq::<Seq<char>>::empty());
    assert(one.last() == head + n);
    assert(two.last() == n);
}

/// The views of a list of strings.
pub open spec fn string_views(v: Seq<String>) -> Seq<Seq<char>> {
    v.map_values(|s: String| s@)
}

fn basename_of(t: &str) -> (r: &str)
    ensures
        r@ == basename(t@),
{
    proof {
        lemma_last_index_of(t@, '/');
    }
    match rfind_char(t, '/') {
        Some(k) => {
            let n = t.unicode_len();
            let b = t.substring_char(k + 1, n);
            assert(b@ =~= t@.skip(k + 1 as int));
            b
        },
        None => t,
    }
}

/// Keep the listed objects whose last path segment matches the glob `pat`
/// (`^…$` of the escaped glob, `*` matching anything), in order; an error
/// when that regular expression does not compile.
pub fn select_glob_matches(listed: &Vec<String>, pat: &str) -> (r: Result<Vec<String>, GlobError>)
    ensures
        r is Ok <==> regex_valid(anchored(pat@)),
        r matches Err(e) ==> e == GlobError::InvalidPattern,
        r matches Ok(v) ==> string_views(v@) == matching(string_views(listed@), anchored(pat@)),
{
    let re = glob_to_regex(pat);
    if !regex_compiles(re.as_str()) {
        return Err(GlobError::InvalidPattern);
    }
    let ghost views = string_views(listed@);
    let mut out: Vec<String> = Vec::new();
    let mut i: usize = 0;
    assert(views.take(0) =~= Seq::<Seq<char>>::empty());
    while i < listed.len()
        invariant
            i <= listed@.len(),
            views == string_views(listed@),
            re@ == anchored(pat@),
            regex_valid(re@),
            string_views(out@) == matching(views.take(i as int), re@),
        decreases listed@.len() - i,
    {
        let name = listed[i].as_str();
        let base = basename_of(name);
        let hit = regex_is_match(re.as_str(), base);
        assert(views.take(i + 1).drop_last() =~= views.take(i as int));
        assert(views.take(i + 1).last() == name@);
        match hit {
            Some(true) => {
                let mut copy = String::new();
                copy.append(name);
                out.push(copy);
                assert(string_views(out@) =~= matching(views.take(i + 1), re@));
            },
            _ => {
                assert(string_views(out@) =~= matching(views.take(i + 1), re@));
            },
        }
        i = i + 1;
    }
    assert(views.take(listed@.len() as int) =~= views);
    Ok(out)
}

/// How the objects of a URI are chosen: by a pattern within a directory
/// (filtered only when the pattern part has a `*`), as a whole directory,
/// or as a single object.
#[derive(Clone, Debug)]
pub enum ObjectSelection {
    /// List `dir` and keep the names matching `pattern`, when there is one.
    Pattern { dir: String, pattern: Option<String> },
    /// List the directory URI.
    Directory(String),
    /// The object URI itself.
    Single(String),
}

/// Choose how to find the objects of a URI: with a `*`, the directory up to
/// its last `/` and, when the part after it has a `*`, that part as the
/// pattern (an error when there is no `/`); otherwise a URI ending in `/`
/// names a directory and any other a single object.
pub fn object_selection(uri: &str) -> (r: Result<ObjectSelection, GlobError>)
    ensures
        uri@.contains('*') ==> match r {
            Err(e) => e == GlobError::NoDirectory && !uri@.contains('/'),
            Ok(ObjectSelection::Pattern { dir, pattern }) => last_index_of(uri@, '/') matches Some(k)
                && dir@ == uri@.take(k + 1 as int) && (match pattern {
                Some(p) => p@ == uri@.skip(k + 1 as int) && uri@.skip(k + 1 as int).contains('*'),
                None => !uri@.skip(k + 1 as int).contains('*'),
            }),
            Ok(_) => false,
        },
        !uri@.contains('*') ==> match r {
            Ok(ObjectSelection::Directory(d)) => d@ == uri@ && uri@.len() > 0 && uri@.last() == '/',
            Ok(ObjectSelection::Single(s)) => s@ == uri@ && !(uri@.len() > 0 && uri@.last() == '/'),
            _ => false,
        },
{
    proof {
        lemma_first_index_of(uri@, '*', 0);
    }
    let has_star = find_char(uri, '*').is_some();
    assert(has_star == uri@.contains('*'));
    if has_star {
        match split_glob_uri(uri) {
            None => Err(GlobError::NoDirectory),
            Some((dir, part)) => {
                proof {
                    lemma_first_index_of(part@, '*', 0);
                }
                if find_char(part.as_str(), '*').is_some() {
                    Ok(ObjectSelection::Pattern { dir, pattern: Some(part) })
                } else {
                    Ok(ObjectSelection::Pattern { dir, pattern: None })
                }
            },
        }
    } else {
        let mut u = String::new();
        u.append(uri);
        let n = uri.unicode_len();
        if n > 0 && uri.get_char(n - 1) == '/' {
            Ok(ObjectSelection::Directory(u))
        } else {
            Ok(ObjectSelection::Single(u))
        }
    }
}

} // verus!
