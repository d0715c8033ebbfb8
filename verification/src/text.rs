//! Text helpers with exact specifications: decimal and hexadecimal
//! rendering, unsigned-integer parsing with the standard library's rules,
//! Unicode whitespace trimming and ASCII case folding.

use vstd::prelude::*;
use vstd::string::*;

verus! {

broadcast use vstd::string::group_string_axioms;

/// The ASCII character of a decimal digit.
pub open spec fn digit_char(d: nat) -> char {
    if d == 0 { '0' }
    else if d == 1 { '1' }
    else if d == 2 { '2' }
    else if d == 3 { '3' }
    else if d == 4 { '4' }
    else if d == 5 { '5' }
    else if d == 6 { '6' }
    else if d == 7 { '7' }
    else if d == 8 { '8' }
    else { '9' }
}

/// The lowercase character of a hexadecimal digit.
pub open spec fn hex_char(d: nat) -> char {
    if d < 10 { digit_char(d) }
    else if d == 10 { 'a' }
    else if d == 11 { 'b' }
    else if d == 12 { 'c' }
    else if d == 13 { 'd' }
    else if d == 14 { 'e' }
    else { 'f' }
}

/// Decimal representation of `n` without leading zeros (as `{}` prints it).
pub open spec fn dec(n: nat) -> Seq<char>
    decreases n,
{
    if n < 10 {
        seq![digit_char(n)]
    } else {
        dec(n / 10).push(digit_char(n % 10))
    }
}

/// Lowercase hexadecimal representation of `n` without leading zeros (as `{:x}` prints it).
pub open spec fn hex(n: nat) -> Seq<char>
    decreases n,
{
    if n < 16 {
        seq![hex_char(n)]
    } else {
        hex(n / 16).push(hex_char(n % 16))
    }
}

/// `s` left-padded with `'0'` up to `width` characters (as `{:0width}` pads).
pub open spec fn zero_pad(s: Seq<char>, width: nat) -> Seq<char> {
    if s.len() >= width {
        s
    } else {
        Seq::new((width - s.len()) as nat, |i: int| '0') + s
    }
}

pub open spec fn is_ascii_digit(c: char) -> bool {
    '0' <= c && c <= '9'
}

pub open spec fn all_ascii_digits(s: Seq<char>) -> bool {
    forall|i: int| 0 <= i < s.len() ==> is_ascii_digit(#[trigger] s[i])
}

/// Value of a string of ASCII digits read in base ten.
pub open spec fn digits_value(s: Seq<char>) -> nat
    decreases s.len(),
{
    if s.len() == 0 {
        0
    } else {
        digits_value(s.drop_last()) * 10 + ((s.last() as int - '0' as int) as nat)
    }
}

/// The digits part of an unsigned literal: `s` without one leading `+`.
pub open spec fn unsigned_body(s: Seq<char>) -> Seq<char> {
    if s.len() > 0 && s[0] == '+' { s.drop_first() } else { s }
}

/// What `str::parse::<uN>()` accepts, as a mathematical value: an optional
/// leading `+` followed by one or more ASCII digits.  The caller compares the
/// value with the target type's maximum.
pub open spec fn parse_unsigned(s: Seq<char>) -> Option<nat> {
    let body = unsigned_body(s);
    if body.len() == 0 || !all_ascii_digits(body) {
        None
    } else {
        Some(digits_value(body))
    }
}

/// Characters with the Unicode `White_Space` property (`char::is_whitespace`).
pub open spec fn is_unicode_ws(c: char) -> bool {
    ||| ('\u{9}' <= c && c <= '\u{d}')
    ||| c == ' '
    ||| c == '\u{85}'
    ||| c == '\u{a0}'
    ||| c == '\u{1680}'
    ||| ('\u{2000}' <= c && c <= '\u{200a}')
    ||| c == '\u{2028}'
    ||| c == '\u{2029}'
    ||| c == '\u{202f}'
    ||| c == '\u{205f}'
    ||| c == '\u{3000}'
}

/// Number of leading whitespace characters of `s`.
pub open spec fn leading_ws(s: Seq<char>) -> nat
    decreases s.len(),
{
    if s.len() > 0 && is_unicode_ws(s[0]) {
        1 + leading_ws(s.drop_first())
    } else {
        0
    }
}

/// Number of trailing whitespace characters of `s`.
pub open spec fn trailing_ws(s: Seq<char>) -> nat
    decreases s.len(),
{
    if s.len() > 0 && is_unicode_ws(s.last()) {
        1 + trailing_ws(s.drop_last())
    } else {
        0
    }
}

/// `s` without leading and trailing whitespace (`str::trim`).
pub open spec fn trim_spec(s: Seq<char>) -> Seq<char> {
    let a = leading_ws(s);
    if a == s.len() {
        Seq::empty()
    } else {
        s.subrange(a as int, s.len() - trailing_ws(s))
    }
}

/// ASCII lowercase of one character (`char::to_ascii_lowercase`).
pub open spec fn ascii_lower(c: char) -> char {
    if 'A' <= c && c <= 'Z' {
        ((c as int) + 32) as char
    } else {
        c
    }
}

/// ASCII lowercase of a string (`str::to_ascii_lowercase`).
pub open spec fn ascii_lower_seq(s: Seq<char>) -> Seq<char> {
    s.map_values(|c: char| ascii_lower(c))
}

proof fn lemma_dec_len_pos(n: nat)
    ensures
        dec(n).len() >= 1,
    decreases n,
{
    if n >= 10 {
        lemma_dec_len_pos(n / 10);
    }
}

/// The one-character string of a decimal digit.
fn digit_str(d: u64) -> (s: &'static str)
    requires
        d < 10,
    ensures
        s@ == seq![digit_char(d as nat)],
{
    if d == 0 {
        proof { reveal_strlit("0"); }
        "0"
    } else if d == 1 {
        proof { reveal_strlit("1"); }
        "1"
    } else if d == 2 {
        proof { reveal_strlit("2"); }
        "2"
    } else if d == 3 {
        proof { reveal_strlit("3"); }
        "3"
    } else if d == 4 {
        proof { reveal_strlit("4"); }
        "4"
    } else if d == 5 {
        proof { reveal_strlit("5"); }
        "5"
    } else if d == 6 {
        proof { reveal_strlit("6"); }
        "6"
    } else if d == 7 {
        proof { reveal_strlit("7"); }
        "7"
    } else if d == 8 {
        proof { reveal_strlit("8"); }
        "8"
    } else {
        proof { reveal_strlit("9"); }
        "9"
    }
}

/// The one-character string of a hexadecimal digit.
fn hex_digit_str(d: u64) -> (s: &'static str)
    requires
        d < 16,
    ensures
        s@ == seq![hex_char(d as nat)],
{
    if d < 10 {
        digit_str(d)
    } else if d == 10 {
        proof { reveal_strlit("a"); }
        "a"
    } else if d == 11 {
        proof { reveal_strlit("b"); }
        "b"
    } else if d == 12 {
        proof { reveal_strlit("c"); }
        "c"
    } else if d == 13 {
        proof { reveal_strlit("d"); }
        "d"
    } else if d == 14 {
        proof { reveal_strlit("e"); }
        "e"
    } else {
        proof { reveal_strlit("f"); }
        "f"
    }
}

/// Decimal rendering of `n` (`format!("{}", n)`).
pub fn u64_to_dec(n: u64) -> (s: String)
    ensures
        s@ == dec(n as nat),
    decreases n,
{
    if n < 10 {
        let mut s = String::new();
        s.append(digit_str(n));
        s
    } else {
        let mut s = u64_to_dec(n / 10);
        s.append(digit_str(n % 10));
        s
    }
}

/// Lowercase hexadecimal rendering of `n` (`format!("{:x}", n)`).
pub fn u64_to_hex(n: u64) -> (s: String)
    ensures
        s@ == hex(n as nat),
    decreases n,
{
    if n < 16 {
        let mut s = String::new();
        s.append(hex_digit_str(n));
        s
    } else {
        let mut s = u64_to_hex(n / 16);
        s.append(hex_digit_str(n % 16));
        s
    }
}

/// `s` left-padded with zeros to `width` characters.
pub fn pad_zeros(s: String, width: usize) -> (r: String)
    ensures
        r@ == zero_pad(s@, width as nat),
{
    let len = s.unicode_len();
    if len >= width {
        return s;
    }
    let mut r = String::new();
    let mut i: usize = 0;
    while i < width - len
        invariant
            i <= width - len,
            len == s@.len(),
            len < width,
            r@ == Seq::new(i as nat, |k: int| '0'),
        decreases width - len - i,
    {
        proof { reveal_strlit("0"); }
        r.append("0");
        assert(r@ =~= Seq::new((i + 1) as nat, |k: int| '0'));
        i = i + 1;
    }
    r.append(s.as_str());
    r
}

/// Decimal rendering of `n` left-padded with zeros (`format!("{:0w$}", n)`).
pub fn u64_to_dec_padded(n: u64, width: usize) -> (s: String)
    ensures
        s@ == zero_pad(dec(n as nat), width as nat),
{
    pad_zeros(u64_to_dec(n), width)
}


proof fn lemma_digits_value_prefix(s: Seq<char>, k: int)
    requires
        0 <= k <= s.len(),
    ensures
        digits_value(s.subrange(0, k)) <= digits_value(s),
    decreases s.len(),
{
    if k < s.len() {
        assert(s.drop_last().subrange(0, k) =~= s.subrange(0, k));
        lemma_digits_value_prefix(s.drop_last(), k);
    } else {
        assert(s.subrange(0, k) =~= s);
    }
}

/// The value of a decimal digit character.
fn digit_value(c: char) -> (d: u64)
    requires
        is_ascii_digit(c),
    ensures
        d as int == c as int - '0' as int,
        d < 10,
{
    (c as u32 - '0' as u32) as u64
}

/// Unsigned parsing with the rules of `str::parse::<u64>()`, as a value.
pub open spec fn parse_u64_spec(s: Seq<char>) -> Option<u64> {
    match parse_unsigned(s) {
        Some(v) => if v <= u64::MAX { Some(v as u64) } else { None },
        None => None,
    }
}

/// `s.parse::<u64>().ok()`: an optional `+` then one or more ASCII digits,
/// whose value fits in a `u64`.
pub fn parse_u64(s: &str) -> (r: Option<u64>)
    ensures
        r == parse_u64_spec(s@),
{
    let n = s.unicode_len();
    let mut start: usize = 0;
    if n > 0 && s.get_char(0) == '+' {
        start = 1;
    }
    let ghost body = unsigned_body(s@);
    assert(body =~= s@.subrange(start as int, n as int));
    if start == n {
        return None;
    }
    let mut i: usize = start;
    while i < n
        invariant
            start <= i <= n,
            n == s@.len(),
            body =~= s@.subrange(start as int, n as int),
            body == unsigned_body(s@),
            forall|j: int| start <= j < i ==> is_ascii_digit(#[trigger] s@[j]),
        decreases n - i,
    {
        let c = s.get_char(i);
        if !(c >= '0' && c <= '9') {
            assert(body[i - start] == s@[i as int]);
            assert(!is_ascii_digit(body[i - start]));
            assert(!all_ascii_digits(body));
            return None;
        }
        i = i + 1;
    }
    assert(all_ascii_digits(body));
    let mut acc: u64 = 0;
    let mut i: usize = start;
    while i < n
        invariant
            start <= i <= n,
            n == s@.len(),
            body =~= s@.subrange(start as int, n as int),
            body == unsigned_body(s@),
            all_ascii_digits(body),
            acc as nat == digits_value(body.subrange(0, i - start)),
        decreases n - i,
    {
        let c = s.get_char(i);
        assert(c == body[i - start]);
        let d = digit_value(c);
        assert(body.subrange(0, i + 1 - start).drop_last() =~= body.subrange(0, i - start));
        assert(body.subrange(0, i + 1 - start).last() == c);
        assert(digits_value(body.subrange(0, i + 1 - start)) == acc * 10 + d);
        match acc.checked_mul(10) {
            Some(m) => {
                match m.checked_add(d) {
                    Some(v) => {
                        acc = v;
                    },
                    None => {
                        proof { lemma_digits_value_prefix(body, i + 1 - start); }
                        return None;
                    },
                }
            },
            None => {
                proof { lemma_digits_value_prefix(body, i + 1 - start); }
                return None;
            },
        }
        i = i + 1;
    }
    assert(body.subrange(0, n - start) =~= body);
    Some(acc)
}

/// Unsigned parsing with the rules of `str::parse::<usize>()`, as a value.
pub open spec fn parse_usize_spec(s: Seq<char>) -> Option<usize> {
    match parse_unsigned(s) {
        Some(v) => if v <= usize::MAX { Some(v as usize) } else { None },
        None => None,
    }
}

/// `s.parse::<usize>().ok()`: an optional `+` then one or more ASCII digits,
/// whose value fits in a `usize`.
pub fn parse_usize(s: &str) -> (r: Option<usize>)
    ensures
        r == parse_usize_spec(s@),
{
    match parse_u64(s) {
        Some(v) => {
            if v <= usize::MAX as u64 {
                Some(v as usize)
            } else {
                None
            }
        },
        None => None,
    }
}

/// Whether `c` is Unicode whitespace (`char::is_whitespace`).
pub fn is_whitespace(c: char) -> (b: bool)
    ensures
        b == is_unicode_ws(c),
{
    (c >= '\u{9}' && c <= '\u{d}') || c == ' ' || c == '\u{85}' || c == '\u{a0}'
        || c == '\u{1680}' || (c >= '\u{2000}' && c <= '\u{200a}') || c == '\u{2028}'
        || c == '\u{2029}' || c == '\u{202f}' || c == '\u{205f}' || c == '\u{3000}'
}

proof fn lemma_leading_ws(s: Seq<char>, i: int)
    requires
        0 <= i <= s.len(),
        forall|j: int| 0 <= j < i ==> is_unicode_ws(#[trigger] s[j]),
        i == s.len() || !is_unicode_ws(s[i]),
    ensures
        leading_ws(s) == i,
    decreases i,
{
    if i > 0 {
        assert forall|j: int| 0 <= j < i - 1 implies is_unicode_ws(#[trigger] s.drop_first()[j]) by {
            assert(s.drop_first()[j] == s[j + 1]);
        }
        lemma_leading_ws(s.drop_first(), i - 1);
    }
}

proof fn lemma_trailing_ws(s: Seq<char>, i: int)
    requires
        0 <= i <= s.len(),
        forall|j: int| s.len() - i <= j < s.len() ==> is_unicode_ws(#[trigger] s[j]),
        i == s.len() || !is_unicode_ws(s[s.len() - i - 1]),
    ensures
        trailing_ws(s) == i,
    decreases i,
{
    if i > 0 {
        assert forall|j: int| s.drop_last().len() - (i - 1) <= j < s.drop_last().len()
            implies is_unicode_ws(#[trigger] s.drop_last()[j]) by {
            assert(s.drop_last()[j] == s[j]);
        }
        lemma_trailing_ws(s.drop_last(), i - 1);
    }
}

/// `s.trim()`: `s` without leading and trailing Unicode whitespace.
pub fn trim(s: &str) -> (r: &str)
    ensures
        r@ == trim_spec(s@),
{
    let n = s.unicode_len();
    let mut a: usize = 0;
    while a < n && is_whitespace(s.get_char(a))
        invariant
            a <= n,
            n == s@.len(),
            forall|j: int| 0 <= j < a ==> is_unicode_ws(#[trigger] s@[j]),
        decreases n - a,
    {
        a = a + 1;
    }
    proof { lemma_leading_ws(s@, a as int); }
    if a == n {
        let r = s.substring_char(0, 0);
        assert(r@ =~= Seq::<char>::empty());
        return r;
    }
    let mut t: usize = 0;
    while t < n - a && is_whitespace(s.get_char(n - 1 - t))
        invariant
            a < n,
            t <= n - a,
            n == s@.len(),
            !is_unicode_ws(s@[a as int]),
            forall|j: int| n - t <= j < n ==> is_unicode_ws(#[trigger] s@[j]),
        decreases n - a - t,
    {
        t = t + 1;
    }
    assert(t < n - a);
    proof { lemma_trailing_ws(s@, t as int); }
    s.substring_char(a, n - t)
}

/// ASCII-lowercase code of a character.
fn lower_code(c: char) -> (r: u32)
    ensures
        r as int == ascii_lower(c) as int,
{
    let u = c as u32;
    if c >= 'A' && c <= 'Z' {
        u + 32
    } else {
        u
    }
}

/// Whether the ASCII lowercase of `s` equals `lit`
/// (`s.to_ascii_lowercase() == lit`).
pub fn ascii_lower_eq(s: &str, lit: &str) -> (b: bool)
    ensures
        b == (ascii_lower_seq(s@) == lit@),
{
    let n = s.unicode_len();
    let m = lit.unicode_len();
    if n != m {
        assert(ascii_lower_seq(s@).len() != lit@.len());
        return false;
    }
    let mut i: usize = 0;
    while i < n
        invariant
            i <= n,
            n == s@.len(),
            m == lit@.len(),
            n == m,
            forall|j: int| 0 <= j < i ==> ascii_lower(#[trigger] s@[j]) == lit@[j],
        decreases n - i,
    {
        let c = s.get_char(i);
        let l = lit.get_char(i);
        if lower_code(c) != l as u32 {
            assert(ascii_lower_seq(s@)[i as int] != lit@[i as int]);
            return false;
        }
        i = i + 1;
    }
    assert(ascii_lower_seq(s@) =~= lit@);
    true
}

/// Whether two strings hold the same characters.
pub fn str_eq(a: &str, b: &str) -> (r: bool)
    ensures
        r == (a@ == b@),
{
    let n = a.unicode_len();
    let m = b.unicode_len();
    if n != m {
        return false;
    }
    let mut i: usize = 0;
    while i < n
        invariant
            i <= n,
            n == a@.len(),
            m == b@.len(),
            n == m,
            forall|j: int| 0 <= j < i ==> a@[j] == b@[j],
        decreases n - i,
    {
        if a.get_char(i) != b.get_char(i) {
            return false;
        }
        i = i + 1;
    }
    assert(a@ =~= b@);
    true
}


/// Index of the last occurrence of `c` in `s` (`str::rfind`).
pub open spec fn last_index_of(s: Seq<char>, c: char) -> Option<nat>
    decreases s.len(),
{
    if s.len() == 0 {
        None
    } else if s.last() == c {
        Some((s.len() - 1) as nat)
    } else {
        last_index_of(s.drop_last(), c)
    }
}

/// Index of the first occurrence of `c` in `s` at or after `from` (`str::find`).
pub open spec fn first_index_of(s: Seq<char>, c: char, from: nat) -> Option<nat>
    decreases s.len() - from,
{
    if from >= s.len() {
        None
    } else if s[from as int] == c {
        Some(from)
    } else {
        first_index_of(s, c, from + 1)
    }
}

/// Number of leading occurrences of `c`.
pub open spec fn leading_count(s: Seq<char>, c: char) -> nat
    decreases s.len(),
{
    if s.len() > 0 && s[0] == c {
        1 + leading_count(s.drop_first(), c)
    } else {
        0
    }
}

/// Number of trailing occurrences of `c`.
pub open spec fn trailing_count(s: Seq<char>, c: char) -> nat
    decreases s.len(),
{
    if s.len() > 0 && s.last() == c {
        1 + trailing_count(s.drop_last(), c)
    } else {
        0
    }
}

/// `s.trim_start_matches(c)`.
pub open spec fn trim_start_char(s: Seq<char>, c: char) -> Seq<char> {
    s.subrange(leading_count(s, c) as int, s.len() as int)
}

/// `s.trim_end_matches(c)`.
pub open spec fn trim_end_char(s: Seq<char>, c: char) -> Seq<char> {
    s.subrange(0, s.len() - trailing_count(s, c))
}

/// `s.starts_with(p)`.
pub open spec fn starts_with(s: Seq<char>, p: Seq<char>) -> bool {
    p.len() <= s.len() && s.subrange(0, p.len() as int) == p
}

/// `s.ends_with(p)`.
pub open spec fn ends_with(s: Seq<char>, p: Seq<char>) -> bool {
    p.len() <= s.len() && s.subrange(s.len() - p.len(), s.len() as int) == p
}

pub proof fn lemma_leading_count_le(s: Seq<char>, c: char)
    ensures
        leading_count(s, c) <= s.len(),
    decreases s.len(),
{
    if s.len() > 0 && s[0] == c {
        lemma_leading_count_le(s.drop_first(), c);
    }
}

pub proof fn lemma_trailing_count_le(s: Seq<char>, c: char)
    ensures
        trailing_count(s, c) <= s.len(),
    decreases s.len(),
{
    if s.len() > 0 && s.last() == c {
        lemma_trailing_count_le(s.drop_last(), c);
    }
}

/// `s.rfind(c)`, as a character index.
pub fn rfind_char(s: &str, c: char) -> (r: Option<usize>)
    ensures
        match r {
            Some(i) => last_index_of(s@, c) == Some(i as nat) && i < s@.len(),
            None => last_index_of(s@, c) is None,
        },
{
    let n = s.unicode_len();
    let mut k: usize = n;
    assert(s@.subrange(0, n as int) =~= s@);
    while k > 0
        invariant
            k <= n,
            n == s@.len(),
            last_index_of(s@, c) == last_index_of(s@.subrange(0, k as int), c),
        decreases k,
    {
        let ghost pre = s@.subrange(0, k as int);
        assert(pre.drop_last() =~= s@.subrange(0, k - 1));
        if s.get_char(k - 1) == c {
            return Some(k - 1);
        }
        k = k - 1;
    }
    assert(s@.subrange(0, 0) =~= Seq::<char>::empty());
    None
}

/// `s.find(c)`, as a character index.
pub fn find_char(s: &str, c: char) -> (r: Option<usize>)
    ensures
        match r {
            Some(i) => first_index_of(s@, c, 0) == Some(i as nat) && i < s@.len(),
            None => first_index_of(s@, c, 0) is None,
        },
{
    let n = s.unicode_len();
    let mut k: usize = 0;
    while k < n
        invariant
            k <= n,
            n == s@.len(),
            first_index_of(s@, c, 0) == first_index_of(s@, c, k as nat),
        decreases n - k,
    {
        if s.get_char(k) == c {
            return Some(k);
        }
        k = k + 1;
    }
    None
}

/// `s.trim_start_matches(c)` for one character `c`.
pub fn trim_start_matches_char(s: &str, c: char) -> (r: &str)
    ensures
        r@ == trim_start_char(s@, c),
{
    let n = s.unicode_len();
    let mut a: usize = 0;
    assert(s@.subrange(0, n as int) =~= s@);
    while a < n && s.get_char(a) == c
        invariant
            a <= n,
            n == s@.len(),
            leading_count(s@, c) == a + leading_count(s@.subrange(a as int, n as int), c),
        decreases n - a,
    {
        let ghost rest = s@.subrange(a as int, n as int);
        assert(rest.drop_first() =~= s@.subrange(a + 1, n as int));
        a = a + 1;
    }
    proof {
        let rest = s@.subrange(a as int, n as int);
        assert(leading_count(rest, c) == 0);
        assert(s@.subrange(0, n as int) =~= s@);
    }
    s.substring_char(a, n)
}

/// `s.trim_end_matches(c)` for one character `c`.
pub fn trim_end_matches_char(s: &str, c: char) -> (r: &str)
    ensures
        r@ == trim_end_char(s@, c),
{
    let n = s.unicode_len();
    let mut b: usize = n;
    assert(s@.subrange(0, n as int) =~= s@);
    while b > 0 && s.get_char(b - 1) == c
        invariant
            b <= n,
            n == s@.len(),
            trailing_count(s@, c) == (n - b) + trailing_count(s@.subrange(0, b as int), c),
        decreases b,
    {
        let ghost pre = s@.subrange(0, b as int);
        assert(pre.drop_last() =~= s@.subrange(0, b - 1));
        b = b - 1;
    }
    proof {
        assert(trailing_count(s@.subrange(0, b as int), c) == 0);
    }
    s.substring_char(0, b)
}

/// `s.starts_with(p)`.
pub fn starts_with_str(s: &str, p: &str) -> (r: bool)
    ensures
        r == starts_with(s@, p@),
{
    let n = s.unicode_len();
    let m = p.unicode_len();
    if m > n {
        return false;
    }
    let head = s.substring_char(0, m);
    str_eq(head, p)
}

/// `s.ends_with(p)`.
pub fn ends_with_str(s: &str, p: &str) -> (r: bool)
    ensures
        r == ends_with(s@, p@),
{
    let n = s.unicode_len();
    let m = p.unicode_len();
    if m > n {
        return false;
    }
    let tail = s.substring_char(n - m, n);
    str_eq(tail, p)
}


pub proof fn lemma_digit_char_value(k: nat)
    requires
        k < 10,
    ensures
        is_ascii_digit(digit_char(k)),
        digit_char(k) as int - '0' as int == k,
{
}

pub proof fn lemma_dec_digits(n: nat)
    ensures
        all_ascii_digits(dec(n)),
        digits_value(dec(n)) == n,
        dec(n).len() >= 1,
    decreases n,
{
    lemma_digit_char_value(n % 10);
    if n < 10 {
        assert(dec(n).drop_last() =~= Seq::<char>::empty());
        assert(digits_value(Seq::<char>::empty()) == 0);
    }
    if n >= 10 {
        lemma_dec_digits(n / 10);
        let d = dec(n);
        assert(d.drop_last() =~= dec(n / 10));
        assert forall|i: int| 0 <= i < d.len() implies is_ascii_digit(#[trigger] d[i]) by {
            if i < d.len() - 1 {
                assert(d[i] == dec(n / 10)[i]);
            }
        }
    }
}

/// A run of `k` zero characters.
pub open spec fn zeros(k: nat) -> Seq<char> {
    Seq::new(k, |i: int| '0')
}

pub proof fn lemma_zeros_value(k: nat)
    ensures
        digits_value(zeros(k)) == 0,
        all_ascii_digits(zeros(k)),
    decreases k,
{
    if k > 0 {
        assert(zeros(k).drop_last() =~= zeros((k - 1) as nat));
        lemma_zeros_value((k - 1) as nat);
    }
}

pub proof fn lemma_leading_zeros_value(k: nat, s: Seq<char>)
    ensures
        digits_value(zeros(k) + s) == digits_value(s),
    decreases s.len(),
{
    if s.len() == 0 {
        assert(zeros(k) + s =~= zeros(k));
        lemma_zeros_value(k);
    } else {
        assert((zeros(k) + s).drop_last() =~= zeros(k) + s.drop_last());
        lemma_leading_zeros_value(k, s.drop_last());
    }
}

/// A zero-padded decimal reads back as its value.
pub proof fn lemma_zero_pad_dec_value(n: nat, width: nat)
    ensures
        all_ascii_digits(zero_pad(dec(n), width)),
        digits_value(zero_pad(dec(n), width)) == n,
        zero_pad(dec(n), width).len() >= 1,
        zero_pad(dec(n), width)[0] != '+',
{
    lemma_dec_digits(n);
    let d = dec(n);
    if d.len() < width {
        let k = (width - d.len()) as nat;
        assert(zero_pad(d, width) =~= zeros(k) + d);
        lemma_leading_zeros_value(k, d);
        lemma_zeros_value(k);
        let z = zeros(k) + d;
        assert forall|i: int| 0 <= i < z.len() implies is_ascii_digit(#[trigger] z[i]) by {
            if i >= k {
                assert(z[i] == d[i - k]);
            }
        }
    } else {
        assert(is_ascii_digit(d[0]));
    }
}

pub proof fn lemma_last_index_of_concat(a: Seq<char>, b: Seq<char>, c: char)
    requires
        forall|i: int| 0 <= i < b.len() ==> b[i] != c,
    ensures
        last_index_of(a + b, c) == last_index_of(a, c),
    decreases b.len(),
{
    if b.len() == 0 {
        assert(a + b =~= a);
    } else {
        assert((a + b).drop_last() =~= a + b.drop_last());
        assert((a + b).last() == b[b.len() - 1]);
        lemma_last_index_of_concat(a, b.drop_last(), c);
    }
}

/// `s.split(c)`: the pieces of `s` between occurrences of `c`, in order
/// (there is always at least one piece).
pub open spec fn split_char(s: Seq<char>, c: char) -> Seq<Seq<char>>
    decreases s.len(),
{
    if s.len() == 0 {
        seq![Seq::<char>::empty()]
    } else {
        let prev = split_char(s.drop_last(), c);
        if s.last() == c {
            prev.push(Seq::empty())
        } else {
            prev.update(prev.len() - 1, prev.last().push(s.last()))
        }
    }
}

/// The trimmed pieces that are not empty after trimming, in order.
pub open spec fn nonempty_trimmed(pieces: Seq<Seq<char>>) -> Seq<Seq<char>>
    decreases pieces.len(),
{
    if pieces.len() == 0 {
        Seq::empty()
    } else {
        let prev = nonempty_trimmed(pieces.drop_last());
        let t = trim_spec(pieces.last());
        if t.len() == 0 {
            prev
        } else {
            prev.push(t)
        }
    }
}

/// Tokens of a comma-separated list: `s.split(',').map(trim).filter(non-empty)`.
pub open spec fn csv_tokens(s: Seq<char>) -> Seq<Seq<char>> {
    nonempty_trimmed(split_char(s, ','))
}

pub proof fn lemma_split_char_nonempty(s: Seq<char>, c: char)
    ensures
        split_char(s, c).len() >= 1,
    decreases s.len(),
{
    if s.len() > 0 {
        lemma_split_char_nonempty(s.drop_last(), c);
    }
}

/// Tokens of a comma-separated list (see `csv_tokens`).
pub fn csv_tokens_exec<'a>(s: &'a str) -> (r: Vec<&'a str>)
    ensures
        r@.map_values(|t: &str| t@) == csv_tokens(s@),
{
    let n = s.unicode_len();
    let mut toks: Vec<&'a str> = Vec::new();
    let mut start: usize = 0;
    let mut i: usize = 0;
    proof {
        assert(s@.subrange(0, 0) =~= Seq::<char>::empty());
    }
    while i < n
        invariant
            n == s@.len(),
            start <= i <= n,
            split_char(s@.subrange(0, i as int), ',').len() >= 1,
            s@.subrange(start as int, i as int) == split_char(s@.subrange(0, i as int), ',').last(),
            toks@.map_values(|t: &str| t@) == nonempty_trimmed(
                split_char(s@.subrange(0, i as int), ',').drop_last(),
            ),
        decreases n - i,
    {
        let ghost pre = s@.subrange(0, i as int);
        let ghost next = s@.subrange(0, i + 1);
        let ghost sp = split_char(pre, ',');
        proof {
            assert(next.drop_last() =~= pre);
            assert(next.last() == s@[i as int]);
            lemma_split_char_nonempty(next, ',');
        }
        let ch = s.get_char(i);
        if ch == ',' {
            let piece = s.substring_char(start, i);
            let t = trim(piece);
            let ghost before = toks@;
            if t.unicode_len() > 0 {
                toks.push(t);
            }
            proof {
                assert(split_char(next, ',') == sp.push(Seq::<char>::empty()));
                assert(split_char(next, ',').drop_last() =~= sp);
                assert(sp =~= sp.drop_last().push(sp.last()));
                assert(nonempty_trimmed(sp) == if trim_spec(sp.last()).len() == 0 {
                    nonempty_trimmed(sp.drop_last())
                } else {
                    nonempty_trimmed(sp.drop_last()).push(trim_spec(sp.last()))
                });
                assert(toks@.map_values(|t: &str| t@) =~= nonempty_trimmed(sp));
                assert(s@.subrange(i + 1, i + 1) =~= Seq::<char>::empty());
            }
            start = i + 1;
        } else {
            proof {
                let nsp = split_char(next, ',');
                assert(nsp == sp.update(sp.len() - 1, sp.last().push(ch)));
                assert(nsp.drop_last() =~= sp.drop_last());
                assert(s@.subrange(start as int, i + 1) =~= sp.last().push(ch));
            }
        }
        i = i + 1;
    }
    let piece = s.substring_char(start, n);
    let t = trim(piece);
    let ghost before = toks@;
    if t.unicode_len() > 0 {
        toks.push(t);
    }
    proof {
        let sp = split_char(s@.subrange(0, n as int), ',');
        assert(s@.subrange(0, n as int) =~= s@);
        assert(sp =~= sp.drop_last().push(sp.last()));
        assert(toks@.map_values(|t: &str| t@) =~= nonempty_trimmed(sp));
    }
    toks
}

/// `s.lines().next()`: the text before the first `\n` (without a `\r` just
/// before it), the whole text when it has no `\n`, nothing for empty text.
pub open spec fn first_line_spec(s: Seq<char>) -> Option<Seq<char>> {
    if s.len() == 0 {
        None
    } else {
        match first_index_of(s, '\n', 0) {
            Some(k) => {
                let l = s.subrange(0, k as int);
                if l.len() > 0 && l.last() == '\r' {
                    Some(l.drop_last())
                } else {
                    Some(l)
                }
            },
            None => Some(s),
        }
    }
}

/// The first line of a text (see `first_line_spec`).
pub fn first_line(s: &str) -> (r: Option<&str>)
    ensures
        match r {
            Some(l) => first_line_spec(s@) == Some(l@),
            None => first_line_spec(s@) is None,
        },
{
    let n = s.unicode_len();
    if n == 0 {
        return None;
    }
    match find_char(s, '\n') {
        Some(k) => {
            if k > 0 && s.get_char(k - 1) == '\r' {
                let l = s.substring_char(0, k - 1);
                proof {
                    assert(l@ =~= s@.subrange(0, k as int).drop_last());
                }
                Some(l)
            } else {
                Some(s.substring_char(0, k))
            }
        },
        None => Some(s),
    }
}

/// The pieces of `s` between Unicode whitespace characters (`s.split(char::is_whitespace)`).
pub open spec fn split_ws(s: Seq<char>) -> Seq<Seq<char>>
    decreases s.len(),
{
    if s.len() == 0 {
        seq![Seq::<char>::empty()]
    } else {
        let prev = split_ws(s.drop_last());
        if is_unicode_ws(s.last()) {
            prev.push(Seq::empty())
        } else {
            prev.update(prev.len() - 1, prev.last().push(s.last()))
        }
    }
}

/// The non-empty pieces, in order.
pub open spec fn nonempty_pieces(pieces: Seq<Seq<char>>) -> Seq<Seq<char>>
    decreases pieces.len(),
{
    if pieces.len() == 0 {
        Seq::empty()
    } else {
        let prev = nonempty_pieces(pieces.drop_last());
        if pieces.last().len() == 0 {
            prev
        } else {
            prev.push(pieces.last())
        }
    }
}

/// `s.split_whitespace()`: the non-empty runs of non-whitespace characters.
pub open spec fn ws_tokens(s: Seq<char>) -> Seq<Seq<char>> {
    nonempty_pieces(split_ws(s))
}

pub proof fn lemma_split_ws_nonempty(s: Seq<char>)
    ensures
        split_ws(s).len() >= 1,
    decreases s.len(),
{
    if s.len() > 0 {
        lemma_split_ws_nonempty(s.drop_last());
    }
}

/// The whitespace-separated tokens of a text (see `ws_tokens`).
pub fn split_whitespace_exec<'a>(s: &'a str) -> (r: Vec<&'a str>)
    ensures
        r@.map_values(|t: &str| t@) == ws_tokens(s@),
{
    let n = s.unicode_len();
    let mut toks: Vec<&'a str> = Vec::new();
    let mut start: usize = 0;
    let mut i: usize = 0;
    proof {
        assert(s@.subrange(0, 0) =~= Seq::<char>::empty());
    }
    while i < n
        invariant
            n == s@.len(),
            start <= i <= n,
            split_ws(s@.subrange(0, i as int)).len() >= 1,
            s@.subrange(start as int, i as int) == split_ws(s@.subrange(0, i as int)).last(),
            toks@.map_values(|t: &str| t@) == nonempty_pieces(
                split_ws(s@.subrange(0, i as int)).drop_last(),
            ),
        decreases n - i,
    {
        let ghost pre = s@.subrange(0, i as int);
        let ghost next = s@.subrange(0, i + 1);
        let ghost sp = split_ws(pre);
        proof {
            assert(next.drop_last() =~= pre);
            assert(next.last() == s@[i as int]);
            lemma_split_ws_nonempty(next);
        }
        let ch = s.get_char(i);
        if is_whitespace(ch) {
            let ghost before = toks@;
            if i > start {
                toks.push(s.substring_char(start, i));
            }
            proof {
                assert(split_ws(next) == sp.push(Seq::<char>::empty()));
                assert(split_ws(next).drop_last() =~= sp);
                assert(sp =~= sp.drop_last().push(sp.last()));
                assert(toks@.map_values(|t: &str| t@) =~= nonempty_pieces(sp));
                assert(s@.subrange(i + 1, i + 1) =~= Seq::<char>::empty());
            }
            start = i + 1;
        } else {
            proof {
                let nsp = split_ws(next);
                assert(nsp == sp.update(sp.len() - 1, sp.last().push(ch)));
                assert(nsp.drop_last() =~= sp.drop_last());
                assert(s@.subrange(start as int, i + 1) =~= sp.last().push(ch));
            }
        }
        i = i + 1;
    }
    let ghost before = toks@;
    if n > start {
        toks.push(s.substring_char(start, n));
    }
    proof {
        let sp = split_ws(s@.subrange(0, n as int));
        assert(s@.subrange(0, n as int) =~= s@);
        assert(sp =~= sp.drop_last().push(sp.last()));
        assert(toks@.map_values(|t: &str| t@) =~= nonempty_pieces(sp));
    }
    toks
}

} // verus!
