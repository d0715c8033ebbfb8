//! Exact decimal rendering of quotients as binary64 arithmetic produces
//! them: an integer converted to the nearest double, a quotient rounded to
//! the nearest double, and fixed-point digits rounded half to even, all
//! computed with integers.

use vstd::prelude::*;
use vstd::string::*;
use crate::text::{dec, u64_to_dec_padded, zero_pad};

verus! {

broadcast use vstd::string::group_string_axioms;

/// `2^e`.
pub open spec fn two_pow(e: nat) -> nat
    decreases e,
{
    if e == 0 {
        1
    } else {
        2 * two_pow((e - 1) as nat)
    }
}

/// `10^p`.
pub open spec fn ten_pow(p: nat) -> nat
    decreases p,
{
    if p == 0 {
        1
    } else {
        10 * ten_pow((p - 1) as nat)
    }
}

/// Number of binary digits of `n` (0 for 0).
pub open spec fn bit_len(n: nat) -> nat
    decreases n,
{
    if n == 0 {
        0
    } else {
        1 + bit_len(n / 2)
    }
}

/// `a / d` rounded to the nearest integer, ties to even.
pub open spec fn round_half_even(a: nat, d: nat) -> nat {
    let q = a / d;
    let r = a % d;
    if 2 * r > d || (2 * r == d && q % 2 == 1) {
        q + 1
    } else {
        q
    }
}

/// The double nearest to `n` (ties to even), as an integer: `n` itself when
/// it has at most 53 significant bits.
pub open spec fn nearest_double(n: nat) -> nat {
    let bl = bit_len(n);
    if bl <= 53 {
        n
    } else {
        round_half_even(n, two_pow((bl - 53) as nat)) * two_pow((bl - 53) as nat)
    }
}

/// The double nearest to `a / d` (for `1 <= a / d < 2^53`), as `m / 2^sh`:
/// the quotient's binade has `2^sh` steps per unit.
pub open spec fn quotient_double(a: nat, d: nat) -> (nat, nat) {
    let sh = (53 - bit_len(a / d)) as nat;
    (round_half_even(a * two_pow(sh), d), sh)
}

/// The digits of `m / 2^sh` rounded half to even to `p` places (`p >= 1`).
pub open spec fn scaled(m: nat, sh: nat, p: nat) -> nat {
    round_half_even(m * ten_pow(p), two_pow(sh))
}

/// `m / 2^sh` with `p` decimal places (what `format!("{:.p$}")` prints).
pub open spec fn fixed_digits(m: nat, sh: nat, p: nat) -> Seq<char> {
    let h = scaled(m, sh, p);
    dec(h / ten_pow(p)) + "."@ + zero_pad(dec(h % ten_pow(p)), p)
}

pub proof fn lemma_two_pow_pos(e: nat)
    ensures
        two_pow(e) >= 1,
    decreases e,
{
    if e > 0 {
        lemma_two_pow_pos((e - 1) as nat);
    }
}

pub proof fn lemma_two_pow_add(a: nat, b: nat)
    ensures
        two_pow(a) * two_pow(b) == two_pow(a + b),
    decreases a,
{
    if a > 0 {
        let c = (a - 1) as nat;
        lemma_two_pow_add(c, b);
        let x = two_pow(c);
        let y = two_pow(b);
        let z = two_pow(c + b);
        assert(x * y == z);
        assert(two_pow(a) == 2 * x);
        assert(a + b == (c + b) + 1);
        assert(two_pow((c + b) + 1) == 2 * z);
        assert((2 * x) * y == 2 * z) by (nonlinear_arith)
            requires
                x * y == z,
        ;
        assert(two_pow(a) * two_pow(b) == two_pow(a + b));
    } else {
        let y = two_pow(b);
        assert(two_pow(a) == 1);
        assert(two_pow(a) * y == y) by (nonlinear_arith)
            requires
                two_pow(a) == 1,
        ;
    }
}

pub proof fn lemma_two_pow_mono(a: nat, b: nat)
    requires
        a <= b,
    ensures
        two_pow(a) <= two_pow(b),
    decreases b,
{
    if a < b {
        lemma_two_pow_mono(a, (b - 1) as nat);
        lemma_two_pow_pos((b - 1) as nat);
    }
}

/// The powers of two used for 64-bit and 128-bit bounds.
pub proof fn lemma_two_pow_consts()
    ensures
        two_pow(11) == 2048,
        two_pow(52) == 0x10_0000_0000_0000,
        two_pow(53) == 0x20_0000_0000_0000,
        two_pow(64) == 0x1_0000_0000_0000_0000,
        two_pow(120) == 0x100_0000_0000_0000_0000_0000_0000_0000,
        two_pow(128) == 0x1_0000_0000_0000_0000_0000_0000_0000_0000,
{
    reveal_with_fuel(two_pow, 17);
    assert(two_pow(4) == 16);
    assert(two_pow(8) == 256);
    assert(two_pow(16) == 65536);
    assert(two_pow(3) == 8);
    lemma_two_pow_add(8, 3);
    lemma_two_pow_add(16, 16);
    lemma_two_pow_add(32, 16);
    lemma_two_pow_add(48, 4);
    lemma_two_pow_add(52, 1);
    reveal_with_fuel(two_pow, 2);
    lemma_two_pow_add(32, 32);
    lemma_two_pow_add(64, 32);
    lemma_two_pow_add(96, 16);
    lemma_two_pow_add(112, 8);
    lemma_two_pow_add(120, 8);
}

/// A number is below two to the power of its bit length.
pub proof fn lemma_bit_len_bound(n: nat)
    ensures
        n < two_pow(bit_len(n)),
        n > 0 ==> two_pow((bit_len(n) - 1) as nat) <= n,
    decreases n,
{
    if n > 0 {
        lemma_bit_len_bound(n / 2);
    }
}

pub proof fn lemma_round_half_even_le(a: nat, d: nat)
    requires
        d > 0,
    ensures
        round_half_even(a, d) <= a / d + 1,
        round_half_even(a, d) >= a / d,
{
}

/// The quotient's double has at most 53 significant bits' worth of steps:
/// its scaled mantissa is at most `2^53`.
pub proof fn lemma_quotient_double_bound(a: nat, d: nat)
    requires
        d > 0,
        1 <= a / d,
        bit_len(a / d) <= 53,
    ensures
        quotient_double(a, d).0 <= two_pow(53),
{
    let q = a / d;
    let l = bit_len(q);
    let sh = (53 - l) as nat;
    let p = two_pow(sh);
    let t = two_pow(l);
    lemma_bit_len_bound(q);
    lemma_two_pow_add(l, sh);
    vstd::arithmetic::div_mod::lemma_fundamental_div_mod(a as int, d as int);
    let r = a % d;
    assert(a < (q + 1) * d) by (nonlinear_arith)
        requires
            a == d * q + r,
            r < d,
    ;
    assert(q + 1 <= t);
    assert((q + 1) * d <= t * d) by (nonlinear_arith)
        requires
            q + 1 <= t,
    ;
    lemma_two_pow_pos(sh);
    assert(a * p < t * d * p) by (nonlinear_arith)
        requires
            a < t * d,
            p >= 1,
    ;
    assert(t * d * p == two_pow(53) * d) by (nonlinear_arith)
        requires
            t * p == two_pow(53),
    ;
    let x = a * p;
    assert(x / d < two_pow(53)) by (nonlinear_arith)
        requires
            x < two_pow(53) * d,
            d > 0,
    {
        vstd::arithmetic::div_mod::lemma_fundamental_div_mod(x as int, d as int);
    }
    lemma_round_half_even_le(x, d);
}

/// The nearest double to an integer below `2^64` is at most `2^64`.
pub proof fn lemma_nearest_double_bound(n: nat)
    requires
        n < two_pow(64),
    ensures
        nearest_double(n) <= two_pow(64),
{
    let bl = bit_len(n);
    lemma_bit_len_bound(n);
    if bl > 53 {
        let s = (bl - 53) as nat;
        let p = two_pow(s);
        lemma_two_pow_pos(s);
        lemma_two_pow_add(53, s);
        assert(n < two_pow(53) * p);
        assert(n / p < two_pow(53)) by (nonlinear_arith)
            requires
                n < two_pow(53) * p,
                p > 0,
        {
            vstd::arithmetic::div_mod::lemma_fundamental_div_mod(n as int, p as int);
        }
        lemma_round_half_even_le(n, p);
        let m = round_half_even(n, p);
        assert(m * p <= two_pow(53) * p) by (nonlinear_arith)
            requires
                m <= two_pow(53),
        ;
        if bl > 64 {
            lemma_two_pow_mono(64, (bl - 1) as nat);
        }
        lemma_two_pow_mono(bl, 64);
    }
}

/// Number of binary digits.
pub fn bit_len_exec(n: u128) -> (r: u32)
    ensures
        r == bit_len(n as nat),
        r <= 128,
{
    let mut x = n;
    let mut l: u32 = 0;
    proof {
        lemma_bit_len_u128(n as nat);
    }
    while x > 0
        invariant
            bit_len(n as nat) == l + bit_len(x as nat),
            l + bit_len(x as nat) <= 128,
        decreases x,
    {
        proof {
            lemma_bit_len_bound(x as nat);
        }
        x = x / 2;
        l = l + 1;
    }
    proof {
        lemma_bit_len_u128(n as nat);
    }
    l
}

proof fn lemma_bit_len_u128(n: nat)
    requires
        n <= u128::MAX,
    ensures
        bit_len(n) <= 128,
{
    lemma_bit_len_bound(n);
    if bit_len(n) > 128 {
        lemma_two_pow_mono(128, (bit_len(n) - 1) as nat);
        lemma_two_pow_consts();
    }
}

/// `2^e` for `e <= 120`.
pub fn two_pow_exec(e: u32) -> (r: u128)
    requires
        e <= 120,
    ensures
        r == two_pow(e as nat),
{
    let mut r: u128 = 1;
    let mut i: u32 = 0;
    while i < e
        invariant
            i <= e <= 120,
            r == two_pow(i as nat),
        decreases e - i,
    {
        proof {
            lemma_two_pow_mono((i + 1) as nat, 120);
        lemma_two_pow_consts();
        }
        r = r * 2;
        i = i + 1;
    }
    r
}

/// `10^p` for `p <= 4`.
pub fn ten_pow_exec(p: u32) -> (r: u128)
    requires
        p <= 4,
    ensures
        r == ten_pow(p as nat),
{
    proof {
        reveal_with_fuel(ten_pow, 5);
    }
    if p == 0 {
        1
    } else if p == 1 {
        10
    } else if p == 2 {
        100
    } else if p == 3 {
        1000
    } else {
        10000
    }
}

/// `a / d` rounded to the nearest integer, ties to even.
pub fn round_half_even_exec(a: u128, d: u128) -> (r: u128)
    requires
        0 < d <= two_pow(120),
        a <= two_pow(120),
    ensures
        r == round_half_even(a as nat, d as nat),
{
    proof {
        lemma_two_pow_consts();
    }
    let q = a / d;
    let r = a % d;
    if 2 * r > d || (2 * r == d && q % 2 == 1) {
        q + 1
    } else {
        q
    }
}

/// The double nearest to an integer (see `nearest_double`).
pub fn nearest_double_exec(n: u64) -> (r: u128)
    ensures
        r == nearest_double(n as nat),
        r <= two_pow(64),
{
    proof {
        lemma_two_pow_consts();
        lemma_nearest_double_bound(n as nat);
    }
    let bl = bit_len_exec(n as u128);
    if bl <= 53 {
        return n as u128;
    }
    proof {
        lemma_bit_len_bound(n as nat);
        if bl > 64 {
            lemma_two_pow_mono(64, (bl - 1) as nat);
        }
    }
    let s = bl - 53;
    let p = two_pow_exec(s);
    proof {
        lemma_two_pow_mono(s as nat, 120);
        lemma_two_pow_pos(s as nat);
        lemma_round_half_even_le(n as nat, p as nat);
    }
    let m = round_half_even_exec(n as u128, p);
    proof {
        assert(m * p <= two_pow(64));
    }
    m * p
}

/// The double nearest to `a / d` (see `quotient_double`).
pub fn quotient_double_exec(a: u128, d: u128) -> (r: (u128, u32))
    requires
        0 < d <= a,
        a <= two_pow(64),
        bit_len((a / d) as nat) <= 53,
    ensures
        (r.0 as nat, r.1 as nat) == quotient_double(a as nat, d as nat),
        r.0 <= two_pow(53),
        r.1 <= 52,
{
    let q = a / d;
    proof {
        assert(q >= 1) by (nonlinear_arith)
            requires
                0 < d <= a,
                q == a / d,
        ;
    }
    let l = bit_len_exec(q);
    proof {
        lemma_bit_len_bound(q as nat);
    }
    let sh = 53 - l;
    let p = two_pow_exec(sh);
    proof {
        lemma_quotient_double_bound(a as nat, d as nat);
        lemma_two_pow_mono(sh as nat, 52);
        lemma_two_pow_consts();
        lemma_two_pow_consts();
        assert(a * p <= 0x1_0000_0000_0000_0000 * 0x10_0000_0000_0000) by (nonlinear_arith)
            requires
                a <= 0x1_0000_0000_0000_0000,
                p <= 0x10_0000_0000_0000,
        ;
        lemma_two_pow_consts();
    }
    let m = round_half_even_exec(a * p, d);
    (m, sh)
}

/// Decimal digits of a `u128`.
pub fn u128_to_dec(n: u128) -> (s: String)
    ensures
        s@ == dec(n as nat),
    decreases n,
{
    if n <= u64::MAX as u128 {
        return crate::text::u64_to_dec(n as u64);
    }
    let mut s = u128_to_dec(n / 10);
    let d = crate::text::u64_to_dec((n % 10) as u64);
    s.append(d.as_str());
    proof {
        assert(n >= 10);
        assert(dec(n as nat) == dec((n / 10) as nat) + dec((n % 10) as nat)) by {
            reveal_with_fuel(dec, 2);
        }
    }
    s
}

/// `m / 2^sh` with `p` decimal places (see `fixed_digits`); also returns
/// the scaled digits.
pub fn fixed_exec(m: u128, sh: u32, p: u32) -> (r: (String, u128))
    requires
        m <= two_pow(64),
        sh <= 100,
        1 <= p <= 4,
    ensures
        r.0@ == fixed_digits(m as nat, sh as nat, p as nat),
        r.1 == scaled(m as nat, sh as nat, p as nat),
{
    let t = ten_pow_exec(p);
    proof {
        reveal_with_fuel(ten_pow, 5);
        lemma_two_pow_consts();
        assert(m * t <= 0x1_0000_0000_0000_0000 * 10000) by (nonlinear_arith)
            requires
                m <= 0x1_0000_0000_0000_0000,
                t <= 10000,
        ;
        lemma_two_pow_mono(sh as nat, 120);
        lemma_two_pow_pos(sh as nat);
    }
    let d = two_pow_exec(sh);
    let h = round_half_even_exec(m * t, d);
    let mut s = u128_to_dec(h / t);
    s.append(".");
    let frac = (h % t) as u64;
    let f = u64_to_dec_padded(frac, p as usize);
    s.append(f.as_str());
    (s, h)
}

/// A number below `2^k` has at most `k` binary digits.
pub proof fn lemma_bit_len_le(x: nat, k: nat)
    requires
        x < two_pow(k),
    ensures
        bit_len(x) <= k,
{
    lemma_bit_len_bound(x);
    if bit_len(x) > k {
        lemma_two_pow_mono(k, (bit_len(x) - 1) as nat);
    }
}

/// Rounding to the nearest double moves an integer below `2^64` by less
/// than `2^11`, and leaves integers below `2^53` alone.
pub proof fn lemma_nearest_double_close(n: nat)
    requires
        n < two_pow(64),
    ensures
        n < two_pow(53) ==> nearest_double(n) == n,
        nearest_double(n) + two_pow(11) > n,
{
    lemma_two_pow_consts();
    lemma_two_pow_pos(11);
    if n < two_pow(53) {
        lemma_bit_len_le(n, 53);
    }
    let bl = bit_len(n);
    if bl > 53 {
        lemma_bit_len_le(n, 64);
        let s = (bl - 53) as nat;
        let p = two_pow(s);
        lemma_two_pow_mono(s, 11);
        lemma_two_pow_pos(s);
        vstd::arithmetic::div_mod::lemma_fundamental_div_mod(n as int, p as int);
        lemma_round_half_even_le(n, p);
        let q = n / p;
        let m = round_half_even(n, p);
        assert(m * p >= q * p) by (nonlinear_arith)
            requires
                m >= q,
        ;
        assert(q * p == p * q) by (nonlinear_arith);
        vstd::arithmetic::div_mod::lemma_mod_bound(n as int, p as int);
        assert(nearest_double(n) == m * p);
        assert(m * p + two_pow(11) > n);
    }
}

/// `a / d` to `p` places, through the nearest double of the quotient;
/// returns the digits and the scaled value.
pub fn fixed_quotient(a: u128, d: u128, p: u32) -> (r: (String, u128))
    requires
        0 < d <= a,
        a <= two_pow(64),
        a / d < two_pow(53),
        1 <= p <= 4,
    ensures
        r.0@ == fixed_digits(quotient_double(a as nat, d as nat).0, quotient_double(a as nat, d as nat).1, p as nat),
        r.1 == scaled(quotient_double(a as nat, d as nat).0, quotient_double(a as nat, d as nat).1, p as nat),
{
    proof {
        lemma_bit_len_le((a / d) as nat, 53);
        lemma_two_pow_consts();
    }
    let (m, sh) = quotient_double_exec(a, d);
    fixed_exec(m, sh, p)
}

} // verus!
