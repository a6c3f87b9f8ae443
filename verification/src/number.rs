//! Numbers as people read them: decimal digits, byte sizes with units,
//! and durations.

use vstd::prelude::*;
use crate::text::{chars_of, string_of};

verus! {

pub open spec fn digit_char(d: nat) -> char {
    ((d + 48) as u32) as char
}

/// The decimal digits of `n`, most significant first, without leading zeros.
pub open spec fn decimal(n: nat) -> Seq<char>
    decreases n,
{
    if n < 10 {
        seq![digit_char(n)]
    } else {
        decimal(n / 10).push(digit_char(n % 10))
    }
}

fn digit(d: u128) -> (c: char)
    requires
        d < 10,
    ensures
        c == digit_char(d as nat),
{
    ((d as u8) + 48u8) as char
}

/// The decimal digits of `n`.
pub fn decimal_chars(n: u128) -> (v: Vec<char>)
    ensures
        v@ == decimal(n as nat),
    decreases n,
{
    if n < 10 {
        let mut v: Vec<char> = Vec::new();
        v.push(digit(n));
        v
    } else {
        let mut v = decimal_chars(n / 10);
        v.push(digit(n % 10));
        v
    }
}

/// `v` followed by the characters of `t`.
pub fn append_str(v: &mut Vec<char>, t: &str)
    ensures
        final(v)@ == old(v)@ + t@,
{
    let c = chars_of(t);
    let mut i: usize = 0;
    while i < c.len()
        invariant
            i <= c@.len(),
            c@ == t@,
            v@ == old(v)@ + c@.subrange(0, i as int),
        decreases c.len() - i,
    {
        v.push(c[i]);
        assert(old(v)@ + c@.subrange(0, i + 1) =~= (old(v)@ + c@.subrange(0, i as int)).push(c@[i as int]));
        i = i + 1;
    }
    assert(c@.subrange(0, i as int) =~= c@);
}

/// `v` followed by the characters `w` holds.
pub fn append_chars(v: &mut Vec<char>, w: &Vec<char>)
    ensures
        final(v)@ == old(v)@ + w@,
{
    let mut i: usize = 0;
    while i < w.len()
        invariant
            i <= w@.len(),
            v@ == old(v)@ + w@.subrange(0, i as int),
        decreases w.len() - i,
    {
        v.push(w[i]);
        assert(old(v)@ + w@.subrange(0, i + 1) =~= (old(v)@ + w@.subrange(0, i as int)).push(w@[i as int]));
        i = i + 1;
    }
    assert(w@.subrange(0, i as int) =~= w@);
}

pub open spec fn p2(e: nat) -> nat
    decreases e,
{
    if e == 0 { 1 } else { 2 * p2((e - 1) as nat) }
}

proof fn lemma_p2_monotone(a: nat, b: nat)
    requires
        a <= b,
    ensures
        p2(a) <= p2(b),
        p2(a) >= 1,
    decreases b,
{
    if b > a {
        lemma_p2_monotone(a, (b - 1) as nat);
    }
    if a > 0 {
        lemma_p2_monotone(0, (a - 1) as nat);
    }
}

fn pow2(e: u32) -> (r: u128)
    requires
        e <= 64,
    ensures
        r == p2(e as nat),
{
    let mut r: u128 = 1;
    let mut i: u32 = 0;
    while i < e
        invariant
            i <= e <= 64,
            r == p2(i as nat),
        decreases e - i,
    {
        proof {
            lemma_p2_monotone(i as nat, 64);
            lemma_p2_facts();
        }
        r = r * 2;
        i = i + 1;
    }
    r
}

/// `n / d` rounded to the nearest integer, ties to the even neighbour.
pub open spec fn round_half_even(n: nat, d: nat) -> nat {
    let q = n / d;
    let r = n % d;
    if 2 * r > d || (2 * r == d && q % 2 == 1) { q + 1 } else { q }
}

fn round_half_even_exec(n: u128, d: u128) -> (q: u128)
    requires
        d > 0,
        n / d < u128::MAX,
    ensures
        q == round_half_even(n as nat, d as nat),
{
    let q = n / d;
    let r = n % d;
    if r > d - r || (r == d - r && q % 2 == 1) { q + 1 } else { q }
}

/// How many low bits `bytes as f64` rounds away: the first `e` with `b < 2^(53+e)`.
pub open spec fn f64_shift(b: nat, e: nat) -> nat
    decreases 11 - e,
{
    if e >= 11 || b < p2(53 + e) { e } else { f64_shift(b, e + 1) }
}

/// `bytes as f64`: the nearest value with a 53-bit significand, ties to even.
pub open spec fn f64_round(b: nat) -> nat {
    let e = f64_shift(b, 0);
    round_half_even(b, p2(e)) * p2(e)
}

pub open spec fn p1024(u: nat) -> nat {
    p2(10 * u)
}

/// How many times `value >= 1024.0` divides a size by 1024, at most four times.
pub open spec fn unit_from(r: nat, u: nat) -> nat
    decreases 4 - u,
{
    if u < 4 && r >= p1024(u + 1) { unit_from(r, u + 1) } else { u }
}

pub open spec fn unit_name(u: nat) -> Seq<char> {
    if u == 0 {
        "Б"@
    } else if u == 1 {
        "КБ"@
    } else if u == 2 {
        "МБ"@
    } else if u == 3 {
        "ГБ"@
    } else {
        "ТБ"@
    }
}

/// What `human_bytes` writes for `bytes`: the size in the largest of
/// Б, КБ, МБ, ГБ, ТБ it reaches, whole below ГБ and with one decimal from ГБ
/// up, rounded as `{:.0}` and `{:.1}` round the `f64` value.
pub open spec fn spec_human_bytes(bytes: nat) -> Seq<char> {
    if bytes == 0 {
        "0 Б"@
    } else {
        let r = f64_round(bytes);
        let u = unit_from(r, 0);
        if u >= 3 {
            let q = round_half_even(r * 10, p1024(u));
            decimal(q / 10) + "."@ + decimal(q % 10) + " "@ + unit_name(u)
        } else {
            decimal(round_half_even(r, p1024(u))) + " "@ + unit_name(u)
        }
    }
}

fn unit_str(u: u32) -> (s: &'static str)
    requires
        u <= 4,
    ensures
        s@ == unit_name(u as nat),
{
    if u == 0 {
        "Б"
    } else if u == 1 {
        "КБ"
    } else if u == 2 {
        "МБ"
    } else if u == 3 {
        "ГБ"
    } else {
        "ТБ"
    }
}

proof fn lemma_p2_facts()
    ensures
        p2(53) == 9007199254740992,
        p2(64) == 18446744073709551616,
        p2(10) == 1024,
        p2(20) == 1048576,
        p2(30) == 1073741824,
        p2(40) == 1099511627776,
{
    reveal_with_fuel(p2, 65);
}

/// A byte count the way a person would write it: `0 Б`, `1023 Б`, `1 КБ`, `16.0 ГБ`.
pub fn human_bytes(bytes: u64) -> (s: String)
    ensures
        s@ == spec_human_bytes(bytes as nat),
{
    if bytes == 0 {
        return string_of(&chars_of("0 Б"));
    }
    let b = bytes as u128;
    // bytes as f64
    let mut e: u32 = 0;
    proof {
        lemma_p2_facts();
    }
    while e < 11 && b >= pow2(53 + e)
        invariant
            e <= 11,
            f64_shift(b as nat, e as nat) == f64_shift(b as nat, 0),
        decreases 11 - e,
    {
        e = e + 1;
    }
    let scale = pow2(e);
    proof {
        lemma_p2_monotone(e as nat, 11);
        lemma_p2_monotone(0, e as nat);
        assert(p2(11) == 2048) by {
            reveal_with_fuel(p2, 12);
        }
        assert(b / scale <= b);
    }
    let q = round_half_even_exec(b, scale);
    assert(q <= b / scale + 1);
    assert(q * scale <= 2 * 18446744073709551616u128 * 2048) by (nonlinear_arith)
        requires q <= b / scale + 1, b < 18446744073709551616u128, scale <= 2048, scale >= 1;
    let r = q * scale;
    // unit
    let mut u: u32 = 0;
    while u < 4 && r >= pow2(10 * (u + 1))
        invariant
            u <= 4,
            unit_from(r as nat, u as nat) == unit_from(r as nat, 0),
        decreases 4 - u,
    {
        u = u + 1;
    }
    let div = pow2(10 * u);
    proof {
        lemma_p2_monotone(0, (10 * u) as nat);
    }
    let mut out: Vec<char> = Vec::new();
    if u >= 3 {
        assert(r * 10 < u128::MAX) by (nonlinear_arith)
            requires r <= 2 * 18446744073709551616u128 * 2048;
        let r10 = r * 10;
        assert(r10 / div <= r10) by (nonlinear_arith)
            requires div >= 1;
        let t = round_half_even_exec(r10, div);
        let whole = decimal_chars(t / 10);
        append_chars(&mut out, &whole);
        append_str(&mut out, ".");
        let frac = decimal_chars(t % 10);
        append_chars(&mut out, &frac);
    } else {
        assert(r / div <= r) by (nonlinear_arith)
            requires div >= 1;
        let t = round_half_even_exec(r, div);
        let whole = decimal_chars(t);
        append_chars(&mut out, &whole);
    }
    append_str(&mut out, " ");
    append_str(&mut out, unit_str(u));
    string_of(&out)
}

/// `seconds` the way a person says it: `45 с`, `10 хв`, `2 год 10 хв`.
pub open spec fn spec_format_duration(seconds: nat) -> Seq<char> {
    if seconds <= 59 {
        decimal(seconds) + " с"@
    } else if seconds <= 3599 {
        decimal(seconds / 60) + " хв"@
    } else {
        decimal(seconds / 3600) + " год "@ + decimal((seconds % 3600) / 60) + " хв"@
    }
}

/// A duration for the progress line.
pub fn format_duration(seconds: u64) -> (s: String)
    ensures
        s@ == spec_format_duration(seconds as nat),
{
    let n = seconds as u128;
    let mut out: Vec<char> = Vec::new();
    if seconds <= 59 {
        let d = decimal_chars(n);
        append_chars(&mut out, &d);
        append_str(&mut out, " с");
    } else if seconds <= 3599 {
        let d = decimal_chars(n / 60);
        append_chars(&mut out, &d);
        append_str(&mut out, " хв");
    } else {
        let h = decimal_chars(n / 3600);
        append_chars(&mut out, &h);
        append_str(&mut out, " год ");
        let m = decimal_chars((n % 3600) / 60);
        append_chars(&mut out, &m);
        append_str(&mut out, " хв");
    }
    string_of(&out)
}

} // verus!
