use vstd::prelude::*;
use crate::text::{decimal, digit_char, digit_of, push_char, push_decimal};

verus! {

/// Spacing between consecutive values that an `f64` can hold around `b`:
/// one below 2^53, doubling with each further binary digit.
pub open spec fn f64_spacing(b: nat) -> nat
    decreases b,
{
    if b < 0x20_0000_0000_0000 {
        1
    } else {
        2 * f64_spacing(b / 2)
    }
}

/// `n / d` rounded to the nearest integer, ties to the even one.
pub open spec fn div_round_half_even(n: nat, d: nat) -> nat {
    let q = n / d;
    let r = n % d;
    if 2 * r > d || (2 * r == d && q % 2 == 1) {
        q + 1
    } else {
        q
    }
}

/// The integer that `b as f64` denotes: `b` rounded to the nearest multiple of
/// the spacing of `f64` values at `b`, ties to even.
pub open spec fn as_f64_value(b: nat) -> nat {
    div_round_half_even(b, f64_spacing(b)) * f64_spacing(b)
}

/// A count of hundredths written with two decimals: `12.34`.
pub open spec fn fixed2(q: nat) -> Seq<char> {
    decimal(q / 100) + seq!['.', digit_char((q / 10) % 10), digit_char(q % 10)]
}

/// The human-readable size of a byte count: gigabytes with two decimals when
/// it reaches 1 GiB, megabytes with two decimals below that (binary units,
/// rounded half to even as `{:.2}` rounds a float).
pub open spec fn format_size_spec(bytes: nat) -> Seq<char> {
    let v = as_f64_value(bytes);
    if v >= 0x4000_0000 {
        fixed2(div_round_half_even(v * 100, 0x4000_0000)) + seq![' ', 'G', 'B']
    } else {
        fixed2(div_round_half_even(v * 100, 0x10_0000)) + seq![' ', 'M', 'B']
    }
}

fn div_round_half_even_exec(n: u128, d: u128) -> (q: u128)
    requires
        d > 0,
        n / d < u128::MAX,
    ensures
        q == div_round_half_even(n as nat, d as nat),
{
    let q = n / d;
    let r = n % d;
    if r > d - r || (r == d - r && q % 2 == 1) {
        q + 1
    } else {
        q
    }
}

proof fn lemma_spacing_quotient(b: nat)
    ensures
        f64_spacing(b) >= 1,
        b / f64_spacing(b) < 0x20_0000_0000_0000,
    decreases b,
{
    if b >= 0x20_0000_0000_0000 {
        lemma_spacing_quotient(b / 2);
        let s = f64_spacing(b / 2);
        vstd::arithmetic::div_mod::lemma_div_denominator(b as int, 2, s as int);
    }
}

/// Formats a byte count as `"<x.xx> GB"` or `"<x.xx> MB"`.
pub fn format_size(bytes: u64) -> (res: String)
    ensures
        res@ == format_size_spec(bytes as nat),
{
    let b: u128 = bytes as u128;
    let mut c: u128 = b;
    let mut p: u128 = 1;
    while c >= 0x20_0000_0000_0000
        invariant
            f64_spacing(b as nat) == p * f64_spacing(c as nat),
            1 <= p,
            p * c <= b,
            p <= 0x1000,
            b < 0x1_0000_0000_0000_0000,
        decreases c,
    {
        assert(p * 2 * (c / 2) <= p * c) by (nonlinear_arith)
            requires p >= 1;
        assert(p < 0x800) by (nonlinear_arith)
            requires
                p * c <= b,
                c >= 0x20_0000_0000_0000,
                b < 0x1_0000_0000_0000_0000,
        ;
        assert(p * (2 * f64_spacing((c / 2) as nat)) == (p * 2) * f64_spacing((c / 2) as nat))
            by (nonlinear_arith);
        c = c / 2;
        p = p * 2;
    }
    assert(f64_spacing(c as nat) == 1);
    let ghost sc = f64_spacing(c as nat);
    assert(p * sc == p) by (nonlinear_arith) requires sc == 1;
    assert(f64_spacing(b as nat) == p);
    proof {
        lemma_spacing_quotient(b as nat);
    }
    assert(b / p < 0x20_0000_0000_0000);
    let m = div_round_half_even_exec(b, p);
    assert(m <= 0x20_0000_0000_0000);
    assert(m * p <= 0x20_0000_0000_0000 * 0x1000) by (nonlinear_arith)
        requires m <= 0x20_0000_0000_0000, p <= 0x1000, p >= 1;
    let v: u128 = m * p;
    assert(v == as_f64_value(bytes as nat));
    let mut res = String::new();
    let q: u128;
    if v >= 0x4000_0000 {
        q = div_round_half_even_exec(v * 100, 0x4000_0000);
    } else {
        q = div_round_half_even_exec(v * 100, 0x10_0000);
    }
    assert(q <= v * 100 / 0x10_0000 + 1);
    let whole: u64 = (q / 100) as u64;
    let tens: u64 = ((q / 10) % 10) as u64;
    let ones: u64 = (q % 10) as u64;
    push_decimal(&mut res, whole);
    push_char(&mut res, '.');
    push_char(&mut res, digit_of(tens));
    push_char(&mut res, digit_of(ones));
    push_char(&mut res, ' ');
    if v >= 0x4000_0000 {
        push_char(&mut res, 'G');
    } else {
        push_char(&mut res, 'M');
    }
    push_char(&mut res, 'B');
    assert(res@ == format_size_spec(bytes as nat));
    res
}

} // verus!
