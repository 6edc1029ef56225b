//! Fixed-point scalars: an integer `v` stands for the number `v / 2^32`.

use vstd::prelude::*;

verus! {

/// The raw value of the number one.
pub const ONE: i64 = 4294967296;

/// The raw value of one half.
pub const HALF: i64 = 2147483648;

/// The whole part of `v`, rounded down: the index of the unit interval that holds it.
pub open spec fn floor_units(v: int) -> int {
    v / (ONE as int)
}

/// The whole number nearest to `v`, halves rounded up.
pub open spec fn round_units(v: int) -> int {
    (v + HALF) / (ONE as int)
}

/// The distance from `v` down to the whole number below it, in `[0, ONE)`.
pub open spec fn fpart_spec(v: int) -> int {
    v % (ONE as int)
}

/// The distance from `v` up to the next whole number, in `(0, ONE]`.
pub open spec fn rfpart_spec(v: int) -> int {
    ONE - v % (ONE as int)
}

/// The product of two fixed-point numbers, rounded down.
pub open spec fn scale_spec(a: int, b: int) -> int {
    (a * b) / (ONE as int)
}

/// Absolute value.
pub open spec fn magnitude(v: int) -> int {
    if v < 0 {
        -v
    } else {
        v
    }
}

/// Quotient rounded toward zero, as machine division of signed integers does.
pub open spec fn trunc_div(a: int, b: int) -> int {
    if a >= 0 {
        a / b
    } else {
        -((-a) / b)
    }
}

pub proof fn lemma_floor_div_bounds(a: int, b: int)
    requires
        b > 0,
    ensures
        a >= 0 ==> 0 <= a / b <= a,
        a < 0 ==> a <= a / b < 0,
        b * (a / b) <= a < b * (a / b) + b,
{
    assert(b * (a / b) <= a < b * (a / b) + b && (a >= 0 ==> 0 <= a / b <= a) && (a < 0 ==> a <= a / b
        < 0)) by (nonlinear_arith)
        requires
            b > 0,
    ;
}

/// Rounding down is monotone: a quotient lies between the quotients of any bounds
/// of its numerator that are multiples of the divisor.
pub proof fn lemma_floor_div_between(a: int, b: int, lo: int, hi: int)
    requires
        b > 0,
        lo * b <= a <= hi * b,
    ensures
        lo <= a / b <= hi,
{
    assert(lo <= a / b <= hi) by (nonlinear_arith)
        requires
            b > 0,
            lo * b <= a <= hi * b,
    ;
}

/// Division rounded down, for a positive divisor.
pub fn floor_div(a: i128, b: i128) -> (q: i128)
    requires
        b > 0,
    ensures
        q == a as int / b as int,
{
    proof {
        lemma_floor_div_bounds(a as int, b as int);
    }
    match a.checked_div_euclid(b) {
        Some(q) => q,
        None => 0,
    }
}

/// The whole part of `v`, rounded down.
pub fn ipart(v: i128) -> (r: i128)
    ensures
        r == floor_units(v as int),
{
    floor_div(v, ONE as i128)
}

/// The whole number nearest to `v`, halves rounded up.
pub fn round(v: i64) -> (r: i128)
    ensures
        r == round_units(v as int),
{
    floor_div(v as i128 + HALF as i128, ONE as i128)
}

/// The fractional part of `v`.
pub fn fpart(v: i128) -> (r: i128)
    ensures
        r == fpart_spec(v as int),
        0 <= r < ONE,
{
    proof {
        lemma_floor_div_bounds(v as int, ONE as int);
    }
    let q: i128 = floor_div(v, ONE as i128);
    v - q * (ONE as i128)
}

/// What is missing from the fractional part of `v` to a whole.
pub fn rfpart(v: i128) -> (r: i128)
    ensures
        r == rfpart_spec(v as int),
        0 < r <= ONE,
{
    ONE as i128 - fpart(v)
}

/// A product of two fractions of one is a fraction of one, and no more than
/// either factor.
pub proof fn lemma_scale_unit(a: int, b: int)
    requires
        0 <= a <= ONE,
        0 <= b <= ONE,
    ensures
        0 <= scale_spec(a, b) <= a,
        0 <= scale_spec(a, b) <= b,
        0 <= a * b <= (ONE as int) * (ONE as int),
{
    let one = ONE as int;
    assert(0 <= a * b <= a * one && a * b <= one * b && a * b <= one * one) by (nonlinear_arith)
        requires
            0 <= a <= one,
            0 <= b <= one,
    ;
    lemma_floor_div_between(a * b, one, 0, a);
    assert(b * one == one * b) by (nonlinear_arith);
    lemma_floor_div_between(a * b, one, 0, b);
}

/// The product of two fixed-point numbers, rounded down.
pub fn scale(a: i128, b: i128) -> (r: i128)
    requires
        i128::MIN <= a * b <= i128::MAX,
    ensures
        r == scale_spec(a as int, b as int),
{
    floor_div(a * b, ONE as i128)
}

/// The raw value of a whole number; `None` when it is too large to carry 32
/// fractional bits.
pub fn from_whole(n: i64) -> (r: Option<i64>)
    ensures
        r is Some <==> i64::MIN <= n * ONE <= i64::MAX,
        r matches Some(v) ==> v == n * ONE,
{
    n.checked_mul(ONE)
}

/// The whole part of `v`, rounded toward zero.
pub fn whole(v: i64) -> (r: i64)
    ensures
        r == trunc_div(v as int, ONE as int),
{
    v / ONE
}

} // verus!
