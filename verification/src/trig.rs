//! Sine, cosine and tangent of a fixed-point angle, by their power series.

use vstd::prelude::*;
use crate::fixed::{fx_add, fx_div, fx_int, fx_mul, fx_neg, Fixed, ONE_RAW};

verus! {

/// Index of the last term of the series that is summed.
pub const LAST_TERM: u32 = 10;

/// Term `k` of the sine series of `x`: `(-1)^k x^(2k+1) / (2k+1)!`, each
/// term made from the one before.
pub open spec fn sin_term(x: int, k: nat) -> int
    decreases k,
{
    if k == 0 {
        x
    } else {
        let before = sin_term(x, (k - 1) as nat);
        fx_neg(fx_div(fx_mul(before, fx_mul(x, x)), fx_int((2 * k * (2 * k + 1)) as int)))
    }
}

/// Sum of the terms `0` to `n` of the sine series of `x`.
pub open spec fn sin_sum(x: int, n: nat) -> int
    decreases n,
{
    if n == 0 {
        sin_term(x, 0)
    } else {
        fx_add(sin_sum(x, (n - 1) as nat), sin_term(x, n))
    }
}

/// Term `k` of the cosine series of `x`: `(-1)^k x^(2k) / (2k)!`, each term
/// made from the one before.
pub open spec fn cos_term(x: int, k: nat) -> int
    decreases k,
{
    if k == 0 {
        ONE_RAW as int
    } else {
        let before = cos_term(x, (k - 1) as nat);
        fx_neg(fx_div(fx_mul(before, fx_mul(x, x)), fx_int((2 * k - 1) * (2 * k))))
    }
}

/// Sum of the terms `0` to `n` of the cosine series of `x`.
pub open spec fn cos_sum(x: int, n: nat) -> int
    decreases n,
{
    if n == 0 {
        cos_term(x, 0)
    } else {
        fx_add(cos_sum(x, (n - 1) as nat), cos_term(x, n))
    }
}

/// Sine of the angle `x` in radians.
pub open spec fn fx_sin(x: int) -> int {
    sin_sum(x, LAST_TERM as nat)
}

/// Cosine of the angle `x` in radians.
pub open spec fn fx_cos(x: int) -> int {
    cos_sum(x, LAST_TERM as nat)
}

/// Tangent of the angle `x` in radians: sine over cosine.
pub open spec fn fx_tan(x: int) -> int {
    fx_div(fx_sin(x), fx_cos(x))
}

/// The sine of the angle `x` in radians.
pub fn sin(x: Fixed) -> (r: Fixed)
    ensures
        r@ == fx_sin(x@),
{
    let x2 = x.mul(&x);
    let mut term = x;
    let mut sum = x;
    let mut k: u32 = 0;
    while k < LAST_TERM
        invariant
            k <= LAST_TERM,
            x2@ == fx_mul(x@, x@),
            term@ == sin_term(x@, k as nat),
            sum@ == sin_sum(x@, k as nat),
        decreases LAST_TERM - k,
    {
        k = k + 1;
        let a: i64 = 2 * k as i64;
        assert(0 <= a * (a + 1) <= 420) by (nonlinear_arith)
            requires
                0 <= a <= 20,
        ;
        let d: i64 = a * (a + 1);
        term = term.mul(&x2).div(&Fixed::from_int(d)).neg();
        sum = sum.add(&term);
    }
    sum
}

/// The cosine of the angle `x` in radians.
pub fn cos(x: Fixed) -> (r: Fixed)
    ensures
        r@ == fx_cos(x@),
{
    let x2 = x.mul(&x);
    let mut term = Fixed::one();
    let mut sum = Fixed::one();
    let mut k: u32 = 0;
    while k < LAST_TERM
        invariant
            k <= LAST_TERM,
            x2@ == fx_mul(x@, x@),
            term@ == cos_term(x@, k as nat),
            sum@ == cos_sum(x@, k as nat),
        decreases LAST_TERM - k,
    {
        k = k + 1;
        let a: i64 = 2 * k as i64;
        assert(0 <= (a - 1) * a <= 420) by (nonlinear_arith)
            requires
                1 <= a <= 20,
        ;
        let d: i64 = (a - 1) * a;
        term = term.mul(&x2).div(&Fixed::from_int(d)).neg();
        sum = sum.add(&term);
    }
    sum
}

/// The tangent of the angle `x` in radians.
pub fn tan(x: Fixed) -> (r: Fixed)
    ensures
        r@ == fx_tan(x@),
{
    sin(x).div(&cos(x))
}

} // verus!
