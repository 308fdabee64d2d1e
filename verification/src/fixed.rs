//! Saturating fixed-point scalars.
//!
//! A [`Fixed`] holds a rational number as a 64-bit numerator over the fixed
//! denominator `2^32`.  Every operation is total: a result that does not fit
//! is clamped to the largest or smallest representable value, a quotient is
//! rounded towards zero, and a square root is rounded down.  The view of a
//! `Fixed` is its numerator as a mathematical integer, and every contract in
//! this module is an equation between such numerators.

use vstd::prelude::*;

verus! {

/// Numerator of the value `1`.
pub const ONE_RAW: i64 = 0x1_0000_0000;

/// Largest numerator; the smallest one is its negation.
pub const MAX_RAW: i64 = 0x7fff_ffff_ffff_ffff;

/// Clamps an integer into the representable range `[-MAX_RAW, MAX_RAW]`.
pub open spec fn sat(x: int) -> int {
    if x > MAX_RAW {
        MAX_RAW as int
    } else if x < -MAX_RAW {
        -MAX_RAW
    } else {
        x
    }
}

/// Quotient rounded towards zero, for a non-zero divisor.
pub open spec fn trunc_div(a: int, b: int) -> int
    recommends
        b != 0,
{
    if a >= 0 && b > 0 {
        a / b
    } else if a < 0 && b > 0 {
        -((-a) / b)
    } else if a >= 0 && b < 0 {
        -(a / (-b))
    } else {
        (-a) / (-b)
    }
}

/// `-1`, `0` or `1`, scaled to the extreme numerators: what a quotient by zero saturates to.
pub open spec fn sign_limit(a: int) -> int {
    if a > 0 {
        MAX_RAW as int
    } else if a < 0 {
        -MAX_RAW
    } else {
        0
    }
}

/// Sum of two numerators.
pub open spec fn fx_add(a: int, b: int) -> int {
    sat(a + b)
}

/// Difference of two numerators.
pub open spec fn fx_sub(a: int, b: int) -> int {
    sat(a - b)
}

/// Negation of a numerator.
pub open spec fn fx_neg(a: int) -> int {
    sat(-a)
}

/// Absolute value of a numerator.
pub open spec fn fx_abs(a: int) -> int {
    if a < 0 {
        sat(-a)
    } else {
        sat(a)
    }
}

/// Product of two values, as a numerator.
pub open spec fn fx_mul(a: int, b: int) -> int {
    sat(trunc_div(a * b, ONE_RAW as int))
}

/// Quotient of two values, as a numerator.  A quotient by zero saturates
/// with the sign of the dividend, and `0 / 0` is `0`.
pub open spec fn fx_div(a: int, b: int) -> int {
    if b == 0 {
        sign_limit(a)
    } else {
        sat(trunc_div(a * ONE_RAW, b))
    }
}

/// `r` is the integer square root of `n`.
pub open spec fn is_isqrt(n: int, r: int) -> bool {
    0 <= r && r * r <= n < (r + 1) * (r + 1)
}

/// Integer square root of a non-negative integer, rounded down.
pub open spec fn isqrt(n: int) -> int {
    choose|r: int| is_isqrt(n, r)
}

/// Square root of a value, as a numerator; `0` for a value that is not positive.
pub open spec fn fx_sqrt(a: int) -> int {
    if a <= 0 {
        0
    } else {
        isqrt(a * ONE_RAW)
    }
}

/// The smaller of two numerators.
pub open spec fn fx_min(a: int, b: int) -> int {
    if a <= b {
        a
    } else {
        b
    }
}

/// The larger of two numerators.
pub open spec fn fx_max(a: int, b: int) -> int {
    if a >= b {
        a
    } else {
        b
    }
}

/// `a` raised to the power `n` by repeated multiplication from the left.
pub open spec fn fx_powi(a: int, n: nat) -> int
    decreases n,
{
    if n == 0 {
        ONE_RAW as int
    } else {
        fx_mul(fx_powi(a, (n - 1) as nat), a)
    }
}

/// Numerator of the integer `n`.
pub open spec fn fx_int(n: int) -> int {
    sat(n * ONE_RAW)
}

/// Numerator of the fraction `num / den`.
pub open spec fn fx_ratio(num: int, den: int) -> int {
    if den == 0 {
        sign_limit(num)
    } else {
        sat(trunc_div(num * ONE_RAW, den))
    }
}

/// A value times the integer `k`.
pub open spec fn fx_times(a: int, k: int) -> int {
    sat(a * k)
}

/// A value divided by the integer `k`, rounded towards zero; a quotient by
/// zero saturates with the sign of the dividend.
pub open spec fn fx_over(a: int, k: int) -> int {
    if k == 0 {
        sign_limit(a)
    } else {
        sat(trunc_div(a, k))
    }
}

/// Whole part of a value, rounded towards zero.
pub open spec fn fx_trunc(a: int) -> int {
    trunc_div(a, ONE_RAW as int)
}

/// Whole part of a value clamped into `[0, hi]`.
pub open spec fn fx_trunc_clamped(a: int, hi: int) -> int {
    let w = fx_trunc(a);
    if w < 0 {
        0
    } else if w > hi {
        hi
    } else {
        w
    }
}

/// A number with 32 fractional bits that saturates instead of overflowing.
#[derive(Clone, Copy, Debug, PartialEq, Eq, Structural)]
pub struct Fixed {
    raw: i64,
}

impl View for Fixed {
    type V = int;

    closed spec fn view(&self) -> int {
        self.raw as int
    }
}

/// The product of two 64-bit numerators fits in 128 bits with room to spare.
proof fn lemma_product_fits(a: int, b: int)
    by (nonlinear_arith)
    requires
        -0x8000_0000_0000_0000 <= a <= 0x7fff_ffff_ffff_ffff,
        -0x8000_0000_0000_0000 <= b <= 0x7fff_ffff_ffff_ffff,
    ensures
        -0x4000_0000_0000_0000_0000_0000_0000_0000 <= a * b
            <= 0x4000_0000_0000_0000_0000_0000_0000_0000,
{
}

/// An integer square root is unique.
pub proof fn lemma_isqrt_unique(n: int, r: int)
    requires
        is_isqrt(n, r),
    ensures
        isqrt(n) == r,
{
    let s = isqrt(n);
    assert(is_isqrt(n, s));
    assert(s == r) by (nonlinear_arith)
        requires
            0 <= r,
            0 <= s,
            r * r <= n < (r + 1) * (r + 1),
            s * s <= n < (s + 1) * (s + 1),
    {
        if s < r {
            assert((s + 1) * (s + 1) <= r * r);
        }
        if r < s {
            assert((r + 1) * (r + 1) <= s * s);
        }
    }
}

/// Every non-negative integer has an integer square root.
pub proof fn lemma_isqrt_exists(n: int)
    requires
        0 <= n,
    ensures
        is_isqrt(n, isqrt(n)),
    decreases n,
{
    if n == 0 {
        assert(is_isqrt(0, 0));
    } else {
        lemma_isqrt_exists(n - 1);
        let r = isqrt(n - 1);
        assert(is_isqrt(n - 1, r));
        if (r + 1) * (r + 1) <= n {
            assert(is_isqrt(n, r + 1)) by (nonlinear_arith)
                requires
                    0 <= r,
                    (r + 1) * (r + 1) <= n,
                    n - 1 < (r + 1) * (r + 1),
            ;
        } else {
            assert(is_isqrt(n, r));
        }
    }
}

/// The integer square root grows with its argument.
pub proof fn lemma_isqrt_monotone(m: int, n: int)
    requires
        0 <= m <= n,
    ensures
        0 <= isqrt(m) <= isqrt(n),
{
    lemma_isqrt_exists(m);
    lemma_isqrt_exists(n);
    let a = isqrt(m);
    let b = isqrt(n);
    assert(a <= b) by (nonlinear_arith)
        requires
            0 <= a,
            0 <= b,
            a * a <= m,
            m <= n,
            n < (b + 1) * (b + 1),
    {
        if b < a {
            assert((b + 1) * (b + 1) <= a * a);
        }
    }
}

/// Rounding towards zero keeps the order of the dividends, for a positive divisor.
pub proof fn lemma_trunc_div_monotone(a: int, b: int, d: int)
    requires
        a <= b,
        d > 0,
    ensures
        trunc_div(a, d) <= trunc_div(b, d),
{
    if a >= 0 {
        vstd::arithmetic::div_mod::lemma_div_is_ordered(a, b, d);
    } else if b >= 0 {
        vstd::arithmetic::div_mod::lemma_div_pos_is_pos(-a, d);
        vstd::arithmetic::div_mod::lemma_div_pos_is_pos(b, d);
    } else {
        vstd::arithmetic::div_mod::lemma_div_is_ordered(-b, -a, d);
    }
}

/// Rounding towards zero commutes with negation of the dividend.
pub proof fn lemma_trunc_div_odd(a: int, d: int)
    requires
        d > 0,
    ensures
        trunc_div(-a, d) == -trunc_div(a, d),
{
    if a == 0 {
        assert(0int / d == 0) by (nonlinear_arith)
            requires
                d > 0,
        ;
    }
}

/// The sign of a quotient rounded towards zero is that of the dividend, or the quotient is zero.
pub proof fn lemma_trunc_div_sign(a: int, d: int)
    requires
        d > 0,
    ensures
        a >= 0 ==> trunc_div(a, d) >= 0,
        a <= 0 ==> trunc_div(a, d) <= 0,
{
    if a >= 0 {
        vstd::arithmetic::div_mod::lemma_div_pos_is_pos(a, d);
    } else {
        vstd::arithmetic::div_mod::lemma_div_pos_is_pos(-a, d);
    }
}

/// A quotient keeps the order of the dividends, for a divisor that is not negative.
pub proof fn lemma_fx_div_monotone(a: int, b: int, d: int)
    requires
        a <= b,
        d >= 0,
    ensures
        fx_div(a, d) <= fx_div(b, d),
{
    if d > 0 {
        assert(a * ONE_RAW <= b * ONE_RAW);
        lemma_trunc_div_monotone(a * ONE_RAW, b * ONE_RAW, d);
    }
}

/// A square is not negative.
pub proof fn lemma_fx_square_nonneg(x: int)
    ensures
        fx_mul(x, x) >= 0,
{
    assert(x * x >= 0) by (nonlinear_arith);
    lemma_trunc_div_sign(x * x, ONE_RAW as int);
}

/// Negating one factor negates the product.
pub proof fn lemma_fx_mul_neg(a: int, b: int)
    ensures
        fx_mul(a, -b) == -fx_mul(a, b),
        fx_mul(-a, b) == -fx_mul(a, b),
{
    assert(a * (-b) == -(a * b)) by (nonlinear_arith);
    assert((-a) * b == -(a * b)) by (nonlinear_arith);
    lemma_trunc_div_odd(a * b, ONE_RAW as int);
}

/// The sign of a product follows from the signs of its factors.
pub proof fn lemma_fx_mul_sign(a: int, b: int)
    ensures
        (a >= 0 && b >= 0) || (a <= 0 && b <= 0) ==> fx_mul(a, b) >= 0,
        (a >= 0 && b <= 0) || (a <= 0 && b >= 0) ==> fx_mul(a, b) <= 0,
{
    if (a >= 0 && b >= 0) || (a <= 0 && b <= 0) {
        assert(a * b >= 0) by (nonlinear_arith)
            requires
                (a >= 0 && b >= 0) || (a <= 0 && b <= 0),
        ;
    }
    if (a >= 0 && b <= 0) || (a <= 0 && b >= 0) {
        assert(a * b <= 0) by (nonlinear_arith)
            requires
                (a >= 0 && b <= 0) || (a <= 0 && b >= 0),
        ;
    }
    lemma_trunc_div_sign(a * b, ONE_RAW as int);
}

/// The sign of a quotient by a positive divisor is that of the dividend, or the quotient is zero.
pub proof fn lemma_fx_div_sign(a: int, d: int)
    requires
        d > 0,
    ensures
        a >= 0 ==> fx_div(a, d) >= 0,
        a <= 0 ==> fx_div(a, d) <= 0,
{
    lemma_trunc_div_sign(a * ONE_RAW, d);
}

/// A product with a factor between zero and one lies between zero and the other factor.
pub proof fn lemma_fx_mul_fraction(a: int, t: int)
    requires
        0 <= t <= ONE_RAW,
        -MAX_RAW <= a <= MAX_RAW,
    ensures
        a >= 0 ==> 0 <= fx_mul(a, t) <= a,
        a <= 0 ==> a <= fx_mul(a, t) <= 0,
{
    lemma_fx_mul_sign(a, t);
    lemma_fx_mul_one(a);
    if a >= 0 {
        assert(a * t <= a * ONE_RAW) by (nonlinear_arith)
            requires
                a >= 0,
                t <= ONE_RAW,
        ;
        lemma_trunc_div_monotone(a * t, a * ONE_RAW, ONE_RAW as int);
    } else {
        assert(a * ONE_RAW <= a * t) by (nonlinear_arith)
            requires
                a <= 0,
                t <= ONE_RAW,
        ;
        lemma_trunc_div_monotone(a * ONE_RAW, a * t, ONE_RAW as int);
    }
}

/// What rounding towards zero leaves: less than one divisor, on the side
/// of the dividend; and the quotient is no larger than the dividend.
pub proof fn lemma_trunc_residue(p: int, d: int)
    requires
        d > 0,
    ensures
        p >= 0 ==> 0 <= p - trunc_div(p, d) * d < d && 0 <= trunc_div(p, d) <= p,
        p <= 0 ==> -d < p - trunc_div(p, d) * d <= 0 && p <= trunc_div(p, d) <= 0,
{
    let m = if p >= 0 {
        p
    } else {
        -p
    };
    vstd::arithmetic::div_mod::lemma_fundamental_div_mod(m, d);
    vstd::arithmetic::div_mod::lemma_mod_bound(m, d);
    vstd::arithmetic::div_mod::lemma_div_pos_is_pos(m, d);
    let k = m / d;
    assert(d * k == k * d) by (nonlinear_arith);
    assert(k <= m) by (nonlinear_arith)
        requires
            m == k * d + m % d,
            m % d >= 0,
            d >= 1,
            k >= 0,
    ;
    assert((-k) * d == -(k * d)) by (nonlinear_arith);
}

/// Multiplying by one changes nothing but the clamping.
pub proof fn lemma_fx_mul_one(a: int)
    ensures
        fx_mul(a, ONE_RAW as int) == sat(a),
        fx_mul(ONE_RAW as int, a) == sat(a),
        fx_mul(a, -(ONE_RAW as int)) == sat(-a),
{
    assert(a * ONE_RAW == ONE_RAW * a) by (nonlinear_arith);
    if a >= 0 {
        vstd::arithmetic::div_mod::lemma_div_by_multiple(a, ONE_RAW as int);
    } else {
        vstd::arithmetic::div_mod::lemma_div_by_multiple(-a, ONE_RAW as int);
        assert((-a) * ONE_RAW == -(a * ONE_RAW)) by (nonlinear_arith);
    }
    lemma_fx_mul_neg(a, ONE_RAW as int);
}

/// A product with a zero factor is zero.
pub proof fn lemma_fx_mul_zero(a: int)
    ensures
        fx_mul(a, 0) == 0,
        fx_mul(0, a) == 0,
{
    assert(a * 0 == 0) by (nonlinear_arith);
    assert(0 * a == 0) by (nonlinear_arith);
}

/// A square root is not negative, and grows with its argument.
pub proof fn lemma_fx_sqrt_monotone(a: int, b: int)
    requires
        a <= b,
    ensures
        0 <= fx_sqrt(a) <= fx_sqrt(b),
{
    if b > 0 {
        if a > 0 {
            lemma_isqrt_monotone(a * ONE_RAW, b * ONE_RAW);
        } else {
            lemma_isqrt_monotone(0, b * ONE_RAW);
        }
    }
}

/// Clamps a wide integer into the representable range.
fn clamp_wide(x: i128) -> (r: Fixed)
    ensures
        r@ == sat(x as int),
        r.wf(),
{
    if x > MAX_RAW as i128 {
        Fixed { raw: MAX_RAW }
    } else if x < -(MAX_RAW as i128) {
        Fixed { raw: -MAX_RAW }
    } else {
        Fixed { raw: x as i64 }
    }
}

/// `x` scaled by the denominator, in 128 bits.
fn scale_up(x: i64) -> (r: i128)
    ensures
        r == x * ONE_RAW,
{
    (x as i128) * 0x1_0000_0000
}

/// Quotient of a wide dividend by a non-zero divisor, rounded towards zero.
fn div_wide(n: i128, d: i64) -> (q: i128)
    requires
        d != 0,
        -0x1_0000_0000_0000_0000_0000_0000 <= n <= 0x1_0000_0000_0000_0000_0000_0000,
    ensures
        q == trunc_div(n as int, d as int),
{
    let na: u128 = if n < 0 {
        (-n) as u128
    } else {
        n as u128
    };
    let da: u128 = if d < 0 {
        (-(d as i128)) as u128
    } else {
        d as u128
    };
    let qa: u128 = na / da;
    assert(qa <= na) by (nonlinear_arith)
        requires
            qa == na / da,
            da >= 1,
    ;
    if (n < 0) != (d < 0) {
        -(qa as i128)
    } else {
        qa as i128
    }
}

/// Integer square root by bisection.
fn isqrt_wide(n: u128) -> (r: u128)
    requires
        n < 0x1_0000_0000_0000_0000_0000_0000,
    ensures
        r == isqrt(n as int),
        r < 0x1_0000_0000_0000,
{
    let mut lo: u128 = 0;
    let mut hi: u128 = 0x1_0000_0000_0000;
    assert(0x1_0000_0000_0000int * 0x1_0000_0000_0000int == 0x1_0000_0000_0000_0000_0000_0000int);
    while hi - lo > 1
        invariant
            lo < hi <= 0x1_0000_0000_0000,
            lo * lo <= n < hi * hi,
        decreases hi - lo,
    {
        let mid: u128 = lo + (hi - lo) / 2;
        assert(mid * mid < 0x1_0000_0000_0000_0000_0000_0000) by (nonlinear_arith)
            requires
                mid < 0x1_0000_0000_0000,
        ;
        if mid * mid <= n {
            lo = mid;
        } else {
            hi = mid;
        }
    }
    proof {
        lemma_isqrt_unique(n as int, lo as int);
    }
    lo
}

/// The integer square root of any 128-bit number, by bisection.
pub fn isqrt_u128(n: u128) -> (r: u128)
    ensures
        r == isqrt(n as int),
        is_isqrt(n as int, r as int),
        r < 0x1_0000_0000_0000_0000,
{
    let mut lo: u128 = 0;
    let mut hi: u128 = 0x1_0000_0000_0000_0000;
    assert(0x1_0000_0000_0000_0000int * 0x1_0000_0000_0000_0000int
        == 0x1_0000_0000_0000_0000_0000_0000_0000_0000int);
    while hi - lo > 1
        invariant
            lo < hi <= 0x1_0000_0000_0000_0000,
            lo * lo <= n < hi * hi,
        decreases hi - lo,
    {
        let mid: u128 = lo + (hi - lo) / 2;
        assert(mid * mid <= 0xffff_ffff_ffff_ffff * 0xffff_ffff_ffff_ffff) by (nonlinear_arith)
            requires
                mid <= 0xffff_ffff_ffff_ffff,
        ;
        if mid * mid <= n {
            lo = mid;
        } else {
            hi = mid;
        }
    }
    proof {
        lemma_isqrt_unique(n as int, lo as int);
    }
    lo
}

/// The magnitude of a 64-bit integer.
pub fn magnitude(x: i64) -> (r: u128)
    ensures
        r == if x < 0 {
            -x
        } else {
            x as int
        },
        r <= 0x8000_0000_0000_0000,
{
    if x < 0 {
        (-(x as i128)) as u128
    } else {
        x as u128
    }
}

impl Fixed {
    /// The numerator lies in the symmetric range `[-MAX_RAW, MAX_RAW]`.
    #[verifier::type_invariant]
    pub open spec fn wf(self) -> bool {
        -MAX_RAW <= self@ <= MAX_RAW
    }

    /// The scalar with numerator `raw`, clamped into the representable range.
    pub fn from_raw(raw: i64) -> (r: Self)
        ensures
            r@ == sat(raw as int),
            r.wf(),
    {
        if raw < -MAX_RAW {
            Fixed { raw: -MAX_RAW }
        } else {
            Fixed { raw }
        }
    }

    /// The numerator.
    pub fn raw(&self) -> (r: i64)
        ensures
            r == self@,
            self.wf(),
    {
        proof {
            use_type_invariant(self);
        }
        self.raw
    }

    /// The value `0`.
    pub fn zero() -> (r: Self)
        ensures
            r@ == 0,
            r.wf(),
    {
        Fixed { raw: 0 }
    }

    /// The value `1`.
    pub fn one() -> (r: Self)
        ensures
            r@ == ONE_RAW,
            r.wf(),
    {
        Fixed { raw: ONE_RAW }
    }

    /// The largest value, which stands for an unbounded distance.
    pub fn max_value() -> (r: Self)
        ensures
            r@ == MAX_RAW,
            r.wf(),
    {
        Fixed { raw: MAX_RAW }
    }

    /// The integer `n`.
    pub fn from_int(n: i64) -> (r: Self)
        ensures
            r@ == fx_int(n as int),
            r.wf(),
    {
        clamp_wide(scale_up(n))
    }

    /// The fraction `num / den`, rounded towards zero.
    pub fn from_ratio(num: i64, den: i64) -> (r: Self)
        ensures
            r@ == fx_ratio(num as int, den as int),
            r.wf(),
    {
        if den == 0 {
            if num > 0 {
                Fixed { raw: MAX_RAW }
            } else if num < 0 {
                Fixed { raw: -MAX_RAW }
            } else {
                Fixed { raw: 0 }
            }
        } else {
            clamp_wide(div_wide(scale_up(num), den))
        }
    }

    /// `self + rhs`.
    pub fn add(&self, rhs: &Fixed) -> (r: Fixed)
        ensures
            r@ == fx_add(self@, rhs@),
            r.wf(),
    {
        clamp_wide((self.raw as i128) + (rhs.raw as i128))
    }

    /// `self - rhs`.
    pub fn sub(&self, rhs: &Fixed) -> (r: Fixed)
        ensures
            r@ == fx_sub(self@, rhs@),
            r.wf(),
    {
        clamp_wide((self.raw as i128) - (rhs.raw as i128))
    }

    /// `-self`.
    pub fn neg(&self) -> (r: Fixed)
        ensures
            r@ == fx_neg(self@),
            r.wf(),
    {
        clamp_wide(-(self.raw as i128))
    }

    /// `|self|`.
    pub fn abs(&self) -> (r: Fixed)
        ensures
            r@ == fx_abs(self@),
            r.wf(),
    {
        if self.raw < 0 {
            clamp_wide(-(self.raw as i128))
        } else {
            clamp_wide(self.raw as i128)
        }
    }

    /// `self * rhs`, rounded towards zero.
    pub fn mul(&self, rhs: &Fixed) -> (r: Fixed)
        ensures
            r@ == fx_mul(self@, rhs@),
            r.wf(),
    {
        proof {
            lemma_product_fits(self.raw as int, rhs.raw as int);
        }
        let p: i128 = (self.raw as i128) * (rhs.raw as i128);
        clamp_wide(p / (ONE_RAW as i128))
    }

    /// `self / rhs`, rounded towards zero; a quotient by zero saturates.
    pub fn div(&self, rhs: &Fixed) -> (r: Fixed)
        ensures
            r@ == fx_div(self@, rhs@),
            r.wf(),
    {
        if rhs.raw == 0 {
            if self.raw > 0 {
                Fixed { raw: MAX_RAW }
            } else if self.raw < 0 {
                Fixed { raw: -MAX_RAW }
            } else {
                Fixed { raw: 0 }
            }
        } else {
            clamp_wide(div_wide(scale_up(self.raw), rhs.raw))
        }
    }

    /// `self` times the integer `k`.
    pub fn mul_int(&self, k: i64) -> (r: Fixed)
        ensures
            r@ == fx_times(self@, k as int),
            r.wf(),
    {
        proof {
            lemma_product_fits(self.raw as int, k as int);
        }
        clamp_wide((self.raw as i128) * (k as i128))
    }

    /// `self` divided by the integer `k`, rounded towards zero; a quotient
    /// by zero saturates.
    pub fn div_int(&self, k: i64) -> (r: Fixed)
        ensures
            r@ == fx_over(self@, k as int),
            r.wf(),
    {
        if k == 0 {
            if self.raw > 0 {
                Fixed { raw: MAX_RAW }
            } else if self.raw < 0 {
                Fixed { raw: -MAX_RAW }
            } else {
                Fixed { raw: 0 }
            }
        } else {
            clamp_wide(div_wide(self.raw as i128, k))
        }
    }

    /// The square root, rounded down; `0` where `self` is not positive.
    pub fn sqrt(&self) -> (r: Fixed)
        ensures
            r@ == fx_sqrt(self@),
            r.wf(),
    {
        if self.raw <= 0 {
            Fixed { raw: 0 }
        } else {
            let n: u128 = (self.raw as u128) * 0x1_0000_0000;
            let s: u128 = isqrt_wide(n);
            Fixed { raw: s as i64 }
        }
    }

    /// `self` raised to the power `n`.
    pub fn powi(&self, n: u32) -> (r: Fixed)
        ensures
            r@ == fx_powi(self@, n as nat),
            r.wf(),
    {
        let mut acc: Fixed = Fixed { raw: ONE_RAW };
        let mut i: u32 = 0;
        while i < n
            invariant
                i <= n,
                acc@ == fx_powi(self@, i as nat),
                acc.wf(),
            decreases n - i,
        {
            acc = acc.mul(self);
            i = i + 1;
        }
        acc
    }

    /// The smaller of `self` and `rhs`.
    pub fn min(&self, rhs: &Fixed) -> (r: Fixed)
        ensures
            r@ == fx_min(self@, rhs@),
            r.wf(),
    {
        proof {
            use_type_invariant(self);
            use_type_invariant(rhs);
        }
        if self.raw <= rhs.raw {
            *self
        } else {
            *rhs
        }
    }

    /// The larger of `self` and `rhs`.
    pub fn max(&self, rhs: &Fixed) -> (r: Fixed)
        ensures
            r@ == fx_max(self@, rhs@),
            r.wf(),
    {
        proof {
            use_type_invariant(self);
            use_type_invariant(rhs);
        }
        if self.raw >= rhs.raw {
            *self
        } else {
            *rhs
        }
    }

    /// `self < rhs`.
    pub fn lt(&self, rhs: &Fixed) -> (r: bool)
        ensures
            r == (self@ < rhs@),
    {
        self.raw < rhs.raw
    }

    /// `self <= rhs`.
    pub fn le(&self, rhs: &Fixed) -> (r: bool)
        ensures
            r == (self@ <= rhs@),
    {
        self.raw <= rhs.raw
    }

    /// `self > rhs`.
    pub fn gt(&self, rhs: &Fixed) -> (r: bool)
        ensures
            r == (self@ > rhs@),
    {
        self.raw > rhs.raw
    }

    /// `self >= rhs`.
    pub fn ge(&self, rhs: &Fixed) -> (r: bool)
        ensures
            r == (self@ >= rhs@),
    {
        self.raw >= rhs.raw
    }

    /// `self == 0`.
    pub fn is_zero(&self) -> (r: bool)
        ensures
            r == (self@ == 0),
    {
        self.raw == 0
    }

    /// The whole part, rounded towards zero and clamped into `[0, 255]`.
    pub fn to_u8(&self) -> (r: u8)
        ensures
            r == fx_trunc_clamped(self@, 255),
    {
        let w: i64 = self.raw / ONE_RAW;
        if w < 0 {
            0
        } else if w > 255 {
            255
        } else {
            w as u8
        }
    }

    /// The whole part, rounded towards zero and clamped into `[0, 2^32 - 1]`.
    pub fn to_u32(&self) -> (r: u32)
        ensures
            r == fx_trunc_clamped(self@, 0xffff_ffff),
    {
        let w: i64 = self.raw / ONE_RAW;
        if w < 0 {
            0
        } else if w > 0xffff_ffff {
            0xffff_ffff
        } else {
            w as u32
        }
    }
}

impl Default for Fixed {
    fn default() -> (r: Fixed)
        ensures
            r@ == 0,
    {
        Fixed { raw: 0 }
    }
}

} // verus!
