//! Three-component vectors over [`Fixed`] scalars.
//!
//! A [`Vec3`] carries a tag that says whether it stands for a point or
//! direction in space or for a colour.  Its view is a [`V3`]: the tag and the
//! three numerators.  The algebra is stated once, on `V3`, and every method
//! of `Vec3` is specified by the `V3` function it computes.

use vstd::prelude::*;
use crate::fixed::{
    fx_abs, fx_add, fx_div, fx_max, fx_min, fx_mul, fx_over, fx_sqrt, fx_sub, fx_times, is_isqrt,
    isqrt, isqrt_u128, lemma_fx_mul_neg, lemma_fx_mul_one, lemma_isqrt_exists,
    lemma_isqrt_unique, magnitude, sat, trunc_div, Fixed, MAX_RAW, ONE_RAW,
};
use crate::utils::{is_interval_draw, random_Interval_f64};

verus! {

/// What the three components of a vector stand for.
#[derive(Debug, Clone, Copy, PartialEq, Eq, Structural)]
pub enum VecTypes {
    Color,
    Coordinates,
}

impl Default for VecTypes {
    fn default() -> (r: VecTypes)
        ensures
            r == VecTypes::Coordinates,
    {
        VecTypes::Coordinates
    }
}

/// Mathematical model of a vector: its tag and the numerators of its components.
pub struct V3 {
    pub typ: VecTypes,
    pub x: int,
    pub y: int,
    pub z: int,
}

/// Component-wise sum; the tag is that of the left operand.
pub open spec fn v3_add(a: V3, b: V3) -> V3 {
    V3 { typ: a.typ, x: fx_add(a.x, b.x), y: fx_add(a.y, b.y), z: fx_add(a.z, b.z) }
}

/// Component-wise difference; the tag is that of the left operand.
pub open spec fn v3_sub(a: V3, b: V3) -> V3 {
    V3 { typ: a.typ, x: fx_sub(a.x, b.x), y: fx_sub(a.y, b.y), z: fx_sub(a.z, b.z) }
}

/// Every component plus the scalar `s`.
pub open spec fn v3_offset(a: V3, s: int) -> V3 {
    V3 { typ: a.typ, x: fx_add(a.x, s), y: fx_add(a.y, s), z: fx_add(a.z, s) }
}

/// Every component times the scalar `m`.
pub open spec fn v3_scale(a: V3, m: int) -> V3 {
    V3 { typ: a.typ, x: fx_mul(a.x, m), y: fx_mul(a.y, m), z: fx_mul(a.z, m) }
}

/// Every component divided by the scalar `u`.
pub open spec fn v3_shrink(a: V3, u: int) -> V3 {
    V3 { typ: a.typ, x: fx_div(a.x, u), y: fx_div(a.y, u), z: fx_div(a.z, u) }
}

/// The vector with every component negated.
pub open spec fn v3_neg(a: V3) -> V3 {
    v3_scale(a, -(ONE_RAW as int))
}

/// Component-wise product; the tag is that of the left operand.
pub open spec fn v3_hadamard(a: V3, b: V3) -> V3 {
    V3 { typ: a.typ, x: fx_mul(a.x, b.x), y: fx_mul(a.y, b.y), z: fx_mul(a.z, b.z) }
}

/// Scalar product, summed from the left.
pub open spec fn v3_dot(a: V3, b: V3) -> int {
    fx_add(fx_add(fx_mul(a.x, b.x), fx_mul(a.y, b.y)), fx_mul(a.z, b.z))
}

/// Vector product; the tag is that of the left operand.
pub open spec fn v3_cross(a: V3, b: V3) -> V3 {
    V3 {
        typ: a.typ,
        x: fx_sub(fx_mul(a.y, b.z), fx_mul(a.z, b.y)),
        y: fx_sub(fx_mul(a.z, b.x), fx_mul(a.x, b.z)),
        z: fx_sub(fx_mul(a.x, b.y), fx_mul(a.y, b.x)),
    }
}

/// Squared Euclidean length.
pub open spec fn v3_len_sq(a: V3) -> int {
    v3_dot(a, a)
}

/// Magnitude of an integer.
pub open spec fn int_abs(x: int) -> int {
    if x < 0 {
        -x
    } else {
        x
    }
}

/// The largest magnitude among the components.
pub open spec fn v3_reach(a: V3) -> int {
    fx_max(fx_max(int_abs(a.x), int_abs(a.y)), int_abs(a.z))
}

/// The exact sum of the squares of the three numerators.
pub open spec fn v3_norm_sq(a: V3) -> int {
    a.x * a.x + a.y * a.y + a.z * a.z
}

/// Euclidean length: the integer root of the exact sum of the squares of
/// the numerators, so that no square is rounded before the root is taken.
pub open spec fn v3_len(a: V3) -> int {
    sat(isqrt(v3_norm_sq(a)))
}

/// Every component times the integer `k`, exactly.
pub open spec fn v3_times(a: V3, k: int) -> V3 {
    V3 { typ: a.typ, x: a.x * k, y: a.y * k, z: a.z * k }
}

/// The reach to which a vector is stretched before it is divided by its length.
pub const UNIT_REACH: i64 = 0x2000_0000_0000_0000;

/// The whole factor that brings a vector of reach `m` as near to
/// `UNIT_REACH` as a whole factor can.
pub open spec fn unit_factor(m: int) -> int {
    if 0 < m < UNIT_REACH {
        (UNIT_REACH as int) / m
    } else {
        1
    }
}

/// The vector divided by its own length.  A short vector is first
/// stretched by a whole factor, which does not change its direction, so
/// that its length is known to at least 60 bits; the zero vector stays zero.
pub open spec fn v3_unit(a: V3) -> V3 {
    let b = v3_times(a, unit_factor(v3_reach(a)));
    let l = isqrt(v3_norm_sq(b));
    if l == 0 {
        V3 { typ: a.typ, x: 0, y: 0, z: 0 }
    } else {
        V3 {
            typ: a.typ,
            x: trunc_div(b.x * ONE_RAW, l),
            y: trunc_div(b.y * ONE_RAW, l),
            z: trunc_div(b.z * ONE_RAW, l),
        }
    }
}

/// Bounds on three quotients `q = b * s / l`, rounded down, where `l` is the
/// integer root of the sum of the squares of the `b` and is at least `s`.
proof fn lemma_quotients_near_unit(b1: int, b2: int, b3: int, q1: int, q2: int, q3: int, l: int)
    requires
        0 <= b1,
        0 <= b2,
        0 <= b3,
        0 <= q1,
        0 <= q2,
        0 <= q3,
        l >= ONE_RAW,
        l * l <= b1 * b1 + b2 * b2 + b3 * b3 < (l + 1) * (l + 1),
        q1 * l <= b1 * ONE_RAW < (q1 + 1) * l,
        q2 * l <= b2 * ONE_RAW < (q2 + 1) * l,
        q3 * l <= b3 * ONE_RAW < (q3 + 1) * l,
    ensures
        q1 <= ONE_RAW,
        q2 <= ONE_RAW,
        q3 <= ONE_RAW,
        (ONE_RAW - 4) * (ONE_RAW - 4) <= q1 * q1 + q2 * q2 + q3 * q3 < (ONE_RAW + 1) * (ONE_RAW + 1),
{
    let s = ONE_RAW as int;
    let n = b1 * b1 + b2 * b2 + b3 * b3;
    lemma_quotient_le_one(b1, q1, l, n - b1 * b1);
    lemma_quotient_le_one(b2, q2, l, n - b2 * b2);
    lemma_quotient_le_one(b3, q3, l, n - b3 * b3);
    lemma_square_of_quotient(b1, q1, l);
    lemma_square_of_quotient(b2, q2, l);
    lemma_square_of_quotient(b3, q3, l);
    let qq = q1 * q1 + q2 * q2 + q3 * q3;
    let pp = (q1 + 1) * (q1 + 1) + (q2 + 1) * (q2 + 1) + (q3 + 1) * (q3 + 1);
    let ll = l * l;
    let ss = s * s;
    assert(ss >= 0 && ll > 0) by (nonlinear_arith)
        requires
            ss == s * s,
            ll == l * l,
            l >= s,
            s > 0,
    ;
    lemma_square_of_product(q1, l);
    lemma_square_of_product(q2, l);
    lemma_square_of_product(q3, l);
    lemma_square_of_product(b1, s);
    lemma_square_of_product(b2, s);
    lemma_square_of_product(b3, s);
    lemma_square_of_product(q1 + 1, l);
    lemma_square_of_product(q2 + 1, l);
    lemma_square_of_product(q3 + 1, l);
    let a1 = q1 * q1;
    let a2 = q2 * q2;
    let a3 = q3 * q3;
    let c1 = b1 * b1;
    let c2 = b2 * b2;
    let c3 = b3 * b3;
    let d1 = (q1 + 1) * (q1 + 1);
    let d2 = (q2 + 1) * (q2 + 1);
    let d3 = (q3 + 1) * (q3 + 1);
    assert(ll * qq == a1 * ll + a2 * ll + a3 * ll) by (nonlinear_arith)
        requires
            qq == a1 + a2 + a3,
    ;
    assert(ll * pp == d1 * ll + d2 * ll + d3 * ll) by (nonlinear_arith)
        requires
            pp == d1 + d2 + d3,
    ;
    assert(ss * n == c1 * ss + c2 * ss + c3 * ss) by (nonlinear_arith)
        requires
            n == c1 + c2 + c3,
    ;
    // Upper bound.
    assert(ll * qq <= ss * n);
    assert(ss * n < ss * ((l + 1) * (l + 1))) by (nonlinear_arith)
        requires
            n < (l + 1) * (l + 1),
            ss == s * s,
            s > 0,
    ;
    assert(ss * ((l + 1) * (l + 1)) <= ((s + 1) * (s + 1)) * ll) by (nonlinear_arith)
        requires
            l >= s,
            s > 0,
            ss == s * s,
            ll == l * l,
    {
        assert(s * (l + 1) <= (s + 1) * l);
        assert((s * (l + 1)) * (s * (l + 1)) <= ((s + 1) * l) * ((s + 1) * l));
    }
    assert(qq < (s + 1) * (s + 1)) by (nonlinear_arith)
        requires
            ll * qq < ((s + 1) * (s + 1)) * ll,
            ll > 0,
    ;
    // Lower bound.
    assert(ll * pp > ss * n);
    assert(ss * n >= ss * ll) by (nonlinear_arith)
        requires
            n >= ll,
            ss >= 0,
    ;
    assert(pp > ss) by (nonlinear_arith)
        requires
            ll * pp > ss * ll,
            ll > 0,
    ;
    assert(pp == qq + 2 * (q1 + q2 + q3) + 3) by (nonlinear_arith)
        requires
            pp == (q1 + 1) * (q1 + 1) + (q2 + 1) * (q2 + 1) + (q3 + 1) * (q3 + 1),
            qq == q1 * q1 + q2 * q2 + q3 * q3,
    ;
    assert((s - 4) * (s - 4) == ss - 8 * s + 16) by (nonlinear_arith)
        requires
            ss == s * s,
    ;
}

/// The square of a product is the product of the squares.
proof fn lemma_square_of_product(a: int, b: int)
    by (nonlinear_arith)
    ensures
        (a * b) * (a * b) == (a * a) * (b * b),
{
}

/// A quotient `q = b * s / l` is at most `s` where `b` is at most `l`.
proof fn lemma_quotient_le_one(b: int, q: int, l: int, rest: int)
    requires
        0 <= b,
        0 <= q,
        0 <= rest,
        l > 0,
        b * b + rest < (l + 1) * (l + 1),
        q * l <= b * ONE_RAW,
    ensures
        b <= l,
        q <= ONE_RAW,
{
    assert(b <= l) by (nonlinear_arith)
        requires
            0 <= b,
            l > 0,
            b * b < (l + 1) * (l + 1),
    {
        if b > l {
            assert(b * b >= (l + 1) * (l + 1));
        }
    }
    assert(q <= ONE_RAW) by (nonlinear_arith)
        requires
            q * l <= b * ONE_RAW,
            b <= l,
            l > 0,
            0 <= q,
    {
        if q > ONE_RAW {
            assert(q * l >= (ONE_RAW + 1) * l);
            assert(b * ONE_RAW <= l * ONE_RAW);
        }
    }
}

/// Squares keep the order of the bounds of a quotient.
proof fn lemma_square_of_quotient(b: int, q: int, l: int)
    requires
        0 <= b,
        0 <= q,
        l > 0,
        q * l <= b * ONE_RAW < (q + 1) * l,
    ensures
        (q * l) * (q * l) <= (b * ONE_RAW) * (b * ONE_RAW),
        ((q + 1) * l) * ((q + 1) * l) > (b * ONE_RAW) * (b * ONE_RAW),
{
    let lo = q * l;
    let mid = b * ONE_RAW;
    let hi = (q + 1) * l;
    assert(lo >= 0 && mid >= 0) by (nonlinear_arith)
        requires
            lo == q * l,
            mid == b * ONE_RAW,
            q >= 0,
            l > 0,
            b >= 0,
    ;
    assert(lo * lo <= mid * mid && hi * hi > mid * mid) by (nonlinear_arith)
        requires
            0 <= lo <= mid < hi,
    ;
}

/// The stretched vector of `v3_unit` reaches at least half of `UNIT_REACH`,
/// and its length is at least its reach.
proof fn lemma_unit_stretch(a: V3)
    requires
        v3_reach(a) > 0,
    ensures
        ({
            let f = unit_factor(v3_reach(a));
            let b = v3_times(a, f);
            let l = isqrt(v3_norm_sq(b));
            &&& f >= 1
            &&& is_isqrt(v3_norm_sq(b), l)
            &&& l >= 0x1000_0000_0000_0000
            &&& int_abs(b.x) == int_abs(a.x) * f
            &&& int_abs(b.y) == int_abs(a.y) * f
            &&& int_abs(b.z) == int_abs(a.z) * f
            &&& v3_norm_sq(b) == int_abs(b.x) * int_abs(b.x) + int_abs(b.y) * int_abs(b.y)
                + int_abs(b.z) * int_abs(b.z)
        }),
{
    let m = v3_reach(a);
    let f = unit_factor(m);
    let b = v3_times(a, f);
    let n = v3_norm_sq(b);
    if m < UNIT_REACH {
        vstd::arithmetic::div_mod::lemma_fundamental_div_mod(UNIT_REACH as int, m);
        vstd::arithmetic::div_mod::lemma_mod_bound(UNIT_REACH as int, m);
        vstd::arithmetic::div_mod::lemma_div_pos_is_pos(UNIT_REACH as int, m);
        assert(f >= 1) by (nonlinear_arith)
            requires
                UNIT_REACH == m * f + (UNIT_REACH as int) % m,
                0 <= (UNIT_REACH as int) % m < m,
                m < UNIT_REACH,
                f >= 0,
        ;
    }
    let big = m * f;
    assert(big >= 0x1000_0000_0000_0000) by (nonlinear_arith)
        requires
            big == m * f,
            f >= 1,
            m > 0,
            m < UNIT_REACH ==> UNIT_REACH == m * f + (UNIT_REACH as int) % m && 0
                <= (UNIT_REACH as int) % m < m,
            UNIT_REACH == 0x2000_0000_0000_0000,
    {
        if m <= 0x1000_0000_0000_0000 {
        } else {
            assert(m * f >= m);
        }
    }
    let ax = int_abs(a.x);
    let ay = int_abs(a.y);
    let az = int_abs(a.z);
    assert(int_abs(b.x) == ax * f && b.x * b.x == (ax * f) * (ax * f)) by (nonlinear_arith)
        requires
            b.x == a.x * f,
            f >= 1,
            ax == int_abs(a.x),
    ;
    assert(int_abs(b.y) == ay * f && b.y * b.y == (ay * f) * (ay * f)) by (nonlinear_arith)
        requires
            b.y == a.y * f,
            f >= 1,
            ay == int_abs(a.y),
    ;
    assert(int_abs(b.z) == az * f && b.z * b.z == (az * f) * (az * f)) by (nonlinear_arith)
        requires
            b.z == a.z * f,
            f >= 1,
            az == int_abs(a.z),
    ;
    assert(n >= big * big) by (nonlinear_arith)
        requires
            n == (ax * f) * (ax * f) + (ay * f) * (ay * f) + (az * f) * (az * f),
            big == m * f,
            m == ax || m == ay || m == az,
    ;
    assert(n >= 0) by (nonlinear_arith)
        requires
            n >= big * big,
    ;
    lemma_isqrt_exists(n);
    let l = isqrt(n);
    assert(l >= big) by (nonlinear_arith)
        requires
            n >= big * big,
            n < (l + 1) * (l + 1),
            l >= 0,
            big >= 0,
    {
        if l < big {
            assert((l + 1) * (l + 1) <= big * big);
        }
    }
}

/// The quotient of a dividend that is not negative, rounded down, lies
/// within one divisor of the dividend.
proof fn lemma_floor_quotient(p: int, l: int)
    requires
        p >= 0,
        l > 0,
    ensures
        (p / l) * l <= p < (p / l + 1) * l,
        p / l >= 0,
{
    vstd::arithmetic::div_mod::lemma_fundamental_div_mod(p, l);
    vstd::arithmetic::div_mod::lemma_mod_bound(p, l);
    vstd::arithmetic::div_mod::lemma_div_pos_is_pos(p, l);
    assert((p / l) * l == l * (p / l)) by (nonlinear_arith);
    assert((p / l + 1) * l == l * (p / l) + l) by (nonlinear_arith);
}

/// One component of a unit vector: its magnitude is the stretched
/// magnitude times one over the length, rounded down.
proof fn lemma_unit_component(b: int, l: int)
    requires
        l > 0,
    ensures
        int_abs(trunc_div(b * ONE_RAW, l)) == (int_abs(b) * ONE_RAW) / l,
{
    let m = int_abs(b);
    assert(m * ONE_RAW >= 0 && (b >= 0 ==> b * ONE_RAW == m * ONE_RAW) && (b < 0 ==> b * ONE_RAW < 0
        && -(b * ONE_RAW) == m * ONE_RAW)) by (nonlinear_arith)
        requires
            m == int_abs(b),
    ;
    vstd::arithmetic::div_mod::lemma_div_pos_is_pos(m * ONE_RAW, l);
}

/// A vector divided by its length is one long, to within four units of the
/// last place, and none of its components exceeds one: with `s` for the
/// numerator of one, the exact sum of the squares of its numerators lies
/// between `(s - 4)^2` and `(s + 1)^2`.  This holds of every vector but zero.
pub proof fn lemma_unit_length(a: V3)
    requires
        v3_reach(a) > 0,
    ensures
        ({
            let u = v3_unit(a);
            &&& (ONE_RAW - 4) * (ONE_RAW - 4) <= v3_norm_sq(u) < (ONE_RAW + 1) * (ONE_RAW + 1)
            &&& -ONE_RAW <= u.x <= ONE_RAW
            &&& -ONE_RAW <= u.y <= ONE_RAW
            &&& -ONE_RAW <= u.z <= ONE_RAW
            &&& u.typ == a.typ
        }),
{
    lemma_unit_stretch(a);
    let f = unit_factor(v3_reach(a));
    let b = v3_times(a, f);
    let l = isqrt(v3_norm_sq(b));
    let u = v3_unit(a);
    let b1 = int_abs(b.x);
    let b2 = int_abs(b.y);
    let b3 = int_abs(b.z);
    lemma_unit_component(b.x, l);
    lemma_unit_component(b.y, l);
    lemma_unit_component(b.z, l);
    let q1 = int_abs(u.x);
    let q2 = int_abs(u.y);
    let q3 = int_abs(u.z);
    assert(b1 * ONE_RAW >= 0 && b2 * ONE_RAW >= 0 && b3 * ONE_RAW >= 0) by (nonlinear_arith)
        requires
            b1 >= 0,
            b2 >= 0,
            b3 >= 0,
    ;
    lemma_floor_quotient(b1 * ONE_RAW, l);
    lemma_floor_quotient(b2 * ONE_RAW, l);
    lemma_floor_quotient(b3 * ONE_RAW, l);
    lemma_quotients_near_unit(b1, b2, b3, q1, q2, q3, l);
    assert(u.x * u.x == q1 * q1 && u.y * u.y == q2 * q2 && u.z * u.z == q3 * q3)
        by (nonlinear_arith)
        requires
            q1 == int_abs(u.x),
            q2 == int_abs(u.y),
            q3 == int_abs(u.z),
    ;
}

/// Numerator of the bound under which a component counts as zero: `1e-8`, rounded up.
pub const NEAR_ZERO_RAW: i64 = 43;

/// Every component is smaller in magnitude than `1e-8`.
pub open spec fn v3_near_zero(a: V3) -> bool {
    &&& fx_abs(a.x) < NEAR_ZERO_RAW
    &&& fx_abs(a.y) < NEAR_ZERO_RAW
    &&& fx_abs(a.z) < NEAR_ZERO_RAW
}

/// Mirror image of `v` about the plane with normal `n`: `v - 2 (v . n) n`.
pub open spec fn v3_reflect(v: V3, n: V3) -> V3 {
    v3_sub(v, v3_scale(n, fx_mul(2 * ONE_RAW, v3_dot(v, n))))
}

/// Cosine of the angle between `-uv` and `n`, capped at `1`.
pub open spec fn v3_cos_incidence(uv: V3, n: V3) -> int {
    fx_min(v3_dot(v3_neg(uv), n), ONE_RAW as int)
}

/// Part of the refracted direction that is perpendicular to the normal.
pub open spec fn v3_refract_perp(uv: V3, n: V3, ratio: int) -> V3 {
    v3_scale(v3_add(uv, v3_scale(n, v3_cos_incidence(uv, n))), ratio)
}

/// Direction of `uv` after refraction at a surface with normal `n`, by
/// Snell's law with the ratio `ratio` of the refraction indices.
pub open spec fn v3_refract(uv: V3, n: V3, ratio: int) -> V3 {
    let perp = v3_refract_perp(uv, n, ratio);
    let para = v3_scale(n, fx_sqrt(fx_abs(fx_sub(ONE_RAW as int, v3_len_sq(perp)))));
    v3_add(perp, v3_neg(para))
}

/// `v` is a point whose coordinates were each drawn between `min` and `max`.
pub open spec fn is_box_draw(min: int, max: int, v: V3) -> bool {
    &&& v.typ == VecTypes::Coordinates
    &&& is_interval_draw(min, max, v.x)
    &&& is_interval_draw(min, max, v.y)
    &&& is_interval_draw(min, max, v.z)
}

/// A point of the cube `[-1, 1)^3` is kept by the rejection test if it lies
/// in the unit ball and is not the origin.
pub open spec fn unit_sample_ok(p: V3) -> bool {
    0 < v3_norm_sq(p) <= ONE_RAW * ONE_RAW
}

/// The direction returned when no sample was kept.
pub open spec fn unit_fallback() -> V3 {
    V3 { typ: VecTypes::Coordinates, x: ONE_RAW as int, y: 0, z: 0 }
}

/// `v` is a possible result of drawing a random direction: a kept sample
/// divided by its length, or the fallback direction.
pub open spec fn is_unit_draw(v: V3) -> bool {
    ||| v == unit_fallback()
    ||| exists|p: V3|
        {
            &&& is_box_draw(-(ONE_RAW as int), ONE_RAW as int, p)
            &&& unit_sample_ok(p)
            &&& #[trigger] v3_unit(p) == v
        }
}

/// A vector whose squares add up to more than zero has a component that is not zero.
pub proof fn lemma_reach_of_nonzero(a: V3)
    requires
        v3_norm_sq(a) > 0,
    ensures
        v3_reach(a) > 0,
{
    if v3_reach(a) == 0 {
        assert(a.x * a.x + a.y * a.y + a.z * a.z == 0) by (nonlinear_arith)
            requires
                a.x == 0,
                a.y == 0,
                a.z == 0,
        ;
    }
}

/// Every random direction is one long, to within four units of the last
/// place, and has no component beyond one.
pub proof fn lemma_unit_draw_length(v: V3)
    requires
        is_unit_draw(v),
    ensures
        (ONE_RAW - 4) * (ONE_RAW - 4) <= v3_norm_sq(v) < (ONE_RAW + 1) * (ONE_RAW + 1),
        -ONE_RAW <= v.x <= ONE_RAW,
        -ONE_RAW <= v.y <= ONE_RAW,
        -ONE_RAW <= v.z <= ONE_RAW,
        v.typ == VecTypes::Coordinates,
{
    if v == unit_fallback() {
        assert(v3_norm_sq(v) == ONE_RAW * ONE_RAW) by (nonlinear_arith)
            requires
                v.x == ONE_RAW,
                v.y == 0,
                v.z == 0,
        ;
        assert((ONE_RAW - 4) * (ONE_RAW - 4) <= ONE_RAW * ONE_RAW < (ONE_RAW + 1) * (ONE_RAW + 1))
            by (nonlinear_arith);
    } else {
        let p = choose|p: V3|
            {
                &&& is_box_draw(-(ONE_RAW as int), ONE_RAW as int, p)
                &&& unit_sample_ok(p)
                &&& #[trigger] v3_unit(p) == v
            };
        lemma_reach_of_nonzero(p);
        lemma_unit_length(p);
    }
}

/// The whole factor by which a direction of reach `m` below one is
/// stretched before the roots are found.
pub open spec fn gauge_factor(m: int) -> int {
    if 0 < m < ONE_RAW {
        (ONE_RAW as int) / m
    } else {
        1
    }
}

/// The whole divisor by which a direction of reach `m` of one or more is
/// shrunk before the roots are found.
pub open spec fn gauge_divisor(m: int) -> int {
    if m >= ONE_RAW {
        m / (ONE_RAW as int)
    } else {
        1
    }
}

/// The direction `d` brought to a reach between one half and two, so that
/// its squared length keeps its bits: `d * f / g` for the factor and divisor
/// of its reach, of which one is one.
pub open spec fn gauged(d: V3) -> V3 {
    let f = gauge_factor(v3_reach(d));
    let g = gauge_divisor(v3_reach(d));
    V3 {
        typ: d.typ,
        x: fx_over(fx_times(d.x, f), g),
        y: fx_over(fx_times(d.y, f), g),
        z: fx_over(fx_times(d.z, f), g),
    }
}

/// `p` if it points to the side of `n`, else its negation.  The side is
/// told by the scalar product with the gauged `n`, so that `n` may have any length.
pub open spec fn v3_towards(p: V3, n: V3) -> V3 {
    if v3_dot(p, gauged(n)) > 0 {
        p
    } else {
        v3_neg(p)
    }
}

/// `v` is a possible result of drawing a random direction on the side of `n`.
pub open spec fn is_hemisphere_draw(n: V3, v: V3) -> bool {
    exists|p: V3| is_unit_draw(p) && #[trigger] v3_towards(p, n) == v
}

/// A vector turned towards `n` does not point away from `n`.
pub proof fn lemma_towards_side(p: V3, n: V3)
    requires
        -MAX_RAW <= p.x <= MAX_RAW,
        -MAX_RAW <= p.y <= MAX_RAW,
        -MAX_RAW <= p.z <= MAX_RAW,
    ensures
        v3_dot(v3_towards(p, n), gauged(n)) >= 0,
{
    let w = gauged(n);
    if v3_dot(p, w) <= 0 {
        lemma_fx_mul_one(p.x);
        lemma_fx_mul_one(p.y);
        lemma_fx_mul_one(p.z);
        lemma_fx_mul_neg(p.x, w.x);
        lemma_fx_mul_neg(p.y, w.y);
        lemma_fx_mul_neg(p.z, w.z);
    }
}

/// A random direction on the side of `n` does not point away from `n`.
pub proof fn lemma_hemisphere_side(n: V3, v: V3)
    requires
        is_hemisphere_draw(n, v),
    ensures
        v3_dot(v, gauged(n)) >= 0,
{
    let p = choose|p: V3| is_unit_draw(p) && #[trigger] v3_towards(p, n) == v;
    lemma_unit_draw_length(p);
    lemma_towards_side(p, n);
}

/// `v` is a possible result of drawing a point of the unit disk in the plane `z = 0`.
pub open spec fn is_disk_draw(v: V3) -> bool {
    &&& v.typ == VecTypes::Coordinates
    &&& v.z == 0
    &&& v == (V3 { typ: VecTypes::Coordinates, x: 0, y: 0, z: 0 }) || {
        &&& is_interval_draw(-(ONE_RAW as int), ONE_RAW as int, v.x)
        &&& is_interval_draw(-(ONE_RAW as int), ONE_RAW as int, v.y)
        &&& v3_len(v) < ONE_RAW
    }
}

/// How often a rejection loop draws before it gives the fallback.
pub const MAX_DRAWS: u32 = 256;

/// The squares of three 64-bit magnitudes add up within 128 bits.
proof fn lemma_squares_fit(a: int, b: int, c: int)
    by (nonlinear_arith)
    requires
        0 <= a <= 0x8000_0000_0000_0000,
        0 <= b <= 0x8000_0000_0000_0000,
        0 <= c <= 0x8000_0000_0000_0000,
    ensures
        0 <= a * a <= 0x4000_0000_0000_0000_0000_0000_0000_0000,
        0 <= b * b <= 0x4000_0000_0000_0000_0000_0000_0000_0000,
        0 <= c * c <= 0x4000_0000_0000_0000_0000_0000_0000_0000,
        a * a + b * b + c * c <= 0xc000_0000_0000_0000_0000_0000_0000_0000,
{
}

/// A number and its magnitude have the same square.
proof fn lemma_square_of_magnitude(x: int)
    by (nonlinear_arith)
    ensures
        int_abs(x) * int_abs(x) == x * x,
{
}

/// The stretched magnitudes of `unit_vec` fit in 64 bits.
proof fn lemma_factor_fits(m: int, ax: int, ay: int, az: int)
    requires
        0 < m <= 0x8000_0000_0000_0000,
        0 <= ax <= m,
        0 <= ay <= m,
        0 <= az <= m,
    ensures
        ({
            let f = unit_factor(m);
            &&& 1 <= f <= UNIT_REACH
            &&& 0 <= ax * f <= 0x8000_0000_0000_0000
            &&& 0 <= ay * f <= 0x8000_0000_0000_0000
            &&& 0 <= az * f <= 0x8000_0000_0000_0000
        }),
{
    let f = unit_factor(m);
    if m < UNIT_REACH {
        vstd::arithmetic::div_mod::lemma_fundamental_div_mod(UNIT_REACH as int, m);
        vstd::arithmetic::div_mod::lemma_mod_bound(UNIT_REACH as int, m);
        vstd::arithmetic::div_mod::lemma_div_pos_is_pos(UNIT_REACH as int, m);
    }
    assert(1 <= f <= UNIT_REACH && m * f <= 0x8000_0000_0000_0000) by (nonlinear_arith)
        requires
            0 < m <= 0x8000_0000_0000_0000,
            m < UNIT_REACH ==> UNIT_REACH == m * f + (UNIT_REACH as int) % m && 0
                <= (UNIT_REACH as int) % m < m && f >= 0,
            m >= UNIT_REACH ==> f == 1,
            UNIT_REACH == 0x2000_0000_0000_0000,
    {
        if m < UNIT_REACH {
            if f == 0 {
            }
            if f > UNIT_REACH {
                assert(m * f >= f);
            }
        }
    }
    assert(0 <= ax * f <= m * f && 0 <= ay * f <= m * f && 0 <= az * f <= m * f)
        by (nonlinear_arith)
        requires
            0 <= ax <= m,
            0 <= ay <= m,
            0 <= az <= m,
            f >= 1,
    ;
}

/// One component of a unit vector: the stretched magnitude `b` times one
/// over the length `l`, with the sign of the component.
fn unit_component(negative: bool, b: u128, l: u128, Ghost(signed): Ghost<int>) -> (r: Fixed)
    requires
        l > 0,
        b <= l,
        b <= 0x8000_0000_0000_0000,
        int_abs(signed) == b,
        negative == (signed < 0),
    ensures
        r@ == trunc_div(signed * ONE_RAW, l as int),
{
    let q: u128 = (b * 0x1_0000_0000) / l;
    proof {
        lemma_unit_component(signed, l as int);
        lemma_floor_quotient(b * ONE_RAW, l as int);
        assert(q <= ONE_RAW) by (nonlinear_arith)
            requires
                q * l <= b * ONE_RAW,
                b <= l,
                l > 0,
        {
            if q > ONE_RAW {
                assert(q * l >= (ONE_RAW + 1) * l);
                assert(b * ONE_RAW <= l * ONE_RAW);
            }
        }
        assert(signed >= 0 ==> signed * ONE_RAW >= 0) by (nonlinear_arith);
        assert(signed < 0 ==> signed * ONE_RAW < 0) by (nonlinear_arith);
    }
    if negative {
        Fixed::from_raw(-(q as i64))
    } else {
        Fixed::from_raw(q as i64)
    }
}

/// A three-component vector of fixed-point scalars.
#[derive(Debug, Clone, Copy)]
pub struct Vec3 {
    pub typ: VecTypes,
    pub x: Fixed,
    pub y: Fixed,
    pub z: Fixed,
}

impl View for Vec3 {
    type V = V3;

    open spec fn view(&self) -> V3 {
        V3 { typ: self.typ, x: self.x@, y: self.y@, z: self.z@ }
    }
}

impl Vec3 {
    /// The vector with the given tag and components.
    pub fn new(typ: VecTypes, x: Fixed, y: Fixed, z: Fixed) -> (r: Self)
        ensures
            r == (Vec3 { typ, x, y, z }),
    {
        Vec3 { typ, x, y, z }
    }

    /// The component with index `i`: `0`, `1` or `2`.
    pub fn get(&self, i: u8) -> (r: Fixed)
        requires
            i <= 2,
        ensures
            i == 0 ==> r == self.x,
            i == 1 ==> r == self.y,
            i == 2 ==> r == self.z,
    {
        if i == 0 {
            self.x
        } else if i == 1 {
            self.y
        } else {
            self.z
        }
    }

    /// The squared Euclidean length.
    pub fn length_squared(&self) -> (r: Fixed)
        ensures
            r@ == v3_len_sq(self@),
    {
        self.dot(self)
    }

    /// The largest magnitude among the components.
    pub fn reach(&self) -> (m: i64)
        ensures
            m == v3_reach(self@),
            0 <= m <= MAX_RAW,
    {
        let x: i64 = self.x.raw();
        let y: i64 = self.y.raw();
        let z: i64 = self.z.raw();
        let ax: i64 = if x < 0 {
            -x
        } else {
            x
        };
        let ay: i64 = if y < 0 {
            -y
        } else {
            y
        };
        let az: i64 = if z < 0 {
            -z
        } else {
            z
        };
        let mut m: i64 = ax;
        if ay > m {
            m = ay;
        }
        if az > m {
            m = az;
        }
        m
    }

    /// The whole factor and the whole divisor that bring the vector to a
    /// reach between one half and two; one of them is one.
    pub fn gauge(&self) -> (fg: (i64, i64))
        ensures
            fg.0 == gauge_factor(v3_reach(self@)),
            fg.1 == gauge_divisor(v3_reach(self@)),
    {
        let m: i64 = self.reach();
        let f: i64 = if 0 < m && m < ONE_RAW {
            ONE_RAW / m
        } else {
            1
        };
        let g: i64 = if m >= ONE_RAW {
            m / ONE_RAW
        } else {
            1
        };
        (f, g)
    }

    /// The vector brought to a reach between one half and two.
    pub fn gauged(&self) -> (w: Self)
        ensures
            w@ == gauged(self@),
    {
        let (f, g) = self.gauge();
        Vec3 {
            typ: self.typ,
            x: self.x.mul_int(f).div_int(g),
            y: self.y.mul_int(f).div_int(g),
            z: self.z.mul_int(f).div_int(g),
        }
    }

    /// The exact sum of the squares of the three numerators.
    pub fn norm_squared(&self) -> (n: u128)
        ensures
            n == v3_norm_sq(self@),
    {
        let ax: u128 = magnitude(self.x.raw());
        let ay: u128 = magnitude(self.y.raw());
        let az: u128 = magnitude(self.z.raw());
        proof {
            lemma_squares_fit(ax as int, ay as int, az as int);
            lemma_square_of_magnitude(self@.x);
            lemma_square_of_magnitude(self@.y);
            lemma_square_of_magnitude(self@.z);
        }
        ax * ax + ay * ay + az * az
    }

    /// The Euclidean length.
    pub fn vec_length(&self) -> (r: Fixed)
        ensures
            r@ == v3_len(self@),
    {
        let l: u128 = isqrt_u128(self.norm_squared());
        if l > 0x7fff_ffff_ffff_ffff {
            Fixed::max_value()
        } else {
            Fixed::from_raw(l as i64)
        }
    }

    /// Every component plus `s`.
    pub fn sum(&self, s: Fixed) -> (r: Self)
        ensures
            r@ == v3_offset(self@, s@),
    {
        Vec3 { typ: self.typ, x: self.x.add(&s), y: self.y.add(&s), z: self.z.add(&s) }
    }

    /// Every component times `m`.
    pub fn mul(&self, m: Fixed) -> (r: Self)
        ensures
            r@ == v3_scale(self@, m@),
    {
        Vec3 { typ: self.typ, x: self.x.mul(&m), y: self.y.mul(&m), z: self.z.mul(&m) }
    }

    /// The vector with every component negated.
    pub fn neg(&self) -> (r: Self)
        ensures
            r@ == v3_neg(self@),
    {
        let minus_one = Fixed::one().neg();
        self.mul(minus_one)
    }

    /// The scalar product of two vectors with the same tag.
    pub fn dot(&self, d: &Self) -> (r: Fixed)
        requires
            self.typ == d.typ,
        ensures
            r@ == v3_dot(self@, d@),
    {
        self.x.mul(&d.x).add(&self.y.mul(&d.y)).add(&self.z.mul(&d.z))
    }

    /// Every component divided by `u`.
    pub fn div(&self, u: Fixed) -> (r: Self)
        ensures
            r@ == v3_shrink(self@, u@),
    {
        Vec3 { typ: self.typ, x: self.x.div(&u), y: self.y.div(&u), z: self.z.div(&u) }
    }

    /// The vector divided by its own length.
    pub fn unit_vec(&self) -> (r: Self)
        ensures
            r@ == v3_unit(self@),
    {
        let ax: u128 = magnitude(self.x.raw());
        let ay: u128 = magnitude(self.y.raw());
        let az: u128 = magnitude(self.z.raw());
        let mut m: u128 = ax;
        if ay > m {
            m = ay;
        }
        if az > m {
            m = az;
        }
        assert(m == v3_reach(self@));
        if m == 0 {
            proof {
                lemma_isqrt_unique(0, 0);
                assert(v3_norm_sq(v3_times(self@, 1)) == 0) by (nonlinear_arith)
                    requires
                        self@.x == 0,
                        self@.y == 0,
                        self@.z == 0,
                ;
            }
            return Vec3 { typ: self.typ, x: Fixed::zero(), y: Fixed::zero(), z: Fixed::zero() };
        }
        let f: u128 = if m < 0x2000_0000_0000_0000 {
            0x2000_0000_0000_0000 / m
        } else {
            1
        };
        proof {
            lemma_unit_stretch(self@);
            lemma_factor_fits(m as int, ax as int, ay as int, az as int);
        }
        let bx: u128 = ax * f;
        let by: u128 = ay * f;
        let bz: u128 = az * f;
        proof {
            lemma_squares_fit(bx as int, by as int, bz as int);
        }
        let l: u128 = isqrt_u128(bx * bx + by * by + bz * bz);
        let ghost b = v3_times(self@, f as int);
        proof {
            let n = v3_norm_sq(b);
            assert((self@.x < 0) == (b.x < 0) && (self@.y < 0) == (b.y < 0) && (self@.z < 0) == (b.z
                < 0)) by (nonlinear_arith)
                requires
                    b.x == self@.x * f,
                    b.y == self@.y * f,
                    b.z == self@.z * f,
                    f >= 1,
            ;
            lemma_quotient_le_one(bx as int, 0, l as int, n - bx * bx);
            lemma_quotient_le_one(by as int, 0, l as int, n - by * by);
            lemma_quotient_le_one(bz as int, 0, l as int, n - bz * bz);
        }
        Vec3 {
            typ: self.typ,
            x: unit_component(self.x.raw() < 0, bx, l, Ghost(b.x)),
            y: unit_component(self.y.raw() < 0, by, l, Ghost(b.y)),
            z: unit_component(self.z.raw() < 0, bz, l, Ghost(b.z)),
        }
    }

    /// A point with each coordinate drawn from `[0, 1)`.
    pub fn random() -> (r: Self)
        ensures
            is_box_draw(0, ONE_RAW as int, r@),
    {
        Vec3::random_max_min(Fixed::zero(), Fixed::one())
    }

    /// A point with each coordinate drawn between `min` and `max`.
    pub fn random_max_min(min: Fixed, max: Fixed) -> (r: Self)
        ensures
            is_box_draw(min@, max@, r@),
    {
        Vec3 {
            typ: VecTypes::Coordinates,
            x: random_Interval_f64(min, max),
            y: random_Interval_f64(min, max),
            z: random_Interval_f64(min, max),
        }
    }

    /// The rejection test of `random_unit_vec` on one sample: the sample
    /// divided by its length if it lies in the unit ball and is not the
    /// origin, else nothing.
    pub fn unit_from_sample(p: &Vec3) -> (r: Option<Vec3>)
        ensures
            unit_sample_ok(p@) ==> r.is_some() && r.unwrap()@ == v3_unit(p@),
            !unit_sample_ok(p@) ==> r.is_none(),
    {
        let n: u128 = p.norm_squared();
        assert(ONE_RAW * ONE_RAW == 0x1_0000_0000_0000_0000);
        if n > 0 && n <= 0x1_0000_0000_0000_0000 {
            Some(p.unit_vec())
        } else {
            None
        }
    }

    /// A random direction of length one: samples of the cube `[-1, 1)^3` are
    /// drawn until one passes the rejection test, at most `MAX_DRAWS` times.
    pub fn random_unit_vec() -> (r: Self)
        ensures
            is_unit_draw(r@),
    {
        let mut n: u32 = 0;
        while n < MAX_DRAWS
            invariant
                n <= MAX_DRAWS,
            decreases MAX_DRAWS - n,
        {
            let p = Vec3::random_max_min(Fixed::one().neg(), Fixed::one());
            match Vec3::unit_from_sample(&p) {
                Some(u) => {
                    assert(v3_unit(p@) == u@);
                    return u;
                },
                None => {},
            }
            n = n + 1;
        }
        Vec3 { typ: VecTypes::Coordinates, x: Fixed::one(), y: Fixed::zero(), z: Fixed::zero() }
    }

    /// `p` if it points to the side of `normal`, else its negation.
    pub fn towards(p: &Vec3, normal: &Vec3) -> (r: Self)
        requires
            p.typ == normal.typ,
        ensures
            r@ == v3_towards(p@, normal@),
    {
        if p.dot(&normal.gauged()).gt(&Fixed::zero()) {
            *p
        } else {
            p.neg()
        }
    }

    /// A random direction of length one on the side of `normal`.
    pub fn random_on_hemisphere(normal: &Vec3) -> (r: Self)
        requires
            normal.typ == VecTypes::Coordinates,
        ensures
            is_hemisphere_draw(normal@, r@),
    {
        let p = Self::random_unit_vec();
        assert(p.typ == VecTypes::Coordinates);
        let r = Vec3::towards(&p, normal);
        assert(v3_towards(p@, normal@) == r@);
        r
    }

    /// Whether every component is smaller in magnitude than `1e-8`.
    pub fn near_zero(&self) -> (r: bool)
        ensures
            r == v3_near_zero(self@),
    {
        let s = Fixed::from_raw(NEAR_ZERO_RAW);
        self.x.abs().lt(&s) && self.y.abs().lt(&s) && self.z.abs().lt(&s)
    }

    /// The mirror image of `self` about the plane with the given normal.
    pub fn reflected_vec(&self, normal: &Vec3) -> (r: Self)
        requires
            self.typ == normal.typ,
        ensures
            r@ == v3_reflect(self@, normal@),
    {
        let two = Fixed::from_int(2);
        self.sub(normal.mul(two.mul(&self.dot(normal))))
    }

    /// The direction of the unit vector `self` after refraction at a surface
    /// with the given unit normal, where `refraction_const` is the ratio of
    /// the refraction indices.
    pub fn refract(&self, normal: &Vec3, refraction_const: Fixed) -> (r: Self)
        requires
            self.typ == normal.typ,
        ensures
            r@ == v3_refract(self@, normal@, refraction_const@),
    {
        let cos_theta = self.neg().dot(normal).min(&Fixed::one());
        let r_out_perp = self.add(normal.mul(cos_theta)).mul(refraction_const);
        let r_out_para = normal.mul(Fixed::one().sub(&r_out_perp.length_squared()).abs().sqrt());
        r_out_perp.add(r_out_para.neg())
    }

    /// The acceptance test of `random_in_unit_disk` on one sample.
    pub fn in_unit_disk(p: &Vec3) -> (r: bool)
        ensures
            r == (v3_len(p@) < ONE_RAW),
    {
        p.vec_length().lt(&Fixed::one())
    }

    /// A random point of the unit disk in the plane `z = 0`: samples of the
    /// square `[-1, 1)^2` are drawn until one lies in the disk, at most
    /// `MAX_DRAWS` times; after that the centre is returned.
    pub fn random_in_unit_disk() -> (r: Self)
        ensures
            is_disk_draw(r@),
    {
        let mut n: u32 = 0;
        while n < MAX_DRAWS
            invariant
                n <= MAX_DRAWS,
            decreases MAX_DRAWS - n,
        {
            let p = Vec3::new(
                VecTypes::Coordinates,
                random_Interval_f64(Fixed::one().neg(), Fixed::one()),
                random_Interval_f64(Fixed::one().neg(), Fixed::one()),
                Fixed::zero(),
            );
            if Vec3::in_unit_disk(&p) {
                return p;
            }
            n = n + 1;
        }
        Vec3 { typ: VecTypes::Coordinates, x: Fixed::zero(), y: Fixed::zero(), z: Fixed::zero() }
    }

    /// The component-wise sum; the tag is that of `self`.
    pub fn add(self, rhs: Vec3) -> (r: Vec3)
        ensures
            r@ == v3_add(self@, rhs@),
    {
        Vec3 {
            typ: self.typ,
            x: self.x.add(&rhs.x),
            y: self.y.add(&rhs.y),
            z: self.z.add(&rhs.z),
        }
    }

    /// The component-wise difference; the tag is that of `self`.
    pub fn sub(self, rhs: Vec3) -> (r: Vec3)
        ensures
            r@ == v3_sub(self@, rhs@),
    {
        Vec3 {
            typ: self.typ,
            x: self.x.sub(&rhs.x),
            y: self.y.sub(&rhs.y),
            z: self.z.sub(&rhs.z),
        }
    }

    /// The vector product; the tag is that of `self`.
    pub fn cross(self, rhs: Vec3) -> (r: Vec3)
        ensures
            r@ == v3_cross(self@, rhs@),
    {
        Vec3 {
            typ: self.typ,
            x: self.y.mul(&rhs.z).sub(&self.z.mul(&rhs.y)),
            y: self.z.mul(&rhs.x).sub(&self.x.mul(&rhs.z)),
            z: self.x.mul(&rhs.y).sub(&self.y.mul(&rhs.x)),
        }
    }

    /// Adds `rhs` to `self`, component by component.
    pub fn add_assign(&mut self, rhs: Vec3)
        ensures
            final(self)@ == v3_add(old(self)@, rhs@),
    {
        self.x = self.x.add(&rhs.x);
        self.y = self.y.add(&rhs.y);
        self.z = self.z.add(&rhs.z);
    }
}

impl Default for Vec3 {
    fn default() -> (r: Vec3)
        ensures
            r@ == (V3 { typ: VecTypes::Coordinates, x: 0, y: 0, z: 0 }),
    {
        Vec3 { typ: VecTypes::Coordinates, x: Fixed::zero(), y: Fixed::zero(), z: Fixed::zero() }
    }
}

} // verus!
