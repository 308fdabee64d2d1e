//! The front-face law: a ray meets a sphere from outside where it enters
//! it, at the nearer of its two roots, and from inside where it leaves it.

use vstd::prelude::*;
use crate::fixed::{
    fx_add, fx_div, fx_max, fx_mul, fx_sub, lemma_fx_div_sign, lemma_fx_mul_sign,
    lemma_isqrt_exists, lemma_trunc_div_monotone, lemma_trunc_div_sign, lemma_trunc_residue,
    trunc_div, MAX_RAW, ONE_RAW,
};
use crate::material::MaterialModel;
use crate::basis::lemma_squares_of_cross;
use crate::on_sphere::{
    lemma_bounded_product, lemma_dot_open, lemma_hit_point_on_sphere, lemma_len_sq_open,
    lemma_product_open, lemma_span_on_sphere, surface_slack,
};
use crate::ray::{
    gauge_back, gauged_ray, lemma_gauged_reach, lemma_gauged_short, pick_span, ray_at,
    scene_divisor, scene_reach, sphere_chord, sphere_hit, sphere_spans, RayV,
};
use crate::vec::{
    gauge_factor, gauged, int_abs, v3_dot, v3_len_sq, v3_neg, v3_norm_sq, v3_reach, v3_shrink,
    v3_sub, v3_times, V3,
};

verus! {

/// Largest magnitude of a coordinate for which the difference of two
/// points is exact: a quarter of the representable range.
pub open spec fn coordinate_limit() -> int {
    0x2000_0000_0000_0000
}

/// Every coordinate of `p` is at most `coordinate_limit()` in magnitude.
pub open spec fn within_limit(p: V3) -> bool {
    &&& -coordinate_limit() <= p.x <= coordinate_limit()
    &&& -coordinate_limit() <= p.y <= coordinate_limit()
    &&& -coordinate_limit() <= p.z <= coordinate_limit()
}

/// The direction `d` is the way `oc` times the positive fraction `p / q`.
pub open spec fn points_along(d: V3, oc: V3, p: int, q: int) -> bool {
    &&& p > 0
    &&& q > 0
    &&& d.x * q == oc.x * p
    &&& d.y * q == oc.y * p
    &&& d.z * q == oc.z * p
}

/// One coordinate of a hit on the way to the centre: where the ray runs
/// from `o` along `d`, which is `p / q` times the way to `c`, and is hit at
/// a parameter `t` of at most `q / p`, the hit lies between `o` and `c`, so
/// the outward normal there does not point along the ray.
proof fn lemma_aimed_component(o: int, c: int, d: int, t: int, radius: int, p: int, q: int)
    requires
        -coordinate_limit() <= o <= coordinate_limit(),
        -coordinate_limit() <= c <= coordinate_limit(),
        p > 0,
        q > 0,
        d * q == (c - o) * p,
        0 <= t,
        t * p <= ONE_RAW * q,
        radius > 0,
    ensures
        ({
            let away = fx_sub(fx_add(o, fx_mul(d, t)), c);
            let out = fx_div(away, radius);
            &&& fx_mul(d, out) <= 0
            &&& fx_mul(out, away) >= 0
        }),
{
    let s = ONE_RAW as int;
    let oc = c - o;
    let m = fx_mul(d, t);
    let away = fx_sub(fx_add(o, m), c);
    let out = fx_div(away, radius);
    assert((d >= 0 <==> oc >= 0) && (d <= 0 <==> oc <= 0)) by (nonlinear_arith)
        requires
            d * q == oc * p,
            p > 0,
            q > 0,
    ;
    // The product `d * t` lies between zero and `oc * s`.
    assert((d >= 0 ==> 0 <= d * t <= oc * s) && (d <= 0 ==> oc * s <= d * t <= 0))
        by (nonlinear_arith)
        requires
            d * q == oc * p,
            p > 0,
            q > 0,
            0 <= t,
            t * p <= s * q,
            (d >= 0 <==> oc >= 0),
            (d <= 0 <==> oc <= 0),
    {
        assert((d * t) * q == (oc * p) * t);
        assert((oc * s) * q == oc * (s * q));
        if d >= 0 {
            assert(oc * (p * t) <= oc * (s * q));
            assert((d * t) * q <= (oc * s) * q);
        } else {
            assert(oc * (p * t) >= oc * (s * q));
            assert((d * t) * q >= (oc * s) * q);
        }
    }
    lemma_trunc_div_sign(d * t, s);
    assert(trunc_div(oc * s, s) == oc) by {
        if oc >= 0 {
            vstd::arithmetic::div_mod::lemma_div_by_multiple(oc, s);
        } else {
            vstd::arithmetic::div_mod::lemma_div_by_multiple(-oc, s);
            assert(-(oc * s) == (-oc) * s) by (nonlinear_arith);
            assert(oc * s < 0) by (nonlinear_arith)
                requires
                    oc < 0,
                    s > 0,
            ;
        }
    }
    if d >= 0 {
        lemma_trunc_div_monotone(d * t, oc * s, s);
    } else {
        lemma_trunc_div_monotone(oc * s, d * t, s);
    }
    lemma_fx_div_sign(away, radius);
    lemma_fx_mul_sign(d, out);
    lemma_fx_mul_sign(out, away);
}

/// A ray that is fired at the centre of a sphere and is hit before it
/// reaches the centre meets the sphere from outside: the outward normal at
/// the hit does not point along the ray, so the hit counts as a front face
/// unless the scalar product of the two rounds to zero; and the normal of a
/// front face points away from the centre.  The direction is `p / q` times
/// the way from the origin of the ray to the centre, for any whole `p` and
/// `q` that leave its reach below one, and the hit lies at a parameter of at
/// most `q / p` that is not clamped.
pub proof fn lemma_aimed_ray_hits_front(
    center: V3,
    radius: int,
    mat: MaterialModel,
    r: RayV,
    r_max: int,
    r_min: int,
    p: int,
    q: int,
)
    requires
        within_limit(center),
        within_limit(r.origin),
        points_along(r.direction, v3_sub(center, r.origin), p, q),
        0 < v3_reach(r.direction) < ONE_RAW,
        radius > 0,
        sphere_hit(center, radius, mat, r, r_max, r_min) matches Some(h) && 0 <= h.t < MAX_RAW
            && h.t * p <= ONE_RAW * q,
    ensures
        sphere_hit(center, radius, mat, r, r_max, r_min) matches Some(h) && {
            let away = v3_sub(h.point, center);
            let outward = v3_shrink(away, radius);
            &&& v3_dot(gauged(r.direction), outward) <= 0
            &&& h.front_face <==> v3_dot(gauged(r.direction), outward) != 0
            &&& h.front_face ==> h.normal == outward && v3_dot(h.normal, away) >= 0
        },
{
    let m = v3_reach(r.direction);
    let s = pick_span(sphere_spans(center, radius, r), m, r_max, r_min).unwrap();
    let h = sphere_hit(center, radius, mat, r, r_max, r_min).unwrap();
    let d = r.direction;
    let f = gauge_factor(m);
    let w = gauged(d);
    lemma_gauged_short(d);
    let x = crate::fixed::fx_times(s, f);
    assert(trunc_div(x, 1) == x) by {
        vstd::arithmetic::div_mod::lemma_div_basics(x);
        vstd::arithmetic::div_mod::lemma_div_basics(-x);
    }
    assert(h.t == gauge_back(s, m));
    assert(h.t == s * f);
    assert(0 <= s && s * (p * f) <= ONE_RAW * q) by (nonlinear_arith)
        requires
            0 <= s * f,
            (s * f) * p <= ONE_RAW * q,
            f >= 1,
    ;
    let oc = v3_sub(center, r.origin);
    assert(w.x * q == (center.x - r.origin.x) * (p * f) && w.y * q == (center.y - r.origin.y) * (p
        * f) && w.z * q == (center.z - r.origin.z) * (p * f)) by (nonlinear_arith)
        requires
            w.x == d.x * f,
            w.y == d.y * f,
            w.z == d.z * f,
            d.x * q == (center.x - r.origin.x) * p,
            d.y * q == (center.y - r.origin.y) * p,
            d.z * q == (center.z - r.origin.z) * p,
    {
        assert((d.x * f) * q == (d.x * q) * f);
        assert((d.y * f) * q == (d.y * q) * f);
        assert((d.z * f) * q == (d.z * q) * f);
    }
    assert(p * f > 0) by (nonlinear_arith)
        requires
            p > 0,
            f >= 1,
    ;
    lemma_aimed_component(r.origin.x, center.x, w.x, s, radius, p * f, q);
    lemma_aimed_component(r.origin.y, center.y, w.y, s, radius, p * f, q);
    lemma_aimed_component(r.origin.z, center.z, w.z, s, radius, p * f, q);
}

/// The least difference of the two roots along the gauged direction for
/// which the side of a hit is sure: one part in 128.  A chord that is
/// shorter is grazed, and the side of its ends is left to the rounding.
pub open spec fn chord_floor() -> int {
    0x200_0000
}

/// The least radius in the law of the side of a hit: one part in 64.
pub open spec fn side_radius_floor() -> int {
    0x400_0000
}

/// One coordinate of the outward normal of a sphere of at least the least radius.
proof fn lemma_outward_small(away: int, radius: int, b: int)
    requires
        side_radius_floor() <= radius < scene_reach(),
        -b <= away <= b,
        0 <= b <= 0x20_0000_0000_0000,
    ensures
        ({
            let out = fx_div(away, radius);
            &&& -radius < away * ONE_RAW - out * radius < radius
            &&& -0x800_0000_0000_0000 <= out <= 0x800_0000_0000_0000
        }),
{
    let n = ONE_RAW as int;
    let p = away * n;
    lemma_bounded_product(away, n, b, n);
    lemma_trunc_residue(p, radius);
    let t = trunc_div(p, radius);
    assert(-0x800_0000_0000_0000 <= t <= 0x800_0000_0000_0000) by (nonlinear_arith)
        requires
            p >= 0 ==> 0 <= p - t * radius < radius && 0 <= t,
            p <= 0 ==> -radius < p - t * radius <= 0 && t <= 0,
            -(b * n) <= p <= b * n,
            b <= 0x20_0000_0000_0000,
            n == 0x1_0000_0000,
            radius >= 0x400_0000,
    {
        assert(b * n <= 0x20_0000_0000_0000 * n);
        if t > 0x800_0000_0000_0000 {
            assert(t * radius >= 0x800_0000_0000_0001 * radius);
            assert(0x800_0000_0000_0001 * radius >= 0x800_0000_0000_0001 * 0x400_0000);
        }
        if t < -0x800_0000_0000_0000 {
            assert(t * radius <= -0x800_0000_0000_0001 * radius);
            assert(0x800_0000_0000_0001 * radius >= 0x800_0000_0000_0001 * 0x400_0000);
        }
    }
}

/// The scalar product of the gauged direction with the exact way from the
/// centre to the point at the root `s`, in the sums of squares and products.
proof fn lemma_dot_with_away(w: V3, way: V3, s: int)
    ensures
        w.x * (w.x * s - way.x * ONE_RAW) + w.y * (w.y * s - way.y * ONE_RAW) + w.z * (w.z * s
            - way.z * ONE_RAW) == s * v3_norm_sq(w) - ONE_RAW * (w.x * way.x + w.y * way.y + w.z
            * way.z),
{
    let n = ONE_RAW as int;
    assert(w.x * (w.x * s - way.x * n) == s * (w.x * w.x) - n * (w.x * way.x)) by (nonlinear_arith);
    assert(w.y * (w.y * s - way.y * n) == s * (w.y * w.y) - n * (w.y * way.y)) by (nonlinear_arith);
    assert(w.z * (w.z * s - way.z * n) == s * (w.z * w.z) - n * (w.z * way.z)) by (nonlinear_arith);
    assert(s * v3_norm_sq(w) == s * (w.x * w.x) + s * (w.y * w.y) + s * (w.z * w.z))
        by (nonlinear_arith);
    assert(n * (w.x * way.x + w.y * way.y + w.z * way.z) == n * (w.x * way.x) + n * (w.y * way.y)
        + n * (w.z * way.z)) by (nonlinear_arith);
}

/// A multiple of a sum of products, term by term.
proof fn lemma_scaled_sum(w: V3, v: V3, k: int)
    ensures
        k * (w.x * v.x + w.y * v.y + w.z * v.z) == w.x * (v.x * k) + w.y * (v.y * k) + w.z * (v.z
            * k),
{
    let part1 = w.x * v.x;
    let part2 = w.y * v.y;
    let part3 = w.z * v.z;
    assert(w.x * (v.x * k) == k * part1) by (nonlinear_arith)
        requires
            part1 == w.x * v.x,
    ;
    assert(w.y * (v.y * k) == k * part2) by (nonlinear_arith)
        requires
            part2 == w.y * v.y,
    ;
    assert(w.z * (v.z * k) == k * part3) by (nonlinear_arith)
        requires
            part3 == w.z * v.z,
    ;
    assert(k * (part1 + part2 + part3) == k * part1 + k * part2 + k * part3) by (nonlinear_arith);
}

/// A term of a scalar product changes by less than `|w| e` where the
/// other factor changes by less than `e`.
proof fn lemma_term_shift(w: int, x: int, y: int, d: int, e: int)
    requires
        -2 * ONE_RAW <= w <= 2 * ONE_RAW,
        -e < x - y * d < e,
        e > 0,
    ensures
        w * (y * d) <= w * x + 2 * ONE_RAW * e,
        w * (y * d) >= w * x - 2 * ONE_RAW * e,
{
    let r = x - y * d;
    lemma_bounded_product(w, r, 2 * ONE_RAW, e);
    assert(w * (y * d) == w * x - w * r) by (nonlinear_arith)
        requires
            r == x - y * d,
    ;
    assert((2 * ONE_RAW) * e == 2 * ONE_RAW * e);
}

/// The side of the outward normal at either root of a chord that is not
/// grazed: at the nearer root the normal points against the gauged
/// direction, at the farther root along it.
proof fn lemma_side_of_root(center: V3, radius: int, r: RayV, at_far: bool)
    requires
        within_limit(center),
        within_limit(r.origin),
        0 < v3_reach(r.direction) <= MAX_RAW,
        side_radius_floor() <= radius < scene_reach(),
        v3_reach(v3_sub(center, r.origin)) < scene_reach(),
        sphere_spans(center, radius, r) matches Some((near, far)) && far - near >= chord_floor(),
    ensures
        ({
            let spans = sphere_spans(center, radius, r).unwrap();
            let s = if at_far {
                spans.1
            } else {
                spans.0
            };
            let away = v3_sub(ray_at(gauged_ray(r), s), center);
            let dot = v3_dot(gauged(r.direction), v3_shrink(away, radius));
            if at_far {
                dot > 0
            } else {
                dot < 0
            }
        }),
{
    let n = ONE_RAW as int;
    let spans = sphere_spans(center, radius, r).unwrap();
    let s = if at_far {
        spans.1
    } else {
        spans.0
    };
    lemma_span_on_sphere(center, radius, r, false);
    lemma_span_on_sphere(center, radius, r, true);
    lemma_gauged_reach(r.direction);
    let w = gauged(r.direction);
    let way = v3_sub(center, r.origin);
    let a = v3_len_sq(w);
    let hd = v3_dot(w, way);
    let sq = sphere_chord(center, radius, r);
    let reach = int_abs(s);
    // The chord is not grazed.
    let es0 = (hd - sq) * n - spans.0 * a;
    let es1 = (hd + sq) * n - spans.1 * a;
    assert(sq >= 0x40_0000) by (nonlinear_arith)
        requires
            es0 == (hd - sq) * n - spans.0 * a,
            es1 == (hd + sq) * n - spans.1 * a,
            -a < es0 < a,
            -a < es1 < a,
            spans.1 - spans.0 >= 0x200_0000,
            4 * a >= n,
            n == 0x1_0000_0000,
    {
        assert(2 * (sq * n) == (spans.1 - spans.0) * a + es1 - es0);
        assert((spans.1 - spans.0) * a >= 0x200_0000 * a);
        if sq < 0x40_0000 {
            assert(2 * (sq * n) <= 2 * (0x3f_ffff * n));
        }
    }
    // The exact way from the centre to the point.
    let away = v3_sub(ray_at(gauged_ray(r), s), center);
    let x1 = w.x * s - way.x * n;
    let x2 = w.y * s - way.y * n;
    let x3 = w.z * s - way.z * n;
    lemma_dot_with_away(w, way, s);
    let w2 = v3_norm_sq(w);
    let h2 = w.x * way.x + w.y * way.y + w.z * way.z;
    let ea = w2 - a * n;
    let eh = h2 - hd * n;
    let wx = w.x * x1 + w.y * x2 + w.z * x3;
    lemma_bounded_product(s, ea, reach, 3 * n);
    lemma_bounded_product(n, eh, n, 3 * n);
    assert(wx == n * (s * a - hd * n) + s * ea - n * eh) by (nonlinear_arith)
        requires
            wx == s * w2 - n * h2,
            ea == w2 - a * n,
            eh == h2 - hd * n,
    ;
    let n2 = n * n;
    let es = if at_far {
        es1
    } else {
        es0
    };
    let turn = if at_far {
        sq
    } else {
        -sq
    };
    assert(n * (s * a - hd * n) == turn * n2 - n * es) by (nonlinear_arith)
        requires
            es == (hd + turn) * n - s * a,
            n2 == n * n,
    ;
    lemma_bounded_product(n, es, n, a);
    let room = n * a + reach * (3 * n) + n * (3 * n);
    assert(turn * n2 - room <= wx <= turn * n2 + room);
    // From the exact way to the rounded way, and to the outward normal.
    lemma_term_shift(w.x, x1, away.x, n, n);
    lemma_term_shift(w.y, x2, away.y, n, n);
    lemma_term_shift(w.z, x3, away.z, n, n);
    let b = 2 * reach + v3_reach(way) + 1;
    let out = v3_shrink(away, radius);
    lemma_outward_small(away.x, radius, b);
    lemma_outward_small(away.y, radius, b);
    lemma_outward_small(away.z, radius, b);
    lemma_term_shift(w.x, away.x * n, out.x, radius, radius);
    lemma_term_shift(w.y, away.y * n, out.y, radius, radius);
    lemma_term_shift(w.z, away.z * n, out.z, radius, radius);
    let wa = w.x * away.x + w.y * away.y + w.z * away.z;
    let wo = w.x * out.x + w.y * out.y + w.z * out.z;
    lemma_scaled_sum(w, away, n);
    lemma_scaled_sum(w, out, radius);
    assert(n2 == 0x1_0000_0000_0000_0000) by (nonlinear_arith)
        requires
            n2 == n * n,
            n == 0x1_0000_0000,
    ;
    assert(sq * n2 - room - 6 * n * n - 6 * n * radius >= (3 * n) * radius) by (nonlinear_arith)
        requires
            room == n * a + reach * (3 * n) + n * (3 * n),
            a <= 12 * n,
            sq >= 0x40_0000,
            0 <= reach <= 0x8_0000_0000_0000,
            0 < radius < 0x800_0000_0000,
            n == 0x1_0000_0000,
            n2 == n * n,
    {
        assert(sq * n2 >= 0x40_0000 * n2);
        assert(reach * (3 * n) <= 0x8_0000_0000_0000 * (3 * n));
    }
    lemma_dot_open(w, out, 0x2_0000_0000, 0x800_0000_0000_0000);
    let dot = v3_dot(w, out);
    if at_far {
        assert(radius * wo >= (3 * n) * radius);
        assert(wo >= 3 * n) by (nonlinear_arith)
            requires
                radius * wo >= (3 * n) * radius,
                radius > 0,
        ;
        assert(dot > 0) by (nonlinear_arith)
            requires
                -3 * n < wo - dot * n < 3 * n,
                wo >= 3 * n,
                n > 0,
        ;
    } else {
        assert(radius * wo <= -(3 * n) * radius);
        assert(wo <= -(3 * n)) by (nonlinear_arith)
            requires
                radius * wo <= -(3 * n) * radius,
                radius > 0,
        ;
        assert(dot < 0) by (nonlinear_arith)
            requires
                -3 * n < wo - dot * n < 3 * n,
                wo <= -(3 * n),
                n > 0,
        ;
    }
}

/// A ray enters a sphere through a front face.  Where the nearer of the
/// two roots lies within the interval of the ray, and the roots lie at
/// least `chord_floor()` apart along the gauged direction, the hit counts
/// as a front face; its normal is the outward normal, the way from the
/// centre to the point divided by the radius; the normal points against the
/// ray and not towards the centre.  This holds of every direction: of a ray
/// fired from outside at the centre, and of every other ray that crosses
/// the sphere.  The sphere has a radius of at least `side_radius_floor()`,
/// and it and the way to it a reach below `scene_reach()`.
pub proof fn lemma_near_hit_is_front(
    center: V3,
    radius: int,
    mat: MaterialModel,
    r: RayV,
    r_max: int,
    r_min: int,
)
    requires
        within_limit(center),
        within_limit(r.origin),
        v3_reach(r.direction) <= MAX_RAW,
        side_radius_floor() <= radius < scene_reach(),
        v3_reach(v3_sub(center, r.origin)) < scene_reach(),
        sphere_spans(center, radius, r) matches Some((near, far)) && far - near >= chord_floor()
            && r_min < gauge_back(near, v3_reach(r.direction)) < r_max,
    ensures
        sphere_hit(center, radius, mat, r, r_max, r_min) matches Some(h) && {
            let away = v3_sub(h.point, center);
            &&& h.front_face
            &&& h.normal == v3_shrink(away, radius)
            &&& v3_dot(gauged(r.direction), h.normal) < 0
            &&& v3_dot(h.normal, away) >= 0
        },
{
    let h = sphere_hit(center, radius, mat, r, r_max, r_min).unwrap();
    assert(v3_reach(r.direction) > 0);
    lemma_side_of_root(center, radius, r, false);
    let away = v3_sub(h.point, center);
    let out = v3_shrink(away, radius);
    lemma_fx_div_sign(away.x, radius);
    lemma_fx_div_sign(away.y, radius);
    lemma_fx_div_sign(away.z, radius);
    lemma_fx_mul_sign(out.x, away.x);
    lemma_fx_mul_sign(out.y, away.y);
    lemma_fx_mul_sign(out.z, away.z);
}

/// A ray leaves a sphere through a back face.  Where the nearer of the
/// two roots lies outside the interval of the ray and the farther one
/// within it, as for a ray that starts inside the sphere, and the roots lie
/// at least `chord_floor()` apart along the gauged direction, the hit
/// counts as a back face, and its normal is the outward normal turned round.
pub proof fn lemma_far_hit_is_back(
    center: V3,
    radius: int,
    mat: MaterialModel,
    r: RayV,
    r_max: int,
    r_min: int,
)
    requires
        within_limit(center),
        within_limit(r.origin),
        v3_reach(r.direction) <= MAX_RAW,
        side_radius_floor() <= radius < scene_reach(),
        v3_reach(v3_sub(center, r.origin)) < scene_reach(),
        sphere_spans(center, radius, r) matches Some((near, far)) && far - near >= chord_floor()
            && !(r_min < gauge_back(near, v3_reach(r.direction)) < r_max) && r_min < gauge_back(
            far,
            v3_reach(r.direction),
        ) < r_max,
    ensures
        sphere_hit(center, radius, mat, r, r_max, r_min) matches Some(h) && {
            let away = v3_sub(h.point, center);
            &&& !h.front_face
            &&& h.normal == v3_neg(v3_shrink(away, radius))
        },
{
    assert(v3_reach(r.direction) > 0);
    lemma_side_of_root(center, radius, r, true);
}

/// A coordinate of the way from the centre to a point that is at least half
/// the radius long gives the outward normal a term above zero.
proof fn lemma_long_component(away: int, radius: int, b: int)
    requires
        side_radius_floor() <= radius < scene_reach(),
        -b <= away <= b,
        0 <= b <= 0x20_0000_0000_0000,
        4 * (away * away) >= radius * radius,
    ensures
        fx_mul(fx_div(away, radius), away) > 0,
{
    let n = ONE_RAW as int;
    let out = fx_div(away, radius);
    lemma_outward_small(away, radius, b);
    let size = int_abs(away);
    assert(2 * size >= radius) by (nonlinear_arith)
        requires
            4 * (away * away) >= radius * radius,
            radius > 0,
            size == if away < 0 {
                -away
            } else {
                away
            },
    {
        if 2 * size < radius {
            assert((2 * size) * (2 * size) < radius * radius);
        }
    }
    let p = out * away;
    assert(p >= n) by (nonlinear_arith)
        requires
            p == out * away,
            -radius < away * n - out * radius < radius,
            2 * size >= radius,
            size == if away < 0 {
                -away
            } else {
                away
            },
            radius >= 0x400_0000,
            n == 0x1_0000_0000,
    {
        if away > 0 {
            assert(2 * (out * radius) > 2 * (away * n) - 2 * radius);
            assert(2 * (away * n) >= radius * n);
            assert(out * radius > radius * 0x7fff_ffff);
            assert(out >= 0x8000_0000);
            assert(out * away >= 0x8000_0000 * away);
        } else {
            assert(2 * (out * radius) < 2 * (away * n) + 2 * radius);
            assert(2 * (away * n) <= -(radius * n));
            assert(out * radius < -(radius * 0x7fff_ffff));
            assert(out <= -0x8000_0000);
            assert(out * away >= -0x8000_0000 * away);
        }
    }
    lemma_trunc_residue(p, n);
    let t = trunc_div(p, n);
    assert(t > 0) by (nonlinear_arith)
        requires
            0 <= p - t * n < n,
            p >= n,
            n > 0,
    ;
}

/// The outward normal of a hit points away from the centre: its scalar
/// product with the way from the centre to the point is above zero, and so
/// is that of the normal of a front face.  This holds of a hit whose point
/// lies on the sphere to within a quarter of the squared radius, which
/// `surface_slack` bounds from the root along the gauged direction.
pub proof fn lemma_normal_points_away(
    center: V3,
    radius: int,
    mat: MaterialModel,
    r: RayV,
    r_max: int,
    r_min: int,
)
    requires
        within_limit(center),
        within_limit(r.origin),
        v3_reach(r.direction) <= MAX_RAW,
        side_radius_floor() <= radius < scene_reach(),
        v3_reach(v3_sub(center, r.origin)) < scene_reach(),
        pick_span(sphere_spans(center, radius, r), v3_reach(r.direction), r_max, r_min) matches Some(
            s,
        ) && 4 * surface_slack(s, v3_reach(v3_sub(center, r.origin))) <= ONE_RAW * ONE_RAW * (radius
            * radius),
    ensures
        sphere_hit(center, radius, mat, r, r_max, r_min) matches Some(h) && {
            let away = v3_sub(h.point, center);
            &&& v3_dot(v3_shrink(away, radius), away) > 0
            &&& h.front_face ==> v3_dot(h.normal, away) > 0
        },
{
    let n = ONE_RAW as int;
    let m = v3_reach(v3_sub(center, r.origin));
    let s = pick_span(sphere_spans(center, radius, r), v3_reach(r.direction), r_max, r_min).unwrap();
    let h = sphere_hit(center, radius, mat, r, r_max, r_min).unwrap();
    lemma_hit_point_on_sphere(center, radius, mat, r, r_max, r_min);
    let away = v3_sub(h.point, center);
    let out = v3_shrink(away, radius);
    let b = 2 * int_abs(s) + m + 1;
    let xx = away.x * away.x;
    let yy = away.y * away.y;
    let zz = away.z * away.z;
    let rr = radius * radius;
    let n2 = n * n;
    assert(v3_norm_sq(away) == xx + yy + zz);
    assert(4 * (xx + yy + zz) >= 3 * rr) by (nonlinear_arith)
        requires
            -surface_slack(s, m) <= n2 * ((xx + yy + zz) - rr),
            4 * surface_slack(s, m) <= n2 * rr,
            n2 > 0,
    {
        let k = 4 * (xx + yy + zz) - 3 * rr;
        assert(n2 * k == 4 * (n2 * ((xx + yy + zz) - rr)) + n2 * rr);
        if k < 0 {
            assert(n2 * k < 0);
        }
    }
    lemma_fx_div_sign(away.x, radius);
    lemma_fx_div_sign(away.y, radius);
    lemma_fx_div_sign(away.z, radius);
    lemma_fx_mul_sign(out.x, away.x);
    lemma_fx_mul_sign(out.y, away.y);
    lemma_fx_mul_sign(out.z, away.z);
    if 4 * xx >= rr {
        lemma_long_component(away.x, radius, b);
    } else if 4 * yy >= rr {
        lemma_long_component(away.y, radius, b);
    } else {
        lemma_long_component(away.z, radius, b);
    }
}

/// The direction `d` points exactly along `way`: the two are parallel
/// and their scalar product is above zero, in exact numbers.
pub open spec fn aims_along(d: V3, way: V3) -> bool {
    &&& d.y * way.z == d.z * way.y
    &&& d.z * way.x == d.x * way.z
    &&& d.x * way.y == d.y * way.x
    &&& d.x * way.x + d.y * way.y + d.z * way.z > 0
}

/// The least radius of a sphere whose centre a ray is known to reach
/// along a chord that is not grazed: one part in eight.
pub open spec fn aimed_radius_floor() -> int {
    0x2000_0000
}

/// The products of the numerators of two parallel vectors: the square
/// of their sum is the product of the two sums of squares.
proof fn lemma_parallel_products(d: V3, way: V3, f: int)
    requires
        aims_along(d, way),
    ensures
        ({
            let w = v3_times(d, f);
            let sum = w.x * way.x + w.y * way.y + w.z * way.z;
            sum * sum == v3_norm_sq(w) * v3_norm_sq(way)
        }),
{
    let w = v3_times(d, f);
    assert(w.y * way.z - w.z * way.y == 0) by (nonlinear_arith)
        requires
            w.y == d.y * f,
            w.z == d.z * f,
            d.y * way.z == d.z * way.y,
    ;
    assert(w.z * way.x - w.x * way.z == 0) by (nonlinear_arith)
        requires
            w.z == d.z * f,
            w.x == d.x * f,
            d.z * way.x == d.x * way.z,
    ;
    assert(w.x * way.y - w.y * way.x == 0) by (nonlinear_arith)
        requires
            w.x == d.x * f,
            w.y == d.y * f,
            d.x * way.y == d.y * way.x,
    ;
    lemma_squares_of_cross(w, way);
}

/// One component of the cross product of a direction that was gauged
/// by a divisor with the way that the direction points along.
proof fn lemma_gauged_cross(d1: int, d2: int, w1: int, w2: int, y1: int, y2: int, g: int)
    requires
        g >= 1,
        -g < d1 - w1 * g < g,
        -g < d2 - w2 * g < g,
        d1 * y2 == d2 * y1,
        -0x800_0000_0000 <= y1 <= 0x800_0000_0000,
        -0x800_0000_0000 <= y2 <= 0x800_0000_0000,
    ensures
        (w1 * y2 - w2 * y1) * (w1 * y2 - w2 * y1) <= 0x100_0000_0000_0000_0000_0000,
{
    let top: int = 0x800_0000_0000;
    let e1 = d1 - w1 * g;
    let e2 = d2 - w2 * g;
    let c = w1 * y2 - w2 * y1;
    assert(g * c == e2 * y1 - e1 * y2) by (nonlinear_arith)
        requires
            e1 == d1 - w1 * g,
            e2 == d2 - w2 * g,
            c == w1 * y2 - w2 * y1,
            d1 * y2 == d2 * y1,
    ;
    lemma_bounded_product(e2, y1, g, top);
    lemma_bounded_product(e1, y2, g, top);
    assert(-(2 * top) <= c <= 2 * top) by (nonlinear_arith)
        requires
            -(2 * (g * top)) <= g * c <= 2 * (g * top),
            g >= 1,
    {
        if c > 2 * top {
            assert(g * c >= g * (2 * top + 1));
        }
        if c < -(2 * top) {
            assert(g * c <= g * (-(2 * top) - 1));
        }
    }
    lemma_bounded_product(c, c, 2 * top, 2 * top);
}

/// The products of the numerators of a gauged direction and the way that
/// the direction points along: the square of their sum is the product of
/// the two sums of squares, but for what a divisor rounded away.
proof fn lemma_aimed_products(d: V3, way: V3)
    requires
        aims_along(d, way),
        0 < v3_reach(d) <= MAX_RAW,
        v3_reach(way) < scene_reach(),
    ensures
        ({
            let w = gauged(d);
            let sum = w.x * way.x + w.y * way.y + w.z * way.z;
            let both = v3_norm_sq(w) * v3_norm_sq(way);
            both - 0x300_0000_0000_0000_0000_0000 <= sum * sum <= both
        }),
{
    let n = ONE_RAW as int;
    let m = v3_reach(d);
    let w = gauged(d);
    let cx = w.y * way.z - w.z * way.y;
    let cy = w.z * way.x - w.x * way.z;
    let cz = w.x * way.y - w.y * way.x;
    lemma_squares_of_cross(w, way);
    assert(cx * cx >= 0 && cy * cy >= 0 && cz * cz >= 0) by (nonlinear_arith);
    if m < n {
        lemma_gauged_short(d);
        lemma_parallel_products(d, way, gauge_factor(m));
    } else {
        let g = crate::vec::gauge_divisor(m);
        vstd::arithmetic::div_mod::lemma_fundamental_div_mod(m, n);
        vstd::arithmetic::div_mod::lemma_mod_bound(m, n);
        assert(g >= 1) by (nonlinear_arith)
            requires
                m == n * g + m % n,
                0 <= m % n < n,
                n <= m,
        ;
        assert(d.x * 1 == d.x && d.y * 1 == d.y && d.z * 1 == d.z);
        lemma_trunc_residue(d.x, g);
        lemma_trunc_residue(d.y, g);
        lemma_trunc_residue(d.z, g);
        assert(w.x == trunc_div(d.x, g) && w.y == trunc_div(d.y, g) && w.z == trunc_div(d.z, g));
        lemma_gauged_cross(d.y, d.z, w.y, w.z, way.y, way.z, g);
        lemma_gauged_cross(d.z, d.x, w.z, w.x, way.z, way.x, g);
        lemma_gauged_cross(d.x, d.y, w.x, w.y, way.x, way.y, g);
    }
}

/// A ray that is fired exactly at the centre of a sphere of at least the
/// least radius crosses it along a chord that is not grazed.
pub proof fn lemma_aimed_chord(center: V3, radius: int, r: RayV)
    requires
        within_limit(center),
        within_limit(r.origin),
        0 < v3_reach(r.direction) <= MAX_RAW,
        aimed_radius_floor() <= radius < scene_reach(),
        v3_reach(v3_sub(center, r.origin)) < scene_reach(),
        aims_along(r.direction, v3_sub(center, r.origin)),
    ensures
        sphere_spans(center, radius, r) matches Some((near, far)) && far - near >= chord_floor(),
{
    let n = ONE_RAW as int;
    let d = r.direction;
    let w = gauged(d);
    let way = v3_sub(center, r.origin);
    let m = v3_reach(way);
    lemma_gauged_reach(d);
    lemma_aimed_products(d, way);
    // The scene is met as it is.
    assert(scene_divisor(fx_max(m, radius)) == 1);
    assert forall|x: int| trunc_div(x, 1) == x by {
        vstd::arithmetic::div_mod::lemma_div_basics(x);
        vstd::arithmetic::div_mod::lemma_div_basics(-x);
    }
    // The rounded terms of the discriminant.
    let a = v3_len_sq(w);
    let h = v3_dot(w, way);
    let cc = v3_len_sq(way);
    let rr = fx_mul(radius, radius);
    let w2 = v3_norm_sq(w);
    let c2 = v3_norm_sq(way);
    let h2 = w.x * way.x + w.y * way.y + w.z * way.z;
    lemma_len_sq_open(w, 0x2_0000_0000);
    lemma_len_sq_open(way, 0x800_0000_0000);
    lemma_dot_open(w, way, 0x2_0000_0000, 0x800_0000_0000);
    lemma_product_open(radius, radius, 0x800_0000_0000, 0x800_0000_0000);
    assert(0 <= rr) by (nonlinear_arith)
        requires
            0 <= radius * radius - rr * n < n,
            n > 0,
    ;
    let top: int = 0x800_0000_0000;
    assert(top * top == 0x40_0000_0000_0000_0000_0000) by (nonlinear_arith)
        requires
            top == 0x800_0000_0000,
    ;
    assert(cc <= 0xc0_0000_0000_0000 && rr <= 0x40_0000_0000_0000) by (nonlinear_arith)
        requires
            cc * n <= 3 * (top * top),
            rr * n <= radius * radius,
            0 <= radius < top,
            top * top == 0x40_0000_0000_0000_0000_0000,
            n == 0x1_0000_0000,
    {
        assert(radius * radius <= top * top);
    }
    let c = fx_sub(cc, rr);
    assert(c == cc - rr);
    assert(-0x3000_0000_0000 <= h <= 0x3000_0000_0000) by (nonlinear_arith)
        requires
            -(3 * (0x2_0000_0000 * 0x800_0000_0000)) <= h * n <= 3 * (0x2_0000_0000
                * 0x800_0000_0000),
            n == 0x1_0000_0000,
    ;
    assert(h * h >= 0) by (nonlinear_arith);
    lemma_product_open(h, h, 0x3000_0000_0000, 0x3000_0000_0000);
    assert(0 <= a <= 12 * n) by (nonlinear_arith)
        requires
            0 <= a,
            a * n <= 3 * (0x2_0000_0000 * 0x2_0000_0000),
            n == 0x1_0000_0000,
    ;
    lemma_product_open(a, c, 12 * n, 0xc0_0000_0000_0000);
    let hh = fx_mul(h, h);
    let ac = fx_mul(a, c);
    let delta = fx_sub(hh, ac);
    assert(delta == hh - ac);
    // The length of the gauged direction.
    let reach = v3_reach(w);
    assert(w2 >= reach * reach) by (nonlinear_arith)
        requires
            w2 == w.x * w.x + w.y * w.y + w.z * w.z,
            reach == w.x || reach == -w.x || reach == w.y || reach == -w.y || reach == w.z
                || reach == -w.z,
    ;
    assert(4 * a >= n - 12) by (nonlinear_arith)
        requires
            w2 >= reach * reach,
            2 * reach >= n,
            w2 - a * n < 3 * n,
            n == 0x1_0000_0000,
    {
        assert(4 * (reach * reach) >= n * n);
    }
    // The discriminant of an aimed ray is the squared radius times the
    // squared length of the direction, but for the rounding.
    let eh = h2 - h * n;
    let hn = h * n;
    lemma_bounded_product(w.x, way.x, 0x2_0000_0000, 0x800_0000_0000);
    lemma_bounded_product(w.y, way.y, 0x2_0000_0000, 0x800_0000_0000);
    lemma_bounded_product(w.z, way.z, 0x2_0000_0000, 0x800_0000_0000);
    assert(6 * n * top == 3 * (0x2_0000_0000 * 0x800_0000_0000)) by (nonlinear_arith)
        requires
            top == 0x800_0000_0000,
            n == 0x1_0000_0000,
    ;
    assert(-(6 * n * top) <= h2 <= 6 * n * top);
    assert(hn * hn >= h2 * h2 - 6 * n * (6 * n * top)) by (nonlinear_arith)
        requires
            hn == h2 - eh,
            -3 * n < eh < 3 * n,
            -(6 * n * top) <= h2 <= 6 * n * top,
            n > 0,
            top > 0,
    {
        assert(hn * hn == h2 * h2 - 2 * (h2 * eh) + eh * eh);
        assert(eh * eh >= 0);
        assert(h2 * eh <= (6 * n * top) * (3 * n));
    }
    let an = a * n;
    let cn = cc * n;
    assert(an * cn <= w2 * c2) by (nonlinear_arith)
        requires
            0 <= an <= w2,
            0 <= cn <= c2,
    ;
    assert(0 <= an && 0 <= cn) by (nonlinear_arith)
        requires
            0 <= a,
            0 <= cc,
            an == a * n,
            cn == cc * n,
            n > 0,
    ;
    let n2 = n * n;
    assert(n2 * (h * h - a * cc) == hn * hn - an * cn) by (nonlinear_arith)
        requires
            hn == h * n,
            an == a * n,
            cn == cc * n,
            n2 == n * n,
    ;
    assert(h * h - a * cc >= -(37 * top)) by (nonlinear_arith)
        requires
            n2 * (h * h - a * cc) == hn * hn - an * cn,
            hn * hn >= h2 * h2 - 6 * n * (6 * n * top),
            an * cn <= w2 * c2,
            h2 * h2 >= w2 * c2 - 0x300_0000_0000_0000_0000_0000,
            n2 == n * n,
            n == 0x1_0000_0000,
            top == 0x800_0000_0000,
    {
        assert(6 * n * (6 * n * top) == n2 * (36 * top));
        assert(0x300_0000_0000_0000_0000_0000 <= n2 * top);
        if h * h - a * cc < -(37 * top) {
            assert(n2 * (h * h - a * cc) <= n2 * (-(37 * top) - 1));
        }
    }
    assert(a * rr >= 0xff_ffff_0000_0000) by (nonlinear_arith)
        requires
            4 * a >= n - 12,
            rr * n > radius * radius - n,
            radius >= 0x2000_0000,
            n == 0x1_0000_0000,
    {
        assert(radius * radius >= 0x2000_0000 * 0x2000_0000);
        assert(rr >= 0x3ff_ffff);
        assert(4 * (a * rr) >= (n - 12) * rr);
        assert((n - 12) * rr >= (n - 12) * 0x3ff_ffff);
    }
    assert(a * c == a * cc - a * rr) by (nonlinear_arith)
        requires
            c == cc - rr,
    ;
    let dn = delta * n;
    assert(dn >= 0xfe_0000_0000_0000) by (nonlinear_arith)
        requires
            dn == (hh - ac) * n,
            0 <= h * h - hh * n < n,
            -n < a * c - ac * n < n,
            a * c == a * cc - a * rr,
            h * h - a * cc >= -(37 * top),
            a * rr >= 0xff_ffff_0000_0000,
            top == 0x800_0000_0000,
            n == 0x1_0000_0000,
    {
        assert((hh - ac) * n == hh * n - ac * n);
    }
    assert(delta > 0) by (nonlinear_arith)
        requires
            delta * n > 0,
            n > 0,
    ;
    lemma_isqrt_exists(dn);
    let sq = sphere_chord(center, radius, r);
    assert(sq == crate::fixed::isqrt(dn));
    assert(sq >= 0xfe0_0000) by (nonlinear_arith)
        requires
            dn < (sq + 1) * (sq + 1),
            dn >= 0xfe_0000_0000_0000,
            sq >= 0,
    {
        if sq < 0xfe0_0000 {
            assert((sq + 1) * (sq + 1) <= 0xfe0_0000 * 0xfe0_0000);
        }
    }
    assert(sphere_spans(center, radius, r) is Some);
    lemma_span_on_sphere(center, radius, r, false);
    lemma_span_on_sphere(center, radius, r, true);
    let spans = sphere_spans(center, radius, r).unwrap();
    let es0 = (h - sq) * n - spans.0 * a;
    let es1 = (h + sq) * n - spans.1 * a;
    assert(spans.1 - spans.0 >= 0x200_0000) by (nonlinear_arith)
        requires
            es0 == (h - sq) * n - spans.0 * a,
            es1 == (h + sq) * n - spans.1 * a,
            -a < es0 < a,
            -a < es1 < a,
            sq >= 0xfe0_0000,
            0 < a <= 12 * n,
            n == 0x1_0000_0000,
    {
        assert((spans.1 - spans.0) * a == 2 * (sq * n) + es0 - es1);
        assert(2 * (sq * n) >= 2 * (0xfe0_0000 * n));
        if spans.1 - spans.0 < 0x200_0000 {
            assert((spans.1 - spans.0) * a <= 0x1ff_ffff * a);
        }
    }
}

/// A ray fired from outside a sphere at its centre meets the sphere on a
/// front face, and the normal there points away from the centre.  The
/// direction points exactly along the way from the origin of the ray to the
/// centre, whatever its length, and the first crossing lies within the
/// interval of the ray, as it does for an origin outside the sphere and a
/// lower bound that the crossing exceeds.  The sphere has a radius of at
/// least `aimed_radius_floor()`, and it and the way to it a reach below
/// `scene_reach()`.  The normal points strictly away from the centre where
/// `surface_slack` at the crossing is at most a quarter of the squared radius.
pub proof fn lemma_ray_at_centre_hits_front(
    center: V3,
    radius: int,
    mat: MaterialModel,
    r: RayV,
    r_max: int,
    r_min: int,
)
    requires
        within_limit(center),
        within_limit(r.origin),
        0 < v3_reach(r.direction) <= MAX_RAW,
        aimed_radius_floor() <= radius < scene_reach(),
        v3_reach(v3_sub(center, r.origin)) < scene_reach(),
        aims_along(r.direction, v3_sub(center, r.origin)),
        sphere_spans(center, radius, r) matches Some((near, far)) ==> r_min < gauge_back(
            near,
            v3_reach(r.direction),
        ) < r_max,
    ensures
        sphere_spans(center, radius, r) matches Some((near, far)) && sphere_hit(
            center,
            radius,
            mat,
            r,
            r_max,
            r_min,
        ) matches Some(h) && {
            let away = v3_sub(h.point, center);
            let m = v3_reach(v3_sub(center, r.origin));
            &&& h.t == gauge_back(near, v3_reach(r.direction))
            &&& h.front_face
            &&& h.normal == v3_shrink(away, radius)
            &&& v3_dot(gauged(r.direction), h.normal) < 0
            &&& v3_dot(h.normal, away) >= 0
            &&& 4 * surface_slack(near, m) <= ONE_RAW * ONE_RAW * (radius * radius) ==> v3_dot(
                h.normal,
                away,
            ) > 0
        },
{
    lemma_aimed_chord(center, radius, r);
    lemma_near_hit_is_front(center, radius, mat, r, r_max, r_min);
    let spans = sphere_spans(center, radius, r).unwrap();
    let m = v3_reach(v3_sub(center, r.origin));
    if 4 * surface_slack(spans.0, m) <= ONE_RAW * ONE_RAW * (radius * radius) {
        lemma_normal_points_away(center, radius, mat, r, r_max, r_min);
    }
}

} // verus!
