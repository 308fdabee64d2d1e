//! How far a hit point may lie from the surface of its sphere.

use vstd::prelude::*;
use crate::fixed::{
    fx_div, fx_max, fx_mul, fx_over, fx_sqrt, fx_sub, fx_times, lemma_fx_mul_one,
    lemma_isqrt_exists, lemma_trunc_residue, trunc_div, MAX_RAW, ONE_RAW,
};
use crate::front_face::within_limit;
use crate::material::MaterialModel;
use crate::ray::{
    gauged_ray, lemma_gauged_reach, pick_span, ray_at, scene_divisor, scene_reach, sphere_chord,
    sphere_hit, sphere_spans, RayV,
};
use crate::vec::{
    gauged, int_abs, v3_dot, v3_len_sq, v3_norm_sq, v3_reach, v3_shrink, v3_sub, V3,
};

verus! {

/// The algebra of a root.  The letters stand for what `sphere_spans`
/// computes and for what each step rounds away: `a`, `h`, `q`, `rr` are the
/// rounded squared length of the direction, scalar product, squared way and
/// squared radius, and `ea`, `eh`, `eq`, `er` what the exact sums `w2`, `h2`,
/// `q2`, `r2` hold beyond them; `hh` and `ac` are the rounded products of the
/// discriminant; `sq` is its root; `u` is `h` less or plus `sq`; `s` is the
/// root `u / a` and `es` what its division rounds away.  Then `a` times the
/// gap between the squared distance `x2` of the point from the centre and
/// the squared radius is a sum of terms that each hold one rounding.
proof fn lemma_root_identity(
    a: int,
    h: int,
    q: int,
    rr: int,
    ea: int,
    eh: int,
    eq: int,
    er: int,
    hh: int,
    ehh: int,
    ac: int,
    eac: int,
    sq: int,
    u: int,
    s: int,
    es: int,
    w2: int,
    h2: int,
    q2: int,
    r2: int,
    x2: int,
)
    requires
        w2 == a * ONE_RAW + ea,
        h2 == h * ONE_RAW + eh,
        q2 == q * ONE_RAW + eq,
        r2 == rr * ONE_RAW + er,
        h * h == hh * ONE_RAW + ehh,
        a * (q - rr) == ac * ONE_RAW + eac,
        u == h - sq || u == h + sq,
        u * ONE_RAW == s * a + es,
        x2 == s * s * w2 - 2 * (s * ONE_RAW) * h2 + ONE_RAW * ONE_RAW * q2,
    ensures
        a * (x2 - ONE_RAW * ONE_RAW * r2) == ONE_RAW * ONE_RAW * ONE_RAW * (eac - ehh - ((hh - ac)
            * ONE_RAW - sq * sq)) + ONE_RAW * (es * (es + 2 * ONE_RAW * (h - u))) + a * (s * s * ea
            - 2 * (s * ONE_RAW) * eh + ONE_RAW * ONE_RAW * (eq - er)),
{
    let n = ONE_RAW as int;
    let g = (hh - ac) * n - sq * sq;
    let e1 = eac - ehh - g;
    // (u - h)^2 == sq^2
    assert((u - h) * (u - h) == sq * sq) by (nonlinear_arith)
        requires
            u == h - sq || u == h + sq,
    ;
    assert(u * u - 2 * (u * h) + a * q == a * rr + e1) by (nonlinear_arith)
        requires
            (u - h) * (u - h) == sq * sq,
            h * h == hh * n + ehh,
            a * (q - rr) == ac * n + eac,
            g == (hh - ac) * n - sq * sq,
            e1 == eac - ehh - g,
    {
        assert((u - h) * (u - h) == u * u - 2 * (u * h) + h * h);
        assert(a * (q - rr) == a * q - a * rr);
        assert((hh - ac) * n == hh * n - ac * n);
    }
    let sa = s * a;
    let core = sa * sa - 2 * (sa * (n * h)) + a * (n * n * q);
    let un = u * n;
    let nh = n * h;
    assert(sa * sa == un * un - 2 * (un * es) + es * es) by (nonlinear_arith)
        requires
            sa == un - es,
    ;
    assert(un * un == n * n * (u * u)) by (nonlinear_arith)
        requires
            un == u * n,
    ;
    assert(sa * nh == un * nh - es * nh) by (nonlinear_arith)
        requires
            sa == un - es,
    ;
    assert(un * nh == n * n * (u * h)) by (nonlinear_arith)
        requires
            un == u * n,
            nh == n * h,
    ;
    assert(es * (es + 2 * n * (h - u)) == es * es + 2 * (es * nh) - 2 * (un * es))
        by (nonlinear_arith)
        requires
            un == u * n,
            nh == n * h,
    ;
    assert(n * n * (u * u - 2 * (u * h) + a * q) == n * n * (u * u) - 2 * (n * n * (u * h)) + a * (n
        * n * q)) by (nonlinear_arith);
    assert(core == n * n * (u * u - 2 * (u * h) + a * q) + es * (es + 2 * n * (h - u)));
    let part1 = s * s * w2;
    let part2 = 2 * (s * n) * h2;
    let part3 = n * n * q2;
    let r1 = s * s * ea;
    let r2e = 2 * (s * n) * eh;
    let r3 = n * n * eq;
    let c1 = sa * sa;
    let c2 = 2 * (sa * (n * h));
    let c3 = a * (n * n * q);
    assert(a * part1 == n * c1 + a * r1) by (nonlinear_arith)
        requires
            part1 == s * s * w2,
            w2 == a * n + ea,
            r1 == s * s * ea,
            c1 == sa * sa,
            sa == s * a,
    {
        assert(s * s * w2 == s * s * (a * n) + s * s * ea);
        assert(a * (s * s * (a * n)) == n * ((s * a) * (s * a)));
    }
    assert(a * part2 == n * c2 + a * r2e) by (nonlinear_arith)
        requires
            part2 == 2 * (s * n) * h2,
            h2 == h * n + eh,
            r2e == 2 * (s * n) * eh,
            c2 == 2 * (sa * (n * h)),
            sa == s * a,
    {
        assert(2 * (s * n) * h2 == 2 * (s * n) * (h * n) + 2 * (s * n) * eh);
        assert(a * (2 * (s * n) * (h * n)) == n * (2 * ((s * a) * (n * h))));
    }
    assert(a * part3 == n * c3 + a * r3) by (nonlinear_arith)
        requires
            part3 == n * n * q2,
            q2 == q * n + eq,
            r3 == n * n * eq,
            c3 == a * (n * n * q),
    {
        assert(n * n * q2 == n * n * (q * n) + n * n * eq);
        assert(a * (n * n * (q * n)) == n * (a * (n * n * q)));
    }
    assert(a * x2 == a * part1 - a * part2 + a * part3) by (nonlinear_arith)
        requires
            x2 == part1 - part2 + part3,
    ;
    assert(n * core == n * c1 - n * c2 + n * c3) by (nonlinear_arith)
        requires
            core == c1 - c2 + c3,
    ;
    assert(a * (r1 - r2e + r3) == a * r1 - a * r2e + a * r3) by (nonlinear_arith);
    assert(a * x2 == n * core + a * (s * s * ea - 2 * (s * n) * eh + n * n * eq));
    assert(a * (n * n * r2) == n * (n * n * (a * rr)) + a * (n * n * er)) by (nonlinear_arith)
        requires
            r2 == rr * n + er,
    {
        assert(n * n * r2 == n * n * (rr * n) + n * n * er);
        assert(a * (n * n * (rr * n)) == n * (n * n * (a * rr)));
    }
    assert(a * (x2 - n * n * r2) == n * n * n * e1 + n * (es * (es + 2 * n * (h - u))) + a * (s * s
        * ea - 2 * (s * n) * eh + n * n * (eq - er))) by (nonlinear_arith)
        requires
            a * x2 == n * core + a * (s * s * ea - 2 * (s * n) * eh + n * n * eq),
            a * (n * n * r2) == n * (n * n * (a * rr)) + a * (n * n * er),
            core == n * n * (u * u - 2 * (u * h) + a * q) + es * (es + 2 * n * (h - u)),
            u * u - 2 * (u * h) + a * q == a * rr + e1,
    {
        assert(a * (x2 - n * n * r2) == a * x2 - a * (n * n * r2));
        assert(n * core == n * (n * n * (a * rr + e1)) + n * (es * (es + 2 * n * (h - u))));
        assert(n * (n * n * (a * rr + e1)) == n * (n * n * (a * rr)) + n * n * n * e1);
        assert(a * (s * s * ea - 2 * (s * n) * eh + n * n * eq) - a * (n * n * er) == a * (s * s
            * ea - 2 * (s * n) * eh + n * n * (eq - er)));
    }
}

/// The product of two bounded numbers is bounded by the product of the bounds.
pub proof fn lemma_bounded_product(x: int, y: int, bx: int, by: int)
    by (nonlinear_arith)
    requires
        -bx <= x <= bx,
        -by <= y <= by,
    ensures
        -(bx * by) <= x * y <= bx * by,
        bx * by >= 0,
{
}

/// How far the squared distance of a hit point from the centre may lie
/// from the squared radius, in units of the fourth power of the denominator:
/// for the root `s` along the gauged direction, the root `sq` of the
/// discriminant and the squared length `a` of the gauged direction.
pub open spec fn root_slack(s: int, sq: int, a: int) -> int {
    let n = ONE_RAW as int;
    let reach = if s < 0 {
        -s
    } else {
        s
    };
    4 * (n * n) * (2 * n + 2 * sq) + n * (a + 2 * n * sq) + 3 * n * (s * s) + 6 * (n * n) * reach + 3
        * (n * n * n)
}

/// The squared distance of the point at a root from the centre differs
/// from the squared radius by at most `root_slack`.
proof fn lemma_root_bound(
    a: int,
    h: int,
    q: int,
    rr: int,
    ea: int,
    eh: int,
    eq: int,
    er: int,
    hh: int,
    ehh: int,
    ac: int,
    eac: int,
    sq: int,
    u: int,
    s: int,
    es: int,
    w2: int,
    h2: int,
    q2: int,
    r2: int,
    x2: int,
)
    requires
        w2 == a * ONE_RAW + ea,
        h2 == h * ONE_RAW + eh,
        q2 == q * ONE_RAW + eq,
        r2 == rr * ONE_RAW + er,
        h * h == hh * ONE_RAW + ehh,
        a * (q - rr) == ac * ONE_RAW + eac,
        u == h - sq || u == h + sq,
        u * ONE_RAW == s * a + es,
        x2 == s * s * w2 - 2 * (s * ONE_RAW) * h2 + ONE_RAW * ONE_RAW * q2,
        4 * a >= ONE_RAW,
        0 <= ea < 3 * ONE_RAW,
        -3 * ONE_RAW < eh < 3 * ONE_RAW,
        0 <= eq < 3 * ONE_RAW,
        0 <= er < ONE_RAW,
        0 <= ehh < ONE_RAW,
        -ONE_RAW < eac < ONE_RAW,
        sq >= 0,
        0 <= (hh - ac) * ONE_RAW - sq * sq <= 2 * sq,
        -a < es < a,
    ensures
        -root_slack(s, sq, a) <= x2 - ONE_RAW * ONE_RAW * r2 <= root_slack(s, sq, a),
{
    let n = ONE_RAW as int;
    lemma_root_identity(
        a, h, q, rr, ea, eh, eq, er, hh, ehh, ac, eac, sq, u, s, es, w2, h2, q2, r2, x2,
    );
    let d = x2 - n * n * r2;
    let g = (hh - ac) * n - sq * sq;
    let e1 = eac - ehh - g;
    let reach = if s < 0 {
        -s
    } else {
        s
    };
    let n2 = n * n;
    let n3 = n * n * n;
    assert(n2 == 0x1_0000_0000_0000_0000 && n3 == 0x1_0000_0000_0000_0000_0000_0000)
        by (nonlinear_arith)
        requires
            n == 0x1_0000_0000,
            n2 == n * n,
            n3 == n * n * n,
    ;
    // First term.
    let t1 = n3 * e1;
    lemma_bounded_product(n3, e1, n3, 2 * n + 2 * sq);
    assert(n3 * (2 * n + 2 * sq) <= a * (4 * n2 * (2 * n + 2 * sq))) by (nonlinear_arith)
        requires
            4 * a >= n,
            n3 == n * n2,
            n2 >= 0,
            2 * n + 2 * sq >= 0,
    {
        assert(n * (n2 * (2 * n + 2 * sq)) <= (4 * a) * (n2 * (2 * n + 2 * sq)));
    }
    // Second term.
    let y = es + 2 * n * (h - u);
    assert(-(a + 2 * n * sq) <= y <= a + 2 * n * sq) by (nonlinear_arith)
        requires
            y == es + 2 * n * (h - u),
            -a < es < a,
            h - u == sq || h - u == -sq,
            n > 0,
            sq >= 0,
    ;
    lemma_bounded_product(es, y, a, a + 2 * n * sq);
    let t2 = n * (es * y);
    lemma_bounded_product(n, es * y, n, a * (a + 2 * n * sq));
    assert(n * (a * (a + 2 * n * sq)) == a * (n * (a + 2 * n * sq))) by (nonlinear_arith);
    // Third term.
    let z1 = s * s * ea;
    let z2 = 2 * (s * n) * eh;
    let z3 = n2 * (eq - er);
    assert(0 <= s * s && s * s == reach * reach) by (nonlinear_arith)
        requires
            reach == s || reach == -s,
    ;
    lemma_bounded_product(s * s, ea, s * s, 3 * n);
    lemma_bounded_product(s, n, reach, n);
    lemma_bounded_product(s * n, eh, reach * n, 3 * n);
    lemma_bounded_product(n2, eq - er, n2, 3 * n);
    let z = z1 - z2 + z3;
    let zb = 3 * n * (s * s) + 6 * n2 * reach + 3 * n3;
    assert(-zb <= z <= zb) by (nonlinear_arith)
        requires
            z == z1 - z2 + z3,
            z1 == s * s * ea,
            z2 == 2 * (s * n) * eh,
            z3 == n2 * (eq - er),
            -((s * s) * (3 * n)) <= (s * s) * ea <= (s * s) * (3 * n),
            -((reach * n) * (3 * n)) <= (s * n) * eh <= (reach * n) * (3 * n),
            -(n2 * (3 * n)) <= n2 * (eq - er) <= n2 * (3 * n),
            zb == 3 * n * (s * s) + 6 * n2 * reach + 3 * n3,
            n2 == n * n,
            n3 == n * n * n,
    {
        assert((reach * n) * (3 * n) == 3 * n2 * reach);
        assert(n2 * (3 * n) == 3 * n3);
        assert((s * s) * (3 * n) == 3 * n * (s * s));
    }
    lemma_bounded_product(a, z, a, zb);
    let slack = root_slack(s, sq, a);
    assert(slack == 4 * n2 * (2 * n + 2 * sq) + n * (a + 2 * n * sq) + zb);
    assert(a * slack == a * (4 * n2 * (2 * n + 2 * sq)) + a * (n * (a + 2 * n * sq)) + a * zb)
        by (nonlinear_arith)
        requires
            slack == 4 * n2 * (2 * n + 2 * sq) + n * (a + 2 * n * sq) + zb,
    ;
    assert(a * d == t1 + t2 + a * z);
    assert(-(a * slack) <= a * d <= a * slack);
    assert(-slack <= d <= slack) by (nonlinear_arith)
        requires
            -(a * slack) <= a * d <= a * slack,
            a > 0,
    ;
}

/// A product that fits is rounded towards zero and not clamped.
pub proof fn lemma_product_open(x: int, y: int, bx: int, by: int)
    requires
        -bx <= x <= bx,
        -by <= y <= by,
        bx * by <= 0x4000_0000_0000_0000_0000_0000,
    ensures
        fx_mul(x, y) == trunc_div(x * y, ONE_RAW as int),
        -ONE_RAW < x * y - fx_mul(x, y) * ONE_RAW < ONE_RAW,
        x * y >= 0 ==> 0 <= x * y - fx_mul(x, y) * ONE_RAW && fx_mul(x, y) >= 0,
        -0x4000_0000_0000_0000 <= fx_mul(x, y) <= 0x4000_0000_0000_0000,
        -(bx * by) <= fx_mul(x, y) * ONE_RAW <= bx * by,
{
    let p = x * y;
    lemma_bounded_product(x, y, bx, by);
    lemma_trunc_residue(p, ONE_RAW as int);
    let t = trunc_div(p, ONE_RAW as int);
    assert(-0x4000_0000_0000_0000 <= t <= 0x4000_0000_0000_0000) by (nonlinear_arith)
        requires
            -ONE_RAW < p - t * ONE_RAW < ONE_RAW,
            -0x4000_0000_0000_0000_0000_0000 <= p <= 0x4000_0000_0000_0000_0000_0000,
            ONE_RAW == 0x1_0000_0000,
    {
        if t > 0x4000_0000_0000_0000 {
            assert(t * ONE_RAW >= 0x4000_0000_0000_0001 * ONE_RAW);
        }
        if t < -0x4000_0000_0000_0000 {
            assert(t * ONE_RAW <= -0x4000_0000_0000_0001 * ONE_RAW);
        }
    }
    assert(-(bx * by) <= t * ONE_RAW <= bx * by) by (nonlinear_arith)
        requires
            p >= 0 ==> 0 <= t <= p,
            p <= 0 ==> p <= t <= 0,
            -(bx * by) <= p <= bx * by,
            -ONE_RAW < p - t * ONE_RAW < ONE_RAW,
            p >= 0 ==> 0 <= p - t * ONE_RAW,
            p <= 0 ==> p - t * ONE_RAW <= 0,
    ;
}

/// The sum of three squares and the sum of three products, opened: the
/// rounded squared length of a vector and what it rounds away.
pub proof fn lemma_len_sq_open(v: V3, b: int)
    requires
        -b <= v.x <= b,
        -b <= v.y <= b,
        -b <= v.z <= b,
        0 <= b <= 0x800_0000_0000,
    ensures
        0 <= v3_norm_sq(v) - v3_len_sq(v) * ONE_RAW < 3 * ONE_RAW,
        0 <= v3_len_sq(v),
        v3_len_sq(v) * ONE_RAW <= 3 * (b * b),
        v3_len_sq(v) == fx_mul(v.x, v.x) + fx_mul(v.y, v.y) + fx_mul(v.z, v.z),
{
    assert(b * b <= 0x800_0000_0000 * 0x800_0000_0000) by (nonlinear_arith)
        requires
            0 <= b <= 0x800_0000_0000,
    ;
    lemma_product_open(v.x, v.x, b, b);
    lemma_product_open(v.y, v.y, b, b);
    lemma_product_open(v.z, v.z, b, b);
    assert(v.x * v.x >= 0 && v.y * v.y >= 0 && v.z * v.z >= 0) by (nonlinear_arith);
}

/// The scalar product of two bounded vectors, opened.
pub proof fn lemma_dot_open(v: V3, w: V3, bv: int, bw: int)
    requires
        -bv <= v.x <= bv,
        -bv <= v.y <= bv,
        -bv <= v.z <= bv,
        -bw <= w.x <= bw,
        -bw <= w.y <= bw,
        -bw <= w.z <= bw,
        bv * bw <= 0x1000_0000_0000_0000_0000_0000,
        bv >= 0,
        bw >= 0,
    ensures
        -3 * ONE_RAW < (v.x * w.x + v.y * w.y + v.z * w.z) - v3_dot(v, w) * ONE_RAW < 3 * ONE_RAW,
        -(3 * (bv * bw)) <= v3_dot(v, w) * ONE_RAW <= 3 * (bv * bw),
        v3_dot(v, w) == fx_mul(v.x, w.x) + fx_mul(v.y, w.y) + fx_mul(v.z, w.z),
{
    lemma_product_open(v.x, w.x, bv, bw);
    lemma_product_open(v.y, w.y, bv, bw);
    lemma_product_open(v.z, w.z, bv, bw);
    let part1 = fx_mul(v.x, w.x);
    let part2 = fx_mul(v.y, w.y);
    let part3 = fx_mul(v.z, w.z);
    assert(-0x1000_0000_0000_0000 <= part1 <= 0x1000_0000_0000_0000 && -0x1000_0000_0000_0000 <= part2
        <= 0x1000_0000_0000_0000 && -0x1000_0000_0000_0000 <= part3 <= 0x1000_0000_0000_0000)
        by (nonlinear_arith)
        requires
            -(bv * bw) <= part1 * ONE_RAW <= bv * bw,
            -(bv * bw) <= part2 * ONE_RAW <= bv * bw,
            -(bv * bw) <= part3 * ONE_RAW <= bv * bw,
            bv * bw <= 0x1000_0000_0000_0000_0000_0000,
            ONE_RAW == 0x1_0000_0000,
    ;
}

/// How far the squared distance of a hit point from the centre of its
/// sphere may lie from the squared radius, in units of the fourth power of
/// the denominator: for the root `s` along the gauged direction and the
/// reach `m` of the way from the origin of the ray to the centre.  In
/// values, the squared distance is within
/// `(3 s^2 + 138 |s| + 66 m + 11) / 2^32` of the squared radius: within
/// 0.000012 for a root of 100 along a way of reach 100.  The bound grows
/// with the square of the root, so a small sphere that is thousands of
/// radii away is met less exactly than a near one.
pub open spec fn surface_slack(s: int, m: int) -> int {
    let n = ONE_RAW as int;
    3 * n * (s * s) + (n * n) * (138 * int_abs(s) + 66 * m + 11 * n + 135)
}

/// One coordinate of the point at the root `s`: its distance from the
/// centre, and how the exact distance `x` differs from it.
proof fn lemma_away_component(o: int, c: int, w: int, s: int)
    requires
        -0x2000_0000_0000_0000 <= o <= 0x2000_0000_0000_0000,
        -0x2000_0000_0000_0000 <= c <= 0x2000_0000_0000_0000,
        -0x800_0000_0000 < c - o < 0x800_0000_0000,
        -2 * ONE_RAW <= w <= 2 * ONE_RAW,
        -0x8_0000_0000_0000 <= s <= 0x8_0000_0000_0000,
    ensures
        ({
            let away = fx_sub(crate::fixed::fx_add(o, fx_mul(w, s)), c);
            let x = w * s - (c - o) * ONE_RAW;
            &&& -ONE_RAW < x - away * ONE_RAW < ONE_RAW
            &&& away == fx_mul(w, s) - (c - o)
        }),
{
    lemma_product_open(w, s, 2 * ONE_RAW, 0x8_0000_0000_0000);
    let t = fx_mul(w, s);
    assert((c - o) * ONE_RAW + (t - (c - o)) * ONE_RAW == t * ONE_RAW) by (nonlinear_arith);
}

/// What a sum of three squares changes by where each term changes by less
/// than the denominator.
proof fn lemma_squares_shift(x1: int, x2: int, x3: int, y1: int, y2: int, y3: int, b: int)
    requires
        -ONE_RAW < x1 - y1 * ONE_RAW < ONE_RAW,
        -ONE_RAW < x2 - y2 * ONE_RAW < ONE_RAW,
        -ONE_RAW < x3 - y3 * ONE_RAW < ONE_RAW,
        -b <= x1 <= b,
        -b <= x2 <= b,
        -b <= x3 <= b,
    ensures
        -(6 * (ONE_RAW * b) + 3 * (ONE_RAW * ONE_RAW)) <= ONE_RAW * ONE_RAW * (y1 * y1 + y2 * y2
            + y3 * y3) - (x1 * x1 + x2 * x2 + x3 * x3) <= 6 * (ONE_RAW * b) + 3 * (ONE_RAW
            * ONE_RAW),
{
    let n = ONE_RAW as int;
    lemma_square_shift(x1, y1, b);
    lemma_square_shift(x2, y2, b);
    lemma_square_shift(x3, y3, b);
    lemma_scaled_square(y1);
    lemma_scaled_square(y2);
    lemma_scaled_square(y3);
    let s1 = y1 * y1;
    let s2 = y2 * y2;
    let s3 = y3 * y3;
    assert(n * n * (s1 + s2 + s3) == n * n * s1 + n * n * s2 + n * n * s3) by (nonlinear_arith);
}

/// The square of a scaled number.
proof fn lemma_scaled_square(y: int)
    by (nonlinear_arith)
    ensures
        (y * ONE_RAW) * (y * ONE_RAW) == ONE_RAW * ONE_RAW * (y * y),
{
}

/// What a square changes by where its root changes by less than the denominator.
proof fn lemma_square_shift(x: int, y: int, b: int)
    requires
        -ONE_RAW < x - y * ONE_RAW < ONE_RAW,
        -b <= x <= b,
    ensures
        -(2 * (ONE_RAW * b) + ONE_RAW * ONE_RAW) <= (y * ONE_RAW) * (y * ONE_RAW) - x * x <= 2 * (
            ONE_RAW * b) + ONE_RAW * ONE_RAW,
{
    let n = ONE_RAW as int;
    let e = x - y * n;
    lemma_bounded_product(x, e, b, n);
    lemma_bounded_product(e, e, n, n);
    assert((y * n) * (y * n) - x * x == e * e - 2 * (x * e)) by (nonlinear_arith)
        requires
            e == x - y * n,
    ;
    assert(b * n == n * b) by (nonlinear_arith);
}

/// The exact squared distance of the point at the root from the centre, in
/// the sums of the squares and products of the direction and the way.
proof fn lemma_exact_distance(w: V3, way: V3, s: int)
    ensures
        ({
            let n = ONE_RAW as int;
            let x1 = w.x * s - way.x * n;
            let x2 = w.y * s - way.y * n;
            let x3 = w.z * s - way.z * n;
            x1 * x1 + x2 * x2 + x3 * x3 == s * s * v3_norm_sq(w) - 2 * (s * n) * (w.x * way.x + w.y
                * way.y + w.z * way.z) + n * n * v3_norm_sq(way)
        }),
{
    let n = ONE_RAW as int;
    lemma_exact_square(w.x, way.x, s);
    lemma_exact_square(w.y, way.y, s);
    lemma_exact_square(w.z, way.z, s);
    let sn = 2 * (s * n);
    assert(s * s * v3_norm_sq(w) == s * s * (w.x * w.x) + s * s * (w.y * w.y) + s * s * (w.z * w.z))
        by (nonlinear_arith);
    assert(n * n * v3_norm_sq(way) == n * n * (way.x * way.x) + n * n * (way.y * way.y) + n * n * (
        way.z * way.z)) by (nonlinear_arith);
    assert(sn * (w.x * way.x + w.y * way.y + w.z * way.z) == sn * (w.x * way.x) + sn * (w.y * way.y)
        + sn * (w.z * way.z)) by (nonlinear_arith);
}

/// The square of one exact coordinate of the way from the centre to the point.
proof fn lemma_exact_square(w: int, y: int, s: int)
    by (nonlinear_arith)
    ensures
        (w * s - y * ONE_RAW) * (w * s - y * ONE_RAW) == s * s * (w * w) - 2 * (s * ONE_RAW) * (w
            * y) + ONE_RAW * ONE_RAW * (y * y),
{
}

/// The point at either root of a sphere lies on the sphere, to within
/// `surface_slack`.  The sphere and the way to it have a reach below
/// `scene_reach()`, so that the sphere is met as it is.
pub proof fn lemma_span_on_sphere(center: V3, radius: int, r: RayV, far: bool)
    requires
        within_limit(center),
        within_limit(r.origin),
        0 < v3_reach(r.direction) <= MAX_RAW,
        0 < radius < scene_reach(),
        v3_reach(v3_sub(center, r.origin)) < scene_reach(),
        sphere_spans(center, radius, r) is Some,
    ensures
        ({
            let spans = sphere_spans(center, radius, r).unwrap();
            let s = if far {
                spans.1
            } else {
                spans.0
            };
            let away = v3_sub(ray_at(gauged_ray(r), s), center);
            let m = v3_reach(v3_sub(center, r.origin));
            let b = 2 * int_abs(s) + m + 1;
            let w = gauged(r.direction);
            let way = v3_sub(center, r.origin);
            let a = v3_len_sq(w);
            let h = v3_dot(w, way);
            let sq = sphere_chord(center, radius, r);
            let u = if far {
                h + sq
            } else {
                h - sq
            };
            &&& -surface_slack(s, m) <= ONE_RAW * ONE_RAW * (v3_norm_sq(away) - radius * radius)
                <= surface_slack(s, m)
            &&& -b <= away.x <= b
            &&& -b <= away.y <= b
            &&& -b <= away.z <= b
            &&& b <= 0x20_0000_0000_0000
            &&& 4 * a >= ONE_RAW
            &&& a <= 12 * ONE_RAW
            &&& sq >= 0
            &&& -a < u * ONE_RAW - s * a < a
            &&& 0 <= v3_norm_sq(w) - a * ONE_RAW < 3 * ONE_RAW
            &&& -3 * ONE_RAW < (w.x * way.x + w.y * way.y + w.z * way.z) - h * ONE_RAW < 3 * ONE_RAW
            &&& -ONE_RAW < (w.x * s - way.x * ONE_RAW) - away.x * ONE_RAW < ONE_RAW
            &&& -ONE_RAW < (w.y * s - way.y * ONE_RAW) - away.y * ONE_RAW < ONE_RAW
            &&& -ONE_RAW < (w.z * s - way.z * ONE_RAW) - away.z * ONE_RAW < ONE_RAW
            &&& -0x8_0000_0000_0000 <= s <= 0x8_0000_0000_0000
        }),
{
    let n = ONE_RAW as int;
    let d = r.direction;
    let w = gauged(d);
    let way = v3_sub(center, r.origin);
    let m = v3_reach(way);
    lemma_gauged_reach(d);
    // The scene is met as it is.
    assert(scene_divisor(fx_max(m, radius)) == 1);
    assert(forall|x: int| trunc_div(x, 1) == x) by {
        assert forall|x: int| trunc_div(x, 1) == x by {
            vstd::arithmetic::div_mod::lemma_div_basics(x);
            vstd::arithmetic::div_mod::lemma_div_basics(-x);
        }
    }
    let oc = V3 { typ: way.typ, x: fx_over(way.x, 1), y: fx_over(way.y, 1), z: fx_over(way.z, 1) };
    assert(oc == way);
    assert(fx_over(radius, 1) == radius);
    // The rounded sums.
    lemma_len_sq_open(w, 0x2_0000_0000);
    lemma_len_sq_open(way, 0x800_0000_0000);
    lemma_dot_open(w, way, 0x2_0000_0000, 0x800_0000_0000);
    lemma_product_open(radius, radius, 0x800_0000_0000, 0x800_0000_0000);
    let a = v3_len_sq(w);
    let h = v3_dot(w, way);
    let q = v3_len_sq(way);
    let rr = fx_mul(radius, radius);
    assert(radius * radius >= 0) by (nonlinear_arith);
    let w2 = v3_norm_sq(w);
    let h2 = w.x * way.x + w.y * way.y + w.z * way.z;
    let q2 = v3_norm_sq(way);
    let r2 = radius * radius;
    // The squared length of the gauged direction is at least a quarter.
    assert(4 * a >= n && a <= 12 * n) by {
        lemma_quarter(w.x);
        lemma_quarter(w.y);
        lemma_quarter(w.z);
        assert(a * n <= 3 * ((2 * n) * (2 * n)));
        assert(3 * ((2 * n) * (2 * n)) == (12 * n) * n) by (nonlinear_arith);
        assert(a <= 12 * n) by (nonlinear_arith)
            requires
                a * n <= (12 * n) * n,
                n > 0,
        ;
    }
    // Bounds of the sums.
    let top = scene_reach();
    assert(top * top == 0x40_0000_0000_0000_0000_0000 && (2 * n) * top
        == 0x1000_0000_0000_0000_0000 && n == 0x1_0000_0000) by (nonlinear_arith)
        requires
            top == 0x800_0000_0000,
            n == 0x1_0000_0000,
    ;
    assert(-0x3000_0000_0000 <= h <= 0x3000_0000_0000 && 0 <= q <= 0xc0_0000_0000_0000 && 0 <= rr
        <= 0x40_0000_0000_0000) by (nonlinear_arith)
        requires
            -(3 * ((2 * n) * top)) <= h * n <= 3 * ((2 * n) * top),
            0 <= q,
            q * n <= 3 * (top * top),
            0 <= rr,
            -(top * top) <= rr * n <= top * top,
            top * top == 0x40_0000_0000_0000_0000_0000,
            (2 * n) * top == 0x1000_0000_0000_0000_0000,
            n == 0x1_0000_0000,
    ;
    let c = fx_sub(q, rr);
    assert(c == q - rr);
    lemma_product_open(h, h, 0x3000_0000_0000, 0x3000_0000_0000);
    lemma_product_open(a, c, 0xc_0000_0000, 0xc0_0000_0000_0000);
    let hh = fx_mul(h, h);
    let ac = fx_mul(a, c);
    assert(h * h >= 0) by (nonlinear_arith);
    let delta = fx_sub(hh, ac);
    assert(delta == hh - ac);
    assert(delta >= 0);
    // The root of the discriminant.
    let sq = fx_sqrt(delta);
    assert(delta * n >= 0 && delta * n <= 0x8000_0000_0000_0000 * n) by (nonlinear_arith)
        requires
            0 <= delta <= 0x8000_0000_0000_0000,
            n > 0,
    ;
    if delta > 0 {
        lemma_isqrt_exists(delta * n);
    }
    assert(sq >= 0 && sq * sq <= delta * n < (sq + 1) * (sq + 1)) by {
        if delta == 0 {
            assert(sq == 0);
            assert(0 * n == 0);
        }
    }
    assert(sq <= 0x1_0000_0000_0000) by (nonlinear_arith)
        requires
            sq >= 0,
            sq * sq <= delta * n,
            delta * n <= 0x8000_0000_0000_0000 * n,
            n == 0x1_0000_0000,
    {
        if sq > 0x1_0000_0000_0000 {
            assert(sq * sq >= 0x1_0000_0000_0001 * 0x1_0000_0000_0001);
        }
    }
    assert((sq + 1) * (sq + 1) == sq * sq + 2 * sq + 1) by (nonlinear_arith);
    let u = if far {
        crate::fixed::fx_add(h, sq)
    } else {
        fx_sub(h, sq)
    };
    assert(u == if far {
        h + sq
    } else {
        h - sq
    });
    // The root.
    let s0 = fx_div(u, a);
    lemma_trunc_residue(u * n, a);
    let t = trunc_div(u * n, a);
    assert(-0x8_0000_0000_0000 <= t <= 0x8_0000_0000_0000) by (nonlinear_arith)
        requires
            4 * a >= n,
            n == 0x1_0000_0000,
            -0x1_3000_0000_0000 <= u <= 0x1_3000_0000_0000,
            u * n >= 0 ==> 0 <= u * n - t * a < a && 0 <= t <= u * n,
            u * n <= 0 ==> -a < u * n - t * a <= 0 && u * n <= t <= 0,
    {
        if t > 0x8_0000_0000_0000 {
            assert(t * a >= 0x8_0000_0000_0001 * a);
            assert(u * n <= 0x1_3000_0000_0000 * n);
        }
        if t < -0x8_0000_0000_0000 {
            assert(t * a <= -0x8_0000_0000_0001 * a);
            assert(u * n >= -0x1_3000_0000_0000 * n);
        }
    }
    assert(s0 == t);
    let s = fx_times(s0, 1);
    assert(s == t) by {
        assert(t * 1 == t);
    }
    let es = u * n - s * a;
    let spans = sphere_spans(center, radius, r).unwrap();
    assert(s == if far {
        spans.1
    } else {
        spans.0
    });
    // The point.
    lemma_away_component(r.origin.x, center.x, w.x, s);
    lemma_away_component(r.origin.y, center.y, w.y, s);
    lemma_away_component(r.origin.z, center.z, w.z, s);
    lemma_scale_reach(w.x, s);
    lemma_scale_reach(w.y, s);
    lemma_scale_reach(w.z, s);
    let away = v3_sub(ray_at(gauged_ray(r), s), center);
    let x1 = w.x * s - way.x * n;
    let x2 = w.y * s - way.y * n;
    let x3 = w.z * s - way.z * n;
    let reach = int_abs(s);
    let b = 2 * n * reach + m * n;
    assert(-b <= x1 <= b && -b <= x2 <= b && -b <= x3 <= b) by {
        lemma_bounded_product(w.x, s, 2 * n, reach);
        lemma_bounded_product(w.y, s, 2 * n, reach);
        lemma_bounded_product(w.z, s, 2 * n, reach);
        lemma_bounded_product(way.x, n, m, n);
        lemma_bounded_product(way.y, n, m, n);
        lemma_bounded_product(way.z, n, m, n);
        assert((2 * n) * reach == 2 * n * reach);
    }
    lemma_squares_shift(x1, x2, x3, away.x, away.y, away.z, b);
    lemma_exact_distance(w, way, s);
    let xx = x1 * x1 + x2 * x2 + x3 * x3;
    lemma_root_bound(
        a, h, q, rr, w2 - a * n, h2 - h * n, q2 - q * n, r2 - rr * n, hh, h * h - hh * n, ac, a * (q
            - rr) - ac * n, sq, u, s, es, w2, h2, q2, r2, xx,
    );
    // The slack in the reach of the way and of the root alone.
    assert(-6 * m <= h <= 6 * m) by {
        lemma_dot_open(w, way, 0x2_0000_0000, m);
        assert(0x2_0000_0000 * m == m * (2 * n));
        assert(-(6 * m) <= h <= 6 * m) by (nonlinear_arith)
            requires
                -(3 * (m * (2 * n))) <= h * n <= 3 * (m * (2 * n)),
                n > 0,
        {
            if h > 6 * m {
                assert(h * n >= (6 * m + 1) * n);
            }
            if h < -(6 * m) {
                assert(h * n <= -(6 * m + 1) * n);
            }
        }
    }
    lemma_slack_sum(s, sq, a, h, u, es, m, b);
    let nn = v3_norm_sq(away);
    assert(n * n * (nn - radius * radius) == n * n * nn - n * n * r2) by (nonlinear_arith)
        requires
            r2 == radius * radius,
    ;
}

/// A coordinate of at least one half has a square of at least a quarter.
proof fn lemma_quarter(x: int)
    requires
        -2 * ONE_RAW <= x <= 2 * ONE_RAW,
    ensures
        fx_mul(x, x) >= 0,
        2 * int_abs(x) >= ONE_RAW ==> 4 * fx_mul(x, x) >= ONE_RAW,
{
    let n = ONE_RAW as int;
    lemma_product_open(x, x, 0x2_0000_0000, 0x2_0000_0000);
    assert(x * x >= 0) by (nonlinear_arith);
    if 2 * int_abs(x) >= n {
        let f = fx_mul(x, x);
        assert(4 * f >= n) by (nonlinear_arith)
            requires
                2 * int_abs(x) >= n,
                0 <= x * x - f * n < n,
                n == 0x1_0000_0000,
        {
            assert(4 * (x * x) >= n * n);
            if 4 * f < n {
                assert(4 * (f * n) <= (n - 1) * n);
            }
        }
    }
}

/// The slack of a root and of the rounding of the point add up to no more
/// than `surface_slack`.
proof fn lemma_slack_sum(s: int, sq: int, a: int, h: int, u: int, es: int, m: int, b: int)
    requires
        0 < a <= 12 * ONE_RAW,
        sq >= 0,
        u == h - sq || u == h + sq,
        -6 * m <= h <= 6 * m,
        u * ONE_RAW == s * a + es,
        -a < es < a,
        m >= 0,
        b == 2 * ONE_RAW * int_abs(s) + m * ONE_RAW,
    ensures
        root_slack(s, sq, a) + 6 * (ONE_RAW * b) + 3 * (ONE_RAW * ONE_RAW) <= surface_slack(s, m),
{
    let n = ONE_RAW as int;
    let reach = int_abs(s);
    // |u| <= 12 (|s| + 1)
    lemma_bounded_product(s, a, reach, 12 * n);
    assert(-(12 * (reach + 1)) <= u <= 12 * (reach + 1)) by (nonlinear_arith)
        requires
            u * n == s * a + es,
            -a < es < a,
            a <= 12 * n,
            -(reach * (12 * n)) <= s * a <= reach * (12 * n),
            n > 0,
    {
        if u > 12 * (reach + 1) {
            assert(u * n >= (12 * (reach + 1) + 1) * n);
        }
        if u < -(12 * (reach + 1)) {
            assert(u * n <= -(12 * (reach + 1) + 1) * n);
        }
    }
    assert(sq <= 6 * m + 12 * reach + 12);
    let n2 = n * n;
    let bound = 6 * m + 12 * reach + 12;
    assert(4 * n2 * (2 * n + 2 * sq) <= 4 * n2 * (2 * n + 2 * bound)) by (nonlinear_arith)
        requires
            sq <= bound,
            n2 >= 0,
    ;
    assert(n * (a + 2 * n * sq) <= n * (12 * n + 2 * n * bound)) by (nonlinear_arith)
        requires
            sq <= bound,
            a <= 12 * n,
            n > 0,
    ;
    assert(n2 >= 0) by (nonlinear_arith)
        requires
            n2 == n * n,
    ;
    let ss = s * s;
    let ka = n2 * reach;
    let kb = n2 * m;
    let kc = n2 * bound;
    let kd = n * n2;
    assert(4 * n2 * (2 * n + 2 * bound) == 8 * kd + 8 * kc) by (nonlinear_arith)
        requires
            kc == n2 * bound,
            kd == n * n2,
    ;
    assert(n * (12 * n + 2 * n * bound) == 12 * n2 + 2 * kc) by (nonlinear_arith)
        requires
            kc == n2 * bound,
            n2 == n * n,
    ;
    assert(6 * n2 * reach == 6 * ka) by (nonlinear_arith)
        requires
            ka == n2 * reach,
    ;
    assert(6 * (n * b) == 12 * ka + 6 * kb) by (nonlinear_arith)
        requires
            ka == n2 * reach,
            kb == n2 * m,
            n2 == n * n,
            b == 2 * n * reach + m * n,
    ;
    assert(n2 * (138 * reach + 66 * m + 11 * n + 135) == 138 * ka + 66 * kb + 11 * kd + 135 * n2)
        by (nonlinear_arith)
        requires
            ka == n2 * reach,
            kb == n2 * m,
            kd == n * n2,
    ;
    assert(kc == 6 * kb + 12 * ka + 12 * n2) by (nonlinear_arith)
        requires
            ka == n2 * reach,
            kb == n2 * m,
            kc == n2 * bound,
            bound == 6 * m + 12 * reach + 12,
    ;
    assert(3 * (n * n * n) == 3 * kd) by (nonlinear_arith)
        requires
            kd == n * n2,
            n2 == n * n,
    ;
    assert(root_slack(s, sq, a) == 4 * n2 * (2 * n + 2 * sq) + n * (a + 2 * n * sq) + 3 * n * ss
        + 6 * n2 * reach + 3 * (n * n * n));
    assert(surface_slack(s, m) == 3 * n * ss + n2 * (138 * reach + 66 * m + 11 * n + 135));
}

/// The point of every hit lies on the sphere, to within `surface_slack`:
/// the exact sum of the squares of the numerators of the way from the
/// centre to the point differs from the square of the numerator of the
/// radius by at most `surface_slack / 2^64`, where `s` is the root along the
/// gauged direction and `m` the reach of the way from the origin of the ray
/// to the centre.  The sphere and the way to it have a reach below
/// `scene_reach()`, and the coordinates lie within `coordinate_limit()`.
pub proof fn lemma_hit_point_on_sphere(
    center: V3,
    radius: int,
    mat: MaterialModel,
    r: RayV,
    r_max: int,
    r_min: int,
)
    requires
        within_limit(center),
        within_limit(r.origin),
        v3_reach(r.direction) <= MAX_RAW,
        0 < radius < scene_reach(),
        v3_reach(v3_sub(center, r.origin)) < scene_reach(),
    ensures
        sphere_hit(center, radius, mat, r, r_max, r_min) matches Some(h) ==> {
            let s = pick_span(
                sphere_spans(center, radius, r),
                v3_reach(r.direction),
                r_max,
                r_min,
            ).unwrap();
            let m = v3_reach(v3_sub(center, r.origin));
            let away = v3_sub(h.point, center);
            let b = 2 * int_abs(s) + m + 1;
            &&& h.point == ray_at(gauged_ray(r), s)
            &&& -surface_slack(s, m) <= ONE_RAW * ONE_RAW * (v3_norm_sq(away) - radius * radius)
                <= surface_slack(s, m)
            &&& -b <= away.x <= b
            &&& -b <= away.y <= b
            &&& -b <= away.z <= b
            &&& b <= 0x20_0000_0000_0000
        },
{
    if sphere_hit(center, radius, mat, r, r_max, r_min) is Some {
        let spans = sphere_spans(center, radius, r).unwrap();
        let s = pick_span(Some(spans), v3_reach(r.direction), r_max, r_min).unwrap();
        assert(v3_reach(r.direction) > 0);
        if s == spans.0 {
            lemma_span_on_sphere(center, radius, r, false);
        } else {
            lemma_span_on_sphere(center, radius, r, true);
        }
    }
}

/// How far the squared length of the normal of a hit may lie from one, in
/// units of the square of the denominator times the square of the radius.
pub open spec fn normal_slack(s: int, m: int, radius: int) -> int {
    surface_slack(s, m) + 6 * (radius * ONE_RAW) * (2 * int_abs(s) + m + 1) + 3 * (radius * radius)
}

/// What a square changes by where its root is divided and rounded.
proof fn lemma_square_shift_by(x: int, y: int, d: int, b: int)
    requires
        d > 0,
        -d < x - y * d < d,
        -b <= x <= b,
    ensures
        -(2 * (d * b) + d * d) <= (y * d) * (y * d) - x * x <= 2 * (d * b) + d * d,
{
    let e = x - y * d;
    lemma_bounded_product(x, e, b, d);
    lemma_bounded_product(e, e, d, d);
    assert((y * d) * (y * d) - x * x == e * e - 2 * (x * e)) by (nonlinear_arith)
        requires
            e == x - y * d,
    ;
    assert(b * d == d * b) by (nonlinear_arith);
}

/// One coordinate of the outward normal: the way from the centre divided
/// by the radius, not clamped.
proof fn lemma_outward_component(away: int, radius: int, b: int)
    requires
        0x100_0000 <= radius < 0x800_0000_0000,
        -b <= away <= b,
        0 <= b <= 0x20_0000_0000_0000,
    ensures
        ({
            let out = fx_div(away, radius);
            &&& -radius < away * ONE_RAW - out * radius < radius
            &&& -MAX_RAW <= out <= MAX_RAW
            &&& -(b * ONE_RAW) <= away * ONE_RAW <= b * ONE_RAW
        }),
{
    let n = ONE_RAW as int;
    let p = away * n;
    lemma_bounded_product(away, n, b, n);
    lemma_trunc_residue(p, radius);
    let t = trunc_div(p, radius);
    assert(-0x2000_0000_0000_0000 <= t <= 0x2000_0000_0000_0000) by (nonlinear_arith)
        requires
            p >= 0 ==> 0 <= p - t * radius < radius && 0 <= t,
            p <= 0 ==> -radius < p - t * radius <= 0 && t <= 0,
            -(b * n) <= p <= b * n,
            b <= 0x20_0000_0000_0000,
            n == 0x1_0000_0000,
            radius >= 0x100_0000,
    {
        assert(b * n <= 0x20_0000_0000_0000 * n);
        if t > 0x2000_0000_0000_0000 {
            assert(t * radius >= 0x2000_0000_0000_0001 * radius);
            assert(0x2000_0000_0000_0001 * radius >= 0x2000_0000_0000_0001 * 0x100_0000);
        }
        if t < -0x2000_0000_0000_0000 {
            assert(t * radius <= -0x2000_0000_0000_0001 * radius);
            assert(0x2000_0000_0000_0001 * radius >= 0x2000_0000_0000_0001 * 0x100_0000);
        }
    }
}

/// The normal of every hit is one long, to within `normal_slack`: the
/// exact sum of the squares of its numerators, times the square of the
/// numerator of the radius, differs from the square of the radius times the
/// square of the denominator by at most `normal_slack`.  The radius is at
/// least one part in 256.
pub proof fn lemma_hit_normal_is_unit(
    center: V3,
    radius: int,
    mat: MaterialModel,
    r: RayV,
    r_max: int,
    r_min: int,
)
    requires
        within_limit(center),
        within_limit(r.origin),
        v3_reach(r.direction) <= MAX_RAW,
        0x100_0000 <= radius < scene_reach(),
        v3_reach(v3_sub(center, r.origin)) < scene_reach(),
    ensures
        sphere_hit(center, radius, mat, r, r_max, r_min) matches Some(h) ==> {
            let s = pick_span(
                sphere_spans(center, radius, r),
                v3_reach(r.direction),
                r_max,
                r_min,
            ).unwrap();
            let m = v3_reach(v3_sub(center, r.origin));
            &&& -normal_slack(s, m, radius) <= radius * radius * (v3_norm_sq(h.normal) - ONE_RAW
                * ONE_RAW) <= normal_slack(s, m, radius)
        },
{
    if let Some(h) = sphere_hit(center, radius, mat, r, r_max, r_min) {
        let n = ONE_RAW as int;
        let spans = sphere_spans(center, radius, r).unwrap();
        let s = pick_span(Some(spans), v3_reach(r.direction), r_max, r_min).unwrap();
        let m = v3_reach(v3_sub(center, r.origin));
        lemma_hit_point_on_sphere(center, radius, mat, r, r_max, r_min);
        let away = v3_sub(h.point, center);
        let out = v3_shrink(away, radius);
        let reach = int_abs(s);
        let b = 2 * reach + m + 1;
        lemma_outward_component(away.x, radius, b);
        lemma_outward_component(away.y, radius, b);
        lemma_outward_component(away.z, radius, b);
        lemma_square_shift_by(away.x * n, out.x, radius, b * n);
        lemma_square_shift_by(away.y * n, out.y, radius, b * n);
        lemma_square_shift_by(away.z * n, out.z, radius, b * n);
        lemma_scaled_square(away.x);
        lemma_scaled_square(away.y);
        lemma_scaled_square(away.z);
        lemma_scaled_by(out.x, radius);
        lemma_scaled_by(out.y, radius);
        lemma_scaled_by(out.z, radius);
        // The normal is the outward normal or its negation.
        lemma_fx_mul_one(out.x);
        lemma_fx_mul_one(out.y);
        lemma_fx_mul_one(out.z);
        let nn = v3_norm_sq(h.normal);
        assert(nn == v3_norm_sq(out)) by (nonlinear_arith)
            requires
                h.normal.x == out.x || h.normal.x == -out.x,
                h.normal.y == out.y || h.normal.y == -out.y,
                h.normal.z == out.z || h.normal.z == -out.z,
                nn == h.normal.x * h.normal.x + h.normal.y * h.normal.y + h.normal.z * h.normal.z,
        ;
        let r2 = radius * radius;
        let n2 = n * n;
        let aa = v3_norm_sq(away);
        let o1 = out.x * out.x;
        let o2 = out.y * out.y;
        let o3 = out.z * out.z;
        let a1 = away.x * away.x;
        let a2 = away.y * away.y;
        let a3 = away.z * away.z;
        assert(r2 * nn == r2 * o1 + r2 * o2 + r2 * o3) by (nonlinear_arith)
            requires
                nn == o1 + o2 + o3,
        ;
        assert(n2 * aa == n2 * a1 + n2 * a2 + n2 * a3) by (nonlinear_arith)
            requires
                aa == a1 + a2 + a3,
        ;
        assert(r2 * (nn - n2) == r2 * nn - r2 * n2 && n2 * (aa - r2) == n2 * aa - r2 * n2)
            by (nonlinear_arith);
        assert(radius * (b * n) == (radius * n) * b) by (nonlinear_arith);
        assert(6 * (radius * n) * (2 * reach + m + 1) == 6 * ((radius * n) * b))
            by (nonlinear_arith)
            requires
                b == 2 * reach + m + 1,
        ;
    }
}

/// The square of a number scaled by a divisor.
proof fn lemma_scaled_by(y: int, d: int)
    by (nonlinear_arith)
    ensures
        (y * d) * (y * d) == (d * d) * (y * y),
{
}

/// A root times a coordinate of the gauged direction is at most twice the root.
proof fn lemma_scale_reach(w: int, s: int)
    requires
        -2 * ONE_RAW <= w <= 2 * ONE_RAW,
        -0x8_0000_0000_0000 <= s <= 0x8_0000_0000_0000,
    ensures
        -(2 * int_abs(s)) <= fx_mul(w, s) <= 2 * int_abs(s),
{
    let n = ONE_RAW as int;
    let reach = int_abs(s);
    lemma_product_open(w, s, 0x2_0000_0000, 0x8_0000_0000_0000);
    lemma_bounded_product(w, s, 2 * n, reach);
    let t = fx_mul(w, s);
    assert(-(2 * reach) <= t <= 2 * reach) by (nonlinear_arith)
        requires
            -((2 * n) * reach) <= w * s <= (2 * n) * reach,
            -n < w * s - t * n < n,
            w * s >= 0 ==> 0 <= w * s - t * n,
            n > 0,
            reach >= 0,
    {
        if t > 2 * reach {
            assert(t * n >= (2 * reach + 1) * n);
        }
        if t < -(2 * reach) {
            assert(t * n <= -(2 * reach + 1) * n);
            assert(w * s < 0);
        }
    }
}

} // verus!
