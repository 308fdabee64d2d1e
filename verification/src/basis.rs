//! The basis of a camera: its three vectors stand at right angles to
//! each other, to within the rounding of a cross product and of a division
//! by a length.

use vstd::prelude::*;
use crate::camera::{config_error, initialized, lemma_long_is_nonzero, up_floor, CameraV};
use crate::fixed::{
    fx_mul, fx_sub, isqrt, lemma_isqrt_exists, lemma_trunc_residue, ONE_RAW,
};
use crate::front_face::within_limit;
use crate::on_sphere::{lemma_bounded_product, lemma_dot_open, lemma_product_open};
use crate::ray::Sphere;
use crate::vec::{
    lemma_unit_length, unit_factor, v3_cross, v3_dot, v3_norm_sq, v3_reach, v3_sub, v3_times,
    v3_unit, V3,
};

verus! {

/// How far the scalar product of the vector to the right and the vector
/// back from the target may lie from zero: about three parts in two million.
pub open spec fn basis_slack() -> int {
    6149
}

/// One component of a cross product of bounded vectors: it is not
/// clamped, and differs from the exact difference of the two products by
/// less than two units of the last place.
proof fn lemma_cross_component(a1: int, b1: int, a2: int, b2: int, ba: int, bb: int)
    requires
        -ba <= a1 <= ba,
        -ba <= a2 <= ba,
        -bb <= b1 <= bb,
        -bb <= b2 <= bb,
        0 <= ba,
        0 <= bb,
        ba * bb <= 0x2000_0000_0000_0000_0000_0000,
    ensures
        ({
            let c = fx_sub(fx_mul(a1, b1), fx_mul(a2, b2));
            &&& -2 * ONE_RAW < (a1 * b1 - a2 * b2) - c * ONE_RAW < 2 * ONE_RAW
            &&& -(2 * (ba * bb)) <= c * ONE_RAW <= 2 * (ba * bb)
        }),
{
    let n = ONE_RAW as int;
    lemma_product_open(a1, b1, ba, bb);
    lemma_product_open(a2, b2, ba, bb);
    let p = fx_mul(a1, b1);
    let q = fx_mul(a2, b2);
    assert(-0x2000_0000_0000_0000 <= p <= 0x2000_0000_0000_0000) by (nonlinear_arith)
        requires
            -0x2000_0000_0000_0000_0000_0000 <= p * n <= 0x2000_0000_0000_0000_0000_0000,
            n == 0x1_0000_0000,
    ;
    assert(-0x2000_0000_0000_0000 <= q <= 0x2000_0000_0000_0000) by (nonlinear_arith)
        requires
            -0x2000_0000_0000_0000_0000_0000 <= q * n <= 0x2000_0000_0000_0000_0000_0000,
            n == 0x1_0000_0000,
    ;
    assert(fx_sub(p, q) == p - q);
    assert((p - q) * n == p * n - q * n) by (nonlinear_arith);
}

/// The triple product of three vectors of which two are the same is zero.
proof fn lemma_triple_product(a: V3, b: V3)
    ensures
        (a.y * b.z - a.z * b.y) * a.x + (a.z * b.x - a.x * b.z) * a.y + (a.x * b.y - a.y * b.x)
            * a.z == 0,
        (a.y * b.z - a.z * b.y) * b.x + (a.z * b.x - a.x * b.z) * b.y + (a.x * b.y - a.y * b.x)
            * b.z == 0,
{
    let (ax, ay, az) = (a.x, a.y, a.z);
    let (bx, by, bz) = (b.x, b.y, b.z);
    assert((ay * bz - az * by) * ax == ay * bz * ax - az * by * ax) by (nonlinear_arith);
    assert((az * bx - ax * bz) * ay == az * bx * ay - ax * bz * ay) by (nonlinear_arith);
    assert((ax * by - ay * bx) * az == ax * by * az - ay * bx * az) by (nonlinear_arith);
    assert(ay * bz * ax == ax * bz * ay) by (nonlinear_arith);
    assert(az * by * ax == ax * by * az) by (nonlinear_arith);
    assert(az * bx * ay == ay * bx * az) by (nonlinear_arith);
    assert((ay * bz - az * by) * bx == ay * bz * bx - az * by * bx) by (nonlinear_arith);
    assert((az * bx - ax * bz) * by == az * bx * by - ax * bz * by) by (nonlinear_arith);
    assert((ax * by - ay * bx) * bz == ax * by * bz - ay * bx * bz) by (nonlinear_arith);
    assert(ay * bz * bx == ay * bx * bz) by (nonlinear_arith);
    assert(az * by * bx == az * bx * by) by (nonlinear_arith);
    assert(ax * bz * by == ax * by * bz) by (nonlinear_arith);
}

/// A sum of three products of which each first factor lies within `e` and
/// each second factor within `b`.
proof fn lemma_three_terms(e1: int, e2: int, e3: int, v: V3, e: int, b: int)
    requires
        -e <= e1 <= e,
        -e <= e2 <= e,
        -e <= e3 <= e,
        -b <= v.x <= b,
        -b <= v.y <= b,
        -b <= v.z <= b,
    ensures
        -(3 * (e * b)) <= e1 * v.x + e2 * v.y + e3 * v.z <= 3 * (e * b),
{
    lemma_bounded_product(e1, v.x, e, b);
    lemma_bounded_product(e2, v.y, e, b);
    lemma_bounded_product(e3, v.z, e, b);
}

/// The cross product of two bounded vectors stands at right angles to
/// both: the exact sum of the products of its numerators with those of
/// either vector is at most six times the bound of that vector.
pub proof fn lemma_cross_is_upright(a: V3, b: V3, ba: int, bb: int)
    requires
        -ba <= a.x <= ba,
        -ba <= a.y <= ba,
        -ba <= a.z <= ba,
        -bb <= b.x <= bb,
        -bb <= b.y <= bb,
        -bb <= b.z <= bb,
        0 <= ba,
        0 <= bb,
        ba * bb <= 0x2000_0000_0000_0000_0000_0000,
    ensures
        ({
            let c = v3_cross(a, b);
            &&& -(6 * ba) <= c.x * a.x + c.y * a.y + c.z * a.z <= 6 * ba
            &&& -(6 * bb) <= c.x * b.x + c.y * b.y + c.z * b.z <= 6 * bb
            &&& -(2 * (ba * bb)) <= c.x * ONE_RAW <= 2 * (ba * bb)
            &&& -(2 * (ba * bb)) <= c.y * ONE_RAW <= 2 * (ba * bb)
            &&& -(2 * (ba * bb)) <= c.z * ONE_RAW <= 2 * (ba * bb)
        }),
{
    let n = ONE_RAW as int;
    let c = v3_cross(a, b);
    lemma_cross_component(a.y, b.z, a.z, b.y, ba, bb);
    lemma_cross_component(a.z, b.x, a.x, b.z, ba, bb);
    lemma_cross_component(a.x, b.y, a.y, b.x, ba, bb);
    lemma_triple_product(a, b);
    let px = a.y * b.z - a.z * b.y;
    let py = a.z * b.x - a.x * b.z;
    let pz = a.x * b.y - a.y * b.x;
    let ex = px - c.x * n;
    let ey = py - c.y * n;
    let ez = pz - c.z * n;
    lemma_three_terms(ex, ey, ez, a, 2 * n, ba);
    lemma_three_terms(ex, ey, ez, b, 2 * n, bb);
    let ca = c.x * a.x + c.y * a.y + c.z * a.z;
    let cb = c.x * b.x + c.y * b.y + c.z * b.z;
    lemma_residue_sum(px, py, pz, c, a, ex, ey, ez);
    lemma_residue_sum(px, py, pz, c, b, ex, ey, ez);
    assert(-(6 * ba) <= ca <= 6 * ba) by (nonlinear_arith)
        requires
            -(3 * ((2 * n) * ba)) <= n * ca <= 3 * ((2 * n) * ba),
            n > 0,
    {
        assert(3 * ((2 * n) * ba) == n * (6 * ba));
    }
    assert(-(6 * bb) <= cb <= 6 * bb) by (nonlinear_arith)
        requires
            -(3 * ((2 * n) * bb)) <= n * cb <= 3 * ((2 * n) * bb),
            n > 0,
    {
        assert(3 * ((2 * n) * bb) == n * (6 * bb));
    }
}

/// The sum of products of rounded components, by their exact values and
/// what the rounding left.
proof fn lemma_residue_sum(
    px: int,
    py: int,
    pz: int,
    c: V3,
    v: V3,
    ex: int,
    ey: int,
    ez: int,
)
    requires
        ex == px - c.x * ONE_RAW,
        ey == py - c.y * ONE_RAW,
        ez == pz - c.z * ONE_RAW,
    ensures
        ONE_RAW * (c.x * v.x + c.y * v.y + c.z * v.z) == (px * v.x + py * v.y + pz * v.z) - (ex
            * v.x + ey * v.y + ez * v.z),
{
    let n = ONE_RAW as int;
    assert(n * (c.x * v.x) == px * v.x - ex * v.x) by (nonlinear_arith)
        requires
            ex == px - c.x * n,
    ;
    assert(n * (c.y * v.y) == py * v.y - ey * v.y) by (nonlinear_arith)
        requires
            ey == py - c.y * n,
    ;
    assert(n * (c.z * v.z) == pz * v.z - ez * v.z) by (nonlinear_arith)
        requires
            ez == pz - c.z * n,
    ;
    assert(n * (c.x * v.x + c.y * v.y + c.z * v.z) == n * (c.x * v.x) + n * (c.y * v.y) + n * (c.z
        * v.z)) by (nonlinear_arith);
}

/// A scalar product of two vectors whose components are at most one, from
/// a bound on the exact sum of the products of their numerators.
proof fn lemma_small_dot(v: V3, w: V3, bv: int, k: int)
    requires
        -bv <= v.x <= bv,
        -bv <= v.y <= bv,
        -bv <= v.z <= bv,
        -ONE_RAW <= w.x <= ONE_RAW,
        -ONE_RAW <= w.y <= ONE_RAW,
        -ONE_RAW <= w.z <= ONE_RAW,
        0 <= bv <= 2 * ONE_RAW,
        0 <= k,
        -(k * ONE_RAW) <= v.x * w.x + v.y * w.y + v.z * w.z <= k * ONE_RAW,
    ensures
        -(k + 2) <= v3_dot(v, w) <= k + 2,
{
    let n = ONE_RAW as int;
    assert(bv * n <= 0x1000_0000_0000_0000_0000_0000) by (nonlinear_arith)
        requires
            0 <= bv <= 2 * n,
            n == 0x1_0000_0000,
    ;
    lemma_dot_open(v, w, bv, n);
    let dot = v3_dot(v, w);
    let sum = v.x * w.x + v.y * w.y + v.z * w.z;
    assert(-(k + 2) <= dot <= k + 2) by (nonlinear_arith)
        requires
            -3 * n < sum - dot * n < 3 * n,
            -(k * n) <= sum <= k * n,
            n > 0,
    {
        if dot >= k + 3 {
            assert(dot * n >= (k + 3) * n);
        }
        if dot <= -(k + 3) {
            assert(dot * n <= -(k + 3) * n);
        }
    }
}

/// A vector divided by its length keeps the side of every plane: the
/// exact sum of the products of its numerators with those of a vector `w`
/// of components up to one is at most `room` plus three times one, where
/// `room` times the least length `floor` of the vector is six squares of one.
proof fn lemma_unit_keeps_upright(side: V3, w: V3, floor: int, room: int)
    requires
        -ONE_RAW <= w.x <= ONE_RAW,
        -ONE_RAW <= w.y <= ONE_RAW,
        -ONE_RAW <= w.z <= ONE_RAW,
        -(6 * ONE_RAW) <= side.x * w.x + side.y * w.y + side.z * w.z <= 6 * ONE_RAW,
        0 < floor,
        floor * floor <= v3_norm_sq(side),
        v3_reach(side) > 0,
        0 <= room,
        6 * (ONE_RAW * ONE_RAW) <= room * floor,
    ensures
        ({
            let u = v3_unit(side);
            let sum = u.x * w.x + u.y * w.y + u.z * w.z;
            -(room + 3 * ONE_RAW) <= sum <= room + 3 * ONE_RAW
        }),
{
    let n = ONE_RAW as int;
    let f = unit_factor(v3_reach(side));
    let b = v3_times(side, f);
    let big = v3_norm_sq(b);
    let l = isqrt(big);
    assert(f >= 1) by {
        if 0 < v3_reach(side) < 0x2000_0000_0000_0000 {
            vstd::arithmetic::div_mod::lemma_div_non_zero(
                0x2000_0000_0000_0000,
                v3_reach(side),
            );
        }
    }
    assert(big >= 0) by (nonlinear_arith)
        requires
            big == b.x * b.x + b.y * b.y + b.z * b.z,
    ;
    lemma_isqrt_exists(big);
    let small = v3_norm_sq(side);
    assert(big == (f * f) * small) by (nonlinear_arith)
        requires
            big == (side.x * f) * (side.x * f) + (side.y * f) * (side.y * f) + (side.z * f) * (
            side.z * f),
            small == side.x * side.x + side.y * side.y + side.z * side.z,
    ;
    assert(l >= f * floor) by (nonlinear_arith)
        requires
            big == (f * f) * small,
            floor * floor <= small,
            big < (l + 1) * (l + 1),
            0 <= l,
            f >= 1,
            floor > 0,
    {
        assert((f * f) * small >= (f * f) * (floor * floor));
        assert((f * f) * (floor * floor) == (f * floor) * (f * floor));
        if l + 1 <= f * floor {
            assert((l + 1) * (l + 1) <= (f * floor) * (f * floor));
        }
    }
    assert(l > 0) by (nonlinear_arith)
        requires
            l >= f * floor,
            f >= 1,
            floor > 0,
    ;
    let u = v3_unit(side);
    lemma_trunc_residue(b.x * n, l);
    lemma_trunc_residue(b.y * n, l);
    lemma_trunc_residue(b.z * n, l);
    let ex = b.x * n - u.x * l;
    let ey = b.y * n - u.y * l;
    let ez = b.z * n - u.z * l;
    lemma_three_terms(ex, ey, ez, w, l, n);
    let sum = u.x * w.x + u.y * w.y + u.z * w.z;
    let sw = side.x * w.x + side.y * w.y + side.z * w.z;
    let fn_ = f * n;
    assert(l * (u.x * w.x) == fn_ * (side.x * w.x) - ex * w.x) by (nonlinear_arith)
        requires
            ex == (side.x * f) * n - u.x * l,
            fn_ == f * n,
    ;
    assert(l * (u.y * w.y) == fn_ * (side.y * w.y) - ey * w.y) by (nonlinear_arith)
        requires
            ey == (side.y * f) * n - u.y * l,
            fn_ == f * n,
    ;
    assert(l * (u.z * w.z) == fn_ * (side.z * w.z) - ez * w.z) by (nonlinear_arith)
        requires
            ez == (side.z * f) * n - u.z * l,
            fn_ == f * n,
    ;
    assert(l * sum == l * (u.x * w.x) + l * (u.y * w.y) + l * (u.z * w.z)) by (nonlinear_arith)
        requires
            sum == u.x * w.x + u.y * w.y + u.z * w.z,
    ;
    assert(fn_ * sw == fn_ * (side.x * w.x) + fn_ * (side.y * w.y) + fn_ * (side.z * w.z))
        by (nonlinear_arith)
        requires
            sw == side.x * w.x + side.y * w.y + side.z * w.z,
    ;
    lemma_bounded_product(fn_, sw, fn_, 6 * n);
    assert(fn_ * (6 * n) <= l * room) by (nonlinear_arith)
        requires
            fn_ == f * n,
            l >= f * floor,
            6 * (n * n) <= room * floor,
            f >= 1,
            room >= 0,
    {
        assert(fn_ * (6 * n) == f * (6 * (n * n)));
        assert(f * (6 * (n * n)) <= f * (room * floor));
        assert(f * (room * floor) == room * (f * floor));
        assert(room * (f * floor) <= room * l);
    }
    assert(-(room + 3 * n) <= sum <= room + 3 * n) by (nonlinear_arith)
        requires
            l * sum == fn_ * sw - (ex * w.x + ey * w.y + ez * w.z),
            -(fn_ * (6 * n)) <= fn_ * sw <= fn_ * (6 * n),
            fn_ * (6 * n) <= l * room,
            -(3 * (l * n)) <= ex * w.x + ey * w.y + ez * w.z <= 3 * (l * n),
            l > 0,
    {
        assert(l * (room + 3 * n) == l * room + 3 * (l * n));
        if sum > room + 3 * n {
            assert(l * sum >= l * (room + 3 * n + 1));
            assert(l * (room + 3 * n + 1) == l * (room + 3 * n) + l);
        }
        if sum < -(room + 3 * n) {
            assert(l * sum <= l * (-(room + 3 * n) - 1));
            assert(l * (-(room + 3 * n) - 1) == -(l * (room + 3 * n)) - l);
        }
    }
}

/// The exact sum of the products of the numerators of the vector to the
/// right and of the vector back from the target, and what is known of the two.
proof fn lemma_right_angle(c: CameraV, world: Seq<Sphere>)
    requires
        config_error(c, world) is None,
        within_limit(c.vup),
    ensures
        ({
            let i = initialized(c);
            let sum = i.u.x * i.w.x + i.u.y * i.w.y + i.u.z * i.w.z;
            &&& -(6147 * ONE_RAW) <= sum <= 6147 * ONE_RAW
            &&& i.v == v3_cross(i.w, i.u)
            &&& (ONE_RAW - 4) * (ONE_RAW - 4) <= v3_norm_sq(i.w) < (ONE_RAW + 1) * (ONE_RAW + 1)
            &&& (ONE_RAW - 4) * (ONE_RAW - 4) <= v3_norm_sq(i.u) < (ONE_RAW + 1) * (ONE_RAW + 1)
            &&& -ONE_RAW <= i.w.x <= ONE_RAW && -ONE_RAW <= i.w.y <= ONE_RAW && -ONE_RAW <= i.w.z
                <= ONE_RAW
            &&& -ONE_RAW <= i.u.x <= ONE_RAW && -ONE_RAW <= i.u.y <= ONE_RAW && -ONE_RAW <= i.u.z
                <= ONE_RAW
        }),
{
    let n = ONE_RAW as int;
    let back = v3_sub(c.lookfrom, c.lookat);
    let w = v3_unit(back);
    let side = v3_cross(c.vup, w);
    lemma_long_is_nonzero(back);
    lemma_long_is_nonzero(side);
    lemma_unit_length(back);
    lemma_unit_length(side);
    assert(n * n == 0x1_0000_0000_0000_0000) by (nonlinear_arith)
        requires
            n == 0x1_0000_0000,
    ;
    assert(0x2000_0000_0000_0000 * n <= 0x2000_0000_0000_0000_0000_0000) by (nonlinear_arith)
        requires
            n == 0x1_0000_0000,
    ;
    lemma_cross_is_upright(c.vup, w, 0x2000_0000_0000_0000, n);
    let floor = up_floor();
    let small = v3_norm_sq(side);
    assert(small >= 0) by (nonlinear_arith)
        requires
            small == side.x * side.x + side.y * side.y + side.z * side.z,
    ;
    lemma_isqrt_exists(small);
    assert(floor * floor <= small) by (nonlinear_arith)
        requires
            isqrt(small) >= floor,
            isqrt(small) * isqrt(small) <= small,
            floor > 0,
    ;
    let room: int = 0x1800_0000_0000;
    assert(6 * (n * n) <= room * floor);
    lemma_unit_keeps_upright(side, w, floor, room);
}

/// The basis of the camera of a configuration without fault, whose
/// vector up lies within `coordinate_limit()`, stands at right angles: the
/// vector up is at right angles to the two others to within eight units of
/// the last place, and the vector to the right to the vector back from the
/// target to within `basis_slack()`.
pub proof fn lemma_basis_is_upright(c: CameraV, world: Seq<Sphere>)
    requires
        config_error(c, world) is None,
        within_limit(c.vup),
    ensures
        ({
            let i = initialized(c);
            &&& -8 <= v3_dot(i.v, i.w) <= 8
            &&& -8 <= v3_dot(i.v, i.u) <= 8
            &&& -basis_slack() <= v3_dot(i.u, i.w) <= basis_slack()
        }),
{
    let n = ONE_RAW as int;
    let i = initialized(c);
    lemma_right_angle(c, world);
    assert(n * n == 0x1_0000_0000_0000_0000) by (nonlinear_arith)
        requires
            n == 0x1_0000_0000,
    ;
    lemma_cross_is_upright(i.w, i.u, n, n);
    let v = i.v;
    assert(-(2 * n) <= v.x <= 2 * n && -(2 * n) <= v.y <= 2 * n && -(2 * n) <= v.z <= 2 * n)
        by (nonlinear_arith)
        requires
            -(2 * (n * n)) <= v.x * n <= 2 * (n * n),
            -(2 * (n * n)) <= v.y * n <= 2 * (n * n),
            -(2 * (n * n)) <= v.z * n <= 2 * (n * n),
            n > 0,
    ;
    lemma_small_dot(v, i.w, 2 * n, 6);
    lemma_small_dot(v, i.u, 2 * n, 6);
    lemma_small_dot(i.u, i.w, n, 6147);
}

/// The squares of the three components of a cross product and the square
/// of the scalar product add up to the product of the two squared lengths.
pub proof fn lemma_squares_of_cross(a: V3, b: V3)
    ensures
        ({
            let px = a.y * b.z - a.z * b.y;
            let py = a.z * b.x - a.x * b.z;
            let pz = a.x * b.y - a.y * b.x;
            let d = a.x * b.x + a.y * b.y + a.z * b.z;
            px * px + py * py + pz * pz + d * d == v3_norm_sq(a) * v3_norm_sq(b)
        }),
{
    let xx = a.x * b.x;
    let xy = a.x * b.y;
    let xz = a.x * b.z;
    let yx = a.y * b.x;
    let yy = a.y * b.y;
    let yz = a.y * b.z;
    let zx = a.z * b.x;
    let zy = a.z * b.y;
    let zz = a.z * b.z;
    lemma_swap(a.y, b.z, a.z, b.y);
    lemma_swap(a.z, b.x, a.x, b.z);
    lemma_swap(a.x, b.y, a.y, b.x);
    assert((yz - zy) * (yz - zy) == yz * yz + zy * zy - 2 * (yz * zy)) by (nonlinear_arith);
    assert((zx - xz) * (zx - xz) == zx * zx + xz * xz - 2 * (zx * xz)) by (nonlinear_arith);
    assert((xy - yx) * (xy - yx) == xy * xy + yx * yx - 2 * (xy * yx)) by (nonlinear_arith);
    assert((xx + yy + zz) * (xx + yy + zz) == xx * xx + yy * yy + zz * zz + 2 * (yy * zz) + 2 * (zz
        * xx) + 2 * (xx * yy)) by (nonlinear_arith);
    let ax = a.x * a.x;
    let ay = a.y * a.y;
    let az = a.z * a.z;
    let bx = b.x * b.x;
    let by = b.y * b.y;
    let bz = b.z * b.z;
    lemma_square_of_pair(a.x, b.x);
    lemma_square_of_pair(a.x, b.y);
    lemma_square_of_pair(a.x, b.z);
    lemma_square_of_pair(a.y, b.x);
    lemma_square_of_pair(a.y, b.y);
    lemma_square_of_pair(a.y, b.z);
    lemma_square_of_pair(a.z, b.x);
    lemma_square_of_pair(a.z, b.y);
    lemma_square_of_pair(a.z, b.z);
    assert((ax + ay + az) * (bx + by + bz) == ax * bx + ax * by + ax * bz + ay * bx + ay * by + ay
        * bz + az * bx + az * by + az * bz) by (nonlinear_arith);
}

/// Two products of the same four factors.
proof fn lemma_swap(a: int, b: int, c: int, d: int)
    by (nonlinear_arith)
    ensures
        (a * b) * (c * d) == (a * d) * (c * b),
{
}

/// The square of a product is the product of the squares.
proof fn lemma_square_of_pair(a: int, b: int)
    by (nonlinear_arith)
    ensures
        (a * a) * (b * b) == (a * b) * (a * b),
{
}

/// The square of a rounded component, times the square of one: `c` is
/// the exact value `p` less what the rounding left, `e`, divided by one.
proof fn lemma_rounded_square(p: int, c: int, e: int)
    requires
        e == p - c * ONE_RAW,
        -2 * ONE_RAW < e < 2 * ONE_RAW,
        -(2 * ONE_RAW) <= c <= 2 * ONE_RAW,
    ensures
        ({
            let n = ONE_RAW as int;
            let gap = (n * n) * (c * c) - p * p;
            -(9 * (n * n * n)) <= gap <= 9 * (n * n * n)
        }),
{
    let n = ONE_RAW as int;
    let cn = c * n;
    assert(p * p == cn * cn + 2 * (cn * e) + e * e) by (nonlinear_arith)
        requires
            p == cn + e,
    ;
    assert(cn * cn == (n * n) * (c * c)) by (nonlinear_arith)
        requires
            cn == c * n,
    ;
    lemma_bounded_product(c, n, 2 * n, n);
    lemma_bounded_product(cn, e, (2 * n) * n, 2 * n);
    lemma_bounded_product(e, e, 2 * n, 2 * n);
    assert(((2 * n) * n) * (2 * n) == 4 * (n * n * n)) by (nonlinear_arith);
    assert((2 * n) * (2 * n) == 4 * (n * n)) by (nonlinear_arith);
    assert(4 * (n * n) <= n * n * n) by (nonlinear_arith)
        requires
            n == 0x1_0000_0000,
    ;
}

/// The vector up of the camera of a configuration without fault, whose
/// configured vector up lies within `coordinate_limit()`, is one long to
/// within 32 units of the last place.
pub proof fn lemma_up_is_unit(c: CameraV, world: Seq<Sphere>)
    requires
        config_error(c, world) is None,
        within_limit(c.vup),
    ensures
        ({
            let i = initialized(c);
            (ONE_RAW - 32) * (ONE_RAW - 32) <= v3_norm_sq(i.v) <= (ONE_RAW + 32) * (ONE_RAW + 32)
        }),
{
    let n = ONE_RAW as int;
    let i = initialized(c);
    let (w, u, v) = (i.w, i.u, i.v);
    lemma_right_angle(c, world);
    assert(n * n == 0x1_0000_0000_0000_0000) by (nonlinear_arith)
        requires
            n == 0x1_0000_0000,
    ;
    lemma_cross_component(w.y, u.z, w.z, u.y, n, n);
    lemma_cross_component(w.z, u.x, w.x, u.z, n, n);
    lemma_cross_component(w.x, u.y, w.y, u.x, n, n);
    assert(-(2 * n) <= v.x <= 2 * n && -(2 * n) <= v.y <= 2 * n && -(2 * n) <= v.z <= 2 * n)
        by (nonlinear_arith)
        requires
            -(2 * (n * n)) <= v.x * n <= 2 * (n * n),
            -(2 * (n * n)) <= v.y * n <= 2 * (n * n),
            -(2 * (n * n)) <= v.z * n <= 2 * (n * n),
            n > 0,
    ;
    let px = w.y * u.z - w.z * u.y;
    let py = w.z * u.x - w.x * u.z;
    let pz = w.x * u.y - w.y * u.x;
    let d = w.x * u.x + w.y * u.y + w.z * u.z;
    lemma_squares_of_cross(w, u);
    lemma_rounded_square(px, v.x, px - v.x * n);
    lemma_rounded_square(py, v.y, py - v.y * n);
    lemma_rounded_square(pz, v.z, pz - v.z * n);
    let n2 = n * n;
    let n3 = n * n * n;
    let v2 = v3_norm_sq(v);
    let w2 = v3_norm_sq(w);
    let u2 = v3_norm_sq(u);
    let part2 = px * px + py * py + pz * pz;
    assert(n2 * v2 == n2 * (v.x * v.x) + n2 * (v.y * v.y) + n2 * (v.z * v.z)) by (nonlinear_arith)
        requires
            v2 == v.x * v.x + v.y * v.y + v.z * v.z,
    ;
    assert(part2 - 27 * n3 <= n2 * v2 <= part2 + 27 * n3);
    // The product of the two squared lengths, and the square of the scalar product.
    let lo = (n - 4) * (n - 4);
    let hi = (n + 1) * (n + 1);
    assert(lo * lo <= w2 * u2 <= hi * hi) by (nonlinear_arith)
        requires
            lo <= w2 < hi,
            lo <= u2 < hi,
            lo >= 0,
    ;
    let dd = d * d;
    lemma_bounded_product(d, d, 6147 * n, 6147 * n);
    assert(0 <= dd) by (nonlinear_arith)
        requires
            dd == d * d,
    ;
    assert((6147 * n) * (6147 * n) <= n3) by (nonlinear_arith)
        requires
            n == 0x1_0000_0000,
            n3 == n * n * n,
    ;
    assert(part2 == w2 * u2 - dd);
    assert(n3 == 0x1_0000_0000_0000_0000_0000_0000) by (nonlinear_arith)
        requires
            n == 0x1_0000_0000,
            n3 == n * n * n,
    ;
    assert(lo == 0xffff_fff8_0000_0010 && hi == 0x1_0000_0002_0000_0001) by (nonlinear_arith)
        requires
            lo == (n - 4) * (n - 4),
            hi == (n + 1) * (n + 1),
            n == 0x1_0000_0000,
    ;
    let floor = (n - 32) * (n - 32);
    let roof = (n + 32) * (n + 32);
    assert(floor == 0xffff_ffc0_0000_0400 && roof == 0x1_0000_0040_0000_0400) by (nonlinear_arith)
        requires
            floor == (n - 32) * (n - 32),
            roof == (n + 32) * (n + 32),
            n == 0x1_0000_0000,
    ;
    assert(floor <= v2 <= roof) by (nonlinear_arith)
        requires
            lo * lo - n3 - 27 * n3 <= n2 * v2 <= hi * hi + 27 * n3,
            lo == 0xffff_fff8_0000_0010,
            hi == 0x1_0000_0002_0000_0001,
            floor == 0xffff_ffc0_0000_0400,
            roof == 0x1_0000_0040_0000_0400,
            n2 == 0x1_0000_0000_0000_0000,
            n3 == 0x1_0000_0000_0000_0000_0000_0000,
    {
        if v2 < floor {
            assert(n2 * v2 <= n2 * (floor - 1));
        }
        if v2 > roof {
            assert(n2 * v2 >= n2 * (roof + 1));
        }
    }
}

} // verus!
