//! Rays, surfaces and scenes.

use vstd::prelude::*;
use crate::fixed::{
    fx_add, fx_div, fx_max, fx_mul, fx_over, fx_sqrt, fx_sub, fx_times, lemma_fx_div_monotone,
    lemma_fx_mul_neg, lemma_fx_mul_one, lemma_fx_sqrt_monotone, lemma_fx_square_nonneg,
    lemma_trunc_div_monotone, Fixed, MAX_RAW, ONE_RAW,
};
use crate::material::{DefaultMaterial, Material, MaterialKind, MaterialModel};
use crate::vec::{
    gauge_divisor, gauge_factor, gauged, v3_add, v3_dot, v3_len_sq, v3_neg, v3_reach, v3_scale,
    v3_shrink, v3_sub, Vec3, VecTypes, V3,
};

verus! {

/// Mathematical model of a ray.
pub struct RayV {
    pub origin: V3,
    pub direction: V3,
}

impl RayV {
    /// Origin and direction are both tagged as coordinates.
    pub open spec fn wf(self) -> bool {
        self.origin.typ == VecTypes::Coordinates && self.direction.typ == VecTypes::Coordinates
    }
}

/// The point of the ray `r` at the parameter `t`: `origin + t * direction`.
pub open spec fn ray_at(r: RayV, t: int) -> V3 {
    v3_add(r.origin, v3_scale(r.direction, t))
}

/// A half-line: the points `origin + t * direction`.
#[derive(Debug, Clone, Copy)]
pub struct Ray {
    pub origin: Vec3,
    pub direction: Vec3,
}

impl View for Ray {
    type V = RayV;

    open spec fn view(&self) -> RayV {
        RayV { origin: self.origin@, direction: self.direction@ }
    }
}

impl Ray {
    /// The ray from `origin` along `direction`.
    pub fn new(origin: Vec3, direction: Vec3) -> (r: Self)
        ensures
            r == (Ray { origin, direction }),
    {
        Ray { origin, direction }
    }

    /// The point of the ray at the parameter `t`.
    pub fn at(&self, t: Fixed) -> (p: Vec3)
        ensures
            p@ == ray_at(self@, t@),
    {
        return self.origin.add(self.direction.mul(t));
    }
}

/// The default ray: from the origin of space, with no direction.
pub open spec fn default_ray() -> RayV {
    RayV {
        origin: V3 { typ: VecTypes::Coordinates, x: 0, y: 0, z: 0 },
        direction: V3 { typ: VecTypes::Coordinates, x: 0, y: 0, z: 0 },
    }
}

impl Default for Ray {
    fn default() -> (r: Ray)
        ensures
            r@ == default_ray(),
    {
        Ray { origin: Vec3::default(), direction: Vec3::default() }
    }
}

/// Mathematical model of a hit record.
pub struct HitV {
    pub point: V3,
    pub normal: V3,
    pub t: int,
    pub front_face: bool,
    pub mat: MaterialModel,
}

impl HitV {
    /// Point and normal are both tagged as coordinates.
    pub open spec fn wf(self) -> bool {
        self.point.typ == VecTypes::Coordinates && self.normal.typ == VecTypes::Coordinates
    }
}

/// What is known of an intersection: where it is, the unit normal turned
/// against the ray, the ray's parameter there, whether the ray came from
/// outside, and the material of the surface.
pub struct HitRecord {
    pub point: Vec3,
    pub normal: Vec3,
    pub t: Fixed,
    pub front_face: bool,
    pub mat: Box<MaterialKind>,
}

impl View for HitRecord {
    type V = HitV;

    open spec fn view(&self) -> HitV {
        HitV {
            point: self.point@,
            normal: self.normal@,
            t: self.t@,
            front_face: self.front_face,
            mat: self.mat.kind_model(),
        }
    }
}

impl Clone for HitRecord {
    fn clone(&self) -> (r: Self)
        ensures
            r@ == self@,
    {
        HitRecord {
            point: self.point,
            normal: self.normal,
            t: self.t,
            front_face: self.front_face,
            mat: self.mat.clone_box(),
        }
    }
}

/// The record that no surface has filled in.
pub open spec fn default_hit() -> HitV {
    HitV {
        point: V3 { typ: VecTypes::Coordinates, x: 0, y: 0, z: 0 },
        normal: V3 { typ: VecTypes::Coordinates, x: 0, y: 0, z: 0 },
        t: 0,
        front_face: false,
        mat: MaterialModel::Inert,
    }
}

impl Default for HitRecord {
    fn default() -> (r: HitRecord)
        ensures
            r@ == default_hit(),
    {
        HitRecord {
            point: Vec3::default(),
            normal: Vec3::default(),
            t: Fixed::zero(),
            front_face: false,
            mat: Box::new(MaterialKind::Default(DefaultMaterial {  })),
        }
    }
}

/// Whether a ray along `direction` meets a surface with the outward normal
/// `outward` from outside: whether their scalar product is negative.  The
/// direction is gauged first, so that a short or long direction is told as
/// well as one of length one.
pub open spec fn faces_front(direction: V3, outward: V3) -> bool {
    v3_dot(gauged(direction), outward) < 0
}

/// The normal turned against a ray along `direction`.
pub open spec fn facing_normal(direction: V3, outward: V3) -> V3 {
    if faces_front(direction, outward) {
        outward
    } else {
        v3_neg(outward)
    }
}

/// The stored normal never points along the ray: its scalar product with
/// the direction of the ray is not positive.
pub proof fn lemma_normal_opposes_ray(direction: V3, outward: V3)
    requires
        -MAX_RAW <= outward.x <= MAX_RAW,
        -MAX_RAW <= outward.y <= MAX_RAW,
        -MAX_RAW <= outward.z <= MAX_RAW,
    ensures
        v3_dot(gauged(direction), facing_normal(direction, outward)) <= 0,
        faces_front(direction, outward) ==> facing_normal(direction, outward) == outward,
{
    if !faces_front(direction, outward) {
        let w = gauged(direction);
        lemma_fx_mul_one(outward.x);
        lemma_fx_mul_one(outward.y);
        lemma_fx_mul_one(outward.z);
        lemma_fx_mul_neg(w.x, outward.x);
        lemma_fx_mul_neg(w.y, outward.y);
        lemma_fx_mul_neg(w.z, outward.z);
    }
}

impl HitRecord {
    /// Records on which side the ray `r` meets the surface, and stores the
    /// normal turned against the ray.  `outward_normal` has unit length.
    pub fn set_face_normal(&mut self, r: &Ray, outward_normal: Vec3)
        requires
            r.direction.typ == outward_normal.typ,
        ensures
            final(self).front_face == faces_front(r@.direction, outward_normal@),
            final(self).normal@ == facing_normal(r@.direction, outward_normal@),
            final(self).point == old(self).point,
            final(self).t == old(self).t,
            final(self).mat == old(self).mat,
    {
        self.front_face = r.direction.gauged().dot(&outward_normal).lt(&Fixed::zero());
        self.normal = if self.front_face {
            outward_normal
        } else {
            outward_normal.neg()
        };
    }
}

/// What a surface's intersection test found, cut down to the parameters below `bound`.
pub open spec fn cut_hit(found: Option<HitV>, bound: int) -> Option<HitV> {
    match found {
        Some(h) => if h.t < bound {
            Some(h)
        } else {
            None
        },
        None => None,
    }
}

/// How an intersection test that should find `found` leaves its result and
/// the record: on a hit the record is the hit, on a miss it is as before.
pub open spec fn hit_outcome(found: Option<HitV>, before: HitV, hit: bool, after: HitV) -> bool {
    match found {
        Some(h) => hit && after == h,
        None => !hit && after == before,
    }
}

/// A surface that can be tested for intersection with a ray, within an open
/// interval of the ray's parameter.
pub trait Hittable: Sync {
    /// The nearest intersection of the ray `r` with the surface at a
    /// parameter strictly between `r_min` and `r_max`, if there is one.
    spec fn hit_spec(&self, r: RayV, r_max: int, r_min: int) -> Option<HitV>;

    /// Whether the surface cannot be rendered.
    spec fn degenerate_spec(&self) -> bool;

    /// An intersection lies strictly inside the interval that was asked
    /// for, and a ray in space is hit at a point in space.
    proof fn lemma_hit_inside(&self, r: RayV, r_max: int, r_min: int)
        ensures
            self.hit_spec(r, r_max, r_min) matches Some(h) ==> r_min < h.t < r_max && (r.wf()
                ==> h.wf()),
    ;

    /// Lowering the upper bound only cuts intersections off: what is found
    /// below the lower bound is what was found before, if it still fits.
    proof fn lemma_hit_bound(&self, r: RayV, r_max: int, bound: int, r_min: int)
        requires
            bound <= r_max,
        ensures
            self.hit_spec(r, bound, r_min) == cut_hit(self.hit_spec(r, r_max, r_min), bound),
    ;

    /// Tests the ray `r` against the surface.  On a hit, returns `true` and
    /// fills `rec`; on a miss, returns `false` and leaves `rec` alone.
    fn hit(&self, r: &Ray, r_max: Fixed, r_min: Fixed, rec: &mut HitRecord) -> (h: bool)
        requires
            r@.wf(),
        ensures
            hit_outcome(self.hit_spec(r@, r_max@, r_min@), old(rec)@, h, final(rec)@),
            h ==> r_min@ < final(rec)@.t < r_max@,
            h ==> final(rec)@.wf(),
    ;

    /// Whether the surface cannot be rendered.
    fn degenerate(&self) -> (d: bool)
        ensures
            d == self.degenerate_spec(),
    ;
}

/// The parameter along a direction of reach `m` that meets the same point
/// as the parameter `s` along the gauged direction: `s * f / g`.
pub open spec fn gauge_back(s: int, m: int) -> int {
    fx_over(fx_times(s, gauge_factor(m)), gauge_divisor(m))
}

/// The two parameters at which the ray `r` meets the sphere, smaller first,
/// if the ray has a direction and the discriminant is not negative.  The
/// roots are found for the gauged direction `w` and then brought back to the
/// direction of the ray, so that they do not lose bits where the direction
/// is short or long.  With `oc = center - origin`, `a = |w|^2`, `h = w . oc`
/// and `c = |oc|^2 - radius^2` the roots along `w` are `(h -+ sqrt(h^2 - a c)) / a`.
pub open spec fn sphere_roots(center: V3, radius: int, r: RayV) -> Option<(int, int)> {
    let m = v3_reach(r.direction);
    match sphere_spans(center, radius, r) {
        Some((near, far)) => Some((gauge_back(near, m), gauge_back(far, m))),
        None => None,
    }
}

/// The reach up to which a sphere is met as it is: 2048.  A sphere that
/// is larger or farther away is shrunk towards the origin of the ray before
/// the roots are found, so that no square leaves the representable range.
pub open spec fn scene_reach() -> int {
    0x800_0000_0000
}

/// The whole divisor by which a sphere of reach `m` is shrunk.
pub open spec fn scene_divisor(m: int) -> int {
    if m >= scene_reach() {
        m / (scene_reach() / 2)
    } else {
        1
    }
}

/// The two parameters along the gauged direction at which the ray `r`
/// meets the sphere, smaller first.  With `k` for the divisor of the
/// scene, the way `oc` to the centre and the radius are divided by `k`, the
/// roots are found, and the roots are multiplied by `k`.
pub open spec fn sphere_spans(center: V3, radius: int, r: RayV) -> Option<(int, int)> {
    let m = v3_reach(r.direction);
    let w = gauged(r.direction);
    let way = v3_sub(center, r.origin);
    let k = scene_divisor(fx_max(v3_reach(way), radius));
    let oc = V3 { typ: way.typ, x: fx_over(way.x, k), y: fx_over(way.y, k), z: fx_over(way.z, k) };
    let rad = fx_over(radius, k);
    let a = v3_len_sq(w);
    let h = v3_dot(w, oc);
    let c = fx_sub(v3_len_sq(oc), fx_mul(rad, rad));
    let delta = fx_sub(fx_mul(h, h), fx_mul(a, c));
    if m == 0 || delta < 0 {
        None
    } else {
        let sq = fx_sqrt(delta);
        Some((fx_times(fx_div(fx_sub(h, sq), a), k), fx_times(fx_div(fx_add(h, sq), a), k)))
    }
}

/// The root of the discriminant from which `sphere_spans` makes its two
/// roots: half the length of the chord that the ray cuts from the sphere,
/// times the length of the gauged direction; zero where there is no chord.
pub open spec fn sphere_chord(center: V3, radius: int, r: RayV) -> int {
    let w = gauged(r.direction);
    let way = v3_sub(center, r.origin);
    let k = scene_divisor(fx_max(v3_reach(way), radius));
    let oc = V3 { typ: way.typ, x: fx_over(way.x, k), y: fx_over(way.y, k), z: fx_over(way.z, k) };
    let rad = fx_over(radius, k);
    let a = v3_len_sq(w);
    let h = v3_dot(w, oc);
    let c = fx_sub(v3_len_sq(oc), fx_mul(rad, rad));
    fx_sqrt(fx_sub(fx_mul(h, h), fx_mul(a, c)))
}

/// The smaller root if it lies strictly between `r_min` and `r_max`, else
/// the larger one if that does.
pub open spec fn pick_root(roots: Option<(int, int)>, r_max: int, r_min: int) -> Option<int> {
    match roots {
        Some((near, far)) => if r_min < near < r_max {
            Some(near)
        } else if r_min < far < r_max {
            Some(far)
        } else {
            None
        },
        None => None,
    }
}

/// The root along the gauged direction that `pick_root` picks: the smaller
/// one if its parameter along the ray lies strictly between `r_min` and
/// `r_max`, else the larger one if that does.
pub open spec fn pick_span(spans: Option<(int, int)>, m: int, r_max: int, r_min: int) -> Option<
    int,
> {
    match spans {
        Some((near, far)) => if r_min < gauge_back(near, m) < r_max {
            Some(near)
        } else if r_min < gauge_back(far, m) < r_max {
            Some(far)
        } else {
            None
        },
        None => None,
    }
}

/// The ray `r` with its direction gauged: the same half-line.
pub open spec fn gauged_ray(r: RayV) -> RayV {
    RayV { origin: r.origin, direction: gauged(r.direction) }
}

/// The record of the hit of the ray `r` on the sphere at the parameter `s`
/// along its gauged direction.  The point is taken along the gauged
/// direction, where the parameter keeps its bits; along a direction of
/// reach below one that is the point of the ray at the parameter `t`.  The
/// side of the hit is told by the gauged direction.
pub open spec fn sphere_record(
    center: V3,
    radius: int,
    mat: MaterialModel,
    r: RayV,
    s: int,
) -> HitV {
    let w = gauged_ray(r);
    let point = ray_at(w, s);
    let outward = v3_shrink(v3_sub(point, center), radius);
    HitV {
        point,
        normal: facing_normal(r.direction, outward),
        t: gauge_back(s, v3_reach(r.direction)),
        front_face: faces_front(r.direction, outward),
        mat,
    }
}

/// The intersection of the ray `r` with the sphere that `Sphere::hit` reports.
pub open spec fn sphere_hit(
    center: V3,
    radius: int,
    mat: MaterialModel,
    r: RayV,
    r_max: int,
    r_min: int,
) -> Option<HitV> {
    match pick_span(sphere_spans(center, radius, r), v3_reach(r.direction), r_max, r_min) {
        Some(s) => Some(sphere_record(center, radius, mat, r, s)),
        None => None,
    }
}

/// A squared length is not negative.
pub proof fn lemma_len_sq_nonneg(v: V3)
    ensures
        v3_len_sq(v) >= 0,
{
    lemma_fx_square_nonneg(v.x);
    lemma_fx_square_nonneg(v.y);
    lemma_fx_square_nonneg(v.z);
}

/// The factor and the divisor of a gauge are at least one.
pub proof fn lemma_gauge_positive(m: int)
    ensures
        gauge_factor(m) >= 1,
        gauge_divisor(m) >= 1,
{
    if 0 < m < ONE_RAW {
        vstd::arithmetic::div_mod::lemma_fundamental_div_mod(ONE_RAW as int, m);
        vstd::arithmetic::div_mod::lemma_mod_bound(ONE_RAW as int, m);
        vstd::arithmetic::div_mod::lemma_div_pos_is_pos(ONE_RAW as int, m);
        let f = ONE_RAW as int / m;
        assert(f >= 1) by (nonlinear_arith)
            requires
                ONE_RAW == m * f + (ONE_RAW as int) % m,
                0 <= (ONE_RAW as int) % m < m,
                m < ONE_RAW,
                f >= 0,
        ;
    }
}

/// Bringing a parameter back from the gauged direction keeps the order.
pub proof fn lemma_gauge_back_monotone(s1: int, s2: int, m: int)
    requires
        s1 <= s2,
    ensures
        gauge_back(s1, m) <= gauge_back(s2, m),
{
    lemma_gauge_positive(m);
    let f = gauge_factor(m);
    let g = gauge_divisor(m);
    assert(s1 * f <= s2 * f) by (nonlinear_arith)
        requires
            s1 <= s2,
            f >= 1,
    ;
    lemma_trunc_div_monotone(fx_times(s1, f), fx_times(s2, f), g);
}

/// The two roots of a sphere come in order.
pub proof fn lemma_roots_ordered(center: V3, radius: int, r: RayV)
    ensures
        sphere_roots(center, radius, r) matches Some((near, far)) ==> near <= far,
        sphere_spans(center, radius, r) matches Some((near, far)) ==> near <= far,
{
    let m = v3_reach(r.direction);
    let w = gauged(r.direction);
    let way = v3_sub(center, r.origin);
    let k = scene_divisor(fx_max(v3_reach(way), radius));
    let oc = V3 { typ: way.typ, x: fx_over(way.x, k), y: fx_over(way.y, k), z: fx_over(way.z, k) };
    let rad = fx_over(radius, k);
    let a = v3_len_sq(w);
    let h = v3_dot(w, oc);
    let c = fx_sub(v3_len_sq(oc), fx_mul(rad, rad));
    let delta = fx_sub(fx_mul(h, h), fx_mul(a, c));
    if m != 0 && delta >= 0 {
        let sq = fx_sqrt(delta);
        lemma_fx_sqrt_monotone(delta, delta);
        lemma_len_sq_nonneg(w);
        let s1 = fx_div(fx_sub(h, sq), a);
        let s2 = fx_div(fx_add(h, sq), a);
        lemma_fx_div_monotone(fx_sub(h, sq), fx_add(h, sq), a);
        lemma_scene_divisor_positive(fx_max(v3_reach(way), radius));
        assert(s1 * k <= s2 * k) by (nonlinear_arith)
            requires
                s1 <= s2,
                k >= 1,
        ;
        lemma_gauge_back_monotone(fx_times(s1, k), fx_times(s2, k), m);
    }
}

/// The divisor of a scene is at least one.
pub proof fn lemma_scene_divisor_positive(m: int)
    ensures
        scene_divisor(m) >= 1,
{
    if m >= scene_reach() {
        let half = 0x400_0000_0000int;
        assert(scene_reach() / 2 == half);
        vstd::arithmetic::div_mod::lemma_div_is_ordered(2 * half, m, half);
        vstd::arithmetic::div_mod::lemma_div_by_multiple(2, half);
    }
}

/// Of the parameters at which a ray meets a sphere, `Sphere::hit` reports
/// the smallest that lies strictly between `r_min` and `r_max`.
pub proof fn lemma_hit_is_smallest_root(
    center: V3,
    radius: int,
    mat: MaterialModel,
    r: RayV,
    r_max: int,
    r_min: int,
)
    ensures
        match sphere_hit(center, radius, mat, r, r_max, r_min) {
            Some(h) => {
                &&& sphere_roots(center, radius, r) matches Some((near, far))
                &&& r_min < h.t < r_max
                &&& h.t == near || h.t == far
                &&& r_min < near < r_max ==> h.t <= near
                &&& r_min < far < r_max ==> h.t <= far
            },
            None => sphere_roots(center, radius, r) matches Some((near, far)) ==> {
                &&& !(r_min < near < r_max)
                &&& !(r_min < far < r_max)
            },
        },
{
    lemma_roots_ordered(center, radius, r);
}

/// The normal of every hit on a sphere is turned against the ray.
pub proof fn lemma_hit_normal_opposes_ray(
    center: V3,
    radius: int,
    mat: MaterialModel,
    r: RayV,
    r_max: int,
    r_min: int,
)
    ensures
        sphere_hit(center, radius, mat, r, r_max, r_min) matches Some(h) ==> v3_dot(
            gauged(r.direction),
            h.normal,
        ) <= 0,
{
    let m = v3_reach(r.direction);
    if let Some(s) = pick_span(sphere_spans(center, radius, r), m, r_max, r_min) {
        let outward = v3_shrink(v3_sub(ray_at(gauged_ray(r), s), center), radius);
        lemma_normal_opposes_ray(r.direction, outward);
    }
}

/// A hit depends on the length of the direction only through its
/// parameter: two rays from one origin whose directions are gauged to the
/// same vector have the same roots along it, and a hit of either at such a
/// root has the same point, the same normal and the same side.
pub proof fn lemma_hit_by_gauged_direction(
    center: V3,
    radius: int,
    mat: MaterialModel,
    r: RayV,
    other: RayV,
    s: int,
)
    requires
        r.origin == other.origin,
        gauged(r.direction) == gauged(other.direction),
        v3_reach(r.direction) > 0,
        v3_reach(other.direction) > 0,
    ensures
        sphere_spans(center, radius, r) == sphere_spans(center, radius, other),
        ({
            let h = sphere_record(center, radius, mat, r, s);
            let g = sphere_record(center, radius, mat, other, s);
            &&& h.point == g.point
            &&& h.normal == g.normal
            &&& h.front_face == g.front_face
            &&& h.t == gauge_back(s, v3_reach(r.direction))
            &&& g.t == gauge_back(s, v3_reach(other.direction))
        }),
{
    assert(gauged_ray(r) == gauged_ray(other));
}

/// Along a direction of reach below one the hit point is the point of the
/// ray at the reported parameter, unless that parameter is clamped.
pub proof fn lemma_hit_point_on_ray(
    center: V3,
    radius: int,
    mat: MaterialModel,
    r: RayV,
    r_max: int,
    r_min: int,
)
    requires
        0 < v3_reach(r.direction) < ONE_RAW,
    ensures
        sphere_hit(center, radius, mat, r, r_max, r_min) matches Some(h) ==> (-MAX_RAW < h.t
            < MAX_RAW ==> h.point == ray_at(r, h.t)),
{
    let m = v3_reach(r.direction);
    if let Some(s) = pick_span(sphere_spans(center, radius, r), m, r_max, r_min) {
        lemma_gauge_positive(m);
        let f = gauge_factor(m);
        let t = gauge_back(s, m);
        if -MAX_RAW < t < MAX_RAW {
            lemma_gauged_short(r.direction);
            let d = r.direction;
            let w = gauged(d);
            let x = fx_times(s, f);
            assert(crate::fixed::trunc_div(x, 1) == x) by {
                vstd::arithmetic::div_mod::lemma_div_basics(x);
                vstd::arithmetic::div_mod::lemma_div_basics(-x);
            }
            assert(t == s * f);
            assert(fx_mul(w.x, s) == fx_mul(d.x, t) && fx_mul(w.y, s) == fx_mul(d.y, t) && fx_mul(
                w.z,
                s,
            ) == fx_mul(d.z, t)) by (nonlinear_arith)
                requires
                    w.x == d.x * f,
                    w.y == d.y * f,
                    w.z == d.z * f,
                    t == s * f,
            {
                assert((d.x * f) * s == d.x * (s * f));
                assert((d.y * f) * s == d.y * (s * f));
                assert((d.z * f) * s == d.z * (s * f));
            }
        }
    }
}

/// A gauged direction has a reach between one half and two.
pub proof fn lemma_gauged_reach(d: V3)
    requires
        0 < v3_reach(d) <= MAX_RAW,
    ensures
        ({
            let w = gauged(d);
            &&& -2 * ONE_RAW <= w.x <= 2 * ONE_RAW
            &&& -2 * ONE_RAW <= w.y <= 2 * ONE_RAW
            &&& -2 * ONE_RAW <= w.z <= 2 * ONE_RAW
            &&& 2 * v3_reach(w) >= ONE_RAW
            &&& w.typ == d.typ
        }),
{
    let m = v3_reach(d);
    let w = gauged(d);
    let s = ONE_RAW as int;
    if m < s {
        lemma_gauged_short(d);
        let f = gauge_factor(m);
        assert(-(m * f) <= d.x * f <= m * f && -(m * f) <= d.y * f <= m * f && -(m * f) <= d.z * f
            <= m * f && (d.x == m || d.x == -m ==> d.x * f == m * f || d.x * f == -(m * f)) && (d.y
            == m || d.y == -m ==> d.y * f == m * f || d.y * f == -(m * f)) && (d.z == m || d.z == -m
            ==> d.z * f == m * f || d.z * f == -(m * f)) && m * f >= m) by (nonlinear_arith)
            requires
                -m <= d.x <= m,
                -m <= d.y <= m,
                -m <= d.z <= m,
                f >= 1,
                m > 0,
        ;
    } else {
        let g = gauge_divisor(m);
        lemma_gauge_positive(m);
        assert(gauge_factor(m) == 1);
        vstd::arithmetic::div_mod::lemma_fundamental_div_mod(m, s);
        vstd::arithmetic::div_mod::lemma_mod_bound(m, s);
        assert(g * s <= m < 2 * (g * s)) by (nonlinear_arith)
            requires
                m == s * g + m % s,
                0 <= m % s < s,
                g >= 1,
                s > 0,
        ;
        let top = m / g;
        vstd::arithmetic::div_mod::lemma_div_is_ordered(g * s, m, g);
        vstd::arithmetic::div_mod::lemma_div_is_ordered(m, 2 * (g * s), g);
        vstd::arithmetic::div_mod::lemma_div_by_multiple(s, g);
        vstd::arithmetic::div_mod::lemma_div_by_multiple(2 * s, g);
        assert(s * g == g * s && (2 * s) * g == 2 * (g * s)) by (nonlinear_arith);
        assert(s <= top <= 2 * s);
        lemma_gauged_component(d.x, m, g);
        lemma_gauged_component(d.y, m, g);
        lemma_gauged_component(d.z, m, g);
    }
}

/// One component of a direction gauged by a divisor.
proof fn lemma_gauged_component(x: int, m: int, g: int)
    requires
        -m <= x <= m,
        0 < m <= MAX_RAW,
        g >= 1,
    ensures
        ({
            let w = fx_over(fx_times(x, 1), g);
            &&& -(m / g) <= w <= m / g
            &&& (x == m || x == -m) ==> (w == m / g || w == -(m / g))
        }),
{
    let a = if x >= 0 {
        x
    } else {
        -x
    };
    vstd::arithmetic::div_mod::lemma_div_is_ordered(a, m, g);
    vstd::arithmetic::div_mod::lemma_div_pos_is_pos(a, g);
    vstd::arithmetic::div_mod::lemma_div_pos_is_pos(m, g);
    crate::fixed::lemma_trunc_residue(m, g);
}

/// A direction of reach below one is gauged by its whole factor alone, exactly.
pub proof fn lemma_gauged_short(d: V3)
    requires
        0 < v3_reach(d) < ONE_RAW,
    ensures
        ({
            let f = gauge_factor(v3_reach(d));
            &&& f >= 1
            &&& gauge_divisor(v3_reach(d)) == 1
            &&& gauged(d) == crate::vec::v3_times(d, f)
            &&& v3_reach(d) * f <= ONE_RAW
            &&& v3_reach(d) * f + v3_reach(d) > ONE_RAW
        }),
{
    let m = v3_reach(d);
    let f = gauge_factor(m);
    lemma_gauge_positive(m);
    vstd::arithmetic::div_mod::lemma_fundamental_div_mod(ONE_RAW as int, m);
    vstd::arithmetic::div_mod::lemma_mod_bound(ONE_RAW as int, m);
    assert(m * f <= ONE_RAW && m * f + m > ONE_RAW) by (nonlinear_arith)
        requires
            ONE_RAW == m * f + (ONE_RAW as int) % m,
            0 <= (ONE_RAW as int) % m < m,
    ;
    assert(-ONE_RAW <= d.x * f <= ONE_RAW && -ONE_RAW <= d.y * f <= ONE_RAW && -ONE_RAW <= d.z * f
        <= ONE_RAW) by (nonlinear_arith)
        requires
            -m <= d.x <= m,
            -m <= d.y <= m,
            -m <= d.z <= m,
            m * f <= ONE_RAW,
            f >= 1,
    {
        assert(d.x * f <= m * f && -(m * f) <= d.x * f);
        assert(d.y * f <= m * f && -(m * f) <= d.y * f);
        assert(d.z * f <= m * f && -(m * f) <= d.z * f);
    }
}

/// A sphere with a material.
pub struct Sphere {
    center: Vec3,
    radius: Fixed,
    mat: Box<MaterialKind>,
}

impl Sphere {
    /// The centre.
    pub closed spec fn center_spec(&self) -> V3 {
        self.center@
    }

    /// The radius, which is not negative.
    pub closed spec fn radius_spec(&self) -> int {
        self.radius@
    }

    /// The material.
    pub closed spec fn mat_spec(&self) -> MaterialModel {
        self.mat.kind_model()
    }

    #[verifier::type_invariant]
    spec fn inv(self) -> bool {
        self.center.typ == VecTypes::Coordinates && self.radius@ >= 0
    }

    /// The sphere round the point `center` with the given radius and
    /// material.  A negative radius counts as zero.
    pub fn new(center: Vec3, radius: Fixed, mat: Box<MaterialKind>) -> (s: Self)
        requires
            center.typ == VecTypes::Coordinates,
        ensures
            s.center_spec() == center@,
            s.radius_spec() == fx_max(radius@, 0),
            s.mat_spec() == mat.kind_model(),
    {
        Sphere { center, radius: radius.max(&Fixed::zero()), mat }
    }

    /// The sphere behind a pointer.
    pub fn to_box(self) -> (b: Box<Self>)
        ensures
            *b == self,
    {
        Box::new(self)
    }
}

impl Hittable for Sphere {
    open spec fn hit_spec(&self, r: RayV, r_max: int, r_min: int) -> Option<HitV> {
        sphere_hit(self.center_spec(), self.radius_spec(), self.mat_spec(), r, r_max, r_min)
    }

    open spec fn degenerate_spec(&self) -> bool {
        self.radius_spec() == 0
    }

    proof fn lemma_hit_inside(&self, r: RayV, r_max: int, r_min: int) {
        assert(self.hit_spec(r, r_max, r_min) is Some ==> pick_root(
            sphere_roots(self.center_spec(), self.radius_spec(), r),
            r_max,
            r_min,
        ) is Some);
        if r.wf() {
            assert(gauged_ray(r).wf());
        }
    }

    proof fn lemma_hit_bound(&self, r: RayV, r_max: int, bound: int, r_min: int) {
        lemma_roots_ordered(self.center_spec(), self.radius_spec(), r);
        assert(self.hit_spec(r, bound, r_min) is Some ==> self.hit_spec(r, r_max, r_min) is Some);
    }

    fn hit(&self, r: &Ray, r_max: Fixed, r_min: Fixed, rec: &mut HitRecord) -> (h: bool) {
        proof {
            use_type_invariant(self);
        }
        if r.direction.reach() == 0 {
            assert(self.hit_spec(r@, r_max@, r_min@) is None);
            return false;
        }
        let (f, g) = r.direction.gauge();
        let w = r.direction.gauged();
        let way = self.center.sub(r.origin);
        let far: i64 = way.reach();
        let size: i64 = self.radius.raw();
        let span_of_scene: i64 = if far >= size {
            far
        } else {
            size
        };
        let k: i64 = if span_of_scene >= 0x800_0000_0000 {
            span_of_scene / 0x400_0000_0000
        } else {
            1
        };
        let oc = Vec3::new(way.typ, way.x.div_int(k), way.y.div_int(k), way.z.div_int(k));
        let rad = self.radius.div_int(k);
        let a = w.length_squared();
        let h = w.dot(&oc);
        let c = oc.length_squared().sub(&rad.mul(&rad));

        let delta = h.mul(&h).sub(&a.mul(&c));
        if delta.lt(&Fixed::zero()) {
            assert(self.hit_spec(r@, r_max@, r_min@) is None);
            return false;
        }
        let sq = delta.sqrt();

        let mut span = h.sub(&sq).div(&a).mul_int(k);
        let mut root = span.mul_int(f).div_int(g);
        if root.le(&r_min) || r_max.le(&root) {
            span = h.add(&sq).div(&a).mul_int(k);
            root = span.mul_int(f).div_int(g);
            if root.le(&r_min) || r_max.le(&root) {
                assert(self.hit_spec(r@, r_max@, r_min@) is None);
                return false;
            }
        }
        let along = Ray::new(r.origin, w);
        rec.t = root;
        rec.point = along.at(span);
        let outward_normal = rec.point.sub(self.center).div(self.radius);
        rec.set_face_normal(r, outward_normal);
        rec.mat = self.mat.clone_box();
        assert(self.hit_spec(r@, r_max@, r_min@) == Some(rec@));
        return true;
    }

    fn degenerate(&self) -> (d: bool) {
        let d = self.radius.is_zero();
        assert(d == self.degenerate_spec());
        d
    }
}

/// What scanning the surfaces `objs` in order finds: each surface is
/// tested below the parameter of the nearest hit so far, so a later surface
/// replaces an earlier hit only where it is strictly nearer.
pub open spec fn scan_hits(objs: Seq<Sphere>, r: RayV, r_max: int, r_min: int) -> Option<
    HitV,
>
    decreases objs.len(),
{
    if objs.len() == 0 {
        None
    } else {
        let before = scan_hits(objs.drop_last(), r, r_max, r_min);
        let closest = match before {
            Some(h) => h.t,
            None => r_max,
        };
        match objs.last().hit_spec(r, closest, r_min) {
            Some(h) => Some(h),
            None => before,
        }
    }
}

/// A scan finds only intersections strictly inside the interval.
pub proof fn lemma_scan_inside(objs: Seq<Sphere>, r: RayV, r_max: int, r_min: int)
    ensures
        scan_hits(objs, r, r_max, r_min) matches Some(h) ==> r_min < h.t < r_max && (r.wf()
            ==> h.wf()),
    decreases objs.len(),
{
    if objs.len() > 0 {
        lemma_scan_inside(objs.drop_last(), r, r_max, r_min);
        let before = scan_hits(objs.drop_last(), r, r_max, r_min);
        let closest = match before {
            Some(h) => h.t,
            None => r_max,
        };
        objs.last().lemma_hit_inside(r, closest, r_min);
    }
}

/// Lowering the upper bound of a scan only cuts its result off.
pub proof fn lemma_scan_bound(
    objs: Seq<Sphere>,
    r: RayV,
    r_max: int,
    bound: int,
    r_min: int,
)
    requires
        bound <= r_max,
    ensures
        scan_hits(objs, r, bound, r_min) == cut_hit(scan_hits(objs, r, r_max, r_min), bound),
    decreases objs.len(),
{
    if objs.len() > 0 {
        let init = objs.drop_last();
        lemma_scan_bound(init, r, r_max, bound, r_min);
        lemma_scan_inside(init, r, r_max, r_min);
        let before = scan_hits(init, r, r_max, r_min);
        let closest = match before {
            Some(h) => h.t,
            None => r_max,
        };
        objs.last().lemma_hit_inside(r, closest, r_min);
        match before {
            Some(p) => {
                if p.t >= bound {
                    objs.last().lemma_hit_bound(r, closest, bound, r_min);
                }
            },
            None => {
                objs.last().lemma_hit_bound(r, closest, bound, r_min);
            },
        }
    }
}

/// A scan finds an intersection that is at least as near as that of every
/// surface of the scene taken alone.
pub proof fn lemma_scan_nearest(
    objs: Seq<Sphere>,
    r: RayV,
    r_max: int,
    r_min: int,
    i: int,
)
    requires
        0 <= i < objs.len(),
    ensures
        objs[i].hit_spec(r, r_max, r_min) matches Some(h) ==> (scan_hits(objs, r, r_max, r_min)
            matches Some(best) && best.t <= h.t),
    decreases objs.len(),
{
    let init = objs.drop_last();
    let before = scan_hits(init, r, r_max, r_min);
    let closest = match before {
        Some(h) => h.t,
        None => r_max,
    };
    lemma_scan_inside(init, r, r_max, r_min);
    objs.last().lemma_hit_inside(r, closest, r_min);
    if i < objs.len() - 1 {
        lemma_scan_nearest(init, r, r_max, r_min, i);
        assert(init[i] == objs[i]);
    } else {
        objs.last().lemma_hit_bound(r, r_max, closest, r_min);
    }
}

/// What a scan finds is the intersection of one of the surfaces taken alone.
pub proof fn lemma_scan_is_member(objs: Seq<Sphere>, r: RayV, r_max: int, r_min: int)
    ensures
        scan_hits(objs, r, r_max, r_min) matches Some(best) ==> exists|i: int|
            0 <= i < objs.len() && #[trigger] objs[i].hit_spec(r, r_max, r_min) == Some(best),
    decreases objs.len(),
{
    if objs.len() > 0 {
        let init = objs.drop_last();
        let before = scan_hits(init, r, r_max, r_min);
        let closest = match before {
            Some(h) => h.t,
            None => r_max,
        };
        lemma_scan_inside(init, r, r_max, r_min);
        lemma_scan_is_member(init, r, r_max, r_min);
        objs.last().lemma_hit_inside(r, closest, r_min);
        objs.last().lemma_hit_bound(r, r_max, closest, r_min);
        match objs.last().hit_spec(r, closest, r_min) {
            Some(h) => {
                assert(objs[objs.len() - 1].hit_spec(r, r_max, r_min) == Some(h));
            },
            None => {
                if let Some(best) = before {
                    let i = choose|i: int|
                        0 <= i < init.len() && #[trigger] init[i].hit_spec(r, r_max, r_min) == Some(
                            best,
                        );
                    assert(init[i] == objs[i]);
                }
            },
        }
    }
}

/// The nearest intersection does not depend on the order of the surfaces:
/// two scenes that hold the same spheres both miss a ray or both hit it at
/// the same parameter.
pub proof fn lemma_scan_order_independent(
    a: Seq<Sphere>,
    b: Seq<Sphere>,
    r: RayV,
    r_max: int,
    r_min: int,
)
    requires
        forall|i: int| 0 <= i < a.len() ==> b.contains(#[trigger] a[i]),
        forall|i: int| 0 <= i < b.len() ==> a.contains(#[trigger] b[i]),
    ensures
        scan_hits(a, r, r_max, r_min) is Some <==> scan_hits(b, r, r_max, r_min) is Some,
        scan_hits(a, r, r_max, r_min) matches Some(x) ==> scan_hits(b, r, r_max, r_min).unwrap().t
            == x.t,
{
    lemma_scan_is_member(a, r, r_max, r_min);
    lemma_scan_is_member(b, r, r_max, r_min);
    if let Some(x) = scan_hits(a, r, r_max, r_min) {
        let i = choose|i: int|
            0 <= i < a.len() && #[trigger] a[i].hit_spec(r, r_max, r_min) == Some(x);
        assert(b.contains(a[i]));
        let k = choose|k: int| 0 <= k < b.len() && b[k] == a[i];
        lemma_scan_nearest(b, r, r_max, r_min, k);
    }
    if let Some(y) = scan_hits(b, r, r_max, r_min) {
        let i = choose|i: int|
            0 <= i < b.len() && #[trigger] b[i].hit_spec(r, r_max, r_min) == Some(y);
        assert(a.contains(b[i]));
        let k = choose|k: int| 0 <= k < a.len() && a[k] == b[i];
        lemma_scan_nearest(a, r, r_max, r_min, k);
    }
}

/// Whether one of the surfaces cannot be rendered.
pub open spec fn any_degenerate(objs: Seq<Sphere>) -> bool {
    exists|i: int| 0 <= i < objs.len() && #[trigger] objs[i].degenerate_spec()
}

/// A scene: spheres in the order in which they were added.
pub struct HittableList {
    objs: Vec<Sphere>,
}

impl View for HittableList {
    type V = Seq<Sphere>;

    closed spec fn view(&self) -> Seq<Sphere> {
        self.objs@
    }
}

impl HittableList {
    /// The empty scene.
    pub fn new() -> (l: Self)
        ensures
            l@ == Seq::<Sphere>::empty(),
    {
        HittableList { objs: Vec::new() }
    }

    /// Adds the sphere `h` behind the others.
    pub fn add(&mut self, h: Box<Sphere>)
        ensures
            final(self)@ == old(self)@.push(*h),
    {
        self.objs.push(*h);
    }

    /// The number of surfaces.
    pub fn len(&self) -> (n: usize)
        ensures
            n == self@.len(),
    {
        self.objs.len()
    }
}

impl Hittable for HittableList {
    open spec fn hit_spec(&self, r: RayV, r_max: int, r_min: int) -> Option<HitV> {
        scan_hits(self@, r, r_max, r_min)
    }

    open spec fn degenerate_spec(&self) -> bool {
        any_degenerate(self@)
    }

    proof fn lemma_hit_inside(&self, r: RayV, r_max: int, r_min: int) {
        lemma_scan_inside(self@, r, r_max, r_min);
        assert(self.hit_spec(r, r_max, r_min) == scan_hits(self@, r, r_max, r_min));
    }

    proof fn lemma_hit_bound(&self, r: RayV, r_max: int, bound: int, r_min: int) {
        lemma_scan_bound(self@, r, r_max, bound, r_min);
        assert(self.hit_spec(r, bound, r_min) == scan_hits(self@, r, bound, r_min));
    }

    fn hit(&self, r: &Ray, r_max: Fixed, r_min: Fixed, rec: &mut HitRecord) -> (h: bool) {
        let mut hit_any = false;
        let mut closest_so_far = r_max;
        let mut tmp_record = HitRecord::default();
        let n = self.objs.len();
        let mut i: usize = 0;
        while i < n
            invariant
                i <= n,
                n == self.objs.len(),
                r@.wf(),
                match scan_hits(self.objs@.take(i as int), r@, r_max@, r_min@) {
                    Some(x) => hit_any && rec@ == x && closest_so_far@ == x.t && rec@.wf(),
                    None => !hit_any && rec@ == old(rec)@ && closest_so_far@ == r_max@,
                },
            decreases n - i,
        {
            assert(self.objs@.take(i + 1).drop_last() == self.objs@.take(i as int));
            assert(self.objs@.take(i + 1).last() == self.objs@[i as int]);
            if self.objs[i].hit(r, closest_so_far, r_min, &mut tmp_record) {
                hit_any = true;
                closest_so_far = tmp_record.t;
                *rec = tmp_record.clone();
            }
            i = i + 1;
        }
        assert(self.objs@.take(n as int) == self.objs@);
        assert(self.hit_spec(r@, r_max@, r_min@) == scan_hits(self.objs@, r@, r_max@, r_min@));
        proof {
            lemma_scan_inside(self.objs@, r@, r_max@, r_min@);
        }
        return hit_any;
    }

    fn degenerate(&self) -> (d: bool) {
        let n = self.objs.len();
        let mut i: usize = 0;
        while i < n
            invariant
                i <= n,
                n == self.objs.len(),
                forall|j: int| 0 <= j < i ==> !(#[trigger] self.objs@[j]).degenerate_spec(),
            decreases n - i,
        {
            if self.objs[i].degenerate() {
                assert(self.degenerate_spec());
                return true;
            }
            i = i + 1;
        }
        assert(!self.degenerate_spec());
        false
    }
}

} // verus!
