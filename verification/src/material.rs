//! Materials: how a surface scatters an incoming ray.
//!
//! Scattering draws random numbers, so a material is specified by a
//! relation: [`is_scatter`] holds of every outcome that a call of
//! [`Material::reflect`] may have.  What a material does with a given draw is
//! a function, computed by its `scatter_with`.

use vstd::prelude::*;
use crate::color::Color;
use crate::fixed::{
    fx_add, fx_div, fx_max, fx_min, fx_mul, fx_powi, fx_sqrt, fx_sub, lemma_fx_mul_one,
    lemma_fx_mul_zero, lemma_fx_sqrt_monotone, lemma_fx_square_nonneg, lemma_isqrt_unique, Fixed,
    ONE_RAW,
};
use crate::ray::{HitRecord, HitV, Ray, RayV};
use crate::utils::randon_f64;
use crate::vec::{
    is_unit_draw, v3_add, v3_cos_incidence, v3_near_zero, v3_reflect, v3_refract, v3_scale,
    v3_unit, Vec3, VecTypes, V3,
};

verus! {

/// Mathematical model of a material: its kind and its parameters.
pub enum MaterialModel {
    /// Reports a scatter and leaves the outgoing ray and the attenuation as they were.
    Inert,
    /// Diffuse, with the colour it reflects.
    Lambertian { albedo: V3 },
    /// Reflective, with the colour it reflects and its fuzziness in `[0, 1]`.
    Metal { albedo: V3, fuzz: int },
    /// Refractive, with its refraction index relative to the surrounding medium.
    Dielectric { index: int },
}

/// The colour with all channels `1`.
pub open spec fn white() -> V3 {
    V3 { typ: VecTypes::Color, x: ONE_RAW as int, y: ONE_RAW as int, z: ONE_RAW as int }
}

/// The ray that a diffuse surface sends out for the random direction `s`:
/// from the hit point along the normal plus `s`, or along the bare normal
/// where that sum is near zero.
pub open spec fn lambertian_ray(rec: HitV, s: V3) -> RayV {
    let d = v3_add(rec.normal, s);
    RayV {
        origin: rec.point,
        direction: if v3_near_zero(d) {
            rec.normal
        } else {
            d
        },
    }
}

/// The ray that a metal of fuzziness `fuzz` sends out for the random
/// direction `s`: from the hit point along the mirror image of the unit
/// incoming direction plus `fuzz * s`.
pub open spec fn metal_ray(fuzz: int, r_in: RayV, rec: HitV, s: V3) -> RayV {
    RayV {
        origin: rec.point,
        direction: v3_add(v3_reflect(v3_unit(r_in.direction), rec.normal), v3_scale(s, fuzz)),
    }
}

/// Schlick's approximation of the reflectance at an angle with the cosine
/// `cos`, where `ratio` is the ratio of the refraction indices.
pub open spec fn schlick(ratio: int, cos: int) -> int {
    let r0 = fx_powi(fx_div(fx_sub(ONE_RAW as int, ratio), fx_add(ONE_RAW as int, ratio)), 2);
    fx_add(r0, fx_mul(fx_sub(ONE_RAW as int, r0), fx_powi(fx_sub(ONE_RAW as int, cos), 5)))
}

/// Ratio of the refraction indices at a hit: `1 / index` where the ray
/// enters the medium, `index` where it leaves.
pub open spec fn refraction_ratio(index: int, front_face: bool) -> int {
    if front_face {
        fx_div(ONE_RAW as int, index)
    } else {
        index
    }
}

/// Sine of the angle whose cosine is `cos`.
pub open spec fn sine_of(cos: int) -> int {
    fx_sqrt(fx_sub(ONE_RAW as int, fx_mul(cos, cos)))
}

/// Whether a dielectric reflects for the draw `u` from `[0, 1)`: on total
/// internal reflection, or where `u` is below the reflectance.
pub open spec fn dielectric_reflects(index: int, r_in: RayV, rec: HitV, u: int) -> bool {
    let ratio = refraction_ratio(index, rec.front_face);
    let cos = v3_cos_incidence(v3_unit(r_in.direction), rec.normal);
    fx_mul(ratio, sine_of(cos)) > ONE_RAW || schlick(ratio, cos) > u
}

/// The ray that a dielectric sends out for the draw `u` from `[0, 1)`.
pub open spec fn dielectric_ray(index: int, r_in: RayV, rec: HitV, u: int) -> RayV {
    let unit = v3_unit(r_in.direction);
    RayV {
        origin: rec.point,
        direction: if dielectric_reflects(index, r_in, rec, u) {
            v3_reflect(unit, rec.normal)
        } else {
            v3_refract(unit, rec.normal, refraction_ratio(index, rec.front_face))
        },
    }
}

/// The outcome `(scattered, ray1, att1)` is one that the material `m` may
/// give for the incoming ray `r_in` and the hit `rec`, where `ray0` and
/// `att0` are what the caller's outgoing ray and attenuation held before.
pub open spec fn is_scatter(
    m: MaterialModel,
    r_in: RayV,
    rec: HitV,
    ray0: RayV,
    att0: V3,
    scattered: bool,
    ray1: RayV,
    att1: V3,
) -> bool {
    match m {
        MaterialModel::Inert => scattered && ray1 == ray0 && att1 == att0,
        MaterialModel::Lambertian { albedo } => {
            &&& scattered
            &&& att1 == albedo
            &&& exists|s: V3| is_unit_draw(s) && #[trigger] lambertian_ray(rec, s) == ray1
        },
        MaterialModel::Metal { albedo, fuzz } => {
            &&& scattered
            &&& att1 == albedo
            &&& exists|s: V3| is_unit_draw(s) && #[trigger] metal_ray(fuzz, r_in, rec, s) == ray1
        },
        MaterialModel::Dielectric { index } => {
            &&& scattered
            &&& att1 == white()
            &&& exists|u: int|
                0 <= u < ONE_RAW && #[trigger] dielectric_ray(index, r_in, rec, u) == ray1
        },
    }
}

/// No material of this library absorbs a ray: every outcome is a scatter.
pub proof fn lemma_every_material_scatters(
    m: MaterialModel,
    r_in: RayV,
    rec: HitV,
    ray0: RayV,
    att0: V3,
    scattered: bool,
    ray1: RayV,
    att1: V3,
)
    requires
        is_scatter(m, r_in, rec, ray0, att0, scattered, ray1, att1),
    ensures
        scattered,
        m is Dielectric ==> att1 == white(),
{
}

/// The ray that a perfect mirror sends out: from the hit point along the
/// mirror image of the unit incoming direction.
pub open spec fn mirror_ray(r_in: RayV, rec: HitV) -> RayV {
    RayV { origin: rec.point, direction: v3_reflect(v3_unit(r_in.direction), rec.normal) }
}

/// A metal without fuzz is a perfect mirror: whatever random direction is
/// drawn, the ray that goes out is the mirror ray.
pub proof fn lemma_metal_without_fuzz(
    albedo: V3,
    r_in: RayV,
    rec: HitV,
    ray0: RayV,
    att0: V3,
    scattered: bool,
    ray1: RayV,
    att1: V3,
)
    requires
        is_scatter(
            MaterialModel::Metal { albedo, fuzz: 0 },
            r_in,
            rec,
            ray0,
            att0,
            scattered,
            ray1,
            att1,
        ),
    ensures
        scattered,
        att1 == albedo,
        ray1 == mirror_ray(r_in, rec),
{
    let s = choose|s: V3| is_unit_draw(s) && #[trigger] metal_ray(0, r_in, rec, s) == ray1;
    lemma_fx_mul_zero(s.x);
    lemma_fx_mul_zero(s.y);
    lemma_fx_mul_zero(s.z);
}

/// The reflectance of a medium whose refraction index is one: at the
/// cosine `cos` it is `(1 - cos)^5`, since the reflectance at normal
/// incidence is zero.
pub proof fn lemma_schlick_matched(cos: int)
    ensures
        schlick(ONE_RAW as int, cos) == fx_powi(fx_sub(ONE_RAW as int, cos), 5),
{
    let one = ONE_RAW as int;
    assert(fx_div(fx_sub(one, one), fx_add(one, one)) == 0);
    assert(fx_powi(0, 2) == 0) by {
        reveal_with_fuel(fx_powi, 3);
        lemma_fx_mul_zero(one);
        lemma_fx_mul_zero(0);
    }
    let p = fx_powi(fx_sub(one, cos), 5);
    lemma_fx_mul_one(p);
    assert(p == fx_mul(fx_powi(fx_sub(one, cos), 4), fx_sub(one, cos))) by {
        reveal_with_fuel(fx_powi, 2);
    }
}

/// Between media with the same refraction index there is no total internal
/// reflection, and the ray is reflected only where the draw lies below
/// `(1 - cos)^5`; a ray that arrives along the normal always goes through.
pub proof fn lemma_dielectric_matched(r_in: RayV, rec: HitV, u: int)
    requires
        0 <= u < ONE_RAW,
    ensures
        refraction_ratio(ONE_RAW as int, rec.front_face) == ONE_RAW,
        dielectric_reflects(ONE_RAW as int, r_in, rec, u) <==> fx_powi(
            fx_sub(ONE_RAW as int, v3_cos_incidence(v3_unit(r_in.direction), rec.normal)),
            5,
        ) > u,
        v3_cos_incidence(v3_unit(r_in.direction), rec.normal) == ONE_RAW ==> dielectric_ray(
            ONE_RAW as int,
            r_in,
            rec,
            u,
        ) == (RayV {
            origin: rec.point,
            direction: v3_refract(v3_unit(r_in.direction), rec.normal, ONE_RAW as int),
        }),
{
    let one = ONE_RAW as int;
    let cos = v3_cos_incidence(v3_unit(r_in.direction), rec.normal);
    assert(one * one == 0x1_0000_0000_0000_0000int) by (nonlinear_arith)
        requires
            one == 0x1_0000_0000int,
    ;
    assert(fx_div(one, one) == one) by {
        vstd::arithmetic::div_mod::lemma_div_by_multiple(one, one);
    }
    lemma_schlick_matched(cos);
    lemma_fx_square_nonneg(cos);
    let arg = fx_sub(one, fx_mul(cos, cos));
    lemma_fx_sqrt_monotone(arg, one);
    assert(fx_sqrt(one) == one) by {
        assert(crate::fixed::is_isqrt(one * one, one)) by (nonlinear_arith)
            requires
                one == 0x1_0000_0000int,
        ;
        lemma_isqrt_unique(one * one, one);
    }
    lemma_fx_mul_one(sine_of(cos));
    if cos == one {
        assert(fx_powi(0, 5) == 0) by {
            reveal_with_fuel(fx_powi, 2);
            lemma_fx_mul_zero(fx_powi(0, 4));
        }
    }
}

/// A scattering policy.
pub trait Material: Sync {
    /// What the material is.
    spec fn model(&self) -> MaterialModel;

    /// Scatters the ray `r_in` at the hit `rec`.  Returns whether a ray goes
    /// out; if so, `r_ref` is that ray and `attenuation` the colour it is
    /// weighted with.
    fn reflect(
        &self,
        r_in: &Ray,
        r_ref: &mut Ray,
        rec: &HitRecord,
        attenuation: &mut Color,
    ) -> (scattered: bool)
        requires
            r_in@.direction.typ == rec@.normal.typ,
        ensures
            is_scatter(
                self.model(),
                r_in@,
                rec@,
                old(r_ref)@,
                old(attenuation)@,
                scattered,
                final(r_ref)@,
                final(attenuation)@,
            ),
    ;

    /// A copy of the material, as one of the known kinds, behind a pointer.
    fn clone_box(&self) -> (b: Box<MaterialKind>)
        ensures
            b.kind_model() == self.model(),
    ;
}

/// One of the materials of this library: what a surface and a hit record hold.
pub enum MaterialKind {
    Default(DefaultMaterial),
    Lambertian(Lambertian),
    Metal(Metal),
    Dieletric(Dieletric),
}

impl MaterialKind {
    /// What the material is.
    pub open spec fn kind_model(&self) -> MaterialModel {
        match self {
            MaterialKind::Default(_) => MaterialModel::Inert,
            MaterialKind::Lambertian(m) => MaterialModel::Lambertian { albedo: m.albedo@ },
            MaterialKind::Metal(m) => MaterialModel::Metal {
                albedo: m.albedo_spec(),
                fuzz: m.fuzz_spec(),
            },
            MaterialKind::Dieletric(m) => MaterialModel::Dielectric { index: m.refraction_index@ },
        }
    }
}

impl Material for MaterialKind {
    open spec fn model(&self) -> MaterialModel {
        self.kind_model()
    }

    fn reflect(
        &self,
        r_in: &Ray,
        r_ref: &mut Ray,
        rec: &HitRecord,
        attenuation: &mut Color,
    ) -> (scattered: bool) {
        let scattered = match self {
            MaterialKind::Default(m) => m.reflect(r_in, r_ref, rec, attenuation),
            MaterialKind::Lambertian(m) => m.reflect(r_in, r_ref, rec, attenuation),
            MaterialKind::Metal(m) => m.reflect(r_in, r_ref, rec, attenuation),
            MaterialKind::Dieletric(m) => m.reflect(r_in, r_ref, rec, attenuation),
        };
        assert(self.model() == self.kind_model());
        scattered
    }

    fn clone_box(&self) -> (b: Box<MaterialKind>) {
        let b = match self {
            MaterialKind::Default(m) => m.clone_box(),
            MaterialKind::Lambertian(m) => m.clone_box(),
            MaterialKind::Metal(m) => m.clone_box(),
            MaterialKind::Dieletric(m) => m.clone_box(),
        };
        assert(b.kind_model() == self.model());
        b
    }
}

/// The material of a hit record that no surface has filled in.
pub struct DefaultMaterial {}

impl Material for DefaultMaterial {
    open spec fn model(&self) -> MaterialModel {
        MaterialModel::Inert
    }

    fn reflect(
        &self,
        r_in: &Ray,
        r_ref: &mut Ray,
        rec: &HitRecord,
        attenuation: &mut Color,
    ) -> (scattered: bool) {
        assert(self.model() == MaterialModel::Inert);
        true
    }

    fn clone_box(&self) -> (b: Box<MaterialKind>) {
        let b = Box::new(MaterialKind::Default(Self {  }));
        assert(b.kind_model() == self.model());
        b
    }
}

/// A diffuse material.
pub struct Lambertian {
    pub albedo: Color,
}

impl Lambertian {
    /// The diffuse material that reflects the colour `albedo`.
    pub fn new(albedo: Color) -> (m: Self)
        ensures
            m.albedo == albedo,
    {
        Self { albedo }
    }

    /// The outgoing ray for the random direction `sample`.
    pub fn scatter_with(&self, rec: &HitRecord, sample: Vec3) -> (r: Ray)
        ensures
            r@ == lambertian_ray(rec@, sample@),
    {
        let mut ref_dir = rec.normal.add(sample);
        if ref_dir.near_zero() {
            ref_dir = rec.normal;
        }
        Ray::new(rec.point, ref_dir)
    }
}

impl Material for Lambertian {
    open spec fn model(&self) -> MaterialModel {
        MaterialModel::Lambertian { albedo: self.albedo@ }
    }

    fn clone_box(&self) -> (b: Box<MaterialKind>) {
        let b = Box::new(MaterialKind::Lambertian(Self { albedo: self.albedo }));
        assert(b.kind_model() == self.model());
        b
    }

    fn reflect(
        &self,
        r_in: &Ray,
        r_ref: &mut Ray,
        rec: &HitRecord,
        attenuation: &mut Color,
    ) -> (scattered: bool) {
        let sample = Vec3::random_unit_vec();
        *r_ref = self.scatter_with(rec, sample);
        *attenuation = self.albedo;
        assert(lambertian_ray(rec@, sample@) == r_ref@);
        assert(self.model() == MaterialModel::Lambertian { albedo: attenuation@ });
        true
    }
}

/// A reflective material.
pub struct Metal {
    albedo: Color,
    fuzz: Fixed,
}

/// `fuzz` clamped into `[0, 1]`.
pub open spec fn clamp_fuzz(fuzz: int) -> int {
    fx_max(0, fx_min(fuzz, ONE_RAW as int))
}

impl Metal {
    /// The colour that the metal reflects.
    pub closed spec fn albedo_spec(&self) -> V3 {
        self.albedo@
    }

    /// The fuzziness, in `[0, 1]`: `0` is a perfect mirror.
    pub closed spec fn fuzz_spec(&self) -> int {
        self.fuzz@
    }

    #[verifier::type_invariant]
    spec fn inv(self) -> bool {
        0 <= self.fuzz@ <= ONE_RAW
    }

    /// The metal that reflects the colour `albedo`, with `fuzz` clamped into `[0, 1]`.
    pub fn new(albedo: Color, fuzz: Fixed) -> (m: Self)
        ensures
            m.albedo_spec() == albedo@,
            m.fuzz_spec() == clamp_fuzz(fuzz@),
    {
        let f = fuzz.min(&Fixed::one()).max(&Fixed::zero());
        Self { albedo, fuzz: f }
    }

    /// The fuzziness.
    pub fn fuzz(&self) -> (f: Fixed)
        ensures
            f@ == self.fuzz_spec(),
            0 <= f@ <= ONE_RAW,
    {
        proof {
            use_type_invariant(self);
        }
        self.fuzz
    }

    /// The outgoing ray for the random direction `sample`.
    pub fn scatter_with(&self, r_in: &Ray, rec: &HitRecord, sample: Vec3) -> (r: Ray)
        requires
            r_in@.direction.typ == rec@.normal.typ,
        ensures
            r@ == metal_ray(self.fuzz_spec(), r_in@, rec@, sample@),
    {
        let mirrored = r_in.direction.unit_vec().reflected_vec(&rec.normal);
        Ray::new(rec.point, mirrored.add(sample.mul(self.fuzz)))
    }
}

impl Material for Metal {
    open spec fn model(&self) -> MaterialModel {
        MaterialModel::Metal { albedo: self.albedo_spec(), fuzz: self.fuzz_spec() }
    }

    fn clone_box(&self) -> (b: Box<MaterialKind>) {
        proof {
            use_type_invariant(self);
        }
        let b = Box::new(MaterialKind::Metal(Self { albedo: self.albedo, fuzz: self.fuzz }));
        assert(b.kind_model() == self.model());
        b
    }

    fn reflect(
        &self,
        r_in: &Ray,
        r_ref: &mut Ray,
        rec: &HitRecord,
        attenuation: &mut Color,
    ) -> (scattered: bool) {
        let sample = Vec3::random_unit_vec();
        *r_ref = self.scatter_with(r_in, rec, sample);
        *attenuation = self.albedo;
        assert(metal_ray(self.fuzz@, r_in@, rec@, sample@) == r_ref@);
        assert(self.model() == MaterialModel::Metal { albedo: attenuation@, fuzz: self.fuzz@ });
        true
    }
}

/// A refractive material.
pub struct Dieletric {
    pub refraction_index: Fixed,
}

impl Dieletric {
    /// The dielectric with the given refraction index relative to the surrounding medium.
    pub fn new(refraction_index: Fixed) -> (m: Self)
        ensures
            m.refraction_index == refraction_index,
    {
        Self { refraction_index }
    }

    /// Schlick's approximation of the reflectance at an angle with the
    /// cosine `cos`, for the ratio `ratio` of the refraction indices.
    pub fn reflectance_at(ratio: Fixed, cos: Fixed) -> (r: Fixed)
        ensures
            r@ == schlick(ratio@, cos@),
    {
        let one = Fixed::one();
        let r0 = one.sub(&ratio).div(&one.add(&ratio)).powi(2);
        r0.add(&one.sub(&r0).mul(&one.sub(&cos).powi(5)))
    }

    /// Schlick's approximation of the reflectance at an angle with the
    /// cosine `cos`, for a ray that leaves the medium, where the ratio of
    /// the refraction indices is the index itself.
    pub fn reflectance(&self, cos: Fixed) -> (r: Fixed)
        ensures
            r@ == schlick(self.refraction_index@, cos@),
    {
        Self::reflectance_at(self.refraction_index, cos)
    }

    /// The outgoing ray for the draw `draw` from `[0, 1)`.
    pub fn scatter_with(&self, r_in: &Ray, rec: &HitRecord, draw: Fixed) -> (r: Ray)
        requires
            r_in@.direction.typ == rec@.normal.typ,
        ensures
            r@ == dielectric_ray(self.refraction_index@, r_in@, rec@, draw@),
    {
        let one = Fixed::one();
        let ri = if rec.front_face {
            one.div(&self.refraction_index)
        } else {
            self.refraction_index
        };
        let dir_unit = r_in.direction.unit_vec();
        let cos_theta = dir_unit.neg().dot(&rec.normal).min(&one);
        let sin_theta = one.sub(&cos_theta.mul(&cos_theta)).sqrt();
        let dir_ref = if ri.mul(&sin_theta).gt(&one) || Self::reflectance_at(ri, cos_theta).gt(
            &draw,
        ) {
            dir_unit.reflected_vec(&rec.normal)
        } else {
            dir_unit.refract(&rec.normal, ri)
        };
        Ray::new(rec.point, dir_ref)
    }
}

impl Material for Dieletric {
    open spec fn model(&self) -> MaterialModel {
        MaterialModel::Dielectric { index: self.refraction_index@ }
    }

    fn clone_box(&self) -> (b: Box<MaterialKind>) {
        let b = Box::new(MaterialKind::Dieletric(Self { refraction_index: self.refraction_index }));
        assert(b.kind_model() == self.model());
        b
    }

    fn reflect(
        &self,
        r_in: &Ray,
        r_ref: &mut Ray,
        rec: &HitRecord,
        attenuation: &mut Color,
    ) -> (scattered: bool) {
        *attenuation = Color::new(Fixed::one(), Fixed::one(), Fixed::one());
        let draw = randon_f64();
        *r_ref = self.scatter_with(r_in, rec, draw);
        assert(dielectric_ray(self.refraction_index@, r_in@, rec@, draw@) == r_ref@);
        assert(self.model() == MaterialModel::Dielectric { index: self.refraction_index@ });
        true
    }
}

} // verus!
