//! The camera: view geometry, primary rays, the recursive integrator and the image.

use vstd::prelude::*;
use crate::color::{as_color, black, encode_rgb, Color, Rgb};
use crate::fixed::{
    fx_add, fx_div, fx_int, fx_mul, fx_ratio, fx_sub, lemma_fx_mul_fraction, lemma_fx_mul_one,
    lemma_fx_mul_sign, lemma_isqrt_unique, lemma_trunc_div_monotone, Fixed, MAX_RAW, ONE_RAW,
};
use crate::material::{is_scatter, white, Material};
use crate::ray::{
    any_degenerate, default_ray, scan_hits, HitRecord, HitV, Hittable, HittableList, Ray, RayV,
    Sphere,
};
use crate::trig::{fx_tan, tan};
use crate::utils::{degrees_to_radians, is_square_draw, radians_of, sample_square};
use crate::vec::{
    lemma_unit_length, v3_add, v3_cross, v3_hadamard, v3_len, v3_neg, v3_norm_sq, v3_reach,
    v3_scale, v3_shrink, v3_sub, v3_times, v3_unit, Vec3, VecTypes, V3,
};

verus! {

/// Why a camera and a scene cannot be rendered.
#[derive(Debug, Clone, Copy, PartialEq, Eq, Structural)]
pub enum ConfigError {
    /// The aspect ratio is not positive.
    AspectRatio,
    /// The image is zero pixels wide.
    ImageWidth,
    /// No sample is taken per pixel.
    Samples,
    /// The vertical field of view is not strictly between 0 and 180 degrees.
    FieldOfView,
    /// The eye, the target or the up hint is not tagged as coordinates.
    VectorTag,
    /// The eye is nearer to the target than `focal_floor()`.
    ViewDirection,
    /// The up hint is too short, or too near to the line from the target to
    /// the eye, to fix the horizontal direction.
    UpDirection,
    /// A surface of the scene has the radius zero.
    Surface,
}

/// Mathematical model of a camera: its configuration and the state derived from it.
pub struct CameraV {
    pub aspect_ratio: int,
    pub image_wid: int,
    pub image_name: Seq<char>,
    pub samples_per_pixel: int,
    pub max_deep_ray: int,
    pub vfov: int,
    pub lookfrom: V3,
    pub lookat: V3,
    pub vup: V3,
    pub image_hei: int,
    pub center: V3,
    pub pixel00_loc: V3,
    pub delta_x: V3,
    pub delta_y: V3,
    pub pixel_samples_scale: int,
    pub u: V3,
    pub v: V3,
    pub w: V3,
}

/// The lower bound of the parameter at which a ray may hit: `0.001`.
pub open spec fn t_min() -> int {
    fx_ratio(1, 1000)
}

/// The colour of the sky at the top of the gradient.
pub open spec fn sky_blue() -> V3 {
    V3 { typ: VecTypes::Color, x: fx_ratio(1, 2), y: fx_ratio(7, 10), z: ONE_RAW as int }
}

/// The background seen along `direction`: with `a = 0.5 * (y + 1)` for the
/// height `y` of the unit direction, the blend `(1 - a) * white + a * sky_blue`.
pub open spec fn background(direction: V3) -> V3 {
    let a = fx_mul(fx_ratio(1, 2), fx_add(v3_unit(direction).y, ONE_RAW as int));
    as_color(
        v3_add(
            as_color(v3_scale(white(), fx_sub(ONE_RAW as int, a))),
            as_color(v3_scale(sky_blue(), a)),
        ),
    )
}

/// The colour of one bounce: at the hit `h` of the ray `r` the material
/// gives the outcome `(scattered, out, att)`; the path is black if no ray
/// goes out, else its colour `c` is `att` times the colour `rest` of the ray `out`.
pub open spec fn is_bounce(
    r: RayV,
    h: HitV,
    scattered: bool,
    out: RayV,
    att: V3,
    rest: V3,
    c: V3,
) -> bool {
    &&& is_scatter(h.mat, r, h, default_ray(), black(), scattered, out, att)
    &&& c == if scattered {
        as_color(v3_hadamard(att, rest))
    } else {
        black()
    }
}

/// `c` is a colour that tracing the ray `r` through the scene `world` with
/// `depth` bounces left may give: black with no bounce left, the background
/// where the ray leaves the scene, else the colour of a bounce at the
/// nearest hit, where the ray that goes out is traced with one bounce less.
pub open spec fn is_ray_color(world: Seq<Sphere>, r: RayV, depth: nat, c: V3) -> bool
    decreases depth,
{
    if depth == 0 {
        c == black()
    } else {
        match scan_hits(world, r, MAX_RAW as int, t_min()) {
            Some(h) => exists|scattered: bool, out: RayV, att: V3, rest: V3|
                {
                    &&& #[trigger] is_bounce(r, h, scattered, out, att, rest, c)
                    &&& scattered ==> is_ray_color(world, out, (depth - 1) as nat, rest)
                },
            None => c == background(r.direction),
        }
    }
}

/// A ray that hits nothing has the colour of the background along its
/// direction, whatever the scenes hold that it misses.
pub proof fn lemma_miss_is_background(
    world1: Seq<Sphere>,
    world2: Seq<Sphere>,
    r: RayV,
    depth1: nat,
    depth2: nat,
    c1: V3,
    c2: V3,
)
    requires
        depth1 > 0,
        depth2 > 0,
        scan_hits(world1, r, MAX_RAW as int, t_min()) is None,
        scan_hits(world2, r, MAX_RAW as int, t_min()) is None,
        is_ray_color(world1, r, depth1, c1),
        is_ray_color(world2, r, depth2, c2),
    ensures
        c1 == background(r.direction),
        c2 == c1,
{
}

/// With no bounce left every ray is black, in every scene.
pub proof fn lemma_depth_zero_is_black(world: Seq<Sphere>, r: RayV, c: V3)
    requires
        is_ray_color(world, r, 0, c),
    ensures
        c == black(),
{
}

/// A scattered ray lies in space if the incoming ray and the hit do.
pub proof fn lemma_scatter_wf(
    m: crate::material::MaterialModel,
    r_in: RayV,
    rec: HitV,
    ray0: RayV,
    att0: V3,
    scattered: bool,
    ray1: RayV,
    att1: V3,
)
    requires
        is_scatter(m, r_in, rec, ray0, att0, scattered, ray1, att1),
        r_in.wf(),
        rec.wf(),
        ray0.wf(),
    ensures
        ray1.wf(),
{
}

/// The height of an image of the width `wid` and the aspect ratio
/// `aspect`: the width over the ratio, rounded down, and at most the
/// largest 32-bit number.
pub open spec fn image_height_of(wid: int, aspect: int) -> int {
    if aspect > 0 {
        let h = (wid * ONE_RAW) / aspect;
        if h > 0xffff_ffff {
            0xffff_ffff
        } else {
            h
        }
    } else {
        0
    }
}

/// The camera `c` with its derived state computed from its configuration.
pub open spec fn initialized(c: CameraV) -> CameraV {
    let image_hei = image_height_of(c.image_wid, c.aspect_ratio);
    let focal = v3_len(v3_sub(c.lookfrom, c.lookat));
    let theta = radians_of(c.vfov);
    let h = fx_tan(fx_div(theta, fx_int(2)));
    let view_hei = fx_mul(fx_mul(fx_int(2), h), focal);
    let view_wid = fx_mul(view_hei, fx_div(fx_int(c.image_wid), fx_int(image_hei)));
    let w = v3_unit(v3_sub(c.lookfrom, c.lookat));
    let u = v3_unit(v3_cross(c.vup, w));
    let v = v3_cross(w, u);
    let view_x = v3_scale(u, view_wid);
    let view_y = v3_scale(v3_neg(v), view_hei);
    let delta_x = v3_shrink(view_x, fx_int(c.image_wid));
    let delta_y = v3_shrink(view_y, fx_int(image_hei));
    let upper_left = v3_sub(
        v3_sub(v3_sub(c.lookfrom, v3_scale(w, focal)), v3_shrink(view_x, fx_int(2))),
        v3_shrink(view_y, fx_int(2)),
    );
    CameraV {
        aspect_ratio: c.aspect_ratio,
        image_wid: c.image_wid,
        image_name: c.image_name,
        samples_per_pixel: c.samples_per_pixel,
        max_deep_ray: c.max_deep_ray,
        vfov: c.vfov,
        lookfrom: c.lookfrom,
        lookat: c.lookat,
        vup: c.vup,
        image_hei,
        center: c.lookfrom,
        pixel00_loc: v3_add(upper_left, v3_scale(v3_add(delta_y, delta_x), fx_ratio(1, 2))),
        delta_x,
        delta_y,
        pixel_samples_scale: fx_div(ONE_RAW as int, fx_int(c.samples_per_pixel)),
        u,
        v,
        w,
    }
}

/// The background is a colour with every channel between zero and one,
/// whatever the direction.
pub proof fn lemma_background_in_range(direction: V3)
    ensures
        ({
            let b = background(direction);
            &&& b.typ == VecTypes::Color
            &&& 0 <= b.x <= ONE_RAW
            &&& 0 <= b.y <= ONE_RAW
            &&& b.z == ONE_RAW
        }),
{
    let s = ONE_RAW as int;
    let u = v3_unit(direction);
    if v3_reach(direction) > 0 {
        lemma_unit_length(direction);
    } else {
        lemma_isqrt_unique(0, 0);
        assert(v3_norm_sq(v3_times(direction, 1)) == 0) by (nonlinear_arith)
            requires
                direction.x == 0,
                direction.y == 0,
                direction.z == 0,
        ;
    }
    assert(-s <= u.y <= s);
    let lift = fx_add(u.y, s);
    let half = fx_ratio(1, 2);
    assert(half == s / 2) by {
        assert(1 * ONE_RAW == s);
    }
    let a = fx_mul(half, lift);
    lemma_fx_mul_fraction(lift, half);
    assert(fx_mul(lift, half) == a) by {
        assert(lift * half == half * lift) by (nonlinear_arith);
    }
    assert(0 <= a <= s) by {
        // `lift` is at most two, and half of it at most one.
        assert(lift * half <= (2 * s) * half) by (nonlinear_arith)
            requires
                0 <= lift <= 2 * s,
                half >= 0,
        ;
        assert((2 * s) * half == s * s) by (nonlinear_arith)
            requires
                half * 2 == s,
        ;
        vstd::arithmetic::div_mod::lemma_div_by_multiple(s, s);
        lemma_trunc_div_monotone(lift * half, s * s, s);
        lemma_fx_mul_sign(half, lift);
    }
    let rest = fx_sub(s, a);
    lemma_fx_mul_one(rest);
    lemma_fx_mul_fraction(a, fx_ratio(1, 2));
    lemma_fx_mul_fraction(a, fx_ratio(7, 10));
    lemma_fx_mul_one(a);
    assert(0 <= fx_ratio(7, 10) <= s) by {
        assert(7 * ONE_RAW == 30064771072);
        vstd::arithmetic::div_mod::lemma_div_is_ordered(30064771072, 10 * s, 10);
        vstd::arithmetic::div_mod::lemma_div_by_multiple(s, 10);
        vstd::arithmetic::div_mod::lemma_div_pos_is_pos(30064771072, 10);
        assert(10 * s == s * 10);
    }
    assert(fx_mul(fx_ratio(1, 2), a) == fx_mul(a, fx_ratio(1, 2))) by {
        assert(fx_ratio(1, 2) * a == a * fx_ratio(1, 2)) by (nonlinear_arith);
    }
    assert(fx_mul(fx_ratio(7, 10), a) == fx_mul(a, fx_ratio(7, 10))) by {
        assert(fx_ratio(7, 10) * a == a * fx_ratio(7, 10)) by (nonlinear_arith);
    }
}

/// A material reflects no more light than falls on it: every channel of
/// its colour lies between zero and one.
pub open spec fn material_in_range(m: crate::material::MaterialModel) -> bool {
    match m {
        crate::material::MaterialModel::Lambertian { albedo } => channels_in_range(albedo),
        crate::material::MaterialModel::Metal { albedo, fuzz } => channels_in_range(albedo),
        _ => true,
    }
}

/// Every channel of `c` lies between zero and one.
pub open spec fn channels_in_range(c: V3) -> bool {
    &&& 0 <= c.x <= ONE_RAW
    &&& 0 <= c.y <= ONE_RAW
    &&& 0 <= c.z <= ONE_RAW
}

/// Every sphere of the scene has a material in range.
pub open spec fn scene_in_range(world: Seq<Sphere>) -> bool {
    forall|i: int| 0 <= i < world.len() ==> material_in_range(#[trigger] world[i].mat_spec())
}

/// The product of two channels between zero and one lies between zero and one.
proof fn lemma_channel_product(a: int, b: int)
    requires
        0 <= a <= ONE_RAW,
        0 <= b <= ONE_RAW,
    ensures
        0 <= fx_mul(a, b) <= ONE_RAW,
{
    lemma_fx_mul_fraction(a, b);
}

/// In a scene whose materials are in range, every colour that tracing a
/// ray may give has its channels between zero and one.
pub proof fn lemma_ray_color_in_range(world: Seq<Sphere>, r: RayV, depth: nat, c: V3)
    requires
        scene_in_range(world),
        is_ray_color(world, r, depth, c),
    ensures
        channels_in_range(c),
    decreases depth,
{
    if depth == 0 {
    } else {
        match scan_hits(world, r, MAX_RAW as int, t_min()) {
            None => {
                lemma_background_in_range(r.direction);
            },
            Some(h) => {
                crate::ray::lemma_scan_is_member(world, r, MAX_RAW as int, t_min());
                let i = choose|i: int|
                    0 <= i < world.len() && #[trigger] world[i].hit_spec(
                        r,
                        MAX_RAW as int,
                        t_min(),
                    ) == Some(h);
                assert(h.mat == world[i].mat_spec());
                assert(material_in_range(h.mat));
                let (scattered, out, att, rest) = choose|
                    scattered: bool,
                    out: RayV,
                    att: V3,
                    rest: V3,
                |
                    {
                        &&& #[trigger] is_bounce(r, h, scattered, out, att, rest, c)
                        &&& scattered ==> is_ray_color(world, out, (depth - 1) as nat, rest)
                    };
                if scattered {
                    lemma_ray_color_in_range(world, out, (depth - 1) as nat, rest);
                    assert(channels_in_range(att));
                    lemma_channel_product(att.x, rest.x);
                    lemma_channel_product(att.y, rest.y);
                    lemma_channel_product(att.z, rest.z);
                }
            },
        }
    }
}

/// The camera of a configuration without fault looks along unit vectors:
/// the vector back from the target to the eye and the vector to the right
/// are one long, to within four units of the last place.
pub proof fn lemma_basis_is_unit(c: CameraV, world: Seq<Sphere>)
    requires
        config_error(c, world) is None,
    ensures
        ({
            let i = initialized(c);
            &&& (ONE_RAW - 4) * (ONE_RAW - 4) <= v3_norm_sq(i.w) < (ONE_RAW + 1) * (ONE_RAW + 1)
            &&& (ONE_RAW - 4) * (ONE_RAW - 4) <= v3_norm_sq(i.u) < (ONE_RAW + 1) * (ONE_RAW + 1)
            &&& i.w == v3_unit(v3_sub(c.lookfrom, c.lookat))
            &&& i.v == v3_cross(i.w, i.u)
            &&& i.center == c.lookfrom
        }),
{
    let back = v3_sub(c.lookfrom, c.lookat);
    let w = v3_unit(back);
    let side = v3_cross(c.vup, w);
    lemma_long_is_nonzero(back);
    lemma_long_is_nonzero(side);
    lemma_unit_length(back);
    lemma_unit_length(side);
}

/// A vector with a length has a component that is not zero.
pub proof fn lemma_long_is_nonzero(a: V3)
    requires
        v3_len(a) > 0,
    ensures
        v3_reach(a) > 0,
{
    if v3_reach(a) == 0 {
        assert(v3_norm_sq(a) == 0) by (nonlinear_arith)
            requires
                a.x == 0,
                a.y == 0,
                a.z == 0,
        ;
        lemma_isqrt_unique(0, 0);
    }
}

/// Initialising a camera twice is the same as initialising it once.
pub proof fn lemma_initialize_idempotent(c: CameraV)
    ensures
        initialized(initialized(c)) == initialized(c),
{
}

/// The least distance from the eye to the target: one part in 128.  Below
/// it the viewport is too small for its pixels to be told apart.
pub open spec fn focal_floor() -> int {
    0x200_0000
}

/// The least length of the vector product of the up hint and the unit
/// vector from the target to the eye: one part in 1024.  Above it the
/// rounding of the product turns the horizontal direction by less than one
/// part in a million.
pub open spec fn up_floor() -> int {
    0x40_0000
}

/// The first fault of a camera and a scene, if they have one.
pub open spec fn config_error(c: CameraV, world: Seq<Sphere>) -> Option<ConfigError> {
    if c.aspect_ratio <= 0 {
        Some(ConfigError::AspectRatio)
    } else if c.image_wid == 0 {
        Some(ConfigError::ImageWidth)
    } else if c.samples_per_pixel == 0 {
        Some(ConfigError::Samples)
    } else if !(0 < c.vfov < fx_int(180)) {
        Some(ConfigError::FieldOfView)
    } else if !(c.lookfrom.typ == VecTypes::Coordinates && c.lookat.typ == VecTypes::Coordinates
        && c.vup.typ == VecTypes::Coordinates) {
        Some(ConfigError::VectorTag)
    } else if v3_len(v3_sub(c.lookfrom, c.lookat)) < focal_floor() {
        Some(ConfigError::ViewDirection)
    } else if v3_len(v3_cross(c.vup, v3_unit(v3_sub(c.lookfrom, c.lookat)))) < up_floor() {
        Some(ConfigError::UpDirection)
    } else if any_degenerate(world) {
        Some(ConfigError::Surface)
    } else {
        None
    }
}

/// The rays of the camera `c` lie in space.
pub open spec fn ready(c: CameraV) -> bool {
    c.center.typ == VecTypes::Coordinates && c.pixel00_loc.typ == VecTypes::Coordinates
}

/// The ray from the eye through the point of the viewport that lies
/// `offset` pixels from the centre of the pixel in column `i` and row `j`.
pub open spec fn pixel_ray(c: CameraV, i: int, j: int, offset: V3) -> RayV {
    let sample = v3_add(
        v3_add(c.pixel00_loc, v3_scale(c.delta_x, fx_add(fx_int(i), offset.x))),
        v3_scale(c.delta_y, fx_add(fx_int(j), offset.y)),
    );
    RayV { origin: c.center, direction: v3_sub(sample, c.center) }
}

/// The offset of a ray that goes through the centre of its pixel.
pub open spec fn no_offset() -> V3 {
    V3 { typ: VecTypes::Coordinates, x: 0, y: 0, z: 0 }
}

/// `ray` is a primary ray that the camera may send through the pixel in
/// column `i` and row `j`: through its centre, or with `jitter` through a
/// point at a random offset in the pixel.
pub open spec fn is_pixel_ray(c: CameraV, i: int, j: int, jitter: bool, ray: RayV) -> bool {
    if jitter {
        exists|offset: V3| is_square_draw(offset) && #[trigger] pixel_ray(c, i, j, offset) == ray
    } else {
        ray == pixel_ray(c, i, j, no_offset())
    }
}

/// One more sample of a pixel: `ray` is a primary ray through the pixel,
/// and its colour `col` added to the sum `prev` of the samples before gives `sum`.
pub open spec fn is_sample_step(
    c: CameraV,
    i: int,
    j: int,
    prev: V3,
    ray: RayV,
    col: V3,
    sum: V3,
) -> bool {
    is_pixel_ray(c, i, j, true, ray) && sum == as_color(v3_add(prev, col))
}

/// `sum` is a possible sum of the colours of `n` samples of the pixel in
/// column `i` and row `j`.
pub open spec fn is_sample_sum(
    c: CameraV,
    world: Seq<Sphere>,
    i: int,
    j: int,
    n: nat,
    sum: V3,
) -> bool
    decreases n,
{
    if n == 0 {
        sum == black()
    } else {
        exists|prev: V3, ray: RayV, col: V3|
            {
                &&& #[trigger] is_sample_step(c, i, j, prev, ray, col, sum)
                &&& is_sample_sum(c, world, i, j, (n - 1) as nat, prev)
                &&& is_ray_color(world, ray, c.max_deep_ray as nat, col)
            }
    }
}

/// The display colour of a pixel whose samples sum to `sum`: the mean,
/// gamma-encoded.
pub open spec fn pixel_of_sum(c: CameraV, sum: V3) -> Rgb {
    encode_rgb(as_color(v3_scale(sum, c.pixel_samples_scale)))
}

/// `px` is a display colour that the pixel in column `i` and row `j` may get.
pub open spec fn is_pixel(c: CameraV, world: Seq<Sphere>, i: int, j: int, px: Rgb) -> bool {
    exists|sum: V3|
        is_sample_sum(c, world, i, j, c.samples_per_pixel as nat, sum) && #[trigger] pixel_of_sum(
            c,
            sum,
        ) == px
}

/// `row` is a possible row `j` of the image, from left to right.
pub open spec fn is_row(c: CameraV, world: Seq<Sphere>, j: int, row: Seq<Rgb>) -> bool {
    &&& row.len() == c.image_wid
    &&& forall|i: int| 0 <= i < row.len() ==> is_pixel(c, world, i, j, #[trigger] row[i])
}

/// A rendered image: its rows from top to bottom, each from left to right.
pub struct Image {
    pub width: u32,
    pub height: u32,
    pub rows: Vec<Vec<Rgb>>,
}

/// `img` is a possible image of the scene `world` through the camera `c`.
pub open spec fn is_image(c: CameraV, world: Seq<Sphere>, img: Image) -> bool {
    &&& img.width == c.image_wid
    &&& img.height == c.image_hei
    &&& img.rows@.len() == c.image_hei
    &&& forall|j: int| 0 <= j < img.rows@.len() ==> is_row(c, world, j, (#[trigger] img.rows@[j])@)
}

/// A camera.
pub struct Camera {
    pub aspect_ratio: Fixed,
    pub image_wid: u32,
    pub image_name: String,
    pub samples_per_pixel: u8,
    pub max_deep_ray: u8,
    pub vfov: Fixed,
    /// The point the camera looks from.
    pub lookfrom: Vec3,
    /// The point the camera looks at.
    pub lookat: Vec3,
    /// The direction that is up for the camera.
    pub vup: Vec3,
    image_hei: u32,
    center: Vec3,
    pixel00_loc: Vec3,
    delta_x: Vec3,
    delta_y: Vec3,
    pixel_samples_scale: Fixed,
    u: Vec3,
    v: Vec3,
    w: Vec3,
}

impl View for Camera {
    type V = CameraV;

    closed spec fn view(&self) -> CameraV {
        CameraV {
            aspect_ratio: self.aspect_ratio@,
            image_wid: self.image_wid as int,
            image_name: self.image_name@,
            samples_per_pixel: self.samples_per_pixel as int,
            max_deep_ray: self.max_deep_ray as int,
            vfov: self.vfov@,
            lookfrom: self.lookfrom@,
            lookat: self.lookat@,
            vup: self.vup@,
            image_hei: self.image_hei as int,
            center: self.center@,
            pixel00_loc: self.pixel00_loc@,
            delta_x: self.delta_x@,
            delta_y: self.delta_y@,
            pixel_samples_scale: self.pixel_samples_scale@,
            u: self.u@,
            v: self.v@,
            w: self.w@,
        }
    }
}

/// The configuration of a new camera.
pub open spec fn new_camera(aspect: int, img_wid: int, img_name: Seq<char>) -> CameraV {
    let zero = V3 { typ: VecTypes::Coordinates, x: 0, y: 0, z: 0 };
    CameraV {
        aspect_ratio: aspect,
        image_wid: img_wid,
        image_name: img_name,
        samples_per_pixel: 7,
        max_deep_ray: 10,
        vfov: fx_int(90),
        lookfrom: zero,
        lookat: V3 { typ: VecTypes::Coordinates, x: 0, y: 0, z: -(ONE_RAW as int) },
        vup: V3 { typ: VecTypes::Coordinates, x: 0, y: ONE_RAW as int, z: 0 },
        image_hei: 0,
        center: zero,
        pixel00_loc: zero,
        delta_x: zero,
        delta_y: zero,
        pixel_samples_scale: fx_div(ONE_RAW as int, fx_int(7)),
        u: zero,
        v: zero,
        w: zero,
    }
}

impl Camera {
    /// Traces the ray `r` through the scene `world` with `deep` bounces left.
    pub fn ray_color(r: &Ray, world: &HittableList, deep: u8) -> (c: Color)
        requires
            r@.wf(),
        ensures
            is_ray_color(world@, r@, deep as nat, c@),
            deep == 0 ==> c@ == black(),
            deep > 0 && scan_hits(world@, r@, MAX_RAW as int, t_min()) is None ==> c@
                == background(r@.direction),
        decreases deep,
    {
        if deep == 0 {
            return Color::default();
        }
        let mut h = HitRecord::default();
        if world.hit(r, Fixed::max_value(), Fixed::from_ratio(1, 1000), &mut h) {
            let mut reflected_r = Ray::default();
            let mut attenuation = Color::default();
            if h.mat.reflect(r, &mut reflected_r, &h, &mut attenuation) {
                proof {
                    lemma_scatter_wf(
                        h@.mat,
                        r@,
                        h@,
                        default_ray(),
                        black(),
                        true,
                        reflected_r@,
                        attenuation@,
                    );
                }
                let rest = Self::ray_color(&reflected_r, world, deep - 1);
                let c = attenuation.attenuate(rest);
                assert(is_bounce(r@, h@, true, reflected_r@, attenuation@, rest@, c@));
                return c;
            }
            let c = Color::default();
            assert(is_bounce(r@, h@, false, reflected_r@, attenuation@, black(), c@));
            return c;
        }
        let unit = r.direction.unit_vec();
        let one = Fixed::one();
        let a = Fixed::from_ratio(1, 2).mul(&unit.get(1).add(&one));
        Color::new(one, one, one).mul(one.sub(&a)).add(
            Color::new(Fixed::from_ratio(1, 2), Fixed::from_ratio(7, 10), one).mul(a),
        )
    }

    /// The ray from the eye through the point of the viewport that lies
    /// `offset` pixels from the centre of the pixel in column `i` and row `j`.
    pub fn ray_through(&self, i: u32, j: u32, offset: Vec3) -> (r: Ray)
        ensures
            r@ == pixel_ray(self@, i as int, j as int, offset@),
    {
        let pixel_sample = self.pixel00_loc.add(
            self.delta_x.mul(Fixed::from_int(i as i64).add(&offset.x)),
        ).add(self.delta_y.mul(Fixed::from_int(j as i64).add(&offset.y)));
        let ray_dir = pixel_sample.sub(self.center);
        Ray::new(self.center, ray_dir)
    }

    /// A primary ray through the pixel in column `i` and row `j`: through
    /// a random point of the pixel if `random_near`, else through its centre.
    pub fn get_ray(&self, i: u32, j: u32, random_near: bool) -> (r: Ray)
        ensures
            is_pixel_ray(self@, i as int, j as int, random_near, r@),
            ready(self@) ==> r@.wf(),
    {
        let offset = if random_near {
            sample_square()
        } else {
            Vec3::new(VecTypes::Coordinates, Fixed::zero(), Fixed::zero(), Fixed::zero())
        };
        let r = self.ray_through(i, j, offset);
        assert(pixel_ray(self@, i as int, j as int, offset@) == r@);
        r
    }

    /// The height of an image of the width `wid` and the aspect ratio `aspect`.
    pub fn height_for(wid: u32, aspect: Fixed) -> (h: u32)
        ensures
            h == image_height_of(wid as int, aspect@),
    {
        let a: i64 = aspect.raw();
        if a <= 0 {
            return 0;
        }
        let n: u128 = (wid as u128) * 0x1_0000_0000;
        let h: u128 = n / (a as u128);
        if h > 0xffff_ffff {
            0xffff_ffff
        } else {
            h as u32
        }
    }

    /// Computes the derived state from the configuration.
    pub fn initialize(&mut self)
        ensures
            final(self)@ == initialized(old(self)@),
    {
        let two = Fixed::from_int(2);
        let wid = Fixed::from_int(self.image_wid as i64);
        self.image_hei = Self::height_for(self.image_wid, self.aspect_ratio);
        let hei = Fixed::from_int(self.image_hei as i64);

        self.center = self.lookfrom;
        let focal_len = self.lookfrom.sub(self.lookat).vec_length();
        let theta = degrees_to_radians(self.vfov);
        let h = tan(theta.div(&two));

        let view_hei = two.mul(&h).mul(&focal_len);
        let view_wid = view_hei.mul(&wid.div(&hei));

        self.w = self.lookfrom.sub(self.lookat).unit_vec();
        self.u = self.vup.cross(self.w).unit_vec();
        self.v = self.w.cross(self.u);

        let view_x = self.u.mul(view_wid);
        let view_y = self.v.neg().mul(view_hei);

        self.delta_x = view_x.div(wid);
        self.delta_y = view_y.div(hei);

        let view_upper_left = self.center.sub(self.w.mul(focal_len)).sub(view_x.div(two)).sub(
            view_y.div(two),
        );
        self.pixel00_loc = view_upper_left.add(
            self.delta_y.add(self.delta_x).mul(Fixed::from_ratio(1, 2)),
        );
        let samples = Fixed::from_int(self.samples_per_pixel as i64);
        self.pixel_samples_scale = Fixed::one().div(&samples);
    }

    /// The first fault of the camera and the scene, if they have one.
    pub fn validate(&self, world: &HittableList) -> (r: Result<(), ConfigError>)
        ensures
            match r {
                Ok(_) => config_error(self@, world@) is None,
                Err(e) => config_error(self@, world@) == Some(e),
            },
    {
        if self.aspect_ratio.le(&Fixed::zero()) {
            return Err(ConfigError::AspectRatio);
        }
        if self.image_wid == 0 {
            return Err(ConfigError::ImageWidth);
        }
        if self.samples_per_pixel == 0 {
            return Err(ConfigError::Samples);
        }
        if !(self.vfov.gt(&Fixed::zero()) && self.vfov.lt(&Fixed::from_int(180))) {
            return Err(ConfigError::FieldOfView);
        }
        if !(self.lookfrom.typ == VecTypes::Coordinates && self.lookat.typ == VecTypes::Coordinates
            && self.vup.typ == VecTypes::Coordinates) {
            return Err(ConfigError::VectorTag);
        }
        let back = self.lookfrom.sub(self.lookat);
        if back.vec_length().lt(&Fixed::from_raw(0x200_0000)) {
            return Err(ConfigError::ViewDirection);
        }
        if self.vup.cross(back.unit_vec()).vec_length().lt(&Fixed::from_raw(0x40_0000)) {
            return Err(ConfigError::UpDirection);
        }
        if world.degenerate() {
            return Err(ConfigError::Surface);
        }
        Ok(())
    }

    /// Whether the rays of the camera lie in space.
    pub fn is_ready(&self) -> (b: bool)
        ensures
            b == ready(self@),
    {
        self.center.typ == VecTypes::Coordinates && self.pixel00_loc.typ == VecTypes::Coordinates
    }

    /// Checks the configuration and computes the derived state.  A camera
    /// with a fault is left as it was.
    pub fn prepare(&mut self, world: &HittableList) -> (r: Result<(), ConfigError>)
        ensures
            match r {
                Ok(_) => config_error(old(self)@, world@) is None && final(self)@ == initialized(
                    old(self)@,
                ) && ready(final(self)@),
                Err(e) => config_error(old(self)@, world@) == Some(e) && final(self)@ == old(
                    self,
                )@,
            },
    {
        match self.validate(world) {
            Ok(_) => {
                self.initialize();
                Ok(())
            },
            Err(e) => Err(e),
        }
    }

    /// The display colour of the pixel in column `i` and row `j`: the mean
    /// of the colours of its samples, gamma-encoded.
    pub fn pixel_color(&self, world: &HittableList, i: u32, j: u32) -> (px: Rgb)
        requires
            ready(self@),
        ensures
            is_pixel(self@, world@, i as int, j as int, px),
    {
        let mut sum = Color::default();
        let mut k: u8 = 0;
        while k < self.samples_per_pixel
            invariant
                k <= self.samples_per_pixel,
                ready(self@),
                is_sample_sum(self@, world@, i as int, j as int, k as nat, sum@),
            decreases self.samples_per_pixel - k,
        {
            let r = self.get_ray(i, j, true);
            let col = Self::ray_color(&r, world, self.max_deep_ray);
            let ghost prev = sum@;
            sum = sum.add(col);
            k = k + 1;
            assert(is_sample_step(self@, i as int, j as int, prev, r@, col@, sum@));
        }
        let px = Rgb::from_color(sum.mul(self.pixel_samples_scale));
        assert(pixel_of_sum(self@, sum@) == px);
        px
    }

    /// Row `j` of the image, from left to right.
    pub fn render_row(&self, world: &HittableList, j: u32) -> (row: Vec<Rgb>)
        requires
            ready(self@),
        ensures
            is_row(self@, world@, j as int, row@),
    {
        let mut row: Vec<Rgb> = Vec::new();
        let mut i: u32 = 0;
        while i < self.image_wid
            invariant
                i <= self.image_wid,
                ready(self@),
                row@.len() == i,
                forall|k: int|
                    0 <= k < row@.len() ==> is_pixel(self@, world@, k, j as int, #[trigger] row@[k]),
            decreases self.image_wid - i,
        {
            let px = self.pixel_color(world, i, j);
            row.push(px);
            i = i + 1;
        }
        row
    }

    /// Renders the scene: checks the configuration, computes the derived
    /// state, and colours every pixel.
    pub fn render(&mut self, world: &HittableList) -> (r: Result<Image, ConfigError>)
        ensures
            match r {
                Ok(img) => config_error(old(self)@, world@) is None && final(self)@ == initialized(
                    old(self)@,
                ) && is_image(final(self)@, world@, img),
                Err(e) => config_error(old(self)@, world@) == Some(e) && final(self)@ == old(
                    self,
                )@,
            },
    {
        match self.prepare(world) {
            Ok(_) => {},
            Err(e) => {
                return Err(e);
            },
        }
        let mut rows: Vec<Vec<Rgb>> = Vec::new();
        let mut j: u32 = 0;
        while j < self.image_hei
            invariant
                j <= self.image_hei,
                ready(self@),
                rows@.len() == j,
                forall|k: int|
                    0 <= k < rows@.len() ==> is_row(self@, world@, k, (#[trigger] rows@[k])@),
            decreases self.image_hei - j,
        {
            let row = self.render_row(world, j);
            rows.push(row);
            j = j + 1;
        }
        Ok(Image { width: self.image_wid, height: self.image_hei, rows })
    }

    /// A camera with the given aspect ratio, image width and image name,
    /// at the origin, looking down the negative z axis with a vertical
    /// field of view of 90 degrees, 7 samples per pixel and 10 bounces.
    pub fn new(aspect: Fixed, img_wid: u32, img_name: &str) -> (f: Self)
        ensures
            f@ == new_camera(aspect@, img_wid as int, img_name@),
    {
        let zero = Vec3::default();
        let fz = Fixed::zero();
        Camera {
            aspect_ratio: aspect,
            image_wid: img_wid,
            image_name: img_name.to_owned(),
            samples_per_pixel: 7,
            max_deep_ray: 10,
            vfov: Fixed::from_int(90),
            lookfrom: Vec3::new(VecTypes::Coordinates, fz, fz, fz),
            lookat: Vec3::new(VecTypes::Coordinates, fz, fz, Fixed::one().neg()),
            vup: Vec3::new(VecTypes::Coordinates, fz, Fixed::one(), fz),
            image_hei: 0,
            center: zero,
            pixel00_loc: zero,
            delta_x: zero,
            delta_y: zero,
            pixel_samples_scale: Fixed::one().div(&Fixed::from_int(7)),
            u: zero,
            v: zero,
            w: zero,
        }
    }

    /// Sets the eye, the target and the up hint.
    pub fn set_view(&mut self, lookfrom: Vec3, lookat: Vec3, vup: Vec3)
        ensures
            final(self)@ == (CameraV {
                lookfrom: lookfrom@,
                lookat: lookat@,
                vup: vup@,
                ..old(self)@
            }),
    {
        self.lookfrom = lookfrom;
        self.lookat = lookat;
        self.vup = vup;
    }

    /// Sets the vertical field of view, in degrees.
    pub fn set_vfov(&mut self, vfov: Fixed)
        ensures
            final(self)@ == (CameraV { vfov: vfov@, ..old(self)@ }),
    {
        self.vfov = vfov;
    }

    /// Sets the number of samples per pixel and the number of bounces of a path.
    pub fn set_quality(&mut self, samples_per_pixel: u8, max_depth: u8)
        ensures
            final(self)@ == (CameraV {
                samples_per_pixel: samples_per_pixel as int,
                max_deep_ray: max_depth as int,
                ..old(self)@
            }),
    {
        self.samples_per_pixel = samples_per_pixel;
        self.max_deep_ray = max_depth;
    }

    /// Sets the aspect ratio and the width of the image in pixels.
    pub fn set_format(&mut self, aspect_ratio: Fixed, image_wid: u32)
        ensures
            final(self)@ == (CameraV {
                aspect_ratio: aspect_ratio@,
                image_wid: image_wid as int,
                ..old(self)@
            }),
    {
        self.aspect_ratio = aspect_ratio;
        self.image_wid = image_wid;
    }

    /// The basis of the camera, once it is initialised: right, up, and
    /// back from the target to the eye.
    pub fn basis(&self) -> (b: (Vec3, Vec3, Vec3))
        ensures
            b.0@ == self@.u,
            b.1@ == self@.v,
            b.2@ == self@.w,
    {
        (self.u, self.v, self.w)
    }

    /// The height of the image in pixels, once the camera is initialised.
    pub fn image_height(&self) -> (h: u32)
        ensures
            h == self@.image_hei,
    {
        self.image_hei
    }
}

} // verus!
