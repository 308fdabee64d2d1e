use raytracer::camera::{Camera, ConfigError};
use raytracer::color::Color;
use raytracer::fixed::Fixed;
use raytracer::material::{Dieletric, Lambertian, Material, Metal};
use raytracer::ray::{HitRecord, Hittable, HittableList, Ray, Sphere};
use raytracer::vec::{Vec3, VecTypes};

const ONE: i64 = 1 << 32;

fn fx(x: f64) -> Fixed {
    Fixed::from_raw((x * ONE as f64).round() as i64)
}

fn val(x: Fixed) -> f64 {
    x.raw() as f64 / ONE as f64
}

fn v(x: f64, y: f64, z: f64) -> Vec3 {
    Vec3::new(VecTypes::Coordinates, fx(x), fx(y), fx(z))
}

fn raws(a: Vec3) -> [i64; 3] {
    [a.x.raw(), a.y.raw(), a.z.raw()]
}

fn vals(a: Vec3) -> [f64; 3] {
    [val(a.x), val(a.y), val(a.z)]
}

fn ground() -> Sphere {
    let diffuse = Lambertian::new(Color::new(fx(0.5), fx(0.5), fx(0.5)));
    Sphere::new(v(0.0, -100.5, -1.0), fx(100.0), diffuse.clone_box())
}

fn ground_world() -> HittableList {
    let mut world = HittableList::new();
    world.add(ground().to_box());
    world
}

/// The background for a direction, by the same steps in the same order.
fn sky(direction: Vec3) -> [i64; 3] {
    let one = Fixed::one();
    let a = Fixed::from_ratio(1, 2).mul(&direction.unit_vec().y.add(&one));
    let white = Color::new(one, one, one).mul(one.sub(&a));
    let blue = Color::new(Fixed::from_ratio(1, 2), Fixed::from_ratio(7, 10), one).mul(a);
    raws(white.add(blue).rgb)
}

#[test]
fn new_camera_has_the_documented_defaults() {
    let c = Camera::new(fx(2.0), 400, "out.png");
    assert_eq!(c.aspect_ratio.raw(), 2 * ONE);
    assert_eq!(c.image_wid, 400);
    assert_eq!(c.image_name, "out.png");
    assert_eq!(c.samples_per_pixel, 7);
    assert_eq!(c.max_deep_ray, 10);
    assert_eq!(c.vfov.raw(), 90 * ONE);
    assert_eq!(raws(c.lookfrom), [0, 0, 0]);
    assert_eq!(raws(c.lookat), [0, 0, -ONE]);
    assert_eq!(raws(c.vup), [0, ONE, 0]);
    assert_eq!(c.image_height(), 0);
}

#[test]
fn setters_change_the_configuration() {
    let mut c = Camera::new(fx(2.0), 400, "out.png");
    c.set_view(v(5.0, 2.0, 3.0), v(0.0, 0.5, 0.0), v(0.0, 0.0, 1.0));
    c.set_vfov(fx(60.0));
    c.set_quality(3, 4);
    c.set_format(fx(1.5), 300);
    assert_eq!(raws(c.lookfrom), raws(v(5.0, 2.0, 3.0)));
    assert_eq!(raws(c.lookat), raws(v(0.0, 0.5, 0.0)));
    assert_eq!(raws(c.vup), raws(v(0.0, 0.0, 1.0)));
    assert_eq!(c.vfov.raw(), 60 * ONE);
    assert_eq!(c.samples_per_pixel, 3);
    assert_eq!(c.max_deep_ray, 4);
    assert_eq!(c.aspect_ratio.raw(), fx(1.5).raw());
    assert_eq!(c.image_wid, 300);
    assert_eq!(c.image_name, "out.png");
    c.initialize();
    assert_eq!(c.image_height(), 200);
}

#[test]
fn image_height_is_the_floor_of_width_over_aspect() {
    let mut c = Camera::new(fx(16.0 / 9.0), 400, "a");
    c.initialize();
    assert_eq!(c.image_height(), 225);
    let mut c = Camera::new(fx(2.0), 401, "a");
    c.initialize();
    assert_eq!(c.image_height(), 200);
    let mut c = Camera::new(fx(3.0), 2, "a");
    c.initialize();
    assert_eq!(c.image_height(), 0);
}

#[test]
fn central_ray_of_the_default_camera_looks_down_the_z_axis() {
    // An odd width and height put a pixel centre on the axis.
    let mut c = Camera::new(fx(1.0), 101, "a");
    c.initialize();
    assert_eq!(c.image_height(), 101);
    let r = c.get_ray(50, 50, false);
    assert_eq!(raws(r.origin), [0, 0, 0]);
    let d = vals(r.direction);
    assert!(d[0].abs() < 1e-6 && d[1].abs() < 1e-6);
    assert!((d[2] + 1.0).abs() < 1e-6);
}

#[test]
fn corner_rays_span_the_field_of_view() {
    // 90 degrees at focal length 1: the viewport is 2 high and 2 wide.
    let mut c = Camera::new(fx(1.0), 100, "a");
    c.initialize();
    let top_left = vals(c.get_ray(0, 0, false).direction);
    assert!((top_left[0] + 0.99).abs() < 1e-6);
    assert!((top_left[1] - 0.99).abs() < 1e-6);
    assert!((top_left[2] + 1.0).abs() < 1e-6);
    let bottom_right = vals(c.get_ray(99, 99, false).direction);
    assert!((bottom_right[0] - 0.99).abs() < 1e-6);
    assert!((bottom_right[1] + 0.99).abs() < 1e-6);
}

#[test]
fn camera_follows_eye_and_target() {
    let mut c = Camera::new(fx(1.0), 101, "a");
    c.lookfrom = v(5.0, 2.0, 3.0);
    c.lookat = v(0.0, 0.0, 0.0);
    c.vfov = fx(60.0);
    c.initialize();
    let r = c.get_ray(50, 50, false);
    assert_eq!(raws(r.origin), raws(v(5.0, 2.0, 3.0)));
    let d = vals(r.direction);
    assert!((d[0] + 5.0).abs() < 1e-5);
    assert!((d[1] + 2.0).abs() < 1e-5);
    assert!((d[2] + 3.0).abs() < 1e-5);
}

#[test]
fn initializing_twice_changes_nothing() {
    let mut c = Camera::new(fx(16.0 / 9.0), 320, "a");
    c.lookfrom = v(5.0, 2.0, 3.0);
    c.lookat = v(0.0, 0.5, -1.0);
    c.vfov = fx(35.0);
    c.samples_per_pixel = 3;
    c.initialize();
    let height = c.image_height();
    let rays: Vec<Ray> = [(0, 0), (319, 0), (17, 93), (319, 179)]
        .iter()
        .map(|&(i, j)| c.get_ray(i, j, false))
        .collect();
    c.initialize();
    assert_eq!(c.image_height(), height);
    for (k, &(i, j)) in [(0, 0), (319, 0), (17, 93), (319, 179)].iter().enumerate() {
        let again = c.get_ray(i, j, false);
        assert_eq!(raws(again.origin), raws(rays[k].origin));
        assert_eq!(raws(again.direction), raws(rays[k].direction));
    }
}

#[test]
fn jittered_rays_stay_within_their_pixel() {
    let mut c = Camera::new(fx(1.0), 100, "a");
    c.initialize();
    let centre = vals(c.get_ray(10, 20, false).direction);
    let mut moved = false;
    for _ in 0..200 {
        let d = vals(c.get_ray(10, 20, true).direction);
        // A pixel is 0.02 wide and high.
        assert!((d[0] - centre[0]).abs() <= 0.01 + 1e-6);
        assert!((d[1] - centre[1]).abs() <= 0.01 + 1e-6);
        assert!((d[2] - centre[2]).abs() < 1e-6);
        moved = moved || d != centre;
    }
    assert!(moved);
}

#[test]
fn ray_through_adds_the_offset_in_pixels() {
    let mut c = Camera::new(fx(1.0), 100, "a");
    c.initialize();
    let a = c.ray_through(10, 20, v(0.5, -0.5, 0.0));
    let b = c.get_ray(10, 20, false);
    let da = vals(a.direction);
    let db = vals(b.direction);
    assert!((da[0] - db[0] - 0.01).abs() < 1e-6);
    assert!((da[1] - db[1] - 0.01).abs() < 1e-6);
}

#[test]
fn no_bounce_left_is_black() {
    let world = ground_world();
    let down = Ray::new(v(0.0, 0.0, 0.0), v(0.0, -1.0, 0.0));
    let up = Ray::new(v(0.0, 0.0, 0.0), v(0.0, 1.0, 0.0));
    assert_eq!(raws(Camera::ray_color(&down, &world, 0).rgb), [0, 0, 0]);
    assert_eq!(raws(Camera::ray_color(&up, &world, 0).rgb), [0, 0, 0]);
}

#[test]
fn a_ray_that_misses_sees_the_sky() {
    let world = ground_world();
    let empty = HittableList::new();
    for (x, y, z) in [(0.0, 1.0, 0.0), (1.0, 0.5, -1.0), (-3.0, 0.0, 2.0), (0.0, 0.2, -1.0)] {
        let r = Ray::new(v(0.0, 0.0, 0.0), v(x, y, z));
        let c = Camera::ray_color(&r, &world, 5);
        assert_eq!(raws(c.rgb), sky(r.direction));
        assert_eq!(raws(Camera::ray_color(&r, &empty, 1).rgb), sky(r.direction));
    }
}

#[test]
fn sky_is_white_at_the_bottom_and_blue_at_the_top() {
    let empty = HittableList::new();
    let up = Camera::ray_color(&Ray::new(v(0.0, 0.0, 0.0), v(0.0, 2.0, 0.0)), &empty, 1);
    assert_eq!(raws(up.rgb), [2147483648, 3006477107, 4294967296]);
    assert_eq!(up.rgb.typ, VecTypes::Color);
    let c = vals(up.rgb);
    assert!((c[0] - 0.5).abs() < 1e-8 && (c[1] - 0.7).abs() < 1e-8 && (c[2] - 1.0).abs() < 1e-8);
    let down = Camera::ray_color(&Ray::new(v(0.0, 0.0, 0.0), v(0.0, -2.0, 0.0)), &empty, 1);
    assert_eq!(raws(down.rgb), [ONE, ONE, ONE]);
    let c = vals(down.rgb);
    assert!((c[0] - 1.0).abs() < 1e-8 && (c[1] - 1.0).abs() < 1e-8 && (c[2] - 1.0).abs() < 1e-8);
    let level = Camera::ray_color(&Ray::new(v(0.0, 0.0, 0.0), v(1.0, 0.0, 0.0)), &empty, 1);
    let c = vals(level.rgb);
    assert!((c[0] - 0.75).abs() < 1e-8 && (c[1] - 0.85).abs() < 1e-8 && (c[2] - 1.0).abs() < 1e-8);
}

#[test]
fn big_sphere_is_hit_at_its_centre_and_missed_above() {
    let world = ground_world();
    let mut c = Camera::new(fx(1.0), 100, "a");
    c.samples_per_pixel = 1;
    c.max_deep_ray = 1;
    assert_eq!(c.prepare(&world), Ok(()));

    // The ray aimed at the centre of the sphere.
    let centre = v(0.0, -100.5, -1.0);
    let aimed = Ray::new(c.lookfrom, centre.sub(c.lookfrom));
    let mut rec = HitRecord::default();
    assert!(world.hit(&aimed, Fixed::max_value(), Fixed::from_ratio(1, 1000), &mut rec));
    assert!(rec.t.raw() > 0);
    assert!(rec.front_face);
    assert!((val(rec.point.sub(centre).vec_length()) - 100.0).abs() < 1e-4);
    // One bounce through a diffuse surface: half of what the sky gives the scattered ray.
    let lit = vals(Camera::ray_color(&aimed, &world, 1).rgb);
    assert_eq!(lit, [0.0, 0.0, 0.0]);
    let lit = vals(Camera::ray_color(&aimed, &world, 2).rgb);
    assert!(lit.iter().all(|&x| x > 0.2 && x <= 0.5));

    // A parallel ray that passes the sphere at one and a half radii from its centre.
    let above = Ray::new(v(150.0, 0.0, 0.0), aimed.direction);
    let seen = Camera::ray_color(&above, &world, 1);
    assert_eq!(raws(seen.rgb), sky(above.direction));
    let mut rec = HitRecord::default();
    assert!(!world.hit(&above, Fixed::max_value(), Fixed::from_ratio(1, 1000), &mut rec));
}

#[test]
fn faults_are_reported_in_order() {
    let world = ground_world();
    let good = || {
        let mut c = Camera::new(fx(2.0), 8, "a");
        c.samples_per_pixel = 2;
        c
    };
    assert_eq!(good().validate(&world), Ok(()));

    let mut c = good();
    c.aspect_ratio = fx(0.0);
    c.image_wid = 0;
    assert_eq!(c.validate(&world), Err(ConfigError::AspectRatio));
    c.aspect_ratio = fx(-1.0);
    assert_eq!(c.validate(&world), Err(ConfigError::AspectRatio));

    let mut c = good();
    c.image_wid = 0;
    c.samples_per_pixel = 0;
    assert_eq!(c.validate(&world), Err(ConfigError::ImageWidth));

    let mut c = good();
    c.samples_per_pixel = 0;
    c.vfov = fx(180.0);
    assert_eq!(c.validate(&world), Err(ConfigError::Samples));

    for bad in [0.0, 180.0, -10.0, 200.0] {
        let mut c = good();
        c.vfov = fx(bad);
        assert_eq!(c.validate(&world), Err(ConfigError::FieldOfView));
    }

    let mut c = good();
    c.lookat = Vec3::new(VecTypes::Color, fx(0.0), fx(0.0), fx(-1.0));
    assert_eq!(c.validate(&world), Err(ConfigError::VectorTag));

    let mut c = good();
    c.lookat = c.lookfrom;
    assert_eq!(c.validate(&world), Err(ConfigError::ViewDirection));

    for (x, y, z) in [(0.0, 0.0, 0.0), (0.0, 0.0, 3.0), (0.0, 1e-4, 1.0), (0.0, 0.0005, 0.0)] {
        let mut c = good();
        c.vup = v(x, y, z);
        assert_eq!(c.validate(&world), Err(ConfigError::UpDirection));
    }

    let mut c = good();
    c.lookfrom = Vec3::new(
        VecTypes::Coordinates,
        Fixed::from_raw(70000),
        Fixed::zero(),
        Fixed::from_raw(-ONE),
    );
    assert_eq!(c.validate(&world), Err(ConfigError::ViewDirection));
    c.lookfrom = v(0.0, 0.0, -1.0 + 1.0 / 128.0);
    assert_eq!(c.validate(&world), Ok(()));

    let mut bad_world = ground_world();
    let diffuse = Lambertian::new(Color::new(fx(0.5), fx(0.5), fx(0.5)));
    bad_world.add(Sphere::new(v(0.0, 0.0, -1.0), fx(0.0), diffuse.clone_box()).to_box());
    assert_eq!(good().validate(&bad_world), Err(ConfigError::Surface));
}

#[test]
fn a_faulty_camera_is_not_rendered() {
    let world = ground_world();
    let mut c = Camera::new(fx(2.0), 8, "a");
    c.samples_per_pixel = 0;
    assert!(matches!(c.render(&world), Err(ConfigError::Samples)));
    assert_eq!(c.image_height(), 0);
    assert_eq!(c.prepare(&world), Err(ConfigError::Samples));
}

#[test]
fn prepared_camera_is_ready() {
    let world = ground_world();
    let mut c = Camera::new(fx(2.0), 8, "a");
    assert_eq!(c.prepare(&world), Ok(()));
    assert!(c.is_ready());
    assert_eq!(c.image_height(), 4);
}

#[test]
fn render_fills_every_pixel() {
    let mut world = ground_world();
    let centre = Lambertian::new(Color::new(fx(0.1), fx(0.2), fx(0.5)));
    world.add(Sphere::new(v(0.0, 0.0, -1.2), fx(0.5), centre.clone_box()).to_box());
    world.add(Sphere::new(v(-1.0, 0.0, -1.0), fx(0.5), Dieletric::new(fx(1.5)).clone_box()).to_box());
    let gold = Metal::new(Color::new(fx(0.8), fx(0.6), fx(0.2)), fx(0.3));
    world.add(Sphere::new(v(1.0, 0.0, -1.0), fx(0.5), gold.clone_box()).to_box());

    let mut c = Camera::new(fx(2.0), 16, "a");
    c.samples_per_pixel = 4;
    c.max_deep_ray = 6;
    let img = c.render(&world).expect("a good configuration");
    assert_eq!(img.width, 16);
    assert_eq!(img.height, 8);
    assert_eq!(img.rows.len(), 8);
    assert!(img.rows.iter().all(|row| row.len() == 16));
    // The top row sees only sky, which is bright and blue.
    for px in &img.rows[0] {
        assert!(px.0[2] >= px.0[0] && px.0[2] > 200);
    }
    // The sphere in the middle is darker than the sky above it.
    let mid = img.rows[4][8];
    let top = img.rows[0][8];
    assert!(u32::from(mid.0[0]) < u32::from(top.0[0]));
}

#[test]
fn sky_only_image_is_the_encoded_gradient() {
    let world = HittableList::new();
    let mut c = Camera::new(fx(1.0), 3, "a");
    c.samples_per_pixel = 1;
    let img = c.render(&world).expect("a good configuration");
    assert_eq!(img.height, 3);
    for j in 0..3 {
        for i in 0..3 {
            let px = c.pixel_color(&world, i, j);
            // With one sample per pixel the colour differs from the centre of
            // the pixel only by the jitter, which moves the gradient a little.
            let centre = Camera::ray_color(&c.get_ray(i, j, false), &world, 10);
            let want = raytracer::color::Rgb::from_color(centre);
            for k in 0..3 {
                let got = i32::from(px.0[k]);
                assert!((got - i32::from(want.0[k])).abs() <= 12);
                let row = i32::from(img.rows[j as usize][i as usize].0[k]);
                assert!((row - i32::from(want.0[k])).abs() <= 12);
            }
        }
    }
    let row = c.render_row(&world, 1);
    assert_eq!(row.len(), 3);
}

fn dotf(a: Vec3, b: Vec3) -> f64 {
    val(a.x) * val(b.x) + val(a.y) * val(b.y) + val(a.z) * val(b.z)
}

#[test]
fn basis_of_a_valid_camera_is_orthonormal() {
    let world = HittableList::new();
    let views = [
        (v(5.0, 2.0, 3.0), v(0.0, 0.0, 0.0), v(0.0, 1.0, 0.0)),
        (v(0.0, 0.0, 0.0), v(0.0, 0.0, -1.0), v(0.0, 1.0, 0.0)),
        (v(0.0, 0.0, 0.0), v(0.0, 0.0, -0.01), v(0.0, 0.002, 0.0)),
        (v(100.0, -50.0, 7.0), v(-20.0, 30.0, 1.0), v(0.3, 0.4, 0.5)),
        (v(0.0, 0.0, 0.0), v(0.0, 1.0, -0.002), v(0.0, 1.0, 0.0)),
    ];
    for (from, at, up) in views {
        let mut c = Camera::new(fx(1.5), 30, "a");
        c.set_view(from, at, up);
        assert_eq!(c.prepare(&world), Ok(()));
        let (right, upward, back) = c.basis();
        for a in [right, upward, back] {
            assert!((dotf(a, a).sqrt() - 1.0).abs() < 2e-6);
        }
        assert!(dotf(right, upward).abs() < 2e-6);
        assert!(dotf(right, back).abs() < 2e-6);
        assert!(dotf(upward, back).abs() < 2e-6);
        let want = from.sub(at).unit_vec();
        assert_eq!(raws(back), raws(want));
    }
}

#[test]
fn sky_channels_stay_within_zero_and_one() {
    let empty = HittableList::new();
    for &(x, y, z) in &[
        (0i64, -92680i64, 0i64),
        (0, 92680, 0),
        (1, -1, 0),
        (0, -1, 0),
        (3, 70000, -5),
        (i64::MAX, -i64::MAX, 0),
    ] {
        let d = Vec3::new(
            VecTypes::Coordinates,
            Fixed::from_raw(x),
            Fixed::from_raw(y),
            Fixed::from_raw(z),
        );
        let c = Camera::ray_color(&Ray::new(v(0.0, 0.0, 0.0), d), &empty, 1);
        for ch in raws(c.rgb) {
            assert!(0 <= ch && ch <= ONE, "{} {} {}", x, y, z);
        }
    }
    let down = Vec3::new(VecTypes::Coordinates, Fixed::zero(), Fixed::from_raw(-92680), Fixed::zero());
    let c = Camera::ray_color(&Ray::new(v(0.0, 0.0, 0.0), down), &empty, 1);
    assert_eq!(raws(c.rgb), [ONE, ONE, ONE]);
}

#[test]
fn image_height_is_exact_for_every_width() {
    assert_eq!(Camera::height_for(400, fx(16.0 / 9.0)), 225);
    assert_eq!(Camera::height_for(4_000_000_000, fx(2.0)), 2_000_000_000);
    assert_eq!(Camera::height_for(u32::MAX, fx(1.0)), u32::MAX);
    assert_eq!(Camera::height_for(u32::MAX, fx(0.5)), u32::MAX);
    assert_eq!(Camera::height_for(7, fx(2.0)), 3);
    assert_eq!(Camera::height_for(7, fx(0.0)), 0);
    assert_eq!(Camera::height_for(7, fx(-1.0)), 0);
    assert_eq!(Camera::height_for(1, Fixed::from_raw(1)), u32::MAX);
}

#[test]
fn sky_is_fully_blue_in_every_direction() {
    let empty = HittableList::new();
    for &(x, y, z) in &[(0.3, 0.9, -0.2), (1.0, 0.0, 0.0), (0.0, -1.0, 0.0), (5.0, -7.0, 0.01)] {
        let c = Camera::ray_color(&Ray::new(v(0.0, 0.0, 0.0), v(x, y, z)), &empty, 3);
        assert_eq!(c.rgb.z.raw(), ONE);
    }
    let mut c = Camera::new(fx(1.0), 4, "a");
    c.samples_per_pixel = 5;
    let img = c.render(&empty).expect("a good configuration");
    for row in &img.rows {
        for px in row {
            assert_eq!(px.0[2], 255);
        }
    }
}

#[test]
fn basis_stands_at_right_angles_to_the_last_places() {
    let world = HittableList::new();
    let views = [
        (v(5.0, 2.0, 3.0), v(0.0, 0.0, 0.0), v(0.0, 1.0, 0.0)),
        (v(0.0, 0.0, 0.0), v(0.0, 0.0, -0.01), v(0.0, 0.002, 0.0)),
        (v(100.0, -50.0, 7.0), v(-20.0, 30.0, 1.0), v(0.3, 0.4, 0.5)),
        (v(0.0, 0.0, 0.0), v(0.0, 1.0, -0.002), v(0.0, 1.0, 0.0)),
        (v(3.0, 1.0, 2.0), v(2.0, 0.0, 1.0), v(500000.0, 520000.0, 510000.0)),
    ];
    for (from, at, up) in views {
        let mut c = Camera::new(fx(1.5), 30, "a");
        c.set_view(from, at, up);
        assert_eq!(c.prepare(&world), Ok(()));
        let (right, upward, back) = c.basis();
        assert!(upward.dot(&back).raw().abs() <= 8);
        assert!(upward.dot(&right).raw().abs() <= 8);
        assert!(right.dot(&back).raw().abs() <= 6149);
        let sq = upward.norm_squared();
        let one = ONE as u128;
        assert!((one - 32) * (one - 32) <= sq && sq <= (one + 32) * (one + 32));
        for a in [right, back] {
            let sq = a.norm_squared();
            assert!((one - 4) * (one - 4) <= sq && sq < (one + 1) * (one + 1));
        }
    }
}
