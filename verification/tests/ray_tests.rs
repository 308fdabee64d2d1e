use raytracer::color::Color;
use raytracer::fixed::Fixed;
use raytracer::material::{Dieletric, Lambertian, Material, MaterialKind, Metal};
use raytracer::ray::{HitRecord, Hittable, HittableList, Ray, Sphere};
use raytracer::vec::{Vec3, VecTypes};

const ONE: i64 = 1 << 32;

fn fx(x: f64) -> Fixed {
    Fixed::from_raw((x * ONE as f64).round() as i64)
}

fn val(x: Fixed) -> f64 {
    x.raw() as f64 / ONE as f64
}

fn v(x: f64, y: f64, z: f64) -> Vec3 {
    Vec3::new(VecTypes::Coordinates, fx(x), fx(y), fx(z))
}

fn raws(a: Vec3) -> [i64; 3] {
    [a.x.raw(), a.y.raw(), a.z.raw()]
}

fn grey() -> Box<MaterialKind> {
    Lambertian::new(Color::new(fx(0.5), fx(0.5), fx(0.5))).clone_box()
}

fn sphere(x: f64, y: f64, z: f64, r: f64) -> Sphere {
    Sphere::new(v(x, y, z), fx(r), grey())
}

fn inf() -> Fixed {
    Fixed::max_value()
}

#[test]
fn ray_at_walks_along_the_direction() {
    let r = Ray::new(v(1.0, 2.0, 3.0), v(0.5, 0.0, -1.0));
    assert_eq!(raws(r.at(fx(2.0))), raws(v(2.0, 2.0, 1.0)));
    assert_eq!(raws(r.at(fx(0.0))), raws(v(1.0, 2.0, 3.0)));
    assert_eq!(raws(r.at(fx(-1.0))), raws(v(0.5, 2.0, 4.0)));
}

#[test]
fn default_ray_rests_at_the_origin() {
    let r = Ray::default();
    assert_eq!(raws(r.origin), [0, 0, 0]);
    assert_eq!(raws(r.direction), [0, 0, 0]);
    assert_eq!(r.origin.typ, VecTypes::Coordinates);
}

#[test]
fn sphere_hit_from_outside_reports_the_near_root() {
    let s = sphere(0.0, 0.0, -1.0, 0.5);
    let r = Ray::new(v(0.0, 0.0, 0.0), v(0.0, 0.0, -1.0));
    let mut rec = HitRecord::default();
    assert!(s.hit(&r, inf(), fx(0.001), &mut rec));
    assert_eq!(rec.t.raw(), fx(0.5).raw());
    assert_eq!(raws(rec.point), raws(v(0.0, 0.0, -0.5)));
    assert_eq!(raws(rec.normal), raws(v(0.0, 0.0, 1.0)));
    assert!(rec.front_face);
}

#[test]
fn ray_towards_the_centre_hits_the_front_face() {
    let centre = v(2.0, -1.0, -4.0);
    let s = Sphere::new(centre, fx(1.5), grey());
    let origin = v(-1.0, 3.0, 2.0);
    let r = Ray::new(origin, centre.sub(origin));
    let mut rec = HitRecord::default();
    assert!(s.hit(&r, inf(), fx(0.001), &mut rec));
    assert!(rec.front_face);
    // The normal points away from the centre: along the hit point minus the centre.
    let away = rec.point.sub(centre);
    assert!(rec.normal.dot(&away).raw() > 0);
    assert!(rec.normal.dot(&r.direction).raw() < 0);
    assert!(val(rec.t) > 0.0 && val(rec.t) < 1.0);
}

#[test]
fn hit_point_lies_on_the_sphere() {
    let centre = v(2.0, -1.0, -4.0);
    let s = Sphere::new(centre, fx(1.5), grey());
    for (ox, oy, oz) in [(-1.0, 3.0, 2.0), (10.0, 0.5, -3.0), (2.1, -0.9, 5.0)] {
        let origin = v(ox, oy, oz);
        let r = Ray::new(origin, centre.sub(origin).unit_vec());
        let mut rec = HitRecord::default();
        assert!(s.hit(&r, inf(), fx(0.001), &mut rec));
        let d = rec.point.sub(centre).vec_length();
        assert!((val(d) - 1.5).abs() < 1e-6);
        assert!((val(rec.normal.vec_length()) - 1.0).abs() < 1e-6);
    }
}

#[test]
fn sphere_hit_from_inside_reports_the_far_root() {
    let s = sphere(0.0, 0.0, -1.0, 0.5);
    let r = Ray::new(v(0.0, 0.0, -1.0), v(0.0, 0.0, -1.0));
    let mut rec = HitRecord::default();
    assert!(s.hit(&r, inf(), fx(0.001), &mut rec));
    assert_eq!(rec.t.raw(), fx(0.5).raw());
    assert_eq!(raws(rec.point), raws(v(0.0, 0.0, -1.5)));
    assert!(!rec.front_face);
    assert_eq!(raws(rec.normal), raws(v(0.0, 0.0, 1.0)));
}

#[test]
fn sphere_miss_leaves_the_record_alone() {
    let s = sphere(0.0, 0.0, -1.0, 0.5);
    let r = Ray::new(v(0.0, 0.0, 0.0), v(0.0, 1.0, 0.0));
    let mut rec = HitRecord::default();
    rec.t = fx(7.0);
    assert!(!s.hit(&r, inf(), fx(0.001), &mut rec));
    assert_eq!(rec.t.raw(), fx(7.0).raw());
}

#[test]
fn roots_on_the_bounds_are_rejected() {
    let s = sphere(0.0, 0.0, -1.0, 0.5);
    let r = Ray::new(v(0.0, 0.0, 0.0), v(0.0, 0.0, -1.0));
    let mut rec = HitRecord::default();
    // The roots are 0.5 and 1.5.
    assert!(!s.hit(&r, fx(0.5), fx(0.001), &mut rec));
    assert!(s.hit(&r, fx(0.5 + 1e-6), fx(0.001), &mut rec));
    assert_eq!(rec.t.raw(), fx(0.5).raw());
    assert!(s.hit(&r, inf(), fx(0.5), &mut rec));
    assert_eq!(rec.t.raw(), fx(1.5).raw());
    assert!(!rec.front_face);
    assert!(!s.hit(&r, fx(1.5), fx(0.5), &mut rec));
    assert!(!s.hit(&r, inf(), fx(1.5), &mut rec));
}

#[test]
fn sphere_behind_the_ray_is_not_hit() {
    let s = sphere(0.0, 0.0, 1.0, 0.5);
    let r = Ray::new(v(0.0, 0.0, 0.0), v(0.0, 0.0, -1.0));
    let mut rec = HitRecord::default();
    assert!(!s.hit(&r, inf(), fx(0.001), &mut rec));
}

#[test]
fn negative_radius_counts_as_zero() {
    assert!(sphere(0.0, 0.0, -1.0, -2.0).degenerate());
    assert!(sphere(0.0, 0.0, -1.0, 0.0).degenerate());
    assert!(!sphere(0.0, 0.0, -1.0, 0.5).degenerate());
}

#[test]
fn set_face_normal_turns_the_normal_against_the_ray() {
    let mut rec = HitRecord::default();
    let r = Ray::new(v(0.0, 0.0, 0.0), v(0.0, 0.0, -1.0));
    rec.set_face_normal(&r, v(0.0, 0.0, 1.0));
    assert!(rec.front_face);
    assert_eq!(raws(rec.normal), raws(v(0.0, 0.0, 1.0)));
    rec.set_face_normal(&r, v(0.0, 0.0, -1.0));
    assert!(!rec.front_face);
    assert_eq!(raws(rec.normal), raws(v(0.0, 0.0, 1.0)));
    // A ray along the surface counts as leaving it.
    rec.set_face_normal(&r, v(1.0, 0.0, 0.0));
    assert!(!rec.front_face);
    assert_eq!(raws(rec.normal), raws(v(-1.0, 0.0, 0.0)));
}

#[test]
fn empty_scene_is_never_hit() {
    let world = HittableList::new();
    assert_eq!(world.len(), 0);
    let r = Ray::new(v(0.0, 0.0, 0.0), v(0.0, 0.0, -1.0));
    let mut rec = HitRecord::default();
    rec.t = fx(3.0);
    assert!(!world.hit(&r, inf(), fx(0.001), &mut rec));
    assert_eq!(rec.t.raw(), fx(3.0).raw());
    assert!(!world.degenerate());
}

#[test]
fn scene_reports_the_nearest_sphere_in_either_order() {
    let near = || sphere(0.0, 0.0, -2.0, 0.5);
    let far = || sphere(0.0, 0.0, -5.0, 1.0);
    let r = Ray::new(v(0.0, 0.0, 0.0), v(0.0, 0.0, -1.0));

    let mut a = HittableList::new();
    a.add(near().to_box());
    a.add(far().to_box());
    let mut b = HittableList::new();
    b.add(far().to_box());
    b.add(near().to_box());
    assert_eq!(a.len(), 2);

    let mut ra = HitRecord::default();
    let mut rb = HitRecord::default();
    assert!(a.hit(&r, inf(), fx(0.001), &mut ra));
    assert!(b.hit(&r, inf(), fx(0.001), &mut rb));
    assert_eq!(ra.t.raw(), fx(1.5).raw());
    assert_eq!(rb.t.raw(), fx(1.5).raw());
    assert_eq!(raws(ra.point), raws(rb.point));
    assert_eq!(raws(ra.normal), raws(rb.normal));
}

#[test]
fn scene_respects_the_bounds() {
    let mut world = HittableList::new();
    world.add(sphere(0.0, 0.0, -2.0, 0.5).to_box());
    world.add(sphere(0.0, 0.0, -5.0, 1.0).to_box());
    let r = Ray::new(v(0.0, 0.0, 0.0), v(0.0, 0.0, -1.0));
    let mut rec = HitRecord::default();
    // Behind the first sphere: the second one is hit on its front.
    assert!(world.hit(&r, inf(), fx(3.0), &mut rec));
    assert_eq!(rec.t.raw(), fx(4.0).raw());
    assert!(rec.front_face);
    assert!(!world.hit(&r, fx(1.0), fx(0.001), &mut rec));
}

#[test]
fn scene_with_a_point_sphere_is_degenerate() {
    let mut world = HittableList::new();
    world.add(sphere(0.0, 0.0, -2.0, 0.5).to_box());
    assert!(!world.degenerate());
    world.add(sphere(0.0, 0.0, -5.0, 0.0).to_box());
    assert!(world.degenerate());
}

#[test]
fn hit_record_carries_the_material_of_the_sphere() {
    let metal = Metal::new(Color::new(fx(0.8), fx(0.6), fx(0.2)), fx(0.0)).clone_box();
    let s = Sphere::new(v(0.0, 0.0, -1.0), fx(0.5), metal);
    let r = Ray::new(v(0.0, 0.0, 0.0), v(0.0, 0.0, -1.0));
    let mut rec = HitRecord::default();
    assert!(matches!(*rec.mat, MaterialKind::Default(_)));
    assert!(s.hit(&r, inf(), fx(0.001), &mut rec));
    assert!(matches!(*rec.mat, MaterialKind::Metal(_)));
    let copy = rec.clone();
    assert!(matches!(*copy.mat, MaterialKind::Metal(_)));
    assert_eq!(copy.t.raw(), rec.t.raw());
    assert_eq!(raws(copy.point), raws(rec.point));
    assert_eq!(copy.front_face, rec.front_face);

    let glass = Sphere::new(v(0.0, 0.0, -1.0), fx(0.5), Dieletric::new(fx(1.5)).clone_box());
    assert!(glass.hit(&r, inf(), fx(0.001), &mut rec));
    assert!(matches!(*rec.mat, MaterialKind::Dieletric(_)));
}

fn close(a: Vec3, b: Vec3, tol: f64) -> bool {
    (val(a.x) - val(b.x)).abs() <= tol
        && (val(a.y) - val(b.y)).abs() <= tol
        && (val(a.z) - val(b.z)).abs() <= tol
}

fn raw_dir(x: i64, y: i64, z: i64) -> Vec3 {
    Vec3::new(VecTypes::Coordinates, Fixed::from_raw(x), Fixed::from_raw(y), Fixed::from_raw(z))
}

#[test]
fn a_short_direction_hits_the_same_point() {
    let s = sphere(0.0, 0.0, -3.0, 1.0);
    let unit = Ray::new(v(0.0, 0.0, 0.0), v(0.0, 0.0, -1.0));
    let short = Ray::new(v(0.0, 0.0, 0.0), raw_dir(0, 0, -70000));
    let mut a = HitRecord::default();
    let mut b = HitRecord::default();
    assert!(s.hit(&unit, inf(), fx(0.001), &mut a));
    assert!(s.hit(&short, inf(), fx(0.001), &mut b));
    assert_eq!(a.t.raw(), fx(2.0).raw());
    assert_eq!(raws(a.point), raws(v(0.0, 0.0, -2.0)));
    // The parameter grows as the direction shrinks: 2 / (70000 / 2^32).
    assert!((val(b.t) - 2.0 * 4294967296.0 / 70000.0).abs() < 1e-3);
    assert!(close(b.point, a.point, 1e-8));
    assert!(close(b.normal, v(0.0, 0.0, 1.0), 1e-8));
    assert!(b.front_face);
    let d = b.point.sub(v(0.0, 0.0, -3.0)).vec_length();
    assert!((val(d) - 1.0).abs() < 1e-8);
}

#[test]
fn directions_of_every_length_hit_the_same_point() {
    // Whole multiples of one short direction are parallel to it exactly.
    let centre = v(2.0, -1.0, -4.0);
    let s = Sphere::new(centre, fx(1.5), grey());
    let origin = v(-1.0, 3.0, 2.0);
    let mut want = HitRecord::default();
    assert!(s.hit(&Ray::new(origin, raw_dir(3000, -4000, -6000)), inf(), fx(0.0), &mut want));
    assert!((val(want.point.sub(centre).vec_length()) - 1.5).abs() < 1e-6);
    assert!(want.front_face);
    for k in [1i64, 7, 1000, 70000, 1 << 20, 1 << 22, 1 << 30, 1 << 40, 1 << 49] {
        let r = Ray::new(origin, raw_dir(3000 * k, -4000 * k, -6000 * k));
        let mut rec = HitRecord::default();
        assert!(s.hit(&r, inf(), fx(0.0), &mut rec), "k = {}", k);
        assert!(close(rec.point, want.point, 1e-6), "k = {}", k);
        assert!(close(rec.normal, want.normal, 1e-6), "k = {}", k);
        assert_eq!(rec.front_face, want.front_face);
        assert!(rec.t.raw() > 0);
    }
}

#[test]
fn hit_point_is_the_point_of_the_ray_along_a_short_direction() {
    let centre = v(2.0, -1.0, -4.0);
    let s = Sphere::new(centre, fx(1.5), grey());
    let origin = v(-1.0, 3.0, 2.0);
    for k in [1i64, 7, 1000, 70000, 1 << 17] {
        let r = Ray::new(origin, raw_dir(3000 * k, -4000 * k, -6000 * k));
        let mut rec = HitRecord::default();
        assert!(s.hit(&r, inf(), fx(0.0), &mut rec));
        assert_eq!(raws(rec.point), raws(r.at(rec.t)));
    }
}

#[test]
fn hit_points_lie_on_the_sphere_for_short_and_long_directions() {
    let centre = v(0.5, -2.0, -6.0);
    let s = Sphere::new(centre, fx(2.0), grey());
    for &(x, y, z) in &[
        (-30000i64, 120000i64, 360000i64),
        (-3, 12, 36),
        (-1 << 30, 1 << 32, 3 << 32),
        (-1 << 40, 1 << 42, 3 << 42),
        (-1 << 50, 1 << 52, 3 << 52),
    ] {
        let r = Ray::new(v(0.0, 0.0, 0.0), raw_dir(x, -y, -z));
        let mut rec = HitRecord::default();
        assert!(s.hit(&r, inf(), fx(0.0), &mut rec), "{} {} {}", x, y, z);
        let d = val(rec.point.sub(centre).vec_length());
        assert!((d - 2.0).abs() < 1e-6, "{} {} {}: {}", x, y, z, d);
        let n = val(rec.normal.vec_length());
        assert!((n - 1.0).abs() < 1e-6);
    }
}

#[test]
fn a_hit_beyond_the_largest_parameter_is_not_reported() {
    // The direction is so short that the parameter of the hit cannot be held.
    let s = sphere(0.0, 0.0, -30.0, 1.0);
    let r = Ray::new(v(0.0, 0.0, 0.0), raw_dir(0, 0, -1));
    let mut rec = HitRecord::default();
    assert!(!s.hit(&r, inf(), fx(0.0), &mut rec));
}

#[test]
fn a_ray_without_direction_hits_nothing() {
    let s = sphere(0.0, 0.0, 0.0, 1.0);
    let r = Ray::new(v(0.0, 0.0, 0.0), v(0.0, 0.0, 0.0));
    let mut rec = HitRecord::default();
    assert!(!s.hit(&r, inf(), fx(-1.0), &mut rec));
}

#[test]
fn far_and_large_spheres_are_hit_on_their_surface() {
    for &(dist, radius, side) in &[
        (50000.0f64, 1.0f64, 0.5f64),
        (50000.0, 1.0, 0.0),
        (3000.0, 40.0, 10.0),
        (1.0e6, 500.0, 100.0),
        (2.0e8, 1.0e6, 3.0e5),
        (10.0, 1.0e7, 0.0),
    ] {
        let centre = v(side, 0.0, -dist);
        let s = Sphere::new(centre, fx(radius), grey());
        let r = Ray::new(v(0.0, 0.0, 0.0), v(0.0, 0.0, -1.0));
        let mut rec = HitRecord::default();
        assert!(s.hit(&r, inf(), fx(0.001), &mut rec), "{} {} {}", dist, radius, side);
        let d = val(rec.point.sub(centre).vec_length());
        let scale = dist.max(radius);
        assert!((d - radius).abs() < 1e-8 * scale * scale / radius + 1e-6, "{} {}: {}", dist, radius, d);
    }
    // A ray that passes a far sphere at more than its radius misses it.
    let s = Sphere::new(v(1.5, 0.0, -50000.0), fx(1.0), grey());
    let r = Ray::new(v(0.0, 0.0, 0.0), v(0.0, 0.0, -1.0));
    let mut rec = HitRecord::default();
    assert!(!s.hit(&r, inf(), fx(0.001), &mut rec));
}

/// The stated bound on the squared distance of a hit point from the
/// centre, in squared numerators: `3 s^2 / 2^32 + 138 |s| + 66 m + 11 * 2^32 + 135`.
fn surface_slack(s: f64, m: f64) -> f64 {
    3.0 * s * s / 4294967296.0 + 138.0 * s.abs() + 66.0 * m + 11.0 * 4294967296.0 + 135.0
}

#[test]
fn hit_points_stay_within_the_stated_slack() {
    let spheres = [
        (v(0.0, 0.0, -3.0), 1.0),
        (v(2.0, -1.0, -4.0), 1.5),
        (v(0.0, -100.5, -1.0), 100.0),
        (v(300.0, 200.0, -1500.0), 40.0),
        (v(0.3, 0.2, -0.9), 0.004),
        (v(0.1, 0.1, 0.1), 900.0),
    ];
    let mut hits = 0;
    for (centre, radius) in spheres {
        let s = Sphere::new(centre, fx(radius), grey());
        for k in 0..40 {
            // Directions of reach between one half and one are gauged by one.
            let aim = centre.unit_vec();
            let wobble = v(0.003 * k as f64, -0.002 * k as f64, 0.001 * k as f64);
            let d = aim.add(wobble.mul(fx(radius / 50.0))).unit_vec();
            if d.reach() < ONE / 2 || d.reach() >= ONE {
                continue;
            }
            let r = Ray::new(v(0.0, 0.0, 0.0), d);
            let mut rec = HitRecord::default();
            if !s.hit(&r, inf(), fx(0.0), &mut rec) {
                continue;
            }
            hits += 1;
            let away = rec.point.sub(centre);
            let n = away.norm_squared() as f64;
            let r2 = (fx(radius).raw() as f64).powi(2);
            let m = centre.reach() as f64;
            let slack = surface_slack(rec.t.raw() as f64, m);
            assert!((n - r2).abs() <= slack, "{} {}: {} > {}", radius, k, (n - r2).abs(), slack);
            // The normal is one long within its own slack.
            let rad = fx(radius).raw() as f64;
            let one = ONE as f64;
            let nn = rec.normal.norm_squared() as f64;
            let normal_slack = slack * one * one
                + 6.0 * rad * one * (2.0 * (rec.t.raw() as f64).abs() + m + 1.0)
                + 3.0 * rad * rad;
            if radius >= 1.0 / 256.0 {
                assert!(
                    (rad * rad * (nn - one * one)).abs() <= normal_slack,
                    "{} {}: {} > {} (n - r2 = {}, surface {})",
                    radius,
                    k,
                    (rad * rad * (nn - one * one)).abs(),
                    normal_slack,
                    n - r2,
                    slack
                );
            }
        }
    }
    assert!(hits > 100);
}

#[test]
fn the_side_of_a_hit_is_told_for_directions_of_every_length() {
    let short = Ray::new(v(0.0, 0.0, 0.0), raw_dir(0, 0, -1));
    let long = Ray::new(v(0.0, 0.0, 0.0), raw_dir(0, 0, -i64::MAX));
    for r in [short, long] {
        let mut rec = HitRecord::default();
        rec.set_face_normal(&r, v(0.3, 0.0, 0.5));
        assert!(rec.front_face);
        assert_eq!(raws(rec.normal), raws(v(0.3, 0.0, 0.5)));
        rec.set_face_normal(&r, v(0.3, 0.0, -0.5));
        assert!(!rec.front_face);
        assert_eq!(raws(rec.normal), raws(v(-0.3, 0.0, 0.5)));
    }
}

#[test]
fn a_ray_enters_through_a_front_face_in_every_direction() {
    let s = sphere(0.0, 0.0, -3.0, 1.0);
    let dirs = [
        v(0.0, 0.0, -1.0),
        v(0.2, 0.1, -1.0),
        v(-0.25, 0.15, -1.0),
        v(0.002, -0.001, -0.01),
        v(300.0, 100.0, -1500.0),
    ];
    for d in dirs {
        let r = Ray::new(v(0.0, 0.0, 0.0), d);
        let mut rec = HitRecord::default();
        assert!(s.hit(&r, inf(), fx(0.001), &mut rec));
        assert!(rec.front_face);
        let away = rec.point.sub(v(0.0, 0.0, -3.0));
        assert_eq!(raws(rec.normal), raws(away.div(fx(1.0))));
        assert!(r.direction.gauged().dot(&rec.normal).raw() < 0);
        assert!(rec.normal.dot(&away).raw() > 0);
    }
}

#[test]
fn a_ray_leaves_through_a_back_face() {
    let s = sphere(0.0, 0.0, -3.0, 1.0);
    let r = Ray::new(v(0.0, 0.0, 0.0), v(0.2, 0.1, -1.0));
    let mut first = HitRecord::default();
    assert!(s.hit(&r, inf(), fx(0.001), &mut first));
    let mut rec = HitRecord::default();
    assert!(s.hit(&r, inf(), first.t, &mut rec));
    assert!(rec.t.raw() > first.t.raw());
    assert!(!rec.front_face);
    let away = rec.point.sub(v(0.0, 0.0, -3.0));
    let outward = away.div(fx(1.0));
    assert_eq!(raws(rec.normal), raws(outward.neg()));
    assert!(outward.dot(&away).raw() > 0);
}

#[test]
fn directions_gauged_alike_hit_the_same_point_to_the_last_place() {
    let s = sphere(0.25, -0.5, -3.0, 1.0);
    let base = Ray::new(v(0.0, 0.0, 0.0), v(0.0625, -0.125, -1.0));
    let mut first = HitRecord::default();
    assert!(s.hit(&base, inf(), fx(0.001), &mut first));
    for (k, d) in [(0.5, v(0.125, -0.25, -2.0)), (4.0, v(0.015625, -0.03125, -0.25))] {
        let r = Ray::new(v(0.0, 0.0, 0.0), d);
        assert_eq!(raws(r.direction.gauged()), raws(base.direction.gauged()));
        let mut rec = HitRecord::default();
        assert!(s.hit(&r, inf(), fx(0.001), &mut rec));
        assert_eq!(raws(rec.point), raws(first.point));
        assert_eq!(raws(rec.normal), raws(first.normal));
        assert_eq!(rec.front_face, first.front_face);
        assert!((val(rec.t) - k * val(first.t)).abs() < 1e-9);
    }
}

#[test]
fn a_ray_fired_at_the_centre_of_a_small_far_sphere_hits_its_front() {
    let cases = [
        (v(1024.0, -512.0, -1536.0), 0.125, v(1.0, -0.5, -1.5)),
        (v(1024.0, -512.0, -1536.0), 0.125, v(0.001953125, -0.0009765625, -0.0029296875)),
        (v(0.0, 0.0, -2000.0), 0.125, v(0.0, 0.0, -1.0)),
        (v(3.0, 4.0, -12.0), 1.0, v(0.75, 1.0, -3.0).mul(fx(0.5))),
        (v(0.5, 0.0, 0.0), 0.125, v(1.0, 0.0, 0.0)),
        (v(1024.0, -512.0, -1536.0), 0.125, v(1024.0, -512.0, -1536.0)),
        (v(3.0, 4.0, -12.0), 1.0, v(393216.0, 524288.0, -1572864.0)),
    ];
    for (centre, radius, d) in cases {
        let s = Sphere::new(centre, fx(radius), grey());
        let r = Ray::new(v(0.0, 0.0, 0.0), d);
        let mut rec = HitRecord::default();
        assert!(s.hit(&r, inf(), fx(0.0), &mut rec));
        assert!(rec.front_face);
        let away = rec.point.sub(centre);
        assert_eq!(raws(rec.normal), raws(away.div(fx(radius))));
        assert!(r.direction.gauged().dot(&rec.normal).raw() < 0);
        assert!(rec.normal.dot(&away).raw() > 0);
        // The root along the gauged direction is at most four times the distance.
        let far = 4.0 * centre.vec_length().raw() as f64;
        let slack = surface_slack(far, centre.reach() as f64);
        let n = away.norm_squared() as f64;
        let r2 = (fx(radius).raw() as f64).powi(2);
        assert!((n - r2).abs() <= slack, "{} > {}", (n - r2).abs(), slack);
    }
}
