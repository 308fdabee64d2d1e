use raytracer::color::Color;
use raytracer::fixed::Fixed;
use raytracer::material::{DefaultMaterial, Dieletric, Lambertian, Material, MaterialKind, Metal};
use raytracer::ray::{HitRecord, Ray};
use raytracer::vec::{Vec3, VecTypes};

const ONE: i64 = 1 << 32;

fn fx(x: f64) -> Fixed {
    Fixed::from_raw((x * ONE as f64).round() as i64)
}

fn val(x: Fixed) -> f64 {
    x.raw() as f64 / ONE as f64
}

fn v(x: f64, y: f64, z: f64) -> Vec3 {
    Vec3::new(VecTypes::Coordinates, fx(x), fx(y), fx(z))
}

fn raws(a: Vec3) -> [i64; 3] {
    [a.x.raw(), a.y.raw(), a.z.raw()]
}

fn len(a: Vec3) -> f64 {
    (val(a.x).powi(2) + val(a.y).powi(2) + val(a.z).powi(2)).sqrt()
}

/// A hit at the origin of space on a surface whose normal is the y axis.
fn floor_hit(front_face: bool) -> HitRecord {
    let mut rec = HitRecord::default();
    rec.point = v(0.0, 0.0, 0.0);
    rec.normal = v(0.0, 1.0, 0.0);
    rec.t = fx(1.0);
    rec.front_face = front_face;
    rec
}

fn falling_ray() -> Ray {
    Ray::new(v(-3.0, 4.0, 0.0), v(3.0, -4.0, 0.0))
}

#[test]
fn default_material_reports_a_scatter_and_changes_nothing() {
    let m = DefaultMaterial {};
    let mut out = Ray::new(v(1.0, 2.0, 3.0), v(4.0, 5.0, 6.0));
    let mut att = Color::new(fx(0.1), fx(0.2), fx(0.3));
    assert!(m.reflect(&falling_ray(), &mut out, &floor_hit(true), &mut att));
    assert_eq!(raws(out.origin), raws(v(1.0, 2.0, 3.0)));
    assert_eq!(raws(out.direction), raws(v(4.0, 5.0, 6.0)));
    assert_eq!(raws(att.rgb), [fx(0.1).raw(), fx(0.2).raw(), fx(0.3).raw()]);
    assert!(matches!(*m.clone_box(), MaterialKind::Default(_)));
}

#[test]
fn lambertian_adds_the_sample_to_the_normal() {
    let m = Lambertian::new(Color::new(fx(0.5), fx(0.5), fx(0.5)));
    let r = m.scatter_with(&floor_hit(true), v(0.6, 0.0, 0.8));
    assert_eq!(raws(r.origin), [0, 0, 0]);
    assert_eq!(raws(r.direction), raws(v(0.6, 1.0, 0.8)));
}

#[test]
fn lambertian_falls_back_to_the_normal() {
    let m = Lambertian::new(Color::new(fx(0.5), fx(0.5), fx(0.5)));
    let r = m.scatter_with(&floor_hit(true), v(0.0, -1.0, 0.0));
    assert_eq!(raws(r.direction), raws(v(0.0, 1.0, 0.0)));
    let nearly = Vec3::new(
        VecTypes::Coordinates,
        Fixed::from_raw(10),
        Fixed::from_raw(-ONE + 20),
        Fixed::from_raw(-42),
    );
    let r = m.scatter_with(&floor_hit(true), nearly);
    assert_eq!(raws(r.direction), raws(v(0.0, 1.0, 0.0)));
}

#[test]
fn lambertian_always_scatters_with_its_albedo() {
    let m = Lambertian::new(Color::new(fx(0.8), fx(0.3), fx(0.1)));
    for _ in 0..100 {
        let mut out = Ray::default();
        let mut att = Color::default();
        assert!(m.reflect(&falling_ray(), &mut out, &floor_hit(true), &mut att));
        assert_eq!(raws(att.rgb), [fx(0.8).raw(), fx(0.3).raw(), fx(0.1).raw()]);
        assert_eq!(raws(out.origin), [0, 0, 0]);
        let sample = out.direction.sub(v(0.0, 1.0, 0.0));
        assert!((len(sample) - 1.0).abs() < 1e-6);
        assert!(!out.direction.near_zero());
    }
}

#[test]
fn metal_clamps_its_fuzz() {
    let albedo = Color::new(fx(0.8), fx(0.8), fx(0.8));
    assert_eq!(Metal::new(albedo, fx(0.3)).fuzz().raw(), fx(0.3).raw());
    assert_eq!(Metal::new(albedo, fx(2.0)).fuzz().raw(), ONE);
    assert_eq!(Metal::new(albedo, fx(-1.0)).fuzz().raw(), 0);
    assert_eq!(Metal::new(albedo, fx(1.0)).fuzz().raw(), ONE);
}

#[test]
fn metal_without_fuzz_is_a_mirror() {
    let m = Metal::new(Color::new(fx(0.8), fx(0.6), fx(0.2)), fx(0.0));
    let unit = falling_ray().direction.unit_vec();
    let mirror = unit.reflected_vec(&v(0.0, 1.0, 0.0));
    assert_eq!(raws(mirror), [unit.x.raw(), -unit.y.raw(), 0]);
    for _ in 0..50 {
        let mut out = Ray::default();
        let mut att = Color::default();
        assert!(m.reflect(&falling_ray(), &mut out, &floor_hit(true), &mut att));
        assert_eq!(raws(out.direction), raws(mirror));
        assert_eq!(raws(out.origin), [0, 0, 0]);
        assert_eq!(raws(att.rgb), [fx(0.8).raw(), fx(0.6).raw(), fx(0.2).raw()]);
    }
    assert!((val(mirror.x) - 0.6).abs() < 1e-8);
    assert!((val(mirror.y) - 0.8).abs() < 1e-8);
}

#[test]
fn metal_adds_the_sample_scaled_by_the_fuzz() {
    let m = Metal::new(Color::new(fx(0.8), fx(0.6), fx(0.2)), fx(0.5));
    let mirror = falling_ray().direction.unit_vec().reflected_vec(&v(0.0, 1.0, 0.0));
    let r = m.scatter_with(&falling_ray(), &floor_hit(true), v(0.0, 0.0, 1.0));
    assert_eq!(raws(r.direction), raws(mirror.add(v(0.0, 0.0, 0.5))));
}

#[test]
fn fuzzy_metal_stays_within_its_fuzz_of_the_mirror() {
    let m = Metal::new(Color::new(fx(0.8), fx(0.6), fx(0.2)), fx(0.25));
    let mirror = falling_ray().direction.unit_vec().reflected_vec(&v(0.0, 1.0, 0.0));
    let mut moved = false;
    for _ in 0..50 {
        let mut out = Ray::default();
        let mut att = Color::default();
        assert!(m.reflect(&falling_ray(), &mut out, &floor_hit(true), &mut att));
        let off = len(out.direction.sub(mirror));
        assert!((off - 0.25).abs() < 1e-6);
        moved = moved || off > 0.0;
    }
    assert!(moved);
}

#[test]
fn reflectance_of_glass() {
    let glass = Dieletric::new(fx(1.5));
    // Head on: ((1 - 1.5) / (1 + 1.5))^2 = 0.04.
    assert_eq!(glass.reflectance(fx(1.0)).raw(), 171798691);
    // Grazing: everything is reflected.
    assert!((val(glass.reflectance(fx(0.0))) - 1.0).abs() < 1e-8);
    let mid = 0.04 + 0.96 * 0.5f64.powi(5);
    assert!((val(glass.reflectance(fx(0.5))) - mid).abs() < 1e-8);
}

#[test]
fn reflectance_of_matched_media_is_the_fifth_power() {
    let same = Dieletric::new(fx(1.0));
    assert_eq!(same.reflectance(fx(1.0)).raw(), 0);
    assert_eq!(same.reflectance(fx(0.5)).raw(), fx(0.5).powi(5).raw());
    assert_eq!(same.reflectance(fx(0.0)).raw(), ONE);
}

#[test]
fn matched_media_let_a_head_on_ray_through() {
    let same = Dieletric::new(fx(1.0));
    let down = Ray::new(v(0.0, 2.0, 0.0), v(0.0, -2.0, 0.0));
    for draw in [0.0, 0.25, 0.5, 0.999] {
        for front in [true, false] {
            let r = same.scatter_with(&down, &floor_hit(front), fx(draw));
            assert_eq!(raws(r.direction), raws(v(0.0, -1.0, 0.0)));
            assert_eq!(raws(r.origin), [0, 0, 0]);
        }
    }
    for _ in 0..50 {
        let mut out = Ray::default();
        let mut att = Color::default();
        assert!(same.reflect(&down, &mut out, &floor_hit(true), &mut att));
        assert_eq!(raws(out.direction), raws(v(0.0, -1.0, 0.0)));
        assert_eq!(raws(att.rgb), [ONE, ONE, ONE]);
        assert_eq!(att.rgb.typ, VecTypes::Color);
    }
}

#[test]
fn matched_media_refract_unless_the_draw_is_below_the_reflectance() {
    let same = Dieletric::new(fx(1.0));
    let ray = falling_ray();
    let unit = ray.direction.unit_vec();
    let cos = unit.neg().dot(&v(0.0, 1.0, 0.0)).min(&Fixed::one());
    let reflectance = same.reflectance(cos);
    assert!((val(reflectance) - 0.2f64.powi(5)).abs() < 1e-8);
    let through = unit.refract(&v(0.0, 1.0, 0.0), fx(1.0));
    let back = unit.reflected_vec(&v(0.0, 1.0, 0.0));
    // A draw at the reflectance or above goes through.
    let r = same.scatter_with(&ray, &floor_hit(true), reflectance);
    assert_eq!(raws(r.direction), raws(through));
    let r = same.scatter_with(&ray, &floor_hit(true), fx(0.999));
    assert_eq!(raws(r.direction), raws(through));
    // A draw below the reflectance is reflected.
    let r = same.scatter_with(&ray, &floor_hit(true), Fixed::zero());
    assert_eq!(raws(r.direction), raws(back));
    // Going through matched media does not bend the ray.
    assert!((val(through.x) - 0.6).abs() < 1e-6);
    assert!((val(through.y) + 0.8).abs() < 1e-6);
}

#[test]
fn glass_reflects_totally_from_inside_at_a_flat_angle() {
    let glass = Dieletric::new(fx(1.5));
    let flat = Ray::new(v(-4.0, 3.0, 0.0), v(4.0, -3.0, 0.0));
    let unit = flat.direction.unit_vec();
    // sin = 0.8 and 1.5 * 0.8 > 1: no draw lets the ray out.
    for draw in [0.0, 0.5, 0.999] {
        let r = glass.scatter_with(&flat, &floor_hit(false), fx(draw));
        assert_eq!(raws(r.direction), raws(unit.reflected_vec(&v(0.0, 1.0, 0.0))));
    }
    // Entering the glass at the same angle, a high draw refracts.
    let r = glass.scatter_with(&flat, &floor_hit(true), fx(0.999));
    assert_eq!(raws(r.direction), raws(unit.refract(&v(0.0, 1.0, 0.0), fx(1.0).div(&fx(1.5)))));
    assert!(val(r.direction.y) < 0.0);
}

#[test]
fn material_kind_behaves_like_the_material_it_holds() {
    let metal = Metal::new(Color::new(fx(0.8), fx(0.6), fx(0.2)), fx(0.0));
    let boxed = metal.clone_box();
    let again = boxed.clone_box();
    for m in [boxed, again] {
        let mut out = Ray::default();
        let mut att = Color::default();
        assert!(m.reflect(&falling_ray(), &mut out, &floor_hit(true), &mut att));
        let mirror = falling_ray().direction.unit_vec().reflected_vec(&v(0.0, 1.0, 0.0));
        assert_eq!(raws(out.direction), raws(mirror));
        assert_eq!(raws(att.rgb), [fx(0.8).raw(), fx(0.6).raw(), fx(0.2).raw()]);
    }
    assert!(matches!(
        *Lambertian::new(Color::default()).clone_box(),
        MaterialKind::Lambertian(_)
    ));
    assert!(matches!(*Dieletric::new(fx(1.5)).clone_box(), MaterialKind::Dieletric(_)));
}

#[test]
fn reflectance_takes_the_ratio_of_the_indices() {
    let glass = Dieletric::new(fx(1.5));
    // The ratio and its inverse give the same reflectance, but for rounding.
    let out = Dieletric::reflectance_at(fx(1.5), fx(1.0));
    let into = Dieletric::reflectance_at(fx(1.0).div(&fx(1.5)), fx(1.0));
    assert_eq!(out.raw(), glass.reflectance(fx(1.0)).raw());
    assert!((val(into) - 0.04).abs() < 1e-8);
    assert!((val(out) - 0.04).abs() < 1e-8);
    assert_eq!(Dieletric::reflectance_at(fx(1.0), fx(0.5)).raw(), fx(0.5).powi(5).raw());
}

#[test]
fn a_short_incoming_ray_is_mirrored_like_a_long_one() {
    let m = Metal::new(Color::new(fx(0.8), fx(0.6), fx(0.2)), fx(0.0));
    let long = Ray::new(v(-3.0, 4.0, 0.0), v(3.0, -4.0, 0.0));
    let short = Ray::new(
        v(-3.0, 4.0, 0.0),
        Vec3::new(VecTypes::Coordinates, Fixed::from_raw(30), Fixed::from_raw(-40), Fixed::zero()),
    );
    let a = m.scatter_with(&long, &floor_hit(true), v(1.0, 0.0, 0.0));
    let b = m.scatter_with(&short, &floor_hit(true), v(1.0, 0.0, 0.0));
    assert_eq!(raws(a.direction), raws(b.direction));
    assert!((len(b.direction) - 1.0).abs() < 1e-8);
}
