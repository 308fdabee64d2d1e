use raytracer::fixed::Fixed;
use raytracer::vec::{Vec3, VecTypes};

const ONE: i64 = 1 << 32;

fn fx(x: f64) -> Fixed {
    Fixed::from_raw((x * ONE as f64).round() as i64)
}

fn val(x: Fixed) -> f64 {
    x.raw() as f64 / ONE as f64
}

fn v(x: f64, y: f64, z: f64) -> Vec3 {
    Vec3::new(VecTypes::Coordinates, fx(x), fx(y), fx(z))
}

fn raws(a: Vec3) -> [i64; 3] {
    [a.x.raw(), a.y.raw(), a.z.raw()]
}

fn len(a: Vec3) -> f64 {
    (val(a.x).powi(2) + val(a.y).powi(2) + val(a.z).powi(2)).sqrt()
}

#[test]
fn new_keeps_tag_and_components() {
    let a = Vec3::new(VecTypes::Color, fx(1.0), fx(2.0), fx(3.0));
    assert_eq!(a.typ, VecTypes::Color);
    assert_eq!(a.get(0).raw(), ONE);
    assert_eq!(a.get(1).raw(), 2 * ONE);
    assert_eq!(a.get(2).raw(), 3 * ONE);
}

#[test]
fn default_vector_is_the_origin_of_space() {
    let a = Vec3::default();
    assert_eq!(a.typ, VecTypes::Coordinates);
    assert_eq!(raws(a), [0, 0, 0]);
    assert_eq!(VecTypes::default(), VecTypes::Coordinates);
}

#[test]
fn sum_adds_a_scalar_to_every_component() {
    assert_eq!(raws(v(1.0, -2.0, 0.5).sum(fx(1.5))), raws(v(2.5, -0.5, 2.0)));
}

#[test]
fn mul_and_div_scale_every_component() {
    assert_eq!(raws(v(1.0, -2.0, 0.5).mul(fx(4.0))), raws(v(4.0, -8.0, 2.0)));
    assert_eq!(raws(v(1.0, -2.0, 0.5).div(fx(4.0))), raws(v(0.25, -0.5, 0.125)));
    assert_eq!(raws(v(1.0, -2.0, 0.5).neg()), raws(v(-1.0, 2.0, -0.5)));
}

#[test]
fn add_and_sub_work_by_component() {
    let a = v(1.0, 2.0, 3.0);
    let b = v(0.5, -1.0, 4.0);
    assert_eq!(raws(a.add(b)), raws(v(1.5, 1.0, 7.0)));
    assert_eq!(raws(a.sub(b)), raws(v(0.5, 3.0, -1.0)));
    let mut c = a;
    c.add_assign(b);
    assert_eq!(raws(c), raws(v(1.5, 1.0, 7.0)));
}

#[test]
fn sum_keeps_the_tag_of_the_left_operand() {
    let a = Vec3::new(VecTypes::Color, fx(1.0), fx(1.0), fx(1.0));
    let b = v(1.0, 1.0, 1.0);
    assert_eq!(a.add(b).typ, VecTypes::Color);
    assert_eq!(b.add(a).typ, VecTypes::Coordinates);
}

#[test]
fn dot_is_the_sum_of_the_products() {
    assert_eq!(v(1.0, 2.0, 3.0).dot(&v(4.0, -5.0, 6.0)).raw(), fx(12.0).raw());
}

#[test]
fn cross_of_the_axes() {
    let x = v(1.0, 0.0, 0.0);
    let y = v(0.0, 1.0, 0.0);
    assert_eq!(raws(x.cross(y)), raws(v(0.0, 0.0, 1.0)));
    assert_eq!(raws(y.cross(x)), raws(v(0.0, 0.0, -1.0)));
    assert_eq!(raws(v(1.0, 2.0, 3.0).cross(v(4.0, 5.0, 6.0))), raws(v(-3.0, 6.0, -3.0)));
}

#[test]
fn length_of_a_pythagorean_triple() {
    let a = v(3.0, 4.0, 0.0);
    assert_eq!(a.length_squared().raw(), fx(25.0).raw());
    assert_eq!(a.vec_length().raw(), fx(5.0).raw());
}

#[test]
fn unit_vec_divides_by_the_length() {
    let u = v(3.0, 4.0, 0.0).unit_vec();
    assert_eq!(u.x.raw(), Fixed::from_int(3).div(&Fixed::from_int(5)).raw());
    assert_eq!(u.y.raw(), Fixed::from_int(4).div(&Fixed::from_int(5)).raw());
    assert_eq!(u.z.raw(), 0);
    assert!((len(u) - 1.0).abs() < 1e-8);
}

#[test]
fn unit_vec_of_the_zero_vector_is_zero() {
    assert_eq!(raws(v(0.0, 0.0, 0.0).unit_vec()), [0, 0, 0]);
}

#[test]
fn near_zero_has_its_bound_at_43_units() {
    let below = Vec3::new(
        VecTypes::Coordinates,
        Fixed::from_raw(42),
        Fixed::from_raw(-42),
        Fixed::from_raw(0),
    );
    let at = Vec3::new(
        VecTypes::Coordinates,
        Fixed::from_raw(42),
        Fixed::from_raw(43),
        Fixed::from_raw(0),
    );
    assert!(below.near_zero());
    assert!(!at.near_zero());
    assert!(!v(0.0, 0.0, 1e-7).near_zero());
}

#[test]
fn reflection_about_a_flat_normal() {
    let r = v(1.0, -1.0, 0.0).reflected_vec(&v(0.0, 1.0, 0.0));
    assert_eq!(raws(r), raws(v(1.0, 1.0, 0.0)));
    let s = v(0.5, -2.0, 3.0).reflected_vec(&v(0.0, 0.0, 1.0));
    assert_eq!(raws(s), raws(v(0.5, -2.0, -3.0)));
}

#[test]
fn refraction_straight_through() {
    let r = v(0.0, -1.0, 0.0).refract(&v(0.0, 1.0, 0.0), fx(1.0));
    assert_eq!(raws(r), raws(v(0.0, -1.0, 0.0)));
}

#[test]
fn refraction_bends_towards_the_normal() {
    // 45 degrees into a medium with index 1.5: sin(out) = sin(45) / 1.5.
    let s = 0.5f64.sqrt();
    let r = v(s, -s, 0.0).refract(&v(0.0, 1.0, 0.0), fx(1.0 / 1.5));
    let sin_out = s / 1.5;
    assert!((val(r.x) - sin_out).abs() < 1e-6);
    assert!((val(r.y) + (1.0 - sin_out * sin_out).sqrt()).abs() < 1e-6);
    assert_eq!(r.z.raw(), 0);
}

#[test]
fn unit_from_sample_keeps_points_of_the_ball() {
    let inside = v(0.5, 0.5, 0.5);
    let kept = Vec3::unit_from_sample(&inside).expect("inside the ball");
    assert_eq!(raws(kept), raws(inside.unit_vec()));
    assert!(Vec3::unit_from_sample(&v(0.9, 0.9, 0.9)).is_none());
    assert!(Vec3::unit_from_sample(&v(0.0, 0.0, 0.0)).is_none());
    assert!(Vec3::unit_from_sample(&v(1.0, 0.0, 0.0)).is_some());
}

#[test]
fn random_unit_vec_has_length_one() {
    for _ in 0..200 {
        let u = Vec3::random_unit_vec();
        assert_eq!(u.typ, VecTypes::Coordinates);
        assert!((len(u) - 1.0).abs() < 1e-6);
    }
}

#[test]
fn random_unit_vec_varies() {
    let first = raws(Vec3::random_unit_vec());
    assert!((0..50).any(|_| raws(Vec3::random_unit_vec()) != first));
}

#[test]
fn random_points_stay_in_their_box() {
    for _ in 0..200 {
        let p = Vec3::random();
        for c in raws(p) {
            assert!(0 <= c && c < ONE);
        }
        let q = Vec3::random_max_min(fx(-2.0), fx(3.0));
        for c in raws(q) {
            assert!(-2 * ONE <= c && c < 3 * ONE);
        }
    }
}

#[test]
fn hemisphere_samples_point_to_the_side_of_the_normal() {
    let n = v(0.0, 1.0, 0.0);
    for _ in 0..200 {
        let p = Vec3::random_on_hemisphere(&n);
        assert!(p.dot(&n).raw() >= 0);
        assert!((len(p) - 1.0).abs() < 1e-6);
    }
}

#[test]
fn towards_flips_a_vector_that_points_away() {
    let n = v(0.0, 1.0, 0.0);
    assert_eq!(raws(Vec3::towards(&v(0.5, 0.5, 0.0), &n)), raws(v(0.5, 0.5, 0.0)));
    assert_eq!(raws(Vec3::towards(&v(0.5, -0.5, 0.0), &n)), raws(v(-0.5, 0.5, 0.0)));
    assert_eq!(raws(Vec3::towards(&v(0.5, 0.0, 0.0), &n)), raws(v(-0.5, 0.0, 0.0)));
}

#[test]
fn disk_samples_lie_in_the_unit_disk() {
    for _ in 0..200 {
        let p = Vec3::random_in_unit_disk();
        assert_eq!(p.z.raw(), 0);
        assert!(p.vec_length().raw() < ONE);
    }
    assert!(Vec3::in_unit_disk(&v(0.5, 0.5, 0.0)));
    assert!(!Vec3::in_unit_disk(&v(1.0, 0.0, 0.0)));
    assert!(!Vec3::in_unit_disk(&v(0.8, 0.8, 0.0)));
}

fn small(x: i64, y: i64, z: i64) -> Vec3 {
    Vec3::new(VecTypes::Coordinates, Fixed::from_raw(x), Fixed::from_raw(y), Fixed::from_raw(z))
}

#[test]
fn length_is_the_root_of_the_exact_sum_of_squares() {
    assert_eq!(small(70000, 0, 0).vec_length().raw(), 70000);
    assert_eq!(small(3, 4, 0).vec_length().raw(), 5);
    assert_eq!(small(1, 1, 1).vec_length().raw(), 1);
    assert_eq!(small(43, 43, 43).vec_length().raw(), 74);
    assert_eq!(small(3, 4, 0).norm_squared(), 25);
    assert_eq!(small(-70000, 0, 0).reach(), 70000);
    assert_eq!(small(3, -4, 2).reach(), 4);
    let far = small(i64::MAX, i64::MAX, i64::MAX);
    assert_eq!(far.vec_length().raw(), i64::MAX);
    assert_eq!(far.norm_squared(), 3 * (i64::MAX as u128) * (i64::MAX as u128));
}

#[test]
fn short_vectors_keep_their_direction_when_divided_by_their_length() {
    assert_eq!(raws(small(70000, 0, 0).unit_vec()), [ONE, 0, 0]);
    assert_eq!(raws(small(92680, 0, 0).unit_vec()), [ONE, 0, 0]);
    assert_eq!(raws(small(0, -1, 0).unit_vec()), [0, -ONE, 0]);
    let u = small(43, 43, 43).unit_vec();
    assert!((val(u.x) - (1.0f64 / 3.0).sqrt()).abs() < 1e-9);
    assert!((len(u) - 1.0).abs() < 2e-9);
    let u = small(1, 2, -2).unit_vec();
    assert!((val(u.x) - 1.0 / 3.0).abs() < 1e-9);
    assert!((val(u.y) - 2.0 / 3.0).abs() < 1e-9);
    assert!((val(u.z) + 2.0 / 3.0).abs() < 1e-9);
}

#[test]
fn unit_vectors_are_one_long_whatever_the_length() {
    for &(x, y, z) in &[
        (1i64, 0i64, 0i64),
        (5, -7, 11),
        (70000, 3, -1),
        (1 << 20, 1 << 19, -(1 << 21)),
        (1 << 40, -(1 << 41), 12345),
        (i64::MAX, -i64::MAX, i64::MAX),
        (i64::MAX, 1, 0),
        ((1 << 61) - 1, 1 << 60, 17),
    ] {
        let u = small(x, y, z).unit_vec();
        let n = u.norm_squared();
        let s = ONE as u128;
        assert!(n >= (s - 4) * (s - 4) && n < (s + 1) * (s + 1), "{} {} {}", x, y, z);
        for c in raws(u) {
            assert!(-ONE <= c && c <= ONE);
        }
    }
}

#[test]
fn every_sample_of_the_ball_but_the_origin_is_kept() {
    let kept = Vec3::unit_from_sample(&small(70000, 0, 0)).expect("in the ball");
    assert_eq!(raws(kept), [ONE, 0, 0]);
    let kept = Vec3::unit_from_sample(&small(0, 0, -1)).expect("in the ball");
    assert_eq!(raws(kept), [0, 0, -ONE]);
    assert!(Vec3::unit_from_sample(&small(ONE, 1, 0)).is_none());
    assert!(Vec3::unit_from_sample(&small(ONE, 0, 0)).is_some());
}

#[test]
fn random_unit_vec_is_one_long_to_four_units() {
    let s = ONE as u128;
    for _ in 0..500 {
        let n = Vec3::random_unit_vec().norm_squared();
        assert!(n >= (s - 4) * (s - 4) && n < (s + 1) * (s + 1));
    }
}

#[test]
fn towards_tells_the_side_of_a_normal_of_any_length() {
    let tiny = small(0, 1, 0);
    let huge = small(0, i64::MAX, 0);
    for n in [tiny, huge] {
        assert_eq!(raws(Vec3::towards(&v(0.5, 0.5, 0.0), &n)), raws(v(0.5, 0.5, 0.0)));
        assert_eq!(raws(Vec3::towards(&v(0.5, -0.5, 0.0), &n)), raws(v(-0.5, 0.5, 0.0)));
    }
}

#[test]
fn gauging_brings_the_reach_between_a_half_and_two() {
    for &(x, y, z) in &[
        (1i64, 0i64, 0i64),
        (3, -4, 6),
        (70000, 1, -5),
        (ONE / 2, 0, 0),
        (ONE, -ONE, 3),
        (ONE + 1, 0, 0),
        (1 << 40, -(1 << 45), 77),
        (i64::MAX, -i64::MAX, 1),
    ] {
        let d = small(x, y, z);
        let w = d.gauged();
        assert!(2 * w.reach() >= ONE && w.reach() <= 2 * ONE, "{} {} {}", x, y, z);
        let (f, g) = d.gauge();
        assert!(f == 1 || g == 1);
        assert_eq!(w.x.raw(), x * f / g);
        assert_eq!(w.y.raw(), y * f / g);
    }
    assert_eq!(raws(small(0, 0, 0).gauged()), [0, 0, 0]);
    assert_eq!(small(3, -4, 6).gauge(), (ONE / 6, 1));
    assert_eq!(small(5 * ONE, 0, 0).gauge(), (1, 5));
}
