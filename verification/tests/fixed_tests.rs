use raytracer::fixed::{isqrt_u128, magnitude, Fixed};

const ONE: i64 = 1 << 32;

fn fx(x: f64) -> Fixed {
    Fixed::from_raw((x * ONE as f64).round() as i64)
}

fn val(x: Fixed) -> f64 {
    x.raw() as f64 / ONE as f64
}

#[test]
fn one_is_two_to_the_32() {
    assert_eq!(Fixed::one().raw(), 4294967296);
    assert_eq!(Fixed::zero().raw(), 0);
    assert_eq!(Fixed::from_int(3).raw(), 3 * ONE);
}

#[test]
fn add_and_sub_are_exact() {
    assert_eq!(fx(1.5).add(&fx(2.25)).raw(), fx(3.75).raw());
    assert_eq!(fx(1.5).sub(&fx(2.25)).raw(), fx(-0.75).raw());
}

#[test]
fn add_saturates_at_both_ends() {
    let max = Fixed::max_value();
    assert_eq!(max.add(&Fixed::one()).raw(), i64::MAX);
    assert_eq!(max.neg().sub(&Fixed::one()).raw(), -i64::MAX);
}

#[test]
fn from_raw_clamps_the_smallest_integer() {
    assert_eq!(Fixed::from_raw(i64::MIN).raw(), -i64::MAX);
}

#[test]
fn mul_rounds_towards_zero() {
    // 1 ulp times one half is half an ulp, which rounds to zero from both sides.
    let ulp = Fixed::from_raw(1);
    let half = fx(0.5);
    assert_eq!(ulp.mul(&half).raw(), 0);
    assert_eq!(ulp.neg().mul(&half).raw(), 0);
    assert_eq!(fx(1.5).mul(&fx(-2.0)).raw(), fx(-3.0).raw());
}

#[test]
fn div_by_zero_saturates_with_the_sign() {
    assert_eq!(fx(2.0).div(&Fixed::zero()).raw(), i64::MAX);
    assert_eq!(fx(-2.0).div(&Fixed::zero()).raw(), -i64::MAX);
    assert_eq!(Fixed::zero().div(&Fixed::zero()).raw(), 0);
}

#[test]
fn div_rounds_towards_zero() {
    assert_eq!(Fixed::from_int(1).div(&Fixed::from_int(3)).raw(), 1431655765);
    assert_eq!(Fixed::from_int(-1).div(&Fixed::from_int(3)).raw(), -1431655765);
    assert_eq!(Fixed::from_int(1).div(&Fixed::from_int(-3)).raw(), -1431655765);
}

#[test]
fn from_ratio_gives_the_truncated_fraction() {
    assert_eq!(Fixed::from_ratio(1, 1000).raw(), 4294967);
    assert_eq!(Fixed::from_ratio(999, 1000).raw(), 4290672328);
    assert_eq!(Fixed::from_ratio(1, 2).raw(), ONE / 2);
}

#[test]
fn sqrt_rounds_down() {
    assert_eq!(fx(4.0).sqrt().raw(), fx(2.0).raw());
    assert_eq!(Fixed::from_int(2).sqrt().raw(), 6074000999);
    assert_eq!(Fixed::zero().sqrt().raw(), 0);
    assert_eq!(fx(-4.0).sqrt().raw(), 0);
}

#[test]
fn sqrt_of_the_largest_value_fits() {
    let r = Fixed::max_value().sqrt();
    assert!((val(r) - 46340.95).abs() < 0.01);
}

#[test]
fn powi_multiplies_repeatedly() {
    assert_eq!(fx(2.0).powi(5).raw(), fx(32.0).raw());
    assert_eq!(fx(7.0).powi(0).raw(), ONE);
    assert_eq!(fx(-3.0).powi(3).raw(), fx(-27.0).raw());
}

#[test]
fn comparisons_follow_the_numerators() {
    assert!(fx(1.0).lt(&fx(1.5)));
    assert!(fx(1.5).le(&fx(1.5)));
    assert!(fx(2.0).gt(&fx(1.5)));
    assert!(fx(1.5).ge(&fx(1.5)));
    assert!(!fx(1.5).lt(&fx(1.5)));
    assert!(Fixed::zero().is_zero());
    assert_eq!(fx(1.0).min(&fx(2.0)).raw(), ONE);
    assert_eq!(fx(1.0).max(&fx(2.0)).raw(), 2 * ONE);
}

#[test]
fn whole_parts_are_clamped() {
    assert_eq!(fx(255.999).to_u8(), 255);
    assert_eq!(fx(300.0).to_u8(), 255);
    assert_eq!(fx(-3.0).to_u8(), 0);
    assert_eq!(fx(12.7).to_u8(), 12);
    assert_eq!(fx(168.75).to_u32(), 168);
    assert_eq!(fx(-0.5).to_u32(), 0);
}

#[test]
fn abs_and_neg_are_symmetric() {
    assert_eq!(fx(-2.5).abs().raw(), fx(2.5).raw());
    assert_eq!(fx(2.5).neg().raw(), fx(-2.5).raw());
    assert_eq!(Fixed::max_value().neg().neg().raw(), i64::MAX);
}

#[test]
fn whole_factors_and_divisors() {
    assert_eq!(fx(1.5).mul_int(3).raw(), fx(4.5).raw());
    assert_eq!(fx(-1.5).mul_int(3).raw(), fx(-4.5).raw());
    assert_eq!(Fixed::max_value().mul_int(2).raw(), i64::MAX);
    assert_eq!(fx(4.5).div_int(3).raw(), fx(1.5).raw());
    assert_eq!(Fixed::from_raw(7).div_int(2).raw(), 3);
    assert_eq!(Fixed::from_raw(-7).div_int(2).raw(), -3);
    assert_eq!(Fixed::from_raw(7).div_int(-2).raw(), -3);
    assert_eq!(fx(2.0).div_int(0).raw(), i64::MAX);
    assert_eq!(fx(-2.0).div_int(0).raw(), -i64::MAX);
    assert_eq!(Fixed::zero().div_int(0).raw(), 0);
}

#[test]
fn integer_root_of_wide_numbers() {
    assert_eq!(isqrt_u128(0), 0);
    assert_eq!(isqrt_u128(1), 1);
    assert_eq!(isqrt_u128(24), 4);
    assert_eq!(isqrt_u128(25), 5);
    assert_eq!(isqrt_u128(u128::MAX), u64::MAX as u128);
    assert_eq!(isqrt_u128(1 << 126), 1 << 63);
    assert_eq!(isqrt_u128((1 << 126) - 1), (1 << 63) - 1);
    assert_eq!(magnitude(-5), 5);
    assert_eq!(magnitude(5), 5);
    assert_eq!(magnitude(i64::MIN), 1 << 63);
}
