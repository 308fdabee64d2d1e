//! Angles, random draws and intervals.

use rand::Rng;
use vstd::prelude::*;
use crate::fixed::{
    fx_add, fx_div, fx_int, fx_mul, fx_sub, lemma_fx_mul_fraction, Fixed, MAX_RAW, ONE_RAW,
};
use crate::vec::{Vec3, VecTypes, V3};

verus! {

/// Numerator of the circle constant, rounded to the nearest representable value.
pub const PI_RAW: i64 = 13493037705;

/// An angle in radians, from its measure in degrees: `deg * pi / 180`.
pub open spec fn radians_of(deg: int) -> int {
    fx_div(fx_mul(deg, PI_RAW as int), fx_int(180))
}

/// Converts an angle from degrees to radians.
pub fn degrees_to_radians(deg: Fixed) -> (r: Fixed)
    ensures
        r@ == radians_of(deg@),
{
    deg.mul(&Fixed::from_raw(PI_RAW)).div(&Fixed::from_int(180))
}

/// Draws 32 bits from the generator of the calling thread, by `rand::rng`
/// and `Rng::random::<u32>`.  Nothing is claimed of the bits: every `u32` may
/// come back.  The call panics only where the generator of the thread
/// cannot be seeded by the operating system.
#[verifier::external_body]
fn draw_bits() -> (bits: u32) {
    let mut rng = rand::rng();
    rng.random::<u32>()
}

/// The value in `[0, 1)` whose fractional bits are `bits`.
pub fn unit_from_bits(bits: u32) -> (r: Fixed)
    ensures
        r@ == bits,
{
    Fixed::from_raw(bits as i64)
}

/// A random value in `[0, 1)`.
pub fn randon_f64() -> (r: Fixed)
    ensures
        0 <= r@ < ONE_RAW,
{
    unit_from_bits(draw_bits())
}

/// The point of the segment from `min` to `max` at the fraction `u`:
/// `min + u * (max - min)`.
pub open spec fn interval_point(min: int, max: int, u: int) -> int {
    fx_add(min, fx_mul(u, fx_sub(max, min)))
}

/// `r` is a possible result of drawing a value between `min` and `max`.
pub open spec fn is_interval_draw(min: int, max: int, r: int) -> bool {
    exists|u: int| 0 <= u < ONE_RAW && #[trigger] interval_point(min, max, u) == r
}

/// A value drawn between two bounds in their order lies between them.
pub proof fn lemma_interval_draw_in_range(min: int, max: int, r: int)
    requires
        -MAX_RAW <= min <= max <= MAX_RAW,
        is_interval_draw(min, max, r),
    ensures
        min <= r <= max,
{
    let u = choose|u: int| 0 <= u < ONE_RAW && #[trigger] interval_point(min, max, u) == r;
    let w = fx_sub(max, min);
    lemma_fx_mul_fraction(w, u);
    assert(fx_mul(u, w) == fx_mul(w, u)) by {
        assert(u * w == w * u) by (nonlinear_arith);
    }
}

/// The point of the segment from `min` to `max` at the fraction `u`.
pub fn interval_sample(min: Fixed, max: Fixed, u: Fixed) -> (r: Fixed)
    ensures
        r@ == interval_point(min@, max@, u@),
{
    min.add(&u.mul(&max.sub(&min)))
}

/// A random value between `min` and `max`.
#[allow(non_snake_case)]
pub fn random_Interval_f64(min: Fixed, max: Fixed) -> (r: Fixed)
    ensures
        is_interval_draw(min@, max@, r@),
{
    let u = randon_f64();
    let r = interval_sample(min, max, u);
    assert(interval_point(min@, max@, u@) == r@);
    r
}

/// A pair of bounds.
pub struct Interval {
    pub min: Fixed,
    pub max: Fixed,
}

impl Interval {
    /// The interval from `min` to `max`.
    pub fn new(min: Fixed, max: Fixed) -> (r: Self)
        ensures
            r.min == min,
            r.max == max,
    {
        Interval { min, max }
    }

    /// Whether `x` lies strictly between the bounds.
    pub fn surrounds(&self, x: Fixed) -> (r: bool)
        ensures
            r == (self.min@ < x@ < self.max@),
    {
        self.min.lt(&x) && x.lt(&self.max)
    }

    /// Whether `x` lies between the bounds, the bounds included.
    pub fn contains(&self, x: Fixed) -> (r: bool)
        ensures
            r == (self.min@ <= x@ <= self.max@),
    {
        self.min.le(&x) && x.le(&self.max)
    }

    /// `x` moved to the nearer bound where it lies outside; the lower bound
    /// is tested first.
    pub fn clamp(&self, x: Fixed) -> (r: Fixed)
        ensures
            r == clamp_to(self.min, self.max, x),
    {
        if x.lt(&self.min) {
            return self.min;
        } else if x.gt(&self.max) {
            return self.max;
        }
        x
    }
}

/// `x` clamped between `min` and `max`.
pub open spec fn clamp_to(min: Fixed, max: Fixed, x: Fixed) -> Fixed {
    if x@ < min@ {
        min
    } else if x@ > max@ {
        max
    } else {
        x
    }
}

impl Default for Interval {
    /// The interval of all representable values.
    fn default() -> (r: Interval)
        ensures
            r.min@ == -MAX_RAW,
            r.max@ == MAX_RAW,
    {
        Interval { min: Fixed::max_value().neg(), max: Fixed::max_value() }
    }
}

/// `v` is a possible result of `sample_square`.
pub open spec fn is_square_draw(v: V3) -> bool {
    &&& v.typ == VecTypes::Coordinates
    &&& -(ONE_RAW / 2) <= v.x < ONE_RAW / 2
    &&& -(ONE_RAW / 2) <= v.y < ONE_RAW / 2
    &&& v.z == 0
}

/// The offset in the square `[-0.5, 0.5)^2` that the draws `u` and `v` from `[0, 1)` give.
pub fn square_from_draws(u: Fixed, v: Fixed) -> (r: Vec3)
    ensures
        r@ == (V3 {
            typ: VecTypes::Coordinates,
            x: fx_sub(u@, ONE_RAW / 2),
            y: fx_sub(v@, ONE_RAW / 2),
            z: 0,
        }),
{
    let half = Fixed::from_raw(ONE_RAW / 2);
    Vec3::new(VecTypes::Coordinates, u.sub(&half), v.sub(&half), Fixed::zero())
}

/// A random offset in the square `[-0.5, 0.5)^2` of the plane `z = 0`.
pub fn sample_square() -> (r: Vec3)
    ensures
        is_square_draw(r@),
{
    square_from_draws(randon_f64(), randon_f64())
}

} // verus!
