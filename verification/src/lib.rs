//! A path tracer over saturating fixed-point arithmetic.
//!
//! A [`camera::Camera`] sends rays through the pixels of an image into a
//! scene of spheres ([`ray::HittableList`]).  Each ray is followed from
//! bounce to bounce: the nearest sphere it hits scatters it according to
//! its material ([`material`]), until the ray leaves the scene and sees the
//! sky or the bounces are used up.  The colours of the samples of a pixel
//! are averaged and gamma-encoded into three bytes ([`color::Rgb`]).
//!
//! All numbers are [`fixed::Fixed`] scalars.  Every function states what it
//! computes as an equation over the numerators of these scalars; a function
//! that draws random numbers states the relation that holds between its
//! arguments and every result it may give.
//!
//! Where a result should have a length or lie on a surface, the rounding
//! is kept away from it: a length is the integer root of an exact sum of
//! squares, a vector is stretched before it is divided by its length, and a
//! sphere is met along a direction brought to a length near one.  What
//! rounding is left is bounded by lemmas: [`vec::lemma_unit_length`] for unit
//! vectors, [`on_sphere::lemma_hit_point_on_sphere`] and
//! [`on_sphere::lemma_hit_normal_is_unit`] for hits,
//! [`front_face::lemma_near_hit_is_front`] and
//! [`front_face::lemma_ray_at_centre_hits_front`] for the side from which a
//! sphere is met, and [`basis::lemma_basis_is_upright`] for the basis of a
//! camera.

pub mod basis;
pub mod camera;
pub mod color;
pub mod fixed;
pub mod front_face;
pub mod material;
pub mod on_sphere;
pub mod ray;
pub mod trig;
pub mod utils;
pub mod vec;
