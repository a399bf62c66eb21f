//! What a surface does with the ray that hits it.
//!
//! The directions are worked out in floating point by the caller. The choice
//! between them is made here, on the bit patterns of the doubles that decide
//! it.

use vstd::prelude::*;
use crate::scalar::{is_less, is_nan, less, less_or_equal, Scalar, ONE, ZERO};
use crate::vector::Vector;

verus! {

/// The way of a ray at a dielectric surface.
#[derive(Clone, Copy, Debug, PartialEq, Eq, Structural)]
pub enum Bend {
    Reflect,
    Refract,
}

/// The direction along which a Lambertian surface scatters, which it always
/// does: the sum of the normal and a sample of the unit ball, unless that sum
/// is near zero; then the normal itself.
pub fn lambertian(sum: Vector, normal: Vector) -> (direction: Vector)
    ensures
        direction == if sum.negligible() {
            normal
        } else {
            sum
        },
{
    if sum.near_zero() {
        normal
    } else {
        sum
    }
}

/// Whether a metal scatters the ray: the dot product of the fuzzed reflection
/// and the normal is more than 0. Otherwise the ray is absorbed: where the
/// product is a number, exactly when it is not more than 0.
pub fn metal(reflection_dot_normal: u64) -> (scatters: bool)
    ensures
        scatters == less(ZERO, reflection_dot_normal),
        !is_nan(reflection_dot_normal) ==> (!scatters <==> less_or_equal(
            reflection_dot_normal,
            ZERO,
        )),
{
    is_less(ZERO, reflection_dot_normal)
}

/// The cosine of the angle of incidence, held to at most 1: 1 for a cosine
/// that is more than 1 or a NaN.
pub fn clamp_cosine(cosine: u64) -> (c: u64)
    ensures
        c == if is_nan(cosine) || less(ONE, cosine) {
            ONE
        } else {
            cosine
        },
{
    match Scalar::from_bits(cosine) {
        None => ONE,
        Some(_) => if is_less(ONE, cosine) {
            ONE
        } else {
            cosine
        },
    }
}

/// The way of a ray at a dielectric, which always scatters. Where the
/// refraction ratio times the sine of the angle of incidence is more than 1,
/// the ray cannot refract and is reflected, whatever was drawn. Otherwise it
/// is reflected where the draw is less than the reflectance, and refracted
/// where it is not.
pub fn dielectric(ratio_times_sine: u64, draw: u64, reflectance: u64) -> (bend: Bend)
    ensures
        bend == if less(ONE, ratio_times_sine) || less(draw, reflectance) {
            Bend::Reflect
        } else {
            Bend::Refract
        },
        less(ONE, ratio_times_sine) ==> bend == Bend::Reflect,
{
    if is_less(ONE, ratio_times_sine) || is_less(draw, reflectance) {
        Bend::Reflect
    } else {
        Bend::Refract
    }
}

} // verus!
