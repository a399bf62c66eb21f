//! The rules that a scene is held to before anything is rendered.

use vstd::prelude::*;
use vstd::arithmetic::power2::{lemma2_to64, lemma2_to64_rest, lemma_pow2_adds, pow2};
use crate::scalar::{
    exponent,
    is_less,
    is_less_or_equal,
    lemma_rounds,
    less,
    less_or_equal,
    rounds,
    significand,
    units,
    ZERO,
};

verus! {

/// The bit pattern of the angle that the field of view stays below: 180.
pub const STRAIGHT_ANGLE: u64 = 0x4066_8000_0000_0000;

/// Why a scene is refused.
#[derive(Clone, Copy, Debug, PartialEq, Eq, Structural)]
pub enum SceneError {
    /// A radius, or the length of a vector that is to be normalised, is not
    /// more than 0.
    DegenerateGeometry,
    /// The field of view is not between 0 and 180 degrees, the aspect ratio is
    /// not more than 0, or the aperture or the focus distance is less than 0
    /// or a NaN.
    InvalidCameraParameter,
}

/// Whether the four parameters make a camera.
pub open spec fn camera_is_valid(
    vfov: u64,
    aspect_ratio: u64,
    aperture: u64,
    focus_dist: u64,
) -> bool {
    &&& less(ZERO, vfov)
    &&& less(vfov, STRAIGHT_ANGLE)
    &&& less(ZERO, aspect_ratio)
    &&& less_or_equal(ZERO, aperture)
    &&& less_or_equal(ZERO, focus_dist)
}

/// Accepts an extent that is more than 0: the radius of a sphere, or the
/// length of a vector that is to be normalised.
pub fn check_extent(extent: u64) -> (r: Result<(), SceneError>)
    ensures
        r == if less(ZERO, extent) {
            Ok::<(), SceneError>(())
        } else {
            Err::<(), SceneError>(SceneError::DegenerateGeometry)
        },
{
    if is_less(ZERO, extent) {
        Ok(())
    } else {
        Err(SceneError::DegenerateGeometry)
    }
}

/// Accepts the parameters of a camera: a vertical field of view between 0 and
/// 180 degrees, an aspect ratio that is more than 0, and an aperture and a
/// focus distance that are not less than 0.
pub fn check_camera(vfov: u64, aspect_ratio: u64, aperture: u64, focus_dist: u64) -> (r: Result<
    (),
    SceneError,
>)
    ensures
        r == if camera_is_valid(vfov, aspect_ratio, aperture, focus_dist) {
            Ok::<(), SceneError>(())
        } else {
            Err::<(), SceneError>(SceneError::InvalidCameraParameter)
        },
{
    if is_less(ZERO, vfov) && is_less(vfov, STRAIGHT_ANGLE) && is_less(ZERO, aspect_ratio)
        && is_less_or_equal(ZERO, aperture) && is_less_or_equal(ZERO, focus_dist) {
        Ok(())
    } else {
        Err(SceneError::InvalidCameraParameter)
    }
}

/// `STRAIGHT_ANGLE` is the double 180.
pub proof fn lemma_straight_angle()
    ensures
        rounds(STRAIGHT_ANGLE, 180, 1),
        units(STRAIGHT_ANGLE) == 180 * pow2(1074),
{
    lemma2_to64();
    lemma2_to64_rest();
    lemma_pow2_adds(1029, 45);
    assert(significand(STRAIGHT_ANGLE) == 0x16_8000_0000_0000);
    assert(exponent(STRAIGHT_ANGLE) == -45);
    lemma_rounds(STRAIGHT_ANGLE, 180, 1);
    let p = pow2(1029) as int;
    assert(0x16_8000_0000_0000 * p == 180 * (p * 0x2000_0000_0000)) by (nonlinear_arith);
}

} // verus!
