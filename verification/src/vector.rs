//! Vectors by the bit patterns of their components, and the tests that the
//! tracer makes on them.
//!
//! The arithmetic of vectors is floating point and stays with the caller. What
//! is exact on bit patterns is here: whether a vector is near zero, the
//! reversal of a vector, and whether a sample lies in the unit ball.

use vstd::prelude::*;
use vstd::arithmetic::power2::{lemma2_to64, lemma_pow2_adds, pow2};
use crate::scalar::{
    abs,
    absolute,
    exponent,
    is_finite,
    is_less,
    is_nan,
    lemma_rounds,
    less,
    ordinal,
    rounds,
    significand,
    units,
    ONE,
    SIGN_BIT,
};

verus! {

/// The bit pattern of the bound below which a component counts as nothing: 1e-8.
pub const EPSILON: u64 = 0x3e45_798e_e230_8c3a;

/// A vector of three doubles.
#[derive(Clone, Copy, Debug, PartialEq, Eq, Structural)]
pub struct Vector {
    pub x: u64,
    pub y: u64,
    pub z: u64,
}

/// The double with its sign changed.
pub open spec fn negated(bits: u64) -> u64 {
    if bits >= SIGN_BIT {
        (bits - SIGN_BIT) as u64
    } else {
        (bits + SIGN_BIT) as u64
    }
}

/// The double with its sign changed: the product of a number and -1.
pub fn negate(bits: u64) -> (r: u64)
    ensures
        r == negated(bits),
{
    if bits >= SIGN_BIT {
        bits - SIGN_BIT
    } else {
        bits + SIGN_BIT
    }
}

impl Vector {
    /// Whether the absolute value of each component is less than `EPSILON`.
    pub open spec fn negligible(self) -> bool {
        &&& less(absolute(self.x), EPSILON)
        &&& less(absolute(self.y), EPSILON)
        &&& less(absolute(self.z), EPSILON)
    }

    /// The vector that points the other way.
    pub open spec fn opposite(self) -> Vector {
        Vector { x: negated(self.x), y: negated(self.y), z: negated(self.z) }
    }

    /// Whether the vector is near zero: the absolute value of each component is
    /// less than `EPSILON`.
    pub fn near_zero(&self) -> (r: bool)
        ensures
            r == self.negligible(),
    {
        is_less(abs(self.x), EPSILON) && is_less(abs(self.y), EPSILON) && is_less(
            abs(self.z),
            EPSILON,
        )
    }

    /// The vector that points the other way: each component with its sign
    /// changed.
    pub fn reversed(&self) -> (r: Vector)
        ensures
            r == self.opposite(),
    {
        Vector { x: negate(self.x), y: negate(self.y), z: negate(self.z) }
    }
}

/// Whether a vector drawn from the cube is kept as a sample of the unit ball,
/// or of the unit disk: its squared length is less than 1.
pub fn in_unit_ball(length_squared: u64) -> (r: bool)
    ensures
        r == less(length_squared, ONE),
{
    is_less(length_squared, ONE)
}

/// `EPSILON` is the double nearest to a hundred-millionth.
pub proof fn lemma_epsilon()
    ensures
        rounds(EPSILON, 1, 100_000_000),
{
    lemma2_to64();
    lemma_pow2_adds(64, 15);
    assert(significand(EPSILON) == 0x15_798e_e230_8c3a);
    assert(exponent(EPSILON) == -79);
    assert(pow2(79) == 0x8000_0000_0000_0000_0000) by {
        assert(0x1_0000_0000_0000_0000 * 0x8000 == 0x8000_0000_0000_0000_0000int);
    }
    lemma_rounds(EPSILON, 1, 100_000_000);
}

/// Changing the sign twice gives the double back, and changes neither whether
/// it is a number nor its absolute value; the ordinal changes its sign, and so
/// does the value of a finite number.
pub proof fn lemma_negated(bits: u64)
    ensures
        negated(negated(bits)) == bits,
        absolute(negated(bits)) == absolute(bits),
        is_nan(negated(bits)) == is_nan(bits),
        ordinal(negated(bits)) == -ordinal(bits),
        is_finite(bits) ==> units(negated(bits)) == -units(bits),
{
    assert(significand(negated(bits)) == significand(bits));
    assert(exponent(negated(bits)) == exponent(bits));
}

} // verus!
