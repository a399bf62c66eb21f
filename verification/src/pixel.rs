//! From a channel of light to a byte.
//!
//! A channel is clamped to the range from 0 to 0.999, multiplied by 256 and
//! truncated. Multiplying a double by 256 is exact, so the byte is read off the
//! channel's bit pattern.

use vstd::prelude::*;
use vstd::arithmetic::div_mod::{lemma_div_denominator, lemma_div_multiples_vanish};
use vstd::arithmetic::power2::{
    lemma2_to64,
    lemma2_to64_rest,
    lemma_pow2_adds,
    lemma_pow2_pos,
    lemma_pow2_strictly_increases,
    pow2,
};
use vstd::bits::lemma_u64_shr_is_div;
use crate::scalar::{
    exponent,
    is_less,
    lemma_order_is_numeric,
    lemma_rounds,
    less,
    rounds,
    significand,
    units,
    FRACTIONS,
    ZERO,
};

verus! {

/// The bit pattern of the greatest value that a channel is clamped to: 0.999.
pub const CEILING: u64 = 0x3fef_f7ce_d916_872b;

/// A pixel's colour, quantised to eight bits a channel.
#[derive(Clone, Copy, Debug, PartialEq, Eq, Structural)]
pub struct Rgb {
    pub r: u8,
    pub g: u8,
    pub b: u8,
}

/// 256 times the value of a finite number, rounded down.
pub open spec fn floor_of_256_times(bits: u64) -> int {
    256 * units(bits) / (pow2(1074) as int)
}

/// The byte of a channel: 0 for a channel that is not more than 0, a NaN among
/// them; 255 for one that is not less than `CEILING`; between these, 256 times
/// the channel, rounded down.
pub open spec fn quantized(channel: u64) -> int {
    if !less(ZERO, channel) {
        0
    } else if !less(channel, CEILING) {
        255
    } else {
        floor_of_256_times(channel)
    }
}

/// Of a positive number below 1, whose significand is `m` and whose exponent
/// is `-k`: 256 times its value, rounded down, is 256 `m` over 2 to the power
/// `k`, rounded down.
proof fn lemma_floor_by_exponent(bits: u64)
    requires
        less(ZERO, bits),
        less(bits, CEILING),
    ensures
        floor_of_256_times(bits) == 256 * significand(bits) / (pow2(
            (-exponent(bits)) as nat,
        ) as int),
{
    let m = significand(bits);
    let up = (1074 + exponent(bits)) as nat;
    let down = (-exponent(bits)) as nat;
    lemma_pow2_adds(up, down);
    lemma_pow2_pos(up);
    lemma_pow2_pos(down);
    let s = pow2(up) as int;
    let q = pow2(down) as int;
    assert(pow2(1074) == s * q);
    assert(256 * (m * s) == (256 * m) * s) by (nonlinear_arith);
    lemma_div_denominator((256 * m) * s, s, q);
    lemma_div_multiples_vanish(256 * m, s);
    assert(((256 * m) * s) / s == 256 * m) by (nonlinear_arith)
        requires
            s > 0,
    ;
}

/// The byte of a channel.
pub fn quantize(channel: u64) -> (r: u8)
    ensures
        r == quantized(channel),
{
    if !is_less(ZERO, channel) {
        return 0;
    }
    if !is_less(channel, CEILING) {
        return 255;
    }
    let field: u64 = channel / FRACTIONS;
    let fraction: u64 = channel % FRACTIONS;
    proof {
        lemma2_to64();
        lemma2_to64_rest();
        lemma_floor_by_exponent(channel);
    }
    if field < 1015 {
        proof {
            let m = significand(channel);
            let k = (-exponent(channel)) as nat;
            if k > 61 {
                lemma_pow2_strictly_increases(61, k);
            }
            let p = pow2(k) as int;
            assert(256 * m / p == 0) by (nonlinear_arith)
                requires
                    0 <= 256 * m < p,
            ;
        }
        return 0;
    }
    let m: u64 = FRACTIONS + fraction;
    let shift: u64 = 1067 - field;
    proof {
        let k = (-exponent(channel)) as nat;
        assert(k == shift + 8);
        assert(m == significand(channel));
        lemma_pow2_adds(8, shift as nat);
        lemma_u64_shr_is_div(m, shift);
        let q = pow2(shift as nat) as int;
        if shift > 45 {
            lemma_pow2_strictly_increases(45, shift as nat);
        }
        assert(256 * q == pow2(k));
        lemma_div_denominator(256 * m as int, 256, q);
        assert(m as int / q < 256) by (nonlinear_arith)
            requires
                0 <= m < 256 * q,
                q > 0,
        ;
    }
    (m >> shift) as u8
}

impl Rgb {
    /// The pixel of three channels of light.
    pub fn quantize(red: u64, green: u64, blue: u64) -> (p: Rgb)
        ensures
            p.r == quantized(red),
            p.g == quantized(green),
            p.b == quantized(blue),
    {
        Rgb { r: quantize(red), g: quantize(green), b: quantize(blue) }
    }
}

/// `CEILING` is the double nearest to 999 thousandths.
pub proof fn lemma_ceiling()
    ensures
        rounds(CEILING, 999, 1000),
{
    lemma2_to64();
    lemma2_to64_rest();
    assert(significand(CEILING) == 0x1f_f7ce_d916_872b);
    assert(exponent(CEILING) == -53);
    lemma_rounds(CEILING, 999, 1000);
}

/// A byte always comes out, and never 256: the quantised channel lies between
/// 0 and 255.
pub proof fn lemma_quantized_is_a_byte(channel: u64)
    ensures
        0 <= quantized(channel) <= 255,
{
    if less(ZERO, channel) && less(channel, CEILING) {
        lemma_floor_by_exponent(channel);
        lemma2_to64();
        lemma2_to64_rest();
        let m = significand(channel);
        let k = (-exponent(channel)) as nat;
        if k > 53 {
            lemma_pow2_strictly_increases(53, k);
        }
        let p = pow2(k) as int;
        assert(0 <= 256 * m / p < 256) by (nonlinear_arith)
            requires
                0 <= m < p,
        ;
    }
}

/// The brighter channel never gets the darker byte.
pub proof fn lemma_quantized_is_monotone(a: u64, b: u64)
    requires
        less(a, b),
    ensures
        quantized(a) <= quantized(b),
{
    lemma_quantized_is_a_byte(a);
    lemma_quantized_is_a_byte(b);
    if less(ZERO, a) && less(b, CEILING) {
        lemma_order_is_numeric(a, b);
        lemma_pow2_pos(1074);
        let x = 256 * units(a);
        let y = 256 * units(b);
        let d = pow2(1074) as int;
        assert(x / d <= y / d) by (nonlinear_arith)
            requires
                x <= y,
                d > 0,
        ;
    }
}

} // verus!
