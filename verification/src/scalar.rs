//! Doubles held by their bit patterns.
//!
//! This library holds no floating-point value. A double crosses into it as its
//! IEEE-754 bit pattern, and is ordered here by its ordinal: the magnitude of
//! the pattern, negated where the sign bit is set. Among numbers, ordinals
//! order as the values do, and both zeros share the ordinal 0. A NaN has no
//! ordinal, and is neither less nor more than anything.

use vstd::prelude::*;
use vstd::arithmetic::power2::{
    lemma2_to64,
    lemma2_to64_rest,
    lemma_pow2_adds,
    lemma_pow2_pos,
    pow2,
};

verus! {

/// The sign bit of a double's bit pattern.
pub const SIGN_BIT: u64 = 0x8000_0000_0000_0000;

/// The bit pattern of positive infinity: the largest magnitude that is a number.
pub const INFINITY_BITS: u64 = 0x7ff0_0000_0000_0000;

/// The bit pattern of positive zero.
pub const ZERO: u64 = 0;

/// The bit pattern of 1.
pub const ONE: u64 = 0x3ff0_0000_0000_0000;

/// The bit pattern without its sign bit.
pub open spec fn magnitude(bits: u64) -> int {
    if bits >= SIGN_BIT {
        bits - SIGN_BIT
    } else {
        bits as int
    }
}

/// Whether the bit pattern is that of a NaN.
pub open spec fn is_nan(bits: u64) -> bool {
    magnitude(bits) > INFINITY_BITS
}

/// The ordinal of a bit pattern.
pub open spec fn ordinal(bits: u64) -> int {
    if bits >= SIGN_BIT {
        -magnitude(bits)
    } else {
        magnitude(bits)
    }
}

/// The pattern with its sign bit cleared: the double's absolute value.
pub open spec fn absolute(bits: u64) -> u64 {
    magnitude(bits) as u64
}

/// The number of patterns that share one exponent: 2 to the power 52.
pub const FRACTIONS: u64 = 0x10_0000_0000_0000;

/// The exponent field of the pattern.
pub open spec fn exponent_field(bits: u64) -> int {
    magnitude(bits) / (FRACTIONS as int)
}

/// The integer `m` for which a number's absolute value is `m` times 2 to the
/// power `exponent(bits)`.
pub open spec fn significand(bits: u64) -> int {
    if exponent_field(bits) == 0 {
        magnitude(bits) % (FRACTIONS as int)
    } else {
        FRACTIONS + magnitude(bits) % (FRACTIONS as int)
    }
}

/// The power of 2 that scales a number's significand.
pub open spec fn exponent(bits: u64) -> int {
    if exponent_field(bits) == 0 {
        -1074
    } else {
        exponent_field(bits) - 1075
    }
}

/// Whether the pattern is that of a finite number.
pub open spec fn is_finite(bits: u64) -> bool {
    magnitude(bits) < INFINITY_BITS
}

/// The value of a finite number in units of 2 to the power -1074, of which
/// every finite double is a whole multiple.
pub open spec fn units(bits: u64) -> int
    recommends
        is_finite(bits),
{
    let size = significand(bits) * pow2((exponent(bits) + 1074) as nat);
    if bits >= SIGN_BIT {
        -size
    } else {
        size
    }
}

/// The spacing of the doubles around a finite number, in units of 2 to the
/// power -1074.
pub open spec fn spacing(bits: u64) -> int {
    pow2((exponent(bits) + 1074) as nat) as int
}

/// Whether the finite number is a double nearest to the fraction `num / den`:
/// no further from it than half the spacing of the doubles there.
pub open spec fn rounds(bits: u64, num: int, den: int) -> bool
    recommends
        is_finite(bits),
        den > 0,
{
    let error = units(bits) * den - num * pow2(1074);
    -(den * spacing(bits)) <= 2 * error <= den * spacing(bits)
}

/// Whether `a` is less than `b`, as doubles compare: both are numbers, and the
/// ordinal of `a` is below that of `b`.
pub open spec fn less(a: u64, b: u64) -> bool {
    !is_nan(a) && !is_nan(b) && ordinal(a) < ordinal(b)
}

/// Whether `a` is less than or equal to `b`, as doubles compare.
pub open spec fn less_or_equal(a: u64, b: u64) -> bool {
    !is_nan(a) && !is_nan(b) && ordinal(a) <= ordinal(b)
}

/// Whether an integer is the ordinal of some number.
pub open spec fn is_ordinal(o: int) -> bool {
    -(INFINITY_BITS as int) <= o <= INFINITY_BITS as int
}

/// The bit pattern that an ordinal stands for; for 0, that of positive zero.
pub open spec fn pattern(o: int) -> u64
    recommends
        is_ordinal(o),
{
    if o < 0 {
        (SIGN_BIT - o) as u64
    } else {
        o as u64
    }
}

/// A double that is a number, held by its ordinal.
#[derive(Clone, Copy, Debug)]
pub struct Scalar {
    ord: i64,
}

impl View for Scalar {
    type V = int;

    closed spec fn view(&self) -> int {
        self.ord as int
    }
}

impl Scalar {
    #[verifier::type_invariant]
    spec fn in_range(self) -> bool {
        is_ordinal(self.ord as int)
    }

    /// The scalar of a bit pattern, unless the pattern is a NaN.
    pub fn from_bits(bits: u64) -> (r: Option<Scalar>)
        ensures
            r is None <==> is_nan(bits),
            r matches Some(s) ==> s@ == ordinal(bits),
    {
        if bits >= SIGN_BIT {
            let m: u64 = bits - SIGN_BIT;
            if m > INFINITY_BITS {
                None
            } else {
                Some(Scalar { ord: -(m as i64) })
            }
        } else if bits > INFINITY_BITS {
            None
        } else {
            Some(Scalar { ord: bits as i64 })
        }
    }

    /// The bit pattern of the scalar; that of positive zero for either zero.
    pub fn to_bits(self) -> (bits: u64)
        ensures
            bits == pattern(self@),
            !is_nan(bits),
            ordinal(bits) == self@,
    {
        proof {
            use_type_invariant(&self);
        }
        if self.ord < 0 {
            SIGN_BIT + ((-self.ord) as u64)
        } else {
            self.ord as u64
        }
    }

    /// The ordinal as a machine integer.
    pub fn ordinal(self) -> (o: i64)
        ensures
            o == self@,
            is_ordinal(o as int),
    {
        proof {
            use_type_invariant(&self);
        }
        self.ord
    }

    /// Whether this scalar is less than the other.
    pub fn lt(self, other: Scalar) -> (r: bool)
        ensures
            r == (self@ < other@),
    {
        self.ord < other.ord
    }

    /// Whether this scalar is at most the other.
    pub fn le(self, other: Scalar) -> (r: bool)
        ensures
            r == (self@ <= other@),
    {
        self.ord <= other.ord
    }

    /// Whether the scalar lies in the closed interval from `lo` to `hi`.
    pub fn within(self, lo: Scalar, hi: Scalar) -> (r: bool)
        ensures
            r == in_window(self@, lo@, hi@),
    {
        lo.ord <= self.ord && self.ord <= hi.ord
    }
}

/// The absolute value of a double.
pub fn abs(bits: u64) -> (r: u64)
    ensures
        r == absolute(bits),
{
    if bits >= SIGN_BIT {
        bits - SIGN_BIT
    } else {
        bits
    }
}

/// Whether the double `a` is less than the double `b`.
pub fn is_less(a: u64, b: u64) -> (r: bool)
    ensures
        r == less(a, b),
{
    match (Scalar::from_bits(a), Scalar::from_bits(b)) {
        (Some(x), Some(y)) => x.lt(y),
        _ => false,
    }
}

/// Whether the double `a` is less than or equal to the double `b`.
pub fn is_less_or_equal(a: u64, b: u64) -> (r: bool)
    ensures
        r == less_or_equal(a, b),
{
    match (Scalar::from_bits(a), Scalar::from_bits(b)) {
        (Some(x), Some(y)) => x.le(y),
        _ => false,
    }
}

/// Whether `t` lies in the closed interval from `lo` to `hi`.
pub open spec fn in_window(t: int, lo: int, hi: int) -> bool {
    lo <= t <= hi
}

/// Among finite numbers of no sign, the greater pattern has the greater value.
proof fn lemma_sizes_grow(a: u64, b: u64)
    requires
        a < b < INFINITY_BITS,
    ensures
        0 <= units(a) < units(b),
{
    let ea = (exponent(a) + 1074) as nat;
    let eb = (exponent(b) + 1074) as nat;
    let ma = significand(a);
    let mb = significand(b);
    lemma_pow2_pos(ea);
    let pa = pow2(ea) as int;
    assert(0 <= ma * pa) by (nonlinear_arith)
        requires
            0 <= ma,
            0 < pa,
    ;
    if ea == eb {
        assert(ma * pa < mb * pa) by (nonlinear_arith)
            requires
                0 <= ma < mb,
                pa > 0,
        ;
    } else {
        lemma_pow2_adds(ea, (eb - ea) as nat);
        lemma_pow2_adds(1, (eb - ea - 1) as nat);
        lemma2_to64();
        lemma_pow2_pos((eb - ea - 1) as nat);
        let r = pow2((eb - ea - 1) as nat) as int;
        assert(pow2(eb) == pa * (2 * r)) by (nonlinear_arith)
            requires
                pow2(eb) == pa * pow2((eb - ea) as nat),
                pow2((eb - ea) as nat) == 2 * r,
        ;
        assert(ma * pa < mb * (pa * (2 * r))) by (nonlinear_arith)
            requires
                0 <= ma < 2 * 0x10_0000_0000_0000,
                mb >= 0x10_0000_0000_0000,
                pa > 0,
                r >= 1,
        ;
    }
}

/// The value of the pattern of no sign: none for zero, more for any other.
proof fn lemma_size(a: u64)
    requires
        a < INFINITY_BITS,
    ensures
        a == 0 ==> units(a) == 0,
        a > 0 ==> units(a) > 0,
{
    if a > 0 {
        lemma_sizes_grow(0, a);
    }
    assert(units(0) == 0) by {
        assert(significand(0) == 0);
        assert(0 * pow2((exponent(0) + 1074) as nat) == 0);
    }
}

/// The order of the ordinals is the order of the values: of two finite
/// numbers, the one of the lesser ordinal is the lesser in value, and two of
/// one ordinal are equal in value.
pub proof fn lemma_order_is_numeric(a: u64, b: u64)
    requires
        is_finite(a),
        is_finite(b),
    ensures
        ordinal(a) < ordinal(b) <==> units(a) < units(b),
        ordinal(a) == ordinal(b) <==> units(a) == units(b),
{
    let x = absolute(a);
    let y = absolute(b);
    assert(significand(x) == significand(a) && exponent(x) == exponent(a));
    assert(significand(y) == significand(b) && exponent(y) == exponent(b));
    lemma_size(x);
    lemma_size(y);
    if x < y {
        lemma_sizes_grow(x, y);
    }
    if y < x {
        lemma_sizes_grow(y, x);
    }
}

/// The infinities lie beyond every finite number.
pub proof fn lemma_infinities_are_outermost(a: u64)
    requires
        is_finite(a),
    ensures
        less(a, INFINITY_BITS),
        less((SIGN_BIT + INFINITY_BITS) as u64, a),
{
}

/// Of a finite number of no sign whose significand is `m` and whose exponent
/// is `-k`: the number is a double nearest to `num / den` where `m` times
/// `den` is within half of `den` of `num` times 2 to the power `k`.
pub(crate) proof fn lemma_rounds(bits: u64, num: int, den: int)
    requires
        bits < INFINITY_BITS,
        den > 0,
        -1074 <= exponent(bits) <= 0,
        -den <= 2 * (significand(bits) * den - num * pow2((-exponent(bits)) as nat)) <= den,
    ensures
        rounds(bits, num, den),
{
    let m = significand(bits);
    let up = (exponent(bits) + 1074) as nat;
    let down = (-exponent(bits)) as nat;
    lemma_pow2_adds(up, down);
    lemma_pow2_pos(up);
    let p = pow2(up) as int;
    let q = pow2(down) as int;
    let inner = m * den - num * q;
    assert(units(bits) * den - num * pow2(1074) == p * inner) by (nonlinear_arith)
        requires
            units(bits) == m * p,
            pow2(1074) == p * q,
            inner == m * den - num * q,
    ;
    assert(-(den * p) <= 2 * (p * inner) <= den * p) by (nonlinear_arith)
        requires
            -den <= 2 * inner <= den,
            p > 0,
    ;
}

/// `ONE` is the double 1.
pub proof fn lemma_one()
    ensures
        units(ONE) == pow2(1074),
{
    lemma_pow2_adds(1022, 52);
    lemma2_to64();
    lemma2_to64_rest();
    assert(significand(ONE) == 0x10_0000_0000_0000);
    assert(exponent(ONE) == -52);
    assert(units(ONE) == 0x10_0000_0000_0000 * pow2(1022));
    assert(0x10_0000_0000_0000 * pow2(1022) == pow2(1022) * pow2(52)) by (nonlinear_arith)
        requires
            pow2(52) == 0x10_0000_0000_0000,
    ;
}

/// Two scalars of one ordinal are the same scalar.
pub proof fn lemma_same_ordinal(a: Scalar, b: Scalar)
    requires
        a@ == b@,
    ensures
        a == b,
{
}

/// Every ordinal's pattern is a number, and has that ordinal.
pub proof fn lemma_pattern_of_ordinal(o: int)
    requires
        is_ordinal(o),
    ensures
        !is_nan(pattern(o)),
        ordinal(pattern(o)) == o,
{
}

/// A number's ordinal gives its bit pattern back, but for negative zero, whose
/// ordinal is that of positive zero.
pub proof fn lemma_ordinal_of_pattern(bits: u64)
    requires
        !is_nan(bits),
    ensures
        is_ordinal(ordinal(bits)),
        pattern(ordinal(bits)) == (if bits == SIGN_BIT { 0 } else { bits }),
{
}

} // verus!
