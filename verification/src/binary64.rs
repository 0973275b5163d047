//! Binary64 numbers, held by their bit patterns.
//!
//! The library orders such numbers and passes them on; it never calculates with them.

use vstd::prelude::*;

verus! {

/// The weight of the sign bit.
pub const SIGN: u64 = 0x8000_0000_0000_0000;

/// The bit pattern of positive infinity; a larger magnitude is not a number.
pub const INFINITY_BITS: u64 = 0x7ff0_0000_0000_0000;

/// A number in the binary64 format, by its bit pattern.
#[derive(Clone, Copy, PartialEq, Eq, Structural, Debug)]
pub struct Real {
    pub bits: u64,
}

impl Real {
    /// The bit pattern without the sign.
    pub open spec fn magnitude(self) -> int {
        if self.bits < SIGN {
            self.bits as int
        } else {
            self.bits - SIGN
        }
    }

    /// Whether the pattern stands for no number.
    pub open spec fn nan(self) -> bool {
        self.magnitude() > INFINITY_BITS
    }

    /// An integer that orders the numbers as their values do; the two zeros share it.
    pub open spec fn rank(self) -> int {
        if self.bits < SIGN {
            self.magnitude()
        } else {
            -self.magnitude()
        }
    }

    /// Whether `self < other` holds of the values.
    pub open spec fn lt(self, other: Real) -> bool {
        !self.nan() && !other.nan() && self.rank() < other.rank()
    }

    /// Whether `self <= other` holds of the values.
    pub open spec fn le(self, other: Real) -> bool {
        !self.nan() && !other.nan() && self.rank() <= other.rank()
    }

    /// The magnitude of the bit pattern.
    fn magnitude_bits(&self) -> (r: u64)
        ensures
            r == self.magnitude(),
    {
        if self.bits < SIGN {
            self.bits
        } else {
            self.bits - SIGN
        }
    }

    /// Whether the pattern stands for no number.
    pub fn is_nan(&self) -> (r: bool)
        ensures
            r == self.nan(),
    {
        self.magnitude_bits() > INFINITY_BITS
    }

    /// The rank of a number.
    fn rank_of(&self) -> (r: i128)
        ensures
            r == self.rank(),
    {
        if self.bits < SIGN {
            self.bits as i128
        } else {
            -((self.bits - SIGN) as i128)
        }
    }

    /// The rank of a number with the opposite sign: higher numbers come first by it.
    pub fn negated_rank(&self) -> (r: i128)
        ensures
            r == -self.rank(),
    {
        -self.rank_of()
    }

    /// Whether `self` is less than `other`; false where either is not a number.
    pub fn is_less(&self, other: &Real) -> (r: bool)
        ensures
            r == self.lt(*other),
    {
        !self.is_nan() && !other.is_nan() && self.rank_of() < other.rank_of()
    }

    /// Whether `self` is at most `other`; false where either is not a number.
    pub fn is_at_most(&self, other: &Real) -> (r: bool)
        ensures
            r == self.le(*other),
    {
        !self.is_nan() && !other.is_nan() && self.rank_of() <= other.rank_of()
    }
}

/// The bit pattern of one.
pub const ONE_BITS: u64 = 0x3ff0_0000_0000_0000;

/// `x`, brought into the range from zero to one; what is not a number stays.
pub open spec fn unit_clamped(x: Real) -> Real {
    if x.lt(Real { bits: 0 }) {
        Real { bits: 0 }
    } else if (Real { bits: ONE_BITS }).lt(x) {
        Real { bits: ONE_BITS }
    } else {
        x
    }
}

/// `x`, brought into the range from zero to one; what is not a number stays.
pub fn clamp_unit(x: Real) -> (r: Real)
    ensures
        r == unit_clamped(x),
{
    let zero = Real { bits: 0 };
    let one = Real { bits: ONE_BITS };
    if x.is_less(&zero) {
        zero
    } else if one.is_less(&x) {
        one
    } else {
        x
    }
}

/// Numbers without a sign are ordered as their bit patterns are, numbers with a sign the other
/// way round, and those with a sign come before the others, but for zero, which has both signs.
/// What is not a number has no order.
pub proof fn law_order_of_numbers(x: Real, y: Real)
    ensures
        x.bits <= 0x7ff0_0000_0000_0000 && y.bits <= 0x7ff0_0000_0000_0000 ==> x.lt(y) == (x.bits
            < y.bits) && x.le(y) == (x.bits <= y.bits),
        0x8000_0000_0000_0000 <= x.bits <= 0xfff0_0000_0000_0000 && 0x8000_0000_0000_0000 <= y.bits
            <= 0xfff0_0000_0000_0000 ==> x.lt(y) == (x.bits > y.bits) && x.le(y) == (x.bits
            >= y.bits),
        0x8000_0000_0000_0000 < x.bits <= 0xfff0_0000_0000_0000 && y.bits <= 0x7ff0_0000_0000_0000
            ==> x.lt(y) && !y.lt(x) && x.le(y) && !y.le(x),
        x.bits == 0x8000_0000_0000_0000 && y.bits == 0 ==> !x.lt(y) && !y.lt(x) && x.le(y) && y.le(
            x,
        ),
        x.bits == 0x8000_0000_0000_0000 && 0 < y.bits <= 0x7ff0_0000_0000_0000 ==> x.lt(y)
            && !y.lt(x) && x.le(y) && !y.le(x),
        x.nan() <==> 0x7ff0_0000_0000_0000 < x.bits < 0x8000_0000_0000_0000
            || 0xfff0_0000_0000_0000 < x.bits,
        x.nan() || y.nan() ==> !x.lt(y) && !x.le(y),
        !x.nan() && !y.nan() ==> (x.lt(y) <==> x.rank() < y.rank()) && (x.le(y) <==> x.rank()
            <= y.rank()),
{
}

/// What is brought into the range from zero to one is in it, and what is in it stays as it is:
/// lower numbers become zero, higher ones become one.
pub proof fn law_unit_range(x: Real)
    ensures
        x.bits <= 0x3ff0_0000_0000_0000 ==> unit_clamped(x) == x,
        0x3ff0_0000_0000_0000 < x.bits <= 0x7ff0_0000_0000_0000 ==> unit_clamped(x).bits
            == 0x3ff0_0000_0000_0000,
        0x8000_0000_0000_0000 < x.bits <= 0xfff0_0000_0000_0000 ==> unit_clamped(x).bits == 0,
        x.bits == 0x8000_0000_0000_0000 || x.nan() ==> unit_clamped(x) == x,
{
}

} // verus!
