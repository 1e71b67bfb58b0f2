//! Single-precision numbers as bit patterns.
use vstd::prelude::*;

verus! {

/// A single-precision number in the binary interchange format of IEEE 754: a sign bit, eight
/// bits of exponent and 23 bits of fraction.
#[derive(Clone, Copy, PartialEq, Eq, Structural, Debug)]
pub struct Single {
    pub bits: u32,
}

/// The sign bit on its own: as many magnitudes lie below it.
pub const SIGN: u32 = 0x8000_0000;

/// The magnitude of infinity. Larger ones are not numbers.
pub const INFINITE: u32 = 0x7f80_0000;

impl Single {
    /// The bits without the sign.
    pub open spec fn spec_magnitude(self) -> u32 {
        if self.bits < SIGN {
            self.bits
        } else {
            (self.bits - SIGN) as u32
        }
    }

    /// Whether this is not a number.
    pub open spec fn spec_is_nan(self) -> bool {
        self.spec_magnitude() > INFINITE
    }

    /// Whether this is a number other than the infinities.
    pub open spec fn spec_is_finite(self) -> bool {
        self.spec_magnitude() < INFINITE
    }

    /// An integer that orders numbers as their values do. Both zeros have the same one.
    pub open spec fn order(self) -> int {
        if self.bits < SIGN {
            self.bits as int
        } else {
            -(self.bits - SIGN)
        }
    }

    /// Whether this is a smaller number than another. False when one of them is not a number.
    pub open spec fn spec_lt(self, other: Single) -> bool {
        !self.spec_is_nan() && !other.spec_is_nan() && self.order() < other.order()
    }

    /// Whether this is a smaller number than another or equal to it.
    pub open spec fn spec_le(self, other: Single) -> bool {
        !self.spec_is_nan() && !other.spec_is_nan() && self.order() <= other.order()
    }

    /// Whether this is zero, of either sign.
    pub open spec fn spec_is_zero(self) -> bool {
        self.order() == 0
    }

    /// The bits without the sign.
    fn magnitude(self) -> (r: u32)
        ensures
            r == self.spec_magnitude(),
    {
        if self.bits < SIGN {
            self.bits
        } else {
            self.bits - SIGN
        }
    }

    /// Whether this is a number other than the infinities.
    pub fn is_finite(self) -> (r: bool)
        ensures
            r == self.spec_is_finite(),
    {
        self.magnitude() < INFINITE
    }

    /// Whether this is a smaller number than another. False when one of them is not a number.
    pub fn lt(self, other: Single) -> (r: bool)
        ensures
            r == self.spec_lt(other),
    {
        if self.magnitude() > INFINITE || other.magnitude() > INFINITE {
            false
        } else if self.bits < SIGN {
            other.bits < SIGN && self.bits < other.bits
        } else if other.bits < SIGN {
            self.magnitude() > 0 || other.bits > 0
        } else {
            other.bits < self.bits
        }
    }

    /// Whether this is zero, of either sign.
    pub fn is_zero(self) -> (r: bool)
        ensures
            r == self.spec_is_zero(),
    {
        self.magnitude() == 0
    }
}

/// Numbers are ordered: of two, one is smaller or they are equal.
pub proof fn law_ordered(a: Single, b: Single)
    requires
        !a.spec_is_nan(),
        !b.spec_is_nan(),
    ensures
        a.spec_lt(b) <==> !b.spec_le(a),
        a.spec_le(a),
{
}

} // verus!
