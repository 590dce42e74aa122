//! Exact rational values: a signed target and the unsigned magnitudes that the search compares.

use vstd::prelude::*;

verus! {

/// A signed rational number `numer / denom`; well formed when `denom > 0`.
#[derive(Clone, Copy, Debug, PartialEq, Eq, Structural)]
pub struct SignedRatio {
    pub numer: i64,
    pub denom: u64,
}

/// An unsigned rational number `numer / denom`; well formed when `denom > 0`.
///
/// Two ratios that denote the same number may differ in their fields, so values are
/// compared with [`UnsignedRatio::same_value`] rather than `==`.
#[derive(Clone, Copy, Debug, PartialEq, Eq, Structural)]
pub struct UnsignedRatio {
    pub numer: u64,
    pub denom: u64,
}

/// Product of two `u64` values, which always fits a `u128`.
pub(crate) fn wide_mul(a: u64, b: u64) -> (r: u128)
    ensures
        r == a as int * b as int,
{
    proof {
        assert(a as int * b as int <= u64::MAX as int * u64::MAX as int) by (nonlinear_arith);
    }
    (a as u128) * (b as u128)
}

impl SignedRatio {
    pub open spec fn wf(self) -> bool {
        self.denom > 0
    }

    /// Whether the number is below zero.
    pub open spec fn spec_is_negative(self) -> bool {
        self.numer < 0
    }

    /// The absolute value, with the same denominator.
    pub open spec fn spec_magnitude(self) -> UnsignedRatio {
        UnsignedRatio {
            numer: (if self.numer < 0 { -self.numer } else { self.numer as int }) as u64,
            denom: self.denom,
        }
    }

    pub fn is_negative(&self) -> (r: bool)
        ensures
            r == self.spec_is_negative(),
    {
        self.numer < 0
    }

    /// Splits off the sign: the magnitude `|numer| / denom`.
    pub fn unsigned_abs(&self) -> (r: UnsignedRatio)
        ensures
            r == self.spec_magnitude(),
    {
        let numer: u64 = if self.numer < 0 {
            if self.numer == i64::MIN {
                0x8000_0000_0000_0000u64
            } else {
                (-self.numer) as u64
            }
        } else {
            self.numer as u64
        };
        UnsignedRatio { numer, denom: self.denom }
    }
}

impl UnsignedRatio {
    pub open spec fn wf(self) -> bool {
        self.denom > 0
    }

    /// `self` and `o` denote the same number.
    pub open spec fn spec_same_value(self, o: UnsignedRatio) -> bool {
        self.numer as int * o.denom as int == o.numer as int * self.denom as int
    }

    /// `self <= o` as numbers.
    pub open spec fn spec_le(self, o: UnsignedRatio) -> bool {
        self.numer as int * o.denom as int <= o.numer as int * self.denom as int
    }

    /// The number is a whole number.
    pub open spec fn spec_is_integer(self) -> bool {
        self.numer as int % self.denom as int == 0
    }

    pub open spec fn spec_is_zero(self) -> bool {
        self.numer == 0
    }

    pub fn same_value(&self, o: &UnsignedRatio) -> (r: bool)
        ensures
            r == self.spec_same_value(*o),
    {
        wide_mul(self.numer, o.denom) == wide_mul(o.numer, self.denom)
    }

    pub fn le(&self, o: &UnsignedRatio) -> (r: bool)
        ensures
            r == self.spec_le(*o),
    {
        wide_mul(self.numer, o.denom) <= wide_mul(o.numer, self.denom)
    }

    pub fn is_integer(&self) -> (r: bool)
        requires
            self.wf(),
        ensures
            r == self.spec_is_integer(),
    {
        self.numer % self.denom == 0
    }

    pub fn is_zero(&self) -> (r: bool)
        ensures
            r == self.spec_is_zero(),
    {
        self.numer == 0
    }
}

} // verus!
