//! IEEE 754 binary64 values carried by their bit patterns.
//!
//! The ledger stores severities and gold contents as binary64 numbers. Inside
//! the verified library such a number is held as its 64-bit encoding, and the
//! comparisons the ledger needs are decided on that encoding: for two numbers
//! that are not NaN, the order of the values is the order of their ranks,
//! where the rank of a non-negative encoding is the encoding itself and the
//! rank of a negative one is minus its magnitude (so both zeros rank 0).

use vstd::prelude::*;

verus! {

/// The sign bit of a binary64 encoding.
pub const SIGN_BIT: u64 = 0x8000_0000_0000_0000;

/// The encoding of positive infinity; larger magnitudes encode NaNs.
pub const INFINITY_BITS: u64 = 0x7FF0_0000_0000_0000;

/// The encoding of positive zero.
pub const ZERO_BITS: u64 = 0;

/// The encoding of one.
pub const ONE_BITS: u64 = 0x3FF0_0000_0000_0000;

/// The encoding of the binary64 number nearest to seven tenths.
pub const SEVEN_TENTHS_BITS: u64 = 0x3FE6_6666_6666_6666;

/// The encoding of the binary64 number nearest to eight tenths.
pub const EIGHT_TENTHS_BITS: u64 = 0x3FE9_9999_9999_999A;

/// A binary64 number, held as its bit pattern.
#[derive(Debug, Clone, Copy)]
pub struct Binary64 {
    /// The 64-bit IEEE 754 encoding.
    pub bits: u64,
}

impl Binary64 {
    /// The magnitude part of the encoding (the encoding without its sign bit).
    pub open spec fn magnitude(self) -> int {
        if self.bits >= SIGN_BIT {
            self.bits - SIGN_BIT
        } else {
            self.bits as int
        }
    }

    /// Whether the encoding is negative (sign bit set).
    pub open spec fn sign_set(self) -> bool {
        self.bits >= SIGN_BIT
    }

    /// Whether the encoding is a NaN.
    pub open spec fn nan(self) -> bool {
        self.magnitude() > INFINITY_BITS
    }

    /// The position of the value on the number line, for encodings that are not NaN.
    pub open spec fn rank(self) -> int {
        if self.sign_set() {
            -self.magnitude()
        } else {
            self.magnitude()
        }
    }

    /// `self < other` as binary64 numbers.
    pub open spec fn less_than(self, other: Binary64) -> bool {
        !self.nan() && !other.nan() && self.rank() < other.rank()
    }

    /// `self > other` as binary64 numbers.
    pub open spec fn greater_than(self, other: Binary64) -> bool {
        other.less_than(self)
    }

    /// What `clamp(0.0, 1.0)` returns for `self`: zero below zero, one above
    /// one, the value itself otherwise (a NaN stays a NaN).
    pub open spec fn clamped_unit(self) -> Binary64 {
        if self.less_than(Binary64 { bits: ZERO_BITS }) {
            Binary64 { bits: ZERO_BITS }
        } else if self.greater_than(Binary64 { bits: ONE_BITS }) {
            Binary64 { bits: ONE_BITS }
        } else {
            self
        }
    }

    /// The number with the given encoding.
    pub fn from_bits(bits: u64) -> (r: Binary64)
        ensures
            r.bits == bits,
    {
        Binary64 { bits }
    }

    /// The encoding of this number.
    pub fn to_bits(&self) -> (r: u64)
        ensures
            r == self.bits,
    {
        self.bits
    }

    fn magnitude_exec(&self) -> (m: u64)
        ensures
            m == self.magnitude(),
    {
        if self.bits >= SIGN_BIT {
            self.bits - SIGN_BIT
        } else {
            self.bits
        }
    }

    /// Whether this number is a NaN.
    pub fn is_nan(&self) -> (r: bool)
        ensures
            r == self.nan(),
    {
        self.magnitude_exec() > INFINITY_BITS
    }

    /// `self < other`, with IEEE 754 semantics (false when either is a NaN).
    pub fn lt(&self, other: &Binary64) -> (r: bool)
        ensures
            r == self.less_than(*other),
    {
        if self.is_nan() || other.is_nan() {
            return false;
        }
        let a = self.magnitude_exec();
        let b = other.magnitude_exec();
        let a_neg = self.bits >= SIGN_BIT;
        let b_neg = other.bits >= SIGN_BIT;
        if !a_neg && !b_neg {
            a < b
        } else if a_neg && b_neg {
            b < a
        } else if a_neg {
            a != 0 || b != 0
        } else {
            false
        }
    }

    /// `self > other`, with IEEE 754 semantics (false when either is a NaN).
    pub fn gt(&self, other: &Binary64) -> (r: bool)
        ensures
            r == self.greater_than(*other),
    {
        other.lt(self)
    }

    /// The number clamped to the unit interval, as `clamp(0.0, 1.0)` does.
    pub fn clamp_unit(&self) -> (r: Binary64)
        ensures
            r == self.clamped_unit(),
    {
        let zero = Binary64 { bits: ZERO_BITS };
        let one = Binary64 { bits: ONE_BITS };
        if self.lt(&zero) {
            zero
        } else if self.gt(&one) {
            one
        } else {
            *self
        }
    }
}

/// A clamped number is a NaN or lies between zero and one.
pub proof fn law_clamp_lands_in_unit_interval(x: Binary64)
    ensures
        x.clamped_unit().nan() || (0 <= x.clamped_unit().rank() <= ONE_BITS),
{
}

/// Clamping leaves numbers already between zero and one unchanged.
pub proof fn law_clamp_keeps_unit_values(x: Binary64)
    requires
        !x.nan(),
        0 <= x.rank() <= ONE_BITS,
    ensures
        x.clamped_unit() == x,
{
}

} // verus!
