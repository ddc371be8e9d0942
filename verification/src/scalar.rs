//! Scores, probabilities and stage parameters as ordered 32-bit patterns.

use vstd::prelude::*;

verus! {

/// The pattern of positive infinity; a magnitude above it stands for no number.
pub const INFINITY_BITS: u32 = 0x7f80_0000;

/// The least code of a normal number above zero; the codes between it and zero
/// stand for the numbers too small to carry their full precision.
pub const MIN_NORMAL_CODE: i64 = 0x0080_0000;

/// The code of the number one.
pub const ONE_CODE: i64 = 0x3f80_0000;

/// The code of positive infinity, above which no code lies.
pub const INFINITY_CODE: i64 = 0x7f80_0000;

/// The sign bit of a pattern.
pub const SIGN_BIT: u32 = 0x8000_0000;

/// A real quantity in the IEEE 754 single format, held as its bit pattern: one
/// sign bit above 31 bits of magnitude.
///
/// The library never computes with such a value. It only orders them, by
/// [`Scalar::code`], and hands the pattern on unchanged. Two values are equal
/// under `==` when their patterns are.
#[derive(Clone, Copy, Debug, PartialEq, Eq, Structural, Hash)]
pub struct Scalar {
    pub bits: u32,
}

impl Scalar {
    /// The magnitude of the pattern: its low 31 bits.
    pub open spec fn magnitude(self) -> int {
        if self.bits < SIGN_BIT {
            self.bits as int
        } else {
            self.bits - SIGN_BIT
        }
    }

    /// Whether the pattern stands for no number.
    pub open spec fn is_nan(self) -> bool {
        self.magnitude() > INFINITY_BITS
    }

    /// The integer by which the value is ordered: the magnitude, negated under
    /// the sign bit. Both zeros have code 0, and a greater number has a greater
    /// code. A pattern that stands for no number is ordered as the infinity of
    /// its sign.
    pub open spec fn code(self) -> int {
        let m = if self.is_nan() {
            INFINITY_BITS as int
        } else {
            self.magnitude()
        };
        if self.bits < SIGN_BIT {
            m
        } else {
            -m
        }
    }

    /// The value with the given pattern.
    pub fn from_bits(bits: u32) -> (value: Self)
        ensures
            value.bits == bits,
    {
        Scalar { bits }
    }

    /// The pattern of the value.
    pub fn to_bits(&self) -> (bits: u32)
        ensures
            bits == self.bits,
    {
        self.bits
    }

    /// Negative infinity as a mathematical value.
    pub open spec fn spec_neg_infinity() -> Scalar {
        Scalar { bits: 0xff80_0000 }
    }

    /// Negative infinity, below which no code lies.
    #[verifier::when_used_as_spec(spec_neg_infinity)]
    pub fn neg_infinity() -> (value: Self)
        ensures
            value == Self::spec_neg_infinity(),
    {
        Scalar { bits: 0xff80_0000 }
    }

    /// The code, computed.
    pub fn order_key(&self) -> (key: i64)
        ensures
            key == self.code(),
    {
        let negative = self.bits >= SIGN_BIT;
        let magnitude: u32 = if negative {
            self.bits - SIGN_BIT
        } else {
            self.bits
        };
        let capped: u32 = if magnitude > INFINITY_BITS {
            INFINITY_BITS
        } else {
            magnitude
        };
        if negative {
            -(capped as i64)
        } else {
            capped as i64
        }
    }

    /// Whether `self` is ordered strictly below `other`.
    pub fn lt(&self, other: &Scalar) -> (below: bool)
        ensures
            below == (self.code() < other.code()),
    {
        self.order_key() < other.order_key()
    }

    /// Whether `self` is ordered at or below `other`.
    pub fn le(&self, other: &Scalar) -> (below: bool)
        ensures
            below == (self.code() <= other.code()),
    {
        self.order_key() <= other.order_key()
    }

    /// Whether the value is zero or negative.
    pub fn is_non_positive(&self) -> (yes: bool)
        ensures
            yes == (self.code() <= 0),
    {
        self.order_key() <= 0
    }
}

/// No code lies outside the two infinities, and negative infinity has the least.
pub proof fn lemma_code_bounds(value: Scalar)
    ensures
        Scalar::neg_infinity().code() == -INFINITY_CODE,
        Scalar::neg_infinity().code() <= value.code() <= INFINITY_CODE,
{
}

} // verus!
