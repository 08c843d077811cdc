//! Scalars and log-probabilities.
//!
//! The numbers of a decode are IEEE 754 binary32 values. This crate never
//! computes with them: it carries each one as an integer ordinal, compares
//! ordinals, and leaves the arithmetic to the operations that the caller hands
//! in (see `crate::arith`).

use vstd::prelude::*;

verus! {

/// The ordinal of negative infinity, the log of probability zero.
pub const NEG_INFINITY_ORDINAL: i32 = -2139095040;

/// The ordinal of positive infinity.
pub const INFINITY_ORDINAL: i32 = 2139095040;

/// The bit pattern of negative zero.
pub const NEGATIVE_ZERO_BITS: u32 = 0x8000_0000;

/// A binary32 number, held as its ordinal.
///
/// The ordinal of a non-negative pattern is the pattern read as an integer; the
/// ordinal of a pattern with the sign bit set is minus its magnitude. Both
/// zeros have ordinal zero, and of two numbers the smaller has the smaller
/// ordinal, so `<` and `==` on ordinals are the order and the equality of the
/// numbers themselves. Patterns that are not numbers have ordinals outside
/// `NEG_INFINITY_ORDINAL ..= INFINITY_ORDINAL`.
#[derive(Clone, Copy, Debug, PartialEq, Eq, PartialOrd, Ord, Hash, Structural)]
pub struct Scalar(pub i32);

/// A log-probability: the scalar `ln(p)` of a probability `p`.
///
/// Negative infinity stands for `p = 0`. Sums and products of probabilities are
/// operations on scalars that the caller supplies; this type orders.
#[derive(Clone, Copy, Debug, PartialEq, Eq, PartialOrd, Ord, Hash, Structural)]
pub struct LogSpace(pub Scalar);

/// Whether a bit pattern is no number: all exponent bits set and a fraction
/// that is not zero.
pub open spec fn is_nan_bits(bits: u32) -> bool {
    if bits >= NEGATIVE_ZERO_BITS {
        bits - NEGATIVE_ZERO_BITS > INFINITY_ORDINAL
    } else {
        bits > INFINITY_ORDINAL
    }
}

impl Scalar {
    /// The ordinal as a mathematical integer.
    pub open spec fn ord(self) -> int {
        self.0 as int
    }

    /// The scalar of a bit pattern.
    pub open spec fn spec_from_bits(bits: u32) -> Scalar {
        if bits >= NEGATIVE_ZERO_BITS {
            Scalar((NEGATIVE_ZERO_BITS - bits) as i32)
        } else {
            Scalar(bits as i32)
        }
    }

    /// A bit pattern of the scalar: the one with a positive sign for zero. The
    /// least `i32`, which is the ordinal of no pattern, gives the pattern of
    /// the least ordinal there is.
    pub open spec fn spec_to_bits(self) -> u32 {
        if self.0 >= 0 {
            self.0 as u32
        } else if self.0 == i32::MIN {
            u32::MAX
        } else {
            (NEGATIVE_ZERO_BITS - self.0) as u32
        }
    }

    pub open spec fn spec_neg_infinity() -> Scalar {
        Scalar(NEG_INFINITY_ORDINAL)
    }

    pub open spec fn spec_zero() -> Scalar {
        Scalar(0)
    }

    /// Takes a binary32 bit pattern to its scalar.
    pub fn from_bits(bits: u32) -> (s: Scalar)
        ensures
            s == Scalar::spec_from_bits(bits),
            -(i32::MAX as int) <= s.ord() <= i32::MAX as int,
    {
        if bits >= NEGATIVE_ZERO_BITS {
            let magnitude: u32 = bits - NEGATIVE_ZERO_BITS;
            Scalar(0 - (magnitude as i32))
        } else {
            Scalar(bits as i32)
        }
    }

    /// Gives a bit pattern back for a scalar.
    pub fn to_bits(self) -> (bits: u32)
        ensures
            bits == self.spec_to_bits(),
    {
        if self.0 >= 0 {
            self.0 as u32
        } else if self.0 == i32::MIN {
            u32::MAX
        } else {
            let magnitude: u32 = (0 - self.0) as u32;
            NEGATIVE_ZERO_BITS + magnitude
        }
    }

    /// Negative infinity.
    #[verifier::when_used_as_spec(spec_neg_infinity)]
    pub fn neg_infinity() -> (s: Scalar)
        ensures
            s == Scalar::spec_neg_infinity(),
    {
        Scalar(NEG_INFINITY_ORDINAL)
    }

    /// Zero.
    #[verifier::when_used_as_spec(spec_zero)]
    pub fn zero() -> (s: Scalar)
        ensures
            s == Scalar::spec_zero(),
    {
        Scalar(0)
    }

    /// Every pattern but that of negative zero comes back from its scalar.
    pub proof fn lemma_bits_round_trip(bits: u32)
        requires
            bits != NEGATIVE_ZERO_BITS,
        ensures
            Scalar::spec_from_bits(bits).spec_to_bits() == bits,
    {
    }

    /// Every scalar but the one with the least `i32` comes back from its
    /// pattern.
    pub proof fn lemma_scalar_round_trip(s: Scalar)
        requires
            s.0 > i32::MIN,
        ensures
            Scalar::spec_from_bits(s.spec_to_bits()) == s,
    {
    }

    /// Both zeros are the scalar zero, and the two infinities have the
    /// ordinals named above.
    pub proof fn lemma_landmarks()
        ensures
            Scalar::spec_from_bits(0) == Scalar::spec_zero(),
            Scalar::spec_from_bits(NEGATIVE_ZERO_BITS) == Scalar::spec_zero(),
            Scalar::spec_from_bits(0xFF80_0000) == Scalar::spec_neg_infinity(),
            Scalar::spec_from_bits(0x7F80_0000) == Scalar(INFINITY_ORDINAL),
    {
    }

    /// Among the numbers, negative infinity is least and positive infinity
    /// greatest.
    pub proof fn lemma_numbers_are_bounded(bits: u32)
        requires
            !is_nan_bits(bits),
        ensures
            NEG_INFINITY_ORDINAL <= Scalar::spec_from_bits(bits).ord() <= INFINITY_ORDINAL,
    {
    }

    /// On patterns of one sign the ordinal keeps the order of magnitudes for
    /// the positive sign and turns it round for the negative one; every
    /// negative pattern lies at or below every positive one.
    pub proof fn lemma_order_of_patterns(a: u32, b: u32)
        ensures
            a < NEGATIVE_ZERO_BITS && b < NEGATIVE_ZERO_BITS ==> (Scalar::spec_from_bits(a).ord()
                <= Scalar::spec_from_bits(b).ord() <==> a <= b),
            a >= NEGATIVE_ZERO_BITS && b >= NEGATIVE_ZERO_BITS ==> (Scalar::spec_from_bits(a).ord()
                <= Scalar::spec_from_bits(b).ord() <==> b <= a),
            a >= NEGATIVE_ZERO_BITS && b < NEGATIVE_ZERO_BITS ==> Scalar::spec_from_bits(a).ord()
                <= Scalar::spec_from_bits(b).ord(),
    {
    }
}

impl LogSpace {
    /// The ordinal of the log-probability.
    pub open spec fn ord(self) -> int {
        self.0.0 as int
    }

    pub open spec fn spec_neg_infinity() -> LogSpace {
        LogSpace(Scalar(NEG_INFINITY_ORDINAL))
    }

    pub open spec fn spec_zero() -> LogSpace {
        LogSpace(Scalar(0))
    }

    /// Whether this is the log of a probability other than zero.
    pub open spec fn spec_is_possible(self) -> bool {
        self.ord() > NEG_INFINITY_ORDINAL
    }

    /// The log of probability zero.
    #[verifier::when_used_as_spec(spec_neg_infinity)]
    pub fn neg_infinity() -> (l: LogSpace)
        ensures
            l == LogSpace::spec_neg_infinity(),
    {
        LogSpace(Scalar(NEG_INFINITY_ORDINAL))
    }

    /// The log of probability one.
    #[verifier::when_used_as_spec(spec_zero)]
    pub fn zero() -> (l: LogSpace)
        ensures
            l == LogSpace::spec_zero(),
    {
        LogSpace(Scalar(0))
    }

    /// Whether the value is above negative infinity.
    #[verifier::when_used_as_spec(spec_is_possible)]
    pub fn is_possible(self) -> (r: bool)
        ensures
            r == self.spec_is_possible(),
    {
        self.0.0 > NEG_INFINITY_ORDINAL
    }
}

} // verus!
