//! Double-precision scalars, held as their IEEE-754 bit pattern.
//!
//! The engine ranks, filters and compares scalars everywhere but rarely computes with them, so
//! a scalar is kept as sixty-four bits with an exact integer order: the bit pattern without its
//! sign is monotone in the magnitude, and the sign mirrors it.

use vstd::prelude::*;

verus! {

/// The sign bit on its own, which is also the count of non-negative bit patterns.
pub const SIGN: u64 = 0x8000_0000_0000_0000;

/// The bit pattern of positive infinity: every larger magnitude is a NaN.
pub const INFINITE: u64 = 0x7ff0_0000_0000_0000;

/// The bit pattern of one.
pub const ONE: u64 = 0x3ff0_0000_0000_0000;

/// A 64-bit floating-point value, identified by its bit pattern.
#[derive(Debug, Clone, Copy, PartialEq, Eq, Structural)]
pub struct Scalar {
    /// The bit pattern.
    pub bits: u64,
}

/// The distance of a bit pattern from zero, its sign dropped.
pub open spec fn magnitude(bits: u64) -> int {
    if bits >= SIGN {
        bits - SIGN
    } else {
        bits as int
    }
}

/// The position of a bit pattern on the number line; both zeros sit at 0.
pub open spec fn position(bits: u64) -> int {
    if bits >= SIGN {
        SIGN - bits
    } else {
        bits as int
    }
}

impl Scalar {
    /// The bit pattern this scalar stands for.
    pub open spec fn pattern(self) -> u64 {
        self.bits
    }

    /// Where this scalar sits on the number line, when it is a number.
    pub open spec fn key(self) -> int {
        position(self.pattern())
    }

    /// Whether this scalar is not a number.
    pub open spec fn nan(self) -> bool {
        magnitude(self.pattern()) > INFINITE
    }

    /// Whether this scalar is a number of finite size.
    pub open spec fn finite(self) -> bool {
        magnitude(self.pattern()) < INFINITE
    }

    /// Whether this scalar is a number from zero to one.
    pub open spec fn probability(self) -> bool {
        !self.nan() && 0 <= self.key() <= ONE
    }

    /// `self < other`: false whenever either side is not a number.
    pub open spec fn less(self, other: Scalar) -> bool {
        !self.nan() && !other.nan() && self.key() < other.key()
    }

    /// `self == other` as numbers: the two zeros are equal, a NaN equals nothing.
    pub open spec fn same(self, other: Scalar) -> bool {
        !self.nan() && !other.nan() && self.key() == other.key()
    }

    /// This scalar moved into `[low, high]`.
    pub open spec fn clamped(self, low: Scalar, high: Scalar) -> Scalar {
        if self.less(low) {
            low
        } else if high.less(self) {
            high
        } else {
            self
        }
    }

    /// The scalar with the given bit pattern.
    pub fn from_bits(bits: u64) -> (s: Scalar)
        ensures
            s.pattern() == bits,
    {
        Scalar { bits }
    }

    /// The bit pattern of this scalar.
    pub fn to_bits(&self) -> (bits: u64)
        ensures
            bits == self.pattern(),
    {
        self.bits
    }

    /// Positive infinity.
    pub fn infinity() -> (s: Scalar)
        ensures
            s.pattern() == INFINITE,
            !s.nan(),
            !s.finite(),
    {
        Scalar { bits: INFINITE }
    }

    /// Negative infinity.
    pub fn neg_infinity() -> (s: Scalar)
        ensures
            s.pattern() == SIGN + INFINITE,
            !s.nan(),
            !s.finite(),
    {
        Scalar { bits: 0xfff0_0000_0000_0000 }
    }

    /// Positive zero.
    pub fn zero() -> (s: Scalar)
        ensures
            s.pattern() == 0,
            s.key() == 0,
            s.finite(),
    {
        Scalar { bits: 0 }
    }

    /// Whether this scalar is not a number.
    pub fn is_nan(&self) -> (r: bool)
        ensures
            r == self.nan(),
    {
        if self.bits >= SIGN {
            self.bits - SIGN > INFINITE
        } else {
            self.bits > INFINITE
        }
    }

    /// Whether this scalar is neither infinite nor NaN.
    pub fn is_finite(&self) -> (r: bool)
        ensures
            r == self.finite(),
    {
        if self.bits >= SIGN {
            self.bits - SIGN < INFINITE
        } else {
            self.bits < INFINITE
        }
    }

    /// Whether this scalar is a number from zero to one.
    pub fn is_probability(&self) -> (r: bool)
        ensures
            r == self.probability(),
    {
        self.bits <= ONE || self.bits == SIGN
    }

    /// Whether this scalar is strictly below `other`.
    pub fn lt(&self, other: &Scalar) -> (r: bool)
        ensures
            r == self.less(*other),
    {
        if self.is_nan() || other.is_nan() {
            return false;
        }
        if self.bits >= SIGN {
            if other.bits >= SIGN {
                self.bits > other.bits
            } else {
                self.bits > SIGN || other.bits > 0
            }
        } else {
            other.bits < SIGN && self.bits < other.bits
        }
    }

    /// Whether this scalar is at most `other`.
    pub fn le(&self, other: &Scalar) -> (r: bool)
        ensures
            r == (self.less(*other) || self.same(*other)),
    {
        self.lt(other) || self.equals(other)
    }

    /// Whether the two scalars are the same number.
    pub fn equals(&self, other: &Scalar) -> (r: bool)
        ensures
            r == self.same(*other),
    {
        !self.is_nan() && !other.is_nan() && (self.bits == other.bits || (self.bits == 0
            && other.bits == SIGN) || (self.bits == SIGN && other.bits == 0))
    }

    /// This scalar moved into `[low, high]`; a NaN stays a NaN.
    pub fn clamp(&self, low: &Scalar, high: &Scalar) -> (r: Scalar)
        ensures
            r == self.clamped(*low, *high),
            !self.nan() && !low.nan() && !high.nan() && low.key() <= high.key() ==> !r.nan()
                && low.key() <= r.key() <= high.key(),
    {
        if self.lt(low) {
            *low
        } else if high.lt(self) {
            *high
        } else {
            *self
        }
    }

    /// The scalar with its sign flipped.
    pub open spec fn flipped(self) -> Scalar {
        if self.bits >= SIGN {
            Scalar { bits: (self.bits - SIGN) as u64 }
        } else {
            Scalar { bits: (self.bits + SIGN) as u64 }
        }
    }

    /// The scalar with its sign flipped.
    pub fn neg(&self) -> (r: Scalar)
        ensures
            r == self.flipped(),
            r.key() == -self.key(),
            r.nan() == self.nan(),
            r.finite() == self.finite(),
            magnitude(r.pattern()) == magnitude(self.pattern()),
            (r.pattern() >= SIGN) == (self.pattern() < SIGN),
    {
        if self.bits >= SIGN {
            Scalar { bits: self.bits - SIGN }
        } else {
            Scalar { bits: self.bits + SIGN }
        }
    }
}

/// Flipping signs reverses the order.
pub proof fn flipping_reverses(a: Scalar, b: Scalar)
    ensures
        a.flipped().less(b.flipped()) <==> b.less(a),
        a.flipped().nan() == a.nan(),
{
}

/// Among numbers the order is total: exactly one of below, equal and above holds.
pub proof fn law_scalar_order_is_total(a: Scalar, b: Scalar)
    requires
        !a.nan(),
        !b.nan(),
    ensures
        a.less(b) || a.same(b) || b.less(a),
        !(a.less(b) && b.less(a)),
        a.same(b) ==> !a.less(b) && !b.less(a),
{
}

/// The order is transitive.
pub proof fn law_scalar_order_is_transitive(a: Scalar, b: Scalar, c: Scalar)
    requires
        a.less(b),
        b.less(c),
    ensures
        a.less(c),
{
}

/// A NaN is neither below, nor equal to, nor above anything.
pub proof fn law_nan_is_unordered(a: Scalar, b: Scalar)
    requires
        a.nan(),
    ensures
        !a.less(b),
        !b.less(a),
        !a.same(b),
{
}

} // verus!
