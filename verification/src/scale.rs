//! Pixel scales: IEEE 754 single-precision values, carried as their bit patterns.
//!
//! The library compares pixel scales and takes minima and maxima of them, and never computes
//! with them. Both operations read off the bit pattern: apart from the sign, a pattern is the
//! larger the larger its value, and the patterns above that of infinity are the NaNs.

use vstd::prelude::*;

verus! {

/// Weight of the sign bit.
pub const SIGN_BIT: u32 = 0x8000_0000;

/// Pattern of positive infinity; a larger magnitude is a NaN.
pub const INFINITY_BITS: u32 = 0x7f80_0000;

/// A single-precision value, given by its bit pattern.
#[derive(Debug, Clone, Copy, PartialEq, Eq, Structural, Hash)]
pub struct Scale {
    pub bits: u32,
}

/// The pattern without its sign.
pub open spec fn magnitude(s: Scale) -> int {
    s.bits as int % 0x8000_0000
}

/// Position of a value that is no NaN on the number line: the order of these integers is the
/// order of the values, and both zeros lie at 0.
pub open spec fn rank(s: Scale) -> int {
    if s.bits >= SIGN_BIT {
        -magnitude(s)
    } else {
        magnitude(s)
    }
}

pub open spec fn nan(s: Scale) -> bool {
    magnitude(s) > INFINITY_BITS
}

/// `a <= b` of IEEE 754: false as soon as either side is a NaN.
pub open spec fn scale_le(a: Scale, b: Scale) -> bool {
    !nan(a) && !nan(b) && rank(a) <= rank(b)
}

/// The smaller of two values; a NaN loses against the other side, and of two equal values
/// the first is meant.
pub open spec fn scale_min(a: Scale, b: Scale) -> Scale {
    if nan(a) {
        b
    } else if nan(b) || rank(a) <= rank(b) {
        a
    } else {
        b
    }
}

/// The larger of two values; a NaN loses against the other side, and of two equal values
/// the first is meant.
pub open spec fn scale_max(a: Scale, b: Scale) -> Scale {
    if nan(a) {
        b
    } else if nan(b) || rank(a) >= rank(b) {
        a
    } else {
        b
    }
}

/// What is left of a value once everything below zero, and every NaN, is raised to `+0`.
pub open spec fn clamped(s: Scale) -> Scale {
    if nan(s) || rank(s) <= 0 {
        (Scale { bits: 0 })
    } else {
        s
    }
}

impl Scale {
    pub fn from_bits(bits: u32) -> (r: Scale)
        ensures
            r.bits == bits,
    {
        Scale { bits }
    }

    pub fn to_bits(self) -> (r: u32)
        ensures
            r == self.bits,
    {
        self.bits
    }

    pub fn zero() -> (r: Scale)
        ensures
            r.bits == 0,
    {
        Scale { bits: 0 }
    }

    pub fn infinity() -> (r: Scale)
        ensures
            r.bits == INFINITY_BITS,
    {
        Scale { bits: INFINITY_BITS }
    }

    fn magnitude(self) -> (r: u32)
        ensures
            r == magnitude(self),
    {
        if self.bits >= SIGN_BIT {
            self.bits - SIGN_BIT
        } else {
            self.bits
        }
    }

    pub(crate) fn rank(self) -> (r: i64)
        ensures
            r == rank(self),
    {
        let m: i64 = self.magnitude() as i64;
        if self.bits >= SIGN_BIT {
            -m
        } else {
            m
        }
    }

    pub fn is_nan(self) -> (r: bool)
        ensures
            r == nan(self),
    {
        self.magnitude() > INFINITY_BITS
    }

    /// `self <= other`.
    pub fn le(self, other: Scale) -> (r: bool)
        ensures
            r == scale_le(self, other),
    {
        !self.is_nan() && !other.is_nan() && self.rank() <= other.rank()
    }

    pub fn min(self, other: Scale) -> (r: Scale)
        ensures
            r == scale_min(self, other),
    {
        if self.is_nan() {
            other
        } else if other.is_nan() || self.rank() <= other.rank() {
            self
        } else {
            other
        }
    }

    pub fn max(self, other: Scale) -> (r: Scale)
        ensures
            r == scale_max(self, other),
    {
        if self.is_nan() {
            other
        } else if other.is_nan() || self.rank() >= other.rank() {
            self
        } else {
            other
        }
    }

    /// Raises what is below zero, and every NaN, to `+0`.
    pub fn clamp_negative(self) -> (r: Scale)
        ensures
            r == clamped(self),
    {
        if self.is_nan() || self.rank() <= 0 {
            Scale { bits: 0 }
        } else {
            self
        }
    }
}

/// On values that are neither negative nor NaN the bit patterns order as the values do.
pub proof fn law_patterns_order_like_values(a: Scale, b: Scale)
    requires
        a == clamped(a),
        b == clamped(b),
    ensures
        scale_le(a, b) <==> a.bits <= b.bits,
        rank(a) == rank(b) <==> a == b,
{
}

/// A clamped value is neither negative nor a NaN, and clamping again changes nothing.
pub proof fn law_clamped(s: Scale)
    ensures
        !nan(clamped(s)),
        rank(clamped(s)) >= 0,
        clamped(s).bits < SIGN_BIT,
        clamped(clamped(s)) == clamped(s),
        !nan(s) && rank(s) > 0 ==> clamped(s) == s,
{
}

} // verus!
