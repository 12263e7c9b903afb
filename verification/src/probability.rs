//! Probabilities, carried as IEEE 754 double-precision bit patterns.
use vstd::prelude::*;

verus! {

/// A double-precision number, by its bit pattern.
#[derive(Debug, Clone, Copy, PartialEq, Eq, Default, Structural)]
pub struct Probability {
    pub bits: u64,
}

/// The sign bit alone.
pub const SIGN_BIT: u64 = 0x8000_0000_0000_0000;

/// The magnitude of an infinity; greater magnitudes are not numbers.
pub const INFINITE_MAGNITUDE: u64 = 0x7FF0_0000_0000_0000;

impl Probability {
    /// Whether the sign bit is set.
    pub open spec fn negative(self) -> bool {
        self.bits >= SIGN_BIT
    }

    /// The pattern without the sign bit.
    pub open spec fn magnitude(self) -> int {
        if self.negative() {
            self.bits - SIGN_BIT
        } else {
            self.bits as int
        }
    }

    /// Whether the pattern stands for no number.
    pub open spec fn is_nan_spec(self) -> bool {
        self.magnitude() > INFINITE_MAGNITUDE
    }

    /// An integer that orders as the number does.
    pub open spec fn order_key(self) -> int {
        if self.negative() {
            -self.magnitude()
        } else {
            self.magnitude()
        }
    }

    /// Whether the number is zero or less.
    pub open spec fn non_positive(self) -> bool {
        !self.is_nan_spec() && self.order_key() <= 0
    }

    /// Whether the number is greater than the other one.
    pub open spec fn above(self, other: Probability) -> bool {
        !self.is_nan_spec() && !other.is_nan_spec() && self.order_key() > other.order_key()
    }

    /// The number with the given bit pattern.
    pub fn from_bits(bits: u64) -> (p: Probability)
        ensures
            p.bits == bits,
    {
        Probability { bits }
    }

    /// Whether the number is zero or less.
    pub fn is_non_positive(&self) -> (b: bool)
        ensures
            b == self.non_positive(),
    {
        if self.bits >= SIGN_BIT {
            self.bits - SIGN_BIT <= INFINITE_MAGNITUDE
        } else {
            self.bits == 0
        }
    }

    /// Whether the number is greater than the other one.
    pub fn is_above(&self, other: &Probability) -> (b: bool)
        ensures
            b == self.above(*other),
    {
        let left: u64 = if self.bits >= SIGN_BIT { self.bits - SIGN_BIT } else { self.bits };
        let right: u64 = if other.bits >= SIGN_BIT { other.bits - SIGN_BIT } else { other.bits };
        if left > INFINITE_MAGNITUDE || right > INFINITE_MAGNITUDE {
            return false;
        }
        if self.bits >= SIGN_BIT {
            other.bits >= SIGN_BIT && left < right
        } else if other.bits >= SIGN_BIT {
            left > 0 || right > 0
        } else {
            left > right
        }
    }
}

/// Comparison of probabilities is a strict order.
pub proof fn law_above_is_strict_order(a: Probability, b: Probability, c: Probability)
    ensures
        !a.above(a),
        a.above(b) ==> !b.above(a),
        a.above(b) && b.above(c) ==> a.above(c),
{
}

} // verus!
