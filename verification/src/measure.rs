//! Scores and e-values, held exactly as they stand in a report.
//!
//! A [`Real`] is an IEEE-754 binary64 number kept as its 64-bit pattern: one
//! sign bit, eleven exponent bits, fifty-two fraction bits. Nothing here
//! rounds or recomputes a number. Numbers are only compared, and the
//! comparisons are those of IEEE-754: a NaN is neither below nor equal to
//! anything, and the two zeros are equal.

use vstd::prelude::*;

verus! {

/// The pattern of negative zero: the sign bit alone.
pub const SIGN_BIT: u64 = 0x8000_0000_0000_0000;

/// The pattern of positive infinity. A larger magnitude is a NaN.
pub const INFINITY_BITS: u64 = 0x7FF0_0000_0000_0000;

/// The pattern of negative infinity.
pub const NEG_INFINITY_BITS: u64 = 0xFFF0_0000_0000_0000;

/// A binary64 number, by its bit pattern.
#[derive(Clone, Copy, Debug)]
pub struct Real {
    pub bits: u64,
}

impl Real {
    /// The pattern without its sign bit.
    pub open spec fn magnitude(self) -> int {
        if self.bits >= SIGN_BIT {
            self.bits - SIGN_BIT
        } else {
            self.bits as int
        }
    }

    /// Whether the number is a NaN.
    pub open spec fn is_nan(self) -> bool {
        self.magnitude() > INFINITY_BITS
    }

    /// An integer that orders the numbers that are not NaN as their values
    /// do: the magnitude, negated under a set sign bit. Both zeros have key 0.
    pub open spec fn key(self) -> int {
        if self.bits >= SIGN_BIT {
            -self.magnitude()
        } else {
            self.magnitude()
        }
    }

    /// `self < other` as IEEE-754 has it.
    pub open spec fn below(self, other: Real) -> bool {
        !self.is_nan() && !other.is_nan() && self.key() < other.key()
    }

    /// `self == other` as IEEE-754 has it.
    pub open spec fn same(self, other: Real) -> bool {
        !self.is_nan() && !other.is_nan() && self.key() == other.key()
    }

    /// Positive zero.
    pub open spec fn zero() -> Real {
        Real { bits: 0 }
    }

    /// Positive infinity.
    pub open spec fn infinity() -> Real {
        Real { bits: INFINITY_BITS }
    }

    /// Negative infinity.
    pub open spec fn neg_infinity() -> Real {
        Real { bits: NEG_INFINITY_BITS }
    }

    /// The number with the pattern `bits`.
    pub fn from_bits(bits: u64) -> (r: Real)
        ensures
            r.bits == bits,
    {
        Real { bits }
    }

    /// The number's pattern.
    pub fn to_bits(self) -> (r: u64)
        ensures
            r == self.bits,
    {
        self.bits
    }

    /// Positive zero.
    pub fn new_zero() -> (r: Real)
        ensures
            r == Real::zero(),
    {
        Real { bits: 0 }
    }

    /// Positive infinity.
    pub fn new_infinity() -> (r: Real)
        ensures
            r == Real::infinity(),
    {
        Real { bits: INFINITY_BITS }
    }

    /// Negative infinity.
    pub fn new_neg_infinity() -> (r: Real)
        ensures
            r == Real::neg_infinity(),
    {
        Real { bits: NEG_INFINITY_BITS }
    }

    /// The pattern without its sign bit.
    fn magnitude_bits(self) -> (r: u64)
        ensures
            r == self.magnitude(),
            r < SIGN_BIT,
    {
        if self.bits >= SIGN_BIT {
            self.bits - SIGN_BIT
        } else {
            self.bits
        }
    }

    /// Tells whether the number is a NaN.
    pub fn nan(self) -> (r: bool)
        ensures
            r == self.is_nan(),
    {
        self.magnitude_bits() > INFINITY_BITS
    }

    /// Tells whether `self < other`.
    pub fn lt(self, other: Real) -> (r: bool)
        ensures
            r == self.below(other),
    {
        if self.nan() || other.nan() {
            return false;
        }
        let a: u64 = self.magnitude_bits();
        let b: u64 = other.magnitude_bits();
        let a_neg: bool = self.bits >= SIGN_BIT;
        let b_neg: bool = other.bits >= SIGN_BIT;
        if a_neg {
            if b_neg {
                b < a
            } else {
                a > 0 || b > 0
            }
        } else {
            if b_neg {
                false
            } else {
                a < b
            }
        }
    }

    /// Tells whether `self > other`.
    pub fn gt(self, other: Real) -> (r: bool)
        ensures
            r == other.below(self),
    {
        other.lt(self)
    }

    /// Tells whether `self == other` as numbers: the two zeros are equal, and
    /// a NaN equals nothing.
    pub fn equals(self, other: Real) -> (r: bool)
        ensures
            r == self.same(other),
    {
        if self.nan() || other.nan() {
            return false;
        }
        let a: u64 = self.magnitude_bits();
        let b: u64 = other.magnitude_bits();
        let a_neg: bool = self.bits >= SIGN_BIT;
        let b_neg: bool = other.bits >= SIGN_BIT;
        if a_neg == b_neg {
            a == b
        } else {
            a == 0 && b == 0
        }
    }
}

/// The greatest of `start` and the first `n` of `values`, taken as a running
/// maximum: a value replaces the maximum so far only if it is above it.
pub open spec fn running_max(start: Real, values: Seq<Real>, n: int) -> Real
    decreases n,
{
    if n <= 0 {
        start
    } else if running_max(start, values, n - 1).below(values[n - 1]) {
        values[n - 1]
    } else {
        running_max(start, values, n - 1)
    }
}

/// The least of `start` and the first `n` of `values`, taken as a running
/// minimum: a value replaces the minimum so far only if it is below it.
pub open spec fn running_min(start: Real, values: Seq<Real>, n: int) -> Real
    decreases n,
{
    if n <= 0 {
        start
    } else if values[n - 1].below(running_min(start, values, n - 1)) {
        values[n - 1]
    } else {
        running_min(start, values, n - 1)
    }
}

/// A running maximum is its start or one of the values, is a NaN only if its
/// start is one, and no value among those taken is above it.
pub proof fn lemma_running_max(start: Real, values: Seq<Real>, n: int)
    requires
        0 <= n <= values.len(),
    ensures
        running_max(start, values, n) == start || exists|i: int|
            0 <= i < n && running_max(start, values, n) == values[i],
        !start.is_nan() ==> !running_max(start, values, n).is_nan(),
        !start.is_nan() ==> !running_max(start, values, n).below(start),
        !start.is_nan() ==> forall|i: int|
            0 <= i < n ==> !running_max(start, values, n).below(#[trigger] values[i]),
    decreases n,
{
    if n > 0 {
        lemma_running_max(start, values, n - 1);
        let m = running_max(start, values, n - 1);
        if m.below(values[n - 1]) {
            assert(running_max(start, values, n) == values[n - 1]);
        } else {
            if m != start {
                let i = choose|i: int| 0 <= i < n - 1 && m == values[i];
                assert(0 <= i < n && running_max(start, values, n) == values[i]);
            }
        }
    }
}

/// A running minimum is its start or one of the values, is a NaN only if its
/// start is one, and no value among those taken is below it.
pub proof fn lemma_running_min(start: Real, values: Seq<Real>, n: int)
    requires
        0 <= n <= values.len(),
    ensures
        running_min(start, values, n) == start || exists|i: int|
            0 <= i < n && running_min(start, values, n) == values[i],
        !start.is_nan() ==> !running_min(start, values, n).is_nan(),
        !start.is_nan() ==> !start.below(running_min(start, values, n)),
        !start.is_nan() ==> forall|i: int|
            0 <= i < n ==> !(#[trigger] values[i]).below(running_min(start, values, n)),
    decreases n,
{
    if n > 0 {
        lemma_running_min(start, values, n - 1);
        let m = running_min(start, values, n - 1);
        if values[n - 1].below(m) {
            assert(running_min(start, values, n) == values[n - 1]);
        } else {
            if m != start {
                let i = choose|i: int| 0 <= i < n - 1 && m == values[i];
                assert(0 <= i < n && running_min(start, values, n) == values[i]);
            }
        }
    }
}

} // verus!
