//! Double-precision numbers as bit patterns.
//!
//! The host does all arithmetic on them. The library only compares them, which needs no more than
//! their bits.
use vstd::prelude::*;

verus! {

/// The bit pattern of an IEEE 754 binary64 number.
#[derive(Clone, Copy, Debug, PartialEq, Eq, Structural)]
pub struct Real64 {
    pub bits: u64,
}

/// The sign bit.
pub const SIGN: u64 = 0x8000_0000_0000_0000;

/// The bit pattern of positive infinity; larger magnitudes are not numbers.
pub const INFINITY: u64 = 0x7ff0_0000_0000_0000;

/// The bit pattern of one.
pub const ONE: u64 = 0x3ff0_0000_0000_0000;

impl Real64 {
    pub open spec fn is_negative(self) -> bool {
        self.bits >= SIGN
    }

    /// The bits without the sign.
    pub open spec fn magnitude(self) -> int {
        if self.is_negative() {
            self.bits - SIGN
        } else {
            self.bits as int
        }
    }

    /// Neither infinite nor NaN.
    pub open spec fn finite(self) -> bool {
        self.magnitude() < INFINITY
    }

    pub open spec fn nan(self) -> bool {
        self.magnitude() > INFINITY
    }

    /// An integer that orders numbers by value; both zeros have the same.
    pub open spec fn rank(self) -> int {
        if self.is_negative() {
            -self.magnitude()
        } else {
            self.magnitude()
        }
    }

    /// The order of values, in which NaN takes no part.
    pub open spec fn below(self, other: Real64) -> bool {
        !self.nan() && !other.nan() && self.rank() < other.rank()
    }

    /// The order of values or their equality, in which NaN takes no part.
    pub open spec fn at_most(self, other: Real64) -> bool {
        !self.nan() && !other.nan() && self.rank() <= other.rank()
    }

    /// Equality of values.
    pub open spec fn equals(self, other: Real64) -> bool {
        !self.nan() && !other.nan() && self.rank() == other.rank()
    }

    /// An integer that orders all bit patterns as IEEE 754 `totalOrder` does.
    pub open spec fn total_rank(self) -> int {
        if self.is_negative() {
            -self.magnitude() - 1
        } else {
            self.magnitude()
        }
    }

    /// The total order of bit patterns.
    pub open spec fn totally_before(self, other: Real64) -> bool {
        self.total_rank() < other.total_rank()
    }

    fn size(&self) -> (size: u64)
        ensures
            size == self.magnitude(),
    {
        if self.bits >= SIGN {
            self.bits - SIGN
        } else {
            self.bits
        }
    }

    pub fn is_finite(&self) -> (finite: bool)
        ensures
            finite == self.finite(),
    {
        self.size() < INFINITY
    }

    /// Whether the value is less than another.
    pub fn lt(&self, other: &Real64) -> (less: bool)
        ensures
            less == self.below(*other),
    {
        let left: u64 = self.size();
        let right: u64 = other.size();
        if left > INFINITY || right > INFINITY {
            false
        } else if self.bits >= SIGN {
            if other.bits >= SIGN {
                left > right
            } else {
                left > 0 || right > 0
            }
        } else {
            other.bits < SIGN && left < right
        }
    }

    /// Whether the value is less than or equal to another.
    pub fn le(&self, other: &Real64) -> (less: bool)
        ensures
            less == self.at_most(*other),
    {
        let left: u64 = self.size();
        let right: u64 = other.size();
        left <= INFINITY && right <= INFINITY && !other.lt(self)
    }

    /// Whether two values are equal.
    pub fn same(&self, other: &Real64) -> (same: bool)
        ensures
            same == self.equals(*other),
    {
        self.le(other) && other.le(self)
    }

    /// Whether the bit pattern comes before another in the total order.
    pub fn total_lt(&self, other: &Real64) -> (less: bool)
        ensures
            less == self.totally_before(*other),
    {
        if self.bits >= SIGN {
            other.bits < SIGN || self.bits > other.bits
        } else {
            other.bits < SIGN && self.bits < other.bits
        }
    }
}

/// The order of values by the bits: positive numbers grow with their bits, negative ones fall, both
/// zeros are one value, and what is not a number compares with nothing.
pub proof fn lemma_value_order(a: Real64, b: Real64)
    ensures
        a.bits <= 0x7ff0_0000_0000_0000 && b.bits <= 0x7ff0_0000_0000_0000 ==> {
            &&& a.below(b) <==> a.bits < b.bits
            &&& a.at_most(b) <==> a.bits <= b.bits
            &&& a.equals(b) <==> a.bits == b.bits
        },
        0x8000_0000_0000_0000 <= a.bits <= 0xfff0_0000_0000_0000 && 0x8000_0000_0000_0000 <= b.bits
            <= 0xfff0_0000_0000_0000 ==> {
            &&& a.below(b) <==> a.bits > b.bits
            &&& a.at_most(b) <==> a.bits >= b.bits
            &&& a.equals(b) <==> a.bits == b.bits
        },
        0x8000_0000_0000_0000 <= a.bits <= 0xfff0_0000_0000_0000 && b.bits <= 0x7ff0_0000_0000_0000
            ==> {
            let zeros = a.bits == 0x8000_0000_0000_0000 && b.bits == 0;
            &&& a.at_most(b)
            &&& a.below(b) <==> !zeros
            &&& !b.below(a)
            &&& b.at_most(a) <==> zeros
            &&& a.equals(b) <==> zeros
        },
        0x7ff0_0000_0000_0000 < a.bits < 0x8000_0000_0000_0000 || a.bits > 0xfff0_0000_0000_0000
            ==> {
            &&& !a.below(b) && !a.at_most(b) && !a.equals(b)
            &&& !b.below(a) && !b.at_most(a) && !b.equals(a)
        },
        a.finite() <==> a.bits < 0x7ff0_0000_0000_0000 || 0x8000_0000_0000_0000 <= a.bits
            < 0xfff0_0000_0000_0000,
{
}

/// The total order by the bits: negative bit patterns before positive ones, the larger before the
/// smaller among negative ones and the other way round among positive ones.
pub proof fn lemma_total_order(a: Real64, b: Real64)
    ensures
        a.bits < 0x8000_0000_0000_0000 && b.bits < 0x8000_0000_0000_0000 ==> (a.totally_before(b)
            <==> a.bits < b.bits),
        a.bits >= 0x8000_0000_0000_0000 && b.bits >= 0x8000_0000_0000_0000 ==> (a.totally_before(b)
            <==> a.bits > b.bits),
        a.bits >= 0x8000_0000_0000_0000 && b.bits < 0x8000_0000_0000_0000 ==> a.totally_before(b)
            && !b.totally_before(a),
{
}

} // verus!
