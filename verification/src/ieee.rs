//! IEEE 754 numbers as bit patterns.
//!
//! Arithmetic happens where the numbers come from; what this crate does with a
//! number is tell finite from not, compare, and hand it on. All of that is
//! decided by the bits alone.

use vstd::prelude::*;

verus! {

/// A single-precision number, held as its bits.
#[derive(Debug, Clone, Copy, PartialEq, Eq, Hash, Structural)]
pub struct Single {
    pub bits: u32,
}

/// A double-precision number, held as its bits.
#[derive(Debug, Clone, Copy, PartialEq, Eq, Hash, Structural)]
pub struct Double {
    pub bits: u64,
}

/// The sign bit of a single.
pub const SINGLE_SIGN: u32 = 0x8000_0000;

/// The bits of positive infinity, above which every magnitude is a NaN.
pub const SINGLE_INFINITY: u32 = 0x7F80_0000;

pub const DOUBLE_SIGN: u64 = 0x8000_0000_0000_0000;

pub const DOUBLE_INFINITY: u64 = 0x7FF0_0000_0000_0000;

impl Single {
    pub open spec fn magnitude(self) -> int {
        if self.bits >= SINGLE_SIGN {
            self.bits - SINGLE_SIGN
        } else {
            self.bits as int
        }
    }

    /// The number's place in the order of numbers: minus zero and plus zero share
    /// theirs, and larger numbers have larger ones.
    pub open spec fn place(self) -> int {
        if self.bits >= SINGLE_SIGN {
            -self.magnitude()
        } else {
            self.magnitude()
        }
    }

    pub open spec fn nan(self) -> bool {
        self.magnitude() > SINGLE_INFINITY
    }

    pub open spec fn finite(self) -> bool {
        self.magnitude() < SINGLE_INFINITY
    }

    /// `self < other`, which is false when either is a NaN.
    pub open spec fn below(self, other: Single) -> bool {
        !self.nan() && !other.nan() && self.place() < other.place()
    }

    /// `self <= other`, which is false when either is a NaN.
    pub open spec fn at_most(self, other: Single) -> bool {
        !self.nan() && !other.nan() && self.place() <= other.place()
    }

    /// `self == other`: the zeros are equal, and a NaN equals nothing.
    pub open spec fn equals(self, other: Single) -> bool {
        !self.nan() && !other.nan() && self.place() == other.place()
    }

    /// The same magnitude with the other sign.
    pub open spec fn negated(self) -> Single {
        Single {
            bits: if self.bits >= SINGLE_SIGN {
                (self.bits - SINGLE_SIGN) as u32
            } else {
                (self.bits + SINGLE_SIGN) as u32
            },
        }
    }

    /// The place in the total order of bit patterns, which puts minus zero before
    /// plus zero and the NaNs at either end.
    pub open spec fn total_place(self) -> int {
        if self.bits >= SINGLE_SIGN {
            -self.magnitude() - 1
        } else {
            self.magnitude()
        }
    }

    /// The lesser of two; a NaN gives way to the other.
    pub open spec fn lesser(self, other: Single) -> Single {
        if self.nan() || other.below(self) {
            other
        } else {
            self
        }
    }

    /// The greater of two; a NaN gives way to the other.
    pub open spec fn greater(self, other: Single) -> Single {
        if self.nan() || self.below(other) {
            other
        } else {
            self
        }
    }

    /// The same magnitude without the sign.
    pub open spec fn without_sign(self) -> Single {
        Single { bits: self.magnitude() as u32 }
    }

    /// `self` moved into `[lo, hi]`; a NaN stays what it is.
    pub open spec fn clamped(self, lo: Single, hi: Single) -> Single {
        if self.below(lo) {
            lo
        } else if hi.below(self) {
            hi
        } else {
            self
        }
    }

    pub fn is_nan(self) -> (r: bool)
        ensures
            r == self.nan(),
    {
        if self.bits >= SINGLE_SIGN {
            self.bits - SINGLE_SIGN > SINGLE_INFINITY
        } else {
            self.bits > SINGLE_INFINITY
        }
    }

    pub fn is_finite(self) -> (r: bool)
        ensures
            r == self.finite(),
    {
        if self.bits >= SINGLE_SIGN {
            self.bits - SINGLE_SIGN < SINGLE_INFINITY
        } else {
            self.bits < SINGLE_INFINITY
        }
    }

    fn rank(self) -> (k: i64)
        ensures
            k == self.place(),
    {
        if self.bits >= SINGLE_SIGN {
            -((self.bits - SINGLE_SIGN) as i64)
        } else {
            self.bits as i64
        }
    }

    pub fn lt(self, other: Single) -> (r: bool)
        ensures
            r == self.below(other),
    {
        !self.is_nan() && !other.is_nan() && self.rank() < other.rank()
    }

    pub fn le(self, other: Single) -> (r: bool)
        ensures
            r == self.at_most(other),
    {
        !self.is_nan() && !other.is_nan() && self.rank() <= other.rank()
    }

    pub fn eq_value(self, other: Single) -> (r: bool)
        ensures
            r == self.equals(other),
    {
        !self.is_nan() && !other.is_nan() && self.rank() == other.rank()
    }

    /// Whether `self` is no later than `other` in the total order.
    pub fn total_le(self, other: Single) -> (r: bool)
        ensures
            r == (self.total_place() <= other.total_place()),
    {
        let a: i64 = if self.bits >= SINGLE_SIGN {
            -((self.bits - SINGLE_SIGN) as i64) - 1
        } else {
            self.bits as i64
        };
        let b: i64 = if other.bits >= SINGLE_SIGN {
            -((other.bits - SINGLE_SIGN) as i64) - 1
        } else {
            other.bits as i64
        };
        a <= b
    }

    pub fn min(self, other: Single) -> (r: Single)
        ensures
            r == self.lesser(other),
    {
        if self.is_nan() || other.lt(self) {
            other
        } else {
            self
        }
    }

    pub fn max(self, other: Single) -> (r: Single)
        ensures
            r == self.greater(other),
    {
        if self.is_nan() || self.lt(other) {
            other
        } else {
            self
        }
    }

    pub fn abs(self) -> (r: Single)
        ensures
            r == self.without_sign(),
    {
        if self.bits >= SINGLE_SIGN {
            Single { bits: self.bits - SINGLE_SIGN }
        } else {
            self
        }
    }

    pub fn clamp(self, lo: Single, hi: Single) -> (r: Single)
        ensures
            r == self.clamped(lo, hi),
    {
        if self.lt(lo) {
            lo
        } else if hi.lt(self) {
            hi
        } else {
            self
        }
    }
}

impl Double {
    pub open spec fn magnitude(self) -> int {
        if self.bits >= DOUBLE_SIGN {
            self.bits - DOUBLE_SIGN
        } else {
            self.bits as int
        }
    }

    /// The number's place in the order of numbers.
    pub open spec fn place(self) -> int {
        if self.bits >= DOUBLE_SIGN {
            -self.magnitude()
        } else {
            self.magnitude()
        }
    }

    pub open spec fn nan(self) -> bool {
        self.magnitude() > DOUBLE_INFINITY
    }

    pub open spec fn finite(self) -> bool {
        self.magnitude() < DOUBLE_INFINITY
    }

    /// `self < other`, which is false when either is a NaN.
    pub open spec fn below(self, other: Double) -> bool {
        !self.nan() && !other.nan() && self.place() < other.place()
    }

    /// `self <= other`, which is false when either is a NaN.
    pub open spec fn at_most(self, other: Double) -> bool {
        !self.nan() && !other.nan() && self.place() <= other.place()
    }

    /// The same magnitude without the sign.
    pub open spec fn without_sign(self) -> Double {
        Double { bits: self.magnitude() as u64 }
    }

    /// `self` moved into `[lo, hi]`; a NaN stays what it is.
    pub open spec fn clamped(self, lo: Double, hi: Double) -> Double {
        if self.below(lo) {
            lo
        } else if hi.below(self) {
            hi
        } else {
            self
        }
    }

    pub fn is_nan(self) -> (r: bool)
        ensures
            r == self.nan(),
    {
        if self.bits >= DOUBLE_SIGN {
            self.bits - DOUBLE_SIGN > DOUBLE_INFINITY
        } else {
            self.bits > DOUBLE_INFINITY
        }
    }

    pub fn is_finite(self) -> (r: bool)
        ensures
            r == self.finite(),
    {
        if self.bits >= DOUBLE_SIGN {
            self.bits - DOUBLE_SIGN < DOUBLE_INFINITY
        } else {
            self.bits < DOUBLE_INFINITY
        }
    }

    fn rank(self) -> (k: i128)
        ensures
            k == self.place(),
    {
        if self.bits >= DOUBLE_SIGN {
            -((self.bits - DOUBLE_SIGN) as i128)
        } else {
            self.bits as i128
        }
    }

    pub fn lt(self, other: Double) -> (r: bool)
        ensures
            r == self.below(other),
    {
        !self.is_nan() && !other.is_nan() && self.rank() < other.rank()
    }

    pub fn le(self, other: Double) -> (r: bool)
        ensures
            r == self.at_most(other),
    {
        !self.is_nan() && !other.is_nan() && self.rank() <= other.rank()
    }

    pub fn abs(self) -> (r: Double)
        ensures
            r == self.without_sign(),
    {
        if self.bits >= DOUBLE_SIGN {
            Double { bits: self.bits - DOUBLE_SIGN }
        } else {
            self
        }
    }

    pub fn clamp(self, lo: Double, hi: Double) -> (r: Double)
        ensures
            r == self.clamped(lo, hi),
    {
        if self.lt(lo) {
            lo
        } else if hi.lt(self) {
            hi
        } else {
            self
        }
    }
}

/// A finite number clamped into an interval lies in it.
pub proof fn law_clamped_lies_between(x: Double, lo: Double, hi: Double)
    requires
        x.finite(),
        lo.at_most(hi),
    ensures
        lo.at_most(x.clamped(lo, hi)),
        x.clamped(lo, hi).at_most(hi),
        lo.at_most(x) && x.at_most(hi) ==> x.clamped(lo, hi) == x,
{
}

/// How Single numbers compare, by their bits: positive ones as their bits do, negative ones
/// the other way round, and a negative one below a positive one; the zeros are equal, and
/// what is not a number compares with nothing.
pub proof fn law_single_order_follows_the_bits(a: Single, b: Single)
    ensures
        a.bits <= 0x7F80_0000 && b.bits <= 0x7F80_0000 ==> {
            &&& a.below(b) == (a.bits < b.bits)
            &&& a.at_most(b) == (a.bits <= b.bits)
        },
        0x8000_0000 <= a.bits <= 0xFF80_0000 && 0x8000_0000 <= b.bits <= 0xFF80_0000 ==> {
            &&& a.below(b) == (b.bits < a.bits)
            &&& a.at_most(b) == (b.bits <= a.bits)
        },
        0x8000_0000 < a.bits <= 0xFF80_0000 && b.bits <= 0x7F80_0000 ==> {
            &&& a.below(b) && a.at_most(b)
            &&& !b.below(a) && !b.at_most(a)
        },
        a.bits == 0x8000_0000 && b.bits <= 0x7F80_0000 ==> {
            &&& a.below(b) == (b.bits != 0)
            &&& a.at_most(b)
            &&& !b.below(a)
            &&& b.at_most(a) == (b.bits == 0)
        },
        0x7F80_0000 < a.bits < 0x8000_0000 || 0xFF80_0000 < a.bits ==> {
            &&& !a.below(b) && !b.below(a)
            &&& !a.at_most(b) && !b.at_most(a)
        },
        a.at_most(b) && b.at_most(a) ==> a.bits == b.bits || (a.bits % 0x8000_0000 == 0 && b.bits % 0x8000_0000
            == 0),
{
}

/// A number is finite exactly if the bits after its sign are below those of infinity.
pub proof fn law_single_finite_by_the_bits(a: Single)
    ensures
        a.finite() == (a.bits % 0x8000_0000 < 0x7F80_0000),
        a.nan() == (a.bits % 0x8000_0000 > 0x7F80_0000),
        a.finite() ==> !a.nan(),
{
}

/// Without its sign a number keeps its other bits, is at least zero, and is the same as
/// that of the number with the other sign.
pub proof fn law_single_without_sign(a: Single, b: Single)
    ensures
        a.without_sign().bits == a.bits % 0x8000_0000,
        a.bits % 0x8000_0000 == b.bits % 0x8000_0000 ==> a.without_sign() == b.without_sign(),
        a.finite() ==> (Single { bits: 0 }).at_most(a.without_sign()) && a.at_most(a.without_sign()),
        a.bits < 0x8000_0000 ==> a.without_sign() == a,
{
}

/// A clamped number is one of the three it was made from: the lower bound for what is
/// below it, the upper bound for what is above it, and else what it was.
pub proof fn law_single_clamp(x: Single, lo: Single, hi: Single)
    requires
        lo.at_most(hi),
    ensures
        x.below(lo) ==> x.clamped(lo, hi) == lo,
        hi.below(x) ==> x.clamped(lo, hi) == hi,
        lo.at_most(x) && x.at_most(hi) ==> x.clamped(lo, hi) == x,
        !x.nan() ==> lo.at_most(x.clamped(lo, hi)) && x.clamped(lo, hi).at_most(hi),
        x.nan() ==> x.clamped(lo, hi) == x,
{
}

/// Equal singles are those neither of which is below the other, and not a number equals
/// nothing; the number with the other sign mirrors every comparison.
pub proof fn law_single_equality_and_mirror(a: Single, b: Single)
    ensures
        a.equals(b) == (a.at_most(b) && b.at_most(a)),
        a.at_most(b) == (a.below(b) || a.equals(b)),
        a.below(b) == b.negated().below(a.negated()),
        a.at_most(b) == b.negated().at_most(a.negated()),
        a.negated().bits != a.bits,
        a.negated().without_sign() == a.without_sign(),
        a.negated().negated() == a,
{
}

/// The lesser and the greater of two numbers are the two numbers in their order; what is
/// not a number gives way.
pub proof fn law_single_lesser_and_greater(a: Single, b: Single)
    ensures
        a.below(b) ==> a.lesser(b) == a && b.lesser(a) == a && a.greater(b) == b && b.greater(a) == b,
        !a.nan() && b.nan() ==> a.lesser(b) == a && b.lesser(a) == a && a.greater(b) == a && b.greater(
            a,
        ) == a,
        !a.nan() && !b.nan() ==> a.lesser(b).at_most(a) && a.lesser(b).at_most(b) && a.at_most(
            a.greater(b),
        ) && b.at_most(a.greater(b)),
        a.lesser(b) == a || a.lesser(b) == b,
        a.greater(b) == a || a.greater(b) == b,
{
}

/// The total order puts different bits in different places, agrees with the order of
/// numbers, and has minus zero before plus zero.
pub proof fn law_single_total_order(a: Single, b: Single)
    ensures
        a.total_place() == b.total_place() <==> a.bits == b.bits,
        a.below(b) ==> a.total_place() < b.total_place(),
        (Single { bits: 0x8000_0000 }).total_place() < (Single { bits: 0 }).total_place(),
        a.nan() && a.bits < 0x8000_0000 && !b.nan() ==> b.total_place() < a.total_place(),
        a.nan() && a.bits >= 0x8000_0000 && !b.nan() ==> a.total_place() < b.total_place(),
{
}

/// How Double numbers compare, by their bits: positive ones as their bits do, negative ones
/// the other way round, and a negative one below a positive one; the zeros are equal, and
/// what is not a number compares with nothing.
pub proof fn law_double_order_follows_the_bits(a: Double, b: Double)
    ensures
        a.bits <= 0x7FF0_0000_0000_0000 && b.bits <= 0x7FF0_0000_0000_0000 ==> {
            &&& a.below(b) == (a.bits < b.bits)
            &&& a.at_most(b) == (a.bits <= b.bits)
        },
        0x8000_0000_0000_0000 <= a.bits <= 0xFFF0_0000_0000_0000 && 0x8000_0000_0000_0000 <= b.bits <= 0xFFF0_0000_0000_0000 ==> {
            &&& a.below(b) == (b.bits < a.bits)
            &&& a.at_most(b) == (b.bits <= a.bits)
        },
        0x8000_0000_0000_0000 < a.bits <= 0xFFF0_0000_0000_0000 && b.bits <= 0x7FF0_0000_0000_0000 ==> {
            &&& a.below(b) && a.at_most(b)
            &&& !b.below(a) && !b.at_most(a)
        },
        a.bits == 0x8000_0000_0000_0000 && b.bits <= 0x7FF0_0000_0000_0000 ==> {
            &&& a.below(b) == (b.bits != 0)
            &&& a.at_most(b)
            &&& !b.below(a)
            &&& b.at_most(a) == (b.bits == 0)
        },
        0x7FF0_0000_0000_0000 < a.bits < 0x8000_0000_0000_0000 || 0xFFF0_0000_0000_0000 < a.bits ==> {
            &&& !a.below(b) && !b.below(a)
            &&& !a.at_most(b) && !b.at_most(a)
        },
        a.at_most(b) && b.at_most(a) ==> a.bits == b.bits || (a.bits % 0x8000_0000_0000_0000 == 0 && b.bits % 0x8000_0000_0000_0000
            == 0),
{
}

/// A number is finite exactly if the bits after its sign are below those of infinity.
pub proof fn law_double_finite_by_the_bits(a: Double)
    ensures
        a.finite() == (a.bits % 0x8000_0000_0000_0000 < 0x7FF0_0000_0000_0000),
        a.nan() == (a.bits % 0x8000_0000_0000_0000 > 0x7FF0_0000_0000_0000),
        a.finite() ==> !a.nan(),
{
}

/// Without its sign a number keeps its other bits, is at least zero, and is the same as
/// that of the number with the other sign.
pub proof fn law_double_without_sign(a: Double, b: Double)
    ensures
        a.without_sign().bits == a.bits % 0x8000_0000_0000_0000,
        a.bits % 0x8000_0000_0000_0000 == b.bits % 0x8000_0000_0000_0000 ==> a.without_sign() == b.without_sign(),
        a.finite() ==> (Double { bits: 0 }).at_most(a.without_sign()) && a.at_most(a.without_sign()),
        a.bits < 0x8000_0000_0000_0000 ==> a.without_sign() == a,
{
}

/// A clamped number is one of the three it was made from: the lower bound for what is
/// below it, the upper bound for what is above it, and else what it was.
pub proof fn law_double_clamp(x: Double, lo: Double, hi: Double)
    requires
        lo.at_most(hi),
    ensures
        x.below(lo) ==> x.clamped(lo, hi) == lo,
        hi.below(x) ==> x.clamped(lo, hi) == hi,
        lo.at_most(x) && x.at_most(hi) ==> x.clamped(lo, hi) == x,
        !x.nan() ==> lo.at_most(x.clamped(lo, hi)) && x.clamped(lo, hi).at_most(hi),
        x.nan() ==> x.clamped(lo, hi) == x,
{
}

} // verus!
