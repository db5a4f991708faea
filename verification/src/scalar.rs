//! Single-precision measurements, carried by bit pattern.
//!
//! A rule rarely needs to compute with a measurement: it asks whether one is
//! below another, keeps the smallest, or hands it on. [`Scalar`] does exactly
//! that. It orders bit patterns the way the hardware orders the numbers they
//! stand for, both by the ordinary comparison (in which a NaN compares with
//! nothing and the two zeros are equal) and by the total one.

use vstd::prelude::*;

verus! {

/// Where the sign bit starts: a pattern at or past it is a negative number.
pub const SIGN: u32 = 0x8000_0000;

/// The magnitude of infinity; anything larger is a NaN.
pub const INFINITE: u32 = 0x7f80_0000;

/// One measurement, as the bit pattern of a single-precision number.
#[derive(Clone, Copy, Debug, PartialEq, Eq, Structural)]
pub struct Scalar {
    pub bits: u32,
}

/// A point of the battlefield, in pixels.
#[derive(Clone, Copy, Debug, PartialEq, Eq, Structural)]
pub struct Point {
    pub x: Scalar,
    pub y: Scalar,
}

impl Scalar {
    /// Positive zero.
    #[verifier::allow_in_spec]
    pub fn zero() -> Scalar
        returns
            (Scalar { bits: 0 }),
    {
        Scalar { bits: 0 }
    }

    /// The pattern without its sign.
    pub open spec fn magnitude(self) -> int {
        if self.bits >= SIGN {
            self.bits - SIGN
        } else {
            self.bits as int
        }
    }

    /// Not a number.
    pub open spec fn is_nan(self) -> bool {
        self.magnitude() > INFINITE
    }

    /// Where the number stands among the others. Defined for every pattern,
    /// meaningful for those that are numbers; both zeros stand at 0.
    pub open spec fn rank(self) -> int {
        if self.bits >= SIGN {
            -self.magnitude()
        } else {
            self.magnitude()
        }
    }

    /// Where the pattern stands in the total order: negative NaNs first,
    /// then the numbers, -0 just before +0, positive NaNs last.
    pub open spec fn total_rank(self) -> int {
        if self.bits >= SIGN {
            -self.magnitude() - 1
        } else {
            self.magnitude()
        }
    }

    /// `self < other`, for numbers.
    pub open spec fn below(self, other: Scalar) -> bool {
        !self.is_nan() && !other.is_nan() && self.rank() < other.rank()
    }

    /// `self <= other`, for numbers.
    pub open spec fn at_most(self, other: Scalar) -> bool {
        !self.is_nan() && !other.is_nan() && self.rank() <= other.rank()
    }

    /// `self == other` as numbers.
    pub open spec fn same(self, other: Scalar) -> bool {
        !self.is_nan() && !other.is_nan() && self.rank() == other.rank()
    }

    /// The total-order key as a machine integer.
    pub fn total_key(self) -> (key: i64)
        ensures
            key == self.total_rank(),
    {
        if self.bits >= SIGN {
            -((self.bits - SIGN) as i64) - 1
        } else {
            self.bits as i64
        }
    }

    pub(crate) fn number_key(self) -> (key: i64)
        ensures
            key == self.rank(),
    {
        if self.bits >= SIGN {
            -((self.bits - SIGN) as i64)
        } else {
            self.bits as i64
        }
    }

    /// Whether the pattern is a NaN.
    pub fn nan(self) -> (r: bool)
        ensures
            r == self.is_nan(),
    {
        if self.bits >= SIGN {
            self.bits - SIGN > INFINITE
        } else {
            self.bits > INFINITE
        }
    }

    /// Whether the pattern is a number short of infinity.
    pub fn finite(self) -> (r: bool)
        ensures
            r == (self.magnitude() < INFINITE),
    {
        if self.bits >= SIGN {
            self.bits - SIGN < INFINITE
        } else {
            self.bits < INFINITE
        }
    }

    /// `self < other`; false when either is a NaN.
    pub fn lt(self, other: Scalar) -> (r: bool)
        ensures
            r == self.below(other),
    {
        !self.nan() && !other.nan() && self.number_key() < other.number_key()
    }

    /// `self <= other`; false when either is a NaN.
    pub fn le(self, other: Scalar) -> (r: bool)
        ensures
            r == self.at_most(other),
    {
        !self.nan() && !other.nan() && self.number_key() <= other.number_key()
    }

    /// `self == other` as numbers; false when either is a NaN.
    pub fn num_eq(self, other: Scalar) -> (r: bool)
        ensures
            r == self.same(other),
    {
        !self.nan() && !other.nan() && self.number_key() == other.number_key()
    }

    /// `self > 0`: a timer still running, a pool not yet empty.
    pub fn positive(self) -> (r: bool)
        ensures
            r == Scalar::zero().below(self),
    {
        Scalar::zero().lt(self)
    }
}

/// The total order places any two patterns, and only a pattern and itself
/// share a place.
pub proof fn total_order_is_total(a: Scalar, b: Scalar)
    ensures
        a.total_rank() == b.total_rank() <==> a == b,
{
}

/// Numbers that compare strictly compare the same way in the total order, so
/// picking the smallest by either gives the same measurement unless two of
/// them are equal.
pub proof fn total_order_extends_the_numbers(a: Scalar, b: Scalar)
    requires
        a.below(b),
    ensures
        a.total_rank() < b.total_rank(),
{
}

/// For non-negative numbers that are not `-0`, `<=` and the total order agree.
pub proof fn total_order_agrees_on_distances(a: Scalar, b: Scalar)
    requires
        a.bits <= INFINITE,
        b.bits <= INFINITE,
    ensures
        a.at_most(b) <==> a.total_rank() <= b.total_rank(),
        a.below(b) <==> a.total_rank() < b.total_rank(),
{
}

/// Numbers that are not negative stand in the order of their patterns, negative
/// ones in the reverse of it and below the others, and what is no number stands
/// nowhere.
pub proof fn patterns_order_the_numbers(a: Scalar, b: Scalar)
    ensures
        Scalar::zero().bits == 0,
        a.bits <= 0x7f80_0000 && b.bits <= 0x7f80_0000 ==> {
            &&& a.at_most(b) <==> a.bits <= b.bits
            &&& a.below(b) <==> a.bits < b.bits
            &&& a.same(b) <==> a.bits == b.bits
            &&& a.total_rank() < b.total_rank() <==> a.bits < b.bits
        },
        0x8000_0000 <= a.bits <= 0xff80_0000 && 0x8000_0000 <= b.bits <= 0xff80_0000 ==> {
            &&& a.at_most(b) <==> b.bits <= a.bits
            &&& a.below(b) <==> b.bits < a.bits
            &&& a.same(b) <==> a.bits == b.bits
            &&& a.total_rank() < b.total_rank() <==> b.bits < a.bits
        },
        0x8000_0000 < a.bits <= 0xff80_0000 && b.bits <= 0x7f80_0000 ==> {
            &&& a.at_most(b) && a.below(b) && a.total_rank() < b.total_rank()
            &&& !b.at_most(a) && !b.below(a) && !a.same(b) && !b.same(a)
        },
        a.bits == 0x8000_0000 && b.bits <= 0x7f80_0000 ==> {
            &&& a.at_most(b)
            &&& a.below(b) <==> b.bits != 0
            &&& a.same(b) <==> b.bits == 0
            &&& a.total_rank() < b.total_rank()
        },
        0x7f80_0000 < a.bits < 0x8000_0000 || 0xff80_0000 < a.bits ==> {
            &&& a.is_nan()
            &&& !a.at_most(b) && !b.at_most(a) && !a.below(b) && !b.below(a)
            &&& !a.same(b) && !b.same(a)
        },
        a.bits <= 0x7f80_0000 || 0x8000_0000 <= a.bits <= 0xff80_0000 ==> !a.is_nan(),
{
}

} // verus!
