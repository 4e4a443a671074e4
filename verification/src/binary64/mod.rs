//! IEEE 754 binary64 numbers, held as their bit patterns.
//!
//! Prices, quantities and everything that is computed from them are binary64
//! numbers. The arithmetic here is done on whole numbers, so that what the
//! matching and accounting rules compute can be stated and proved: each operation
//! gives the exact result, rounded to the nearest number, ties to even.

pub mod arithmetic;
pub mod convert;
pub mod laws;
pub mod rounding;
pub mod whole;

use vstd::prelude::*;
use rounding::{BINADE, INFINITY};

verus! {

/// The sign bit: two to the power of 63.
pub const SIGN: u64 = 0x8000_0000_0000_0000;

/// The pattern of the number one.
pub const ONE: u64 = 0x3ff0_0000_0000_0000;

/// The pattern of a quiet not-a-number.
pub const NAN: u64 = 0x7ff8_0000_0000_0000;

/// A binary64 number as its bit pattern.
#[derive(Clone, Copy, Debug)]
pub struct Binary64 {
    pub bits: u64,
}

impl Binary64 {
    /// Whether the sign bit is set.
    pub open spec fn negative(self) -> bool {
        self.bits >= SIGN
    }

    /// The pattern without its sign bit.
    pub open spec fn pattern(self) -> int {
        if self.bits >= SIGN {
            self.bits - SIGN
        } else {
            self.bits as int
        }
    }

    /// The number with the given sign and unsigned pattern.
    pub open spec fn of(negative: bool, pattern: int) -> Binary64 {
        Binary64 {
            bits: (if negative {
                pattern + SIGN
            } else {
                pattern
            }) as u64,
        }
    }

    /// Not a number.
    pub open spec fn nan(self) -> bool {
        self.pattern() > INFINITY
    }

    /// Neither infinite nor not a number.
    pub open spec fn finite(self) -> bool {
        self.pattern() < INFINITY
    }

    /// Positive or negative infinity.
    pub open spec fn infinite(self) -> bool {
        self.pattern() == INFINITY
    }

    /// Positive or negative zero.
    pub open spec fn zero(self) -> bool {
        self.pattern() == 0
    }

    /// The magnitude, in units of the smallest positive number.
    pub open spec fn units(self) -> nat {
        rounding::magnitude(self.pattern())
    }

    /// The value, in units of the smallest positive number.
    pub open spec fn value(self) -> int {
        if self.negative() {
            -(self.units() as int)
        } else {
            self.units() as int
        }
    }

    /// `self < other`: never for something that is not a number.
    pub open spec fn less(self, other: Binary64) -> bool {
        !self.nan() && !other.nan() && self.value() < other.value()
    }

    /// `self <= other`: never for something that is not a number.
    pub open spec fn at_most(self, other: Binary64) -> bool {
        !self.nan() && !other.nan() && self.value() <= other.value()
    }

    /// `self == other`: never for something that is not a number; the two zeros
    /// are equal.
    pub open spec fn equal(self, other: Binary64) -> bool {
        !self.nan() && !other.nan() && self.value() == other.value()
    }

    /// The smaller of two numbers; where one is not a number, the other.
    pub open spec fn lesser(self, other: Binary64) -> Binary64 {
        if self.nan() || other.less(self) {
            other
        } else {
            self
        }
    }

    /// The larger of two numbers; where one is not a number, the other.
    pub open spec fn greater(self, other: Binary64) -> Binary64 {
        if self.nan() || self.less(other) {
            other
        } else {
            self
        }
    }

    /// The number with the other sign.
    pub open spec fn opposite(self) -> Binary64 {
        Binary64::of(!self.negative(), self.pattern())
    }

    /// The number without its sign.
    pub open spec fn absolute(self) -> Binary64 {
        Binary64::of(false, self.pattern())
    }

    /// The number with the given bit pattern.
    pub fn from_bits(bits: u64) -> (r: Binary64)
        ensures
            r == (Binary64 { bits }),
    {
        Binary64 { bits }
    }

    /// The bit pattern.
    pub fn to_bits(self) -> (r: u64)
        ensures
            r == self.bits,
    {
        self.bits
    }

    /// Whether the sign bit is set.
    pub fn is_negative(self) -> (r: bool)
        ensures
            r == self.negative(),
    {
        self.bits >= SIGN
    }

    /// The pattern without its sign bit.
    pub fn unsigned(self) -> (r: u64)
        ensures
            r == self.pattern(),
            r < SIGN,
    {
        if self.bits >= SIGN {
            self.bits - SIGN
        } else {
            self.bits
        }
    }

    /// The number with the given sign and unsigned pattern.
    pub fn with_sign(negative: bool, pattern: u64) -> (r: Binary64)
        requires
            pattern < SIGN,
        ensures
            r == Binary64::of(negative, pattern as int),
            r.negative() == negative,
            r.pattern() == pattern,
    {
        if negative {
            Binary64 { bits: pattern + SIGN }
        } else {
            Binary64 { bits: pattern }
        }
    }

    pub fn is_nan(self) -> (r: bool)
        ensures
            r == self.nan(),
    {
        self.unsigned() > INFINITY
    }

    pub fn is_finite(self) -> (r: bool)
        ensures
            r == self.finite(),
    {
        self.unsigned() < INFINITY
    }

    pub fn is_infinite(self) -> (r: bool)
        ensures
            r == self.infinite(),
    {
        self.unsigned() == INFINITY
    }

    pub fn is_zero(self) -> (r: bool)
        ensures
            r == self.zero(),
    {
        self.unsigned() == 0
    }

    /// A whole number in the order of the values.
    fn rank(self) -> (r: i64)
        ensures
            r == rank(self),
    {
        let pattern = self.unsigned();
        if self.bits >= SIGN {
            -(pattern as i64)
        } else {
            pattern as i64
        }
    }

    /// `self < other`.
    pub fn lt(self, other: Binary64) -> (r: bool)
        ensures
            r == self.less(other),
    {
        proof {
            lemma_rank(self, other);
        }
        !self.is_nan() && !other.is_nan() && self.rank() < other.rank()
    }

    /// `self <= other`.
    pub fn le(self, other: Binary64) -> (r: bool)
        ensures
            r == self.at_most(other),
    {
        proof {
            lemma_rank(self, other);
        }
        !self.is_nan() && !other.is_nan() && self.rank() <= other.rank()
    }

    /// The smaller of two numbers.
    pub fn min(self, other: Binary64) -> (r: Binary64)
        ensures
            r == self.lesser(other),
    {
        if self.is_nan() || other.lt(self) {
            other
        } else {
            self
        }
    }

    /// The larger of two numbers.
    pub fn max(self, other: Binary64) -> (r: Binary64)
        ensures
            r == self.greater(other),
    {
        if self.is_nan() || self.lt(other) {
            other
        } else {
            self
        }
    }

    /// The number with the other sign.
    pub fn negated(self) -> (r: Binary64)
        ensures
            r == self.opposite(),
    {
        Binary64::with_sign(!self.is_negative(), self.unsigned())
    }

    /// The number without its sign.
    pub fn abs(self) -> (r: Binary64)
        ensures
            r == self.absolute(),
    {
        Binary64::with_sign(false, self.unsigned())
    }

    /// The significand and the exponent of a finite number.
    fn parts(self) -> (r: (u64, u32))
        requires
            self.finite(),
        ensures
            r.0 < 2 * BINADE,
            r.1 <= 2045,
            r.1 > 0 ==> r.0 >= BINADE,
            self.pattern() == r.1 * BINADE + r.0,
            self.units() == r.0 * vstd::arithmetic::power2::pow2(r.1 as nat),
    {
        let pattern = self.unsigned();
        if pattern < BINADE {
            proof {
                rounding::lemma_magnitude_parts(0, pattern as nat);
            }
            (pattern, 0)
        } else {
            let significand: u64 = BINADE + pattern % BINADE;
            let exponent: u64 = pattern / BINADE - 1;
            proof {
                rounding::lemma_magnitude_parts(exponent as nat, significand as nat);
            }
            (significand, exponent as u32)
        }
    }
}

impl Default for Binary64 {
    fn default() -> (r: Binary64)
        ensures
            r == (Binary64 { bits: 0 }),
    {
        Binary64 { bits: 0 }
    }
}

impl PartialEq for Binary64 {
    fn eq(&self, other: &Binary64) -> (r: bool) {
        proof {
            lemma_rank(*self, *other);
        }
        !self.is_nan() && !other.is_nan() && self.rank() == other.rank()
    }
}

impl vstd::std_specs::cmp::PartialEqSpecImpl for Binary64 {
    open spec fn obeys_eq_spec() -> bool {
        true
    }

    open spec fn eq_spec(&self, other: &Binary64) -> bool {
        self.equal(*other)
    }
}

spec fn rank(x: Binary64) -> int {
    if x.negative() {
        -x.pattern()
    } else {
        x.pattern()
    }
}

/// Ranks are in the order of the values.
proof fn lemma_rank(a: Binary64, b: Binary64)
    ensures
        rank(a) < rank(b) <==> a.value() < b.value(),
        rank(a) == rank(b) <==> a.value() == b.value(),
{
    lemma_patterns(a.pattern(), b.pattern());
    lemma_patterns(b.pattern(), a.pattern());
    lemma_patterns(0, a.pattern());
    lemma_patterns(0, b.pattern());
}

proof fn lemma_patterns(a: int, b: int)
    requires
        a >= 0,
        b >= 0,
    ensures
        a < b ==> rounding::magnitude(a) < rounding::magnitude(b),
{
    if a < b {
        rounding::lemma_magnitude_increases(a, b);
    }
}

/// A number is made up of its sign and its pattern.
pub proof fn lemma_sign_and_pattern(x: Binary64)
    ensures
        Binary64::of(x.negative(), x.pattern()) == x,
{
}

/// Taking the opposite twice gives the number back, and turns its value over.
pub proof fn lemma_opposite(x: Binary64)
    ensures
        x.opposite().opposite() == x,
        x.opposite().value() == -x.value(),
        x.opposite().pattern() == x.pattern(),
{
}

} // verus!
