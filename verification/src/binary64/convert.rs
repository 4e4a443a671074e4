//! Conversions between binary64 numbers and whole numbers.

use vstd::prelude::*;
use vstd::arithmetic::power2::*;
use super::arithmetic::UNIT_DIGITS;
use super::rounding::{round_to_nearest, BINADE};
use super::{arithmetic, rounding, Binary64};

verus! {

/// The largest 64-bit whole number, or the given one where it is smaller.
pub open spec fn saturated(n: int) -> u64 {
    if n > u64::MAX {
        u64::MAX
    } else if n < 0 {
        0
    } else {
        n as u64
    }
}

impl Binary64 {
    /// The whole part of the magnitude.
    pub open spec fn whole(self) -> int {
        self.units() as int / pow2(UNIT_DIGITS as nat) as int
    }

    /// What the magnitude has beyond its whole part, in units.
    pub open spec fn rest(self) -> int {
        self.units() as int % pow2(UNIT_DIGITS as nat) as int
    }

    /// The number as a 64-bit whole number, rounded toward zero. What is out of
    /// range goes to the nearest end of the range; what is not a number to zero.
    pub open spec fn truncated(self) -> u64 {
        if self.nan() || self.negative() {
            0
        } else {
            saturated(self.whole())
        }
    }

    /// As `truncated`, but rounded up.
    pub open spec fn rounded_up(self) -> u64 {
        if self.nan() || self.negative() {
            0
        } else {
            saturated(self.whole() + if self.rest() > 0 { 1int } else { 0int })
        }
    }

    /// As `truncated`, but rounded to the nearest whole number, halves upward.
    pub open spec fn rounded_half_up(self) -> u64 {
        if self.nan() || self.negative() {
            0
        } else {
            saturated(
                self.whole() + if 2 * self.rest() >= pow2(UNIT_DIGITS as nat) {
                    1int
                } else {
                    0int
                },
            )
        }
    }

    /// The number nearest to a whole number.
    pub open spec fn of_whole(n: nat) -> Binary64 {
        arithmetic::rounded(false, n * pow2(UNIT_DIGITS as nat), 1)
    }

    /// The number nearest to `n`.
    pub fn from_u64(n: u64) -> (r: Binary64)
        ensures
            r == Binary64::of_whole(n as nat),
    {
        let ghost units = n as nat * pow2(UNIT_DIGITS as nat);
        if n == 0 {
            proof {
                assert(0 * pow2(UNIT_DIGITS as nat) == 0) by (nonlinear_arith);
                rounding::lemma_nearest_exact(0, 1);
            }
            return Binary64::with_sign(false, 0);
        }
        proof {
            lemma2_to64();
            assert(units * 1 == n * (1 * pow2(UNIT_DIGITS as nat))) by (nonlinear_arith)
                requires
                    units == n * pow2(UNIT_DIGITS as nat),
            ;
        }
        let pattern = round_to_nearest(
            n as u128,
            UNIT_DIGITS as i32,
            false,
            Ghost(units),
            Ghost(1),
        );
        proof {
            rounding::lemma_nearest_is(pattern as int, units, 1);
        }
        Binary64::with_sign(false, pattern)
    }

    /// The whole part of the magnitude, whether there is more, and whether that
    /// is half or more; nothing where the whole part does not fit.
    fn split(self) -> (r: Option<(u64, bool, bool)>)
        requires
            !self.nan(),
        ensures
            match r {
                Some((whole, more, half)) => {
                    &&& self.whole() == whole
                    &&& more == (self.rest() > 0)
                    &&& half == (2 * self.rest() >= pow2(UNIT_DIGITS as nat))
                },
                None => self.whole() > u64::MAX,
            },
    {
        let ghost one = pow2(UNIT_DIGITS as nat);
        proof {
            lemma_pow2_pos(UNIT_DIGITS as nat);
            lemma2_to64();
            lemma2_to64_rest();
        }
        if self.is_infinite() {
            proof {
                rounding::lemma_magnitude_parts(2046, BINADE as nat);
                lemma_huge(BINADE as nat, 2046, self.units());
            }
            return None;
        }
        let (significand, exponent) = self.parts();
        if exponent >= UNIT_DIGITS {
            let up: u32 = exponent - UNIT_DIGITS;
            if up > 11 {
                proof {
                    lemma_huge(significand as nat, exponent as nat, self.units());
                }
                return None;
            }
            let p = rounding::power_of_two(up);
            proof {
                if up < 11 {
                    lemma_pow2_strictly_increases(up as nat, 11);
                }
                assert(0 <= significand * p <= (2 * BINADE - 1) * 2048) by (nonlinear_arith)
                    requires
                        0 <= significand <= 2 * BINADE - 1,
                        0 < p <= 2048,
                ;
                lemma_pow2_adds(UNIT_DIGITS as nat, up as nat);
                let n = (significand * p) as int;
                assert(self.units() == n * one + 0) by (nonlinear_arith)
                    requires
                        self.units() == significand * pow2(exponent as nat),
                        pow2(exponent as nat) == one * p,
                        n == significand * p,
                ;
                vstd::arithmetic::div_mod::lemma_fundamental_div_mod_converse(
                    self.units() as int,
                    one as int,
                    n,
                    0,
                );
            }
            return Some(((significand as u128 * p) as u64, false, false));
        }
        let down: u32 = UNIT_DIGITS - exponent;
        proof {
            lemma_pow2_adds(down as nat, exponent as nat);
            lemma_pow2_pos(exponent as nat);
            lemma_pow2_pos(down as nat);
        }
        if down >= 64 {
            proof {
                if down > 64 {
                    lemma_pow2_strictly_increases(64, down as nat);
                }
                lemma_split(
                    significand as nat,
                    pow2(exponent as nat),
                    pow2(down as nat),
                    0,
                    significand as nat,
                    self.units(),
                    one,
                );
            }
            return Some((0, significand > 0, false));
        }
        let p = rounding::power_of_two(down);
        let whole: u128 = significand as u128 / p;
        let rest: u128 = significand as u128 % p;
        proof {
            lemma_pow2_strictly_increases(down as nat, 64);
            vstd::arithmetic::div_mod::lemma_fundamental_div_mod(significand as int, p as int);
            assert(whole <= significand) by (nonlinear_arith)
                requires
                    significand == p * whole + rest,
                    rest >= 0,
                    whole >= 0,
                    p >= 1,
            ;
            assert(significand == whole * p + rest) by (nonlinear_arith)
                requires
                    significand == p * whole + rest,
            ;
            lemma_split(
                significand as nat,
                pow2(exponent as nat),
                p as nat,
                whole as nat,
                rest as nat,
                self.units(),
                one,
            );
        }
        Some((whole as u64, rest > 0, 2 * rest >= p))
    }

    /// The number as a whole number, rounded toward zero.
    pub fn to_u64(self) -> (r: u64)
        ensures
            r == self.truncated(),
    {
        if self.is_nan() || self.is_negative() {
            return 0;
        }
        match self.split() {
            Some((whole, more, half)) => whole,
            None => u64::MAX,
        }
    }

    /// The number as a whole number, rounded up.
    pub fn ceil_to_u64(self) -> (r: u64)
        ensures
            r == self.rounded_up(),
    {
        if self.is_nan() || self.is_negative() {
            return 0;
        }
        match self.split() {
            Some((whole, more, half)) => if more && whole < u64::MAX {
                whole + 1
            } else {
                whole
            },
            None => u64::MAX,
        }
    }

    /// The number as a whole number, rounded to the nearest, halves upward.
    pub fn round_to_u64(self) -> (r: u64)
        ensures
            r == self.rounded_half_up(),
    {
        if self.is_nan() || self.is_negative() {
            return 0;
        }
        match self.split() {
            Some((whole, more, half)) => if half && whole < u64::MAX {
                whole + 1
            } else {
                whole
            },
            None => u64::MAX,
        }
    }
}

/// A significand with a large exponent has a whole part that does not fit.
proof fn lemma_huge(significand: nat, exponent: nat, units: nat)
    requires
        significand >= BINADE,
        exponent > UNIT_DIGITS + 11,
        units == significand * pow2(exponent),
    ensures
        units as int / pow2(UNIT_DIGITS as nat) as int > u64::MAX,
{
    let one = pow2(UNIT_DIGITS as nat);
    let up = (exponent - UNIT_DIGITS) as nat;
    lemma_pow2_pos(UNIT_DIGITS as nat);
    lemma_pow2_adds(UNIT_DIGITS as nat, up);
    lemma2_to64();
    if up > 12 {
        lemma_pow2_strictly_increases(12, up);
    }
    let n = significand * pow2(up);
    assert(n >= BINADE * 4096) by (nonlinear_arith)
        requires
            n == significand * pow2(up),
            significand >= BINADE,
            pow2(up) >= 4096,
    ;
    assert(units == n * one + 0) by (nonlinear_arith)
        requires
            units == significand * pow2(exponent),
            pow2(exponent) == one * pow2(up),
            n == significand * pow2(up),
    ;
    vstd::arithmetic::div_mod::lemma_fundamental_div_mod_converse(
        units as int,
        one as int,
        n as int,
        0,
    );
}

/// Dividing by a power of two in units and dividing the significand agree.
proof fn lemma_split(
    significand: nat,
    scale: nat,
    p: nat,
    whole: nat,
    rest: nat,
    units: nat,
    one: nat,
)
    requires
        scale > 0,
        p > 0,
        significand == whole * p + rest,
        rest < p,
        units == significand * scale,
        one == p * scale,
    ensures
        units as int / one as int == whole,
        (units as int % one as int > 0) == (rest > 0),
        (2 * (units as int % one as int) >= one) == (2 * rest >= p),
{
    assert(units == whole * one + rest * scale) by (nonlinear_arith)
        requires
            units == significand * scale,
            significand == whole * p + rest,
            one == p * scale,
    ;
    assert(0 <= rest * scale < one) by (nonlinear_arith)
        requires
            0 <= rest < p,
            scale > 0,
            one == p * scale,
    ;
    vstd::arithmetic::div_mod::lemma_fundamental_div_mod_converse(
        units as int,
        one as int,
        whole as int,
        (rest * scale) as int,
    );
    assert((rest * scale > 0) == (rest > 0)) by (nonlinear_arith)
        requires
            scale > 0,
            rest >= 0,
    ;
    assert((2 * (rest * scale) >= one) == (2 * rest >= p)) by (nonlinear_arith)
        requires
            scale > 0,
            one == p * scale,
    ;
}

} // verus!
