//! Sums, differences, products and quotients.

use vstd::prelude::*;
use vstd::arithmetic::power2::*;
use super::rounding::{round_to_nearest, BINADE, INFINITY};
use super::{rounding, Binary64, NAN};

verus! {

/// The exponent of the unit in which magnitudes are counted.
pub const UNIT_DIGITS: u32 = 1074;

/// The number nearest to `n / d` units, with the given sign.
pub open spec fn rounded(negative: bool, n: nat, d: nat) -> Binary64 {
    Binary64::of(negative, rounding::nearest(n, d))
}

pub open spec fn absolute_of(x: int) -> nat {
    if x < 0 {
        (-x) as nat
    } else {
        x as nat
    }
}

impl Binary64 {
    /// The sum of two numbers, rounded. A sum of exactly zero is positive, but
    /// where both numbers are negative.
    pub open spec fn sum(self, other: Binary64) -> Binary64 {
        if self.nan() || other.nan() {
            Binary64 { bits: NAN }
        } else if self.infinite() {
            if other.infinite() && self.negative() != other.negative() {
                Binary64 { bits: NAN }
            } else {
                self
            }
        } else if other.infinite() {
            other
        } else {
            let exact = self.value() + other.value();
            let negative = if exact == 0 {
                self.negative() && other.negative()
            } else {
                exact < 0
            };
            rounded(negative, absolute_of(exact), 1)
        }
    }

    /// The difference of two numbers, rounded.
    pub open spec fn difference(self, other: Binary64) -> Binary64 {
        self.sum(other.opposite())
    }

    /// The product of two numbers, rounded.
    pub open spec fn product(self, other: Binary64) -> Binary64 {
        let negative = self.negative() != other.negative();
        if self.nan() || other.nan() {
            Binary64 { bits: NAN }
        } else if self.infinite() || other.infinite() {
            if self.zero() || other.zero() {
                Binary64 { bits: NAN }
            } else {
                Binary64::of(negative, INFINITY as int)
            }
        } else {
            rounded(negative, self.units() * other.units(), pow2(UNIT_DIGITS as nat))
        }
    }

    /// The quotient of two numbers, rounded.
    pub open spec fn quotient(self, other: Binary64) -> Binary64 {
        let negative = self.negative() != other.negative();
        if self.nan() || other.nan() {
            Binary64 { bits: NAN }
        } else if self.infinite() {
            if other.infinite() {
                Binary64 { bits: NAN }
            } else {
                Binary64::of(negative, INFINITY as int)
            }
        } else if other.infinite() {
            Binary64::of(negative, 0)
        } else if other.zero() {
            if self.zero() {
                Binary64 { bits: NAN }
            } else {
                Binary64::of(negative, INFINITY as int)
            }
        } else {
            rounded(negative, self.units() * pow2(UNIT_DIGITS as nat), other.units())
        }
    }

    /// `self + other`.
    pub fn plus(self, other: Binary64) -> (r: Binary64)
        ensures
            r == self.sum(other),
    {
        if self.is_nan() || other.is_nan() {
            return Binary64 { bits: NAN };
        }
        if self.is_infinite() {
            if other.is_infinite() && self.is_negative() != other.is_negative() {
                return Binary64 { bits: NAN };
            }
            return self;
        }
        if other.is_infinite() {
            return other;
        }
        if self.unsigned() >= other.unsigned() {
            add_smaller(self, other)
        } else {
            add_smaller(other, self)
        }
    }

    /// `self - other`.
    pub fn minus(self, other: Binary64) -> (r: Binary64)
        ensures
            r == self.difference(other),
    {
        self.plus(other.negated())
    }

    /// `self * other`.
    pub fn times(self, other: Binary64) -> (r: Binary64)
        ensures
            r == self.product(other),
    {
        let negative = self.is_negative() != other.is_negative();
        if self.is_nan() || other.is_nan() {
            return Binary64 { bits: NAN };
        }
        if self.is_infinite() || other.is_infinite() {
            if self.is_zero() || other.is_zero() {
                return Binary64 { bits: NAN };
            }
            return Binary64::with_sign(negative, INFINITY);
        }
        let (ma, ea) = self.parts();
        let (mb, eb) = other.parts();
        let ghost n = self.units() * other.units();
        let ghost d = pow2(UNIT_DIGITS as nat);
        proof {
            lemma_pow2_pos(UNIT_DIGITS as nat);
            assert(ma * mb < (2 * BINADE) * (2 * BINADE)) by (nonlinear_arith)
                requires
                    0 <= ma < 2 * BINADE,
                    0 <= mb < 2 * BINADE,
            ;
            assert(ma * mb >= 0) by (nonlinear_arith)
                requires
                    0 <= ma,
                    0 <= mb,
            ;
        }
        let significand: u128 = (ma as u128) * (mb as u128);
        let exponent: i32 = ea as i32 + eb as i32 - UNIT_DIGITS as i32;
        if significand == 0 {
            proof {
                assert(n == 0) by (nonlinear_arith)
                    requires
                        ma * mb == 0,
                        n == (ma * pow2(ea as nat)) * (mb * pow2(eb as nat)),
                ;
                assert(0 * d == 0) by (nonlinear_arith);
                rounding::lemma_nearest_exact(0, d);
            }
            return Binary64::with_sign(negative, 0);
        }
        proof {
            lemma_pow2_adds(ea as nat, eb as nat);
            let both = pow2((ea + eb) as nat);
            assert(n == significand * both) by (nonlinear_arith)
                requires
                    n == (ma * pow2(ea as nat)) * (mb * pow2(eb as nat)),
                    both == pow2(ea as nat) * pow2(eb as nat),
                    significand == ma * mb,
            ;
            lemma2_to64();
            if exponent < 0 {
                lemma_pow2_adds((ea + eb) as nat, (-exponent) as nat);
                let down = pow2((-exponent) as nat);
                assert(n * down == significand * (d * 1)) by (nonlinear_arith)
                    requires
                        n == significand * both,
                        d == both * down,
                ;
            } else {
                lemma_pow2_adds(UNIT_DIGITS as nat, exponent as nat);
                let up = pow2(exponent as nat);
                assert(n * 1 == significand * (d * up)) by (nonlinear_arith)
                    requires
                        n == significand * both,
                        both == d * up,
                ;
            }
        }
        let pattern = round_to_nearest(significand, exponent, false, Ghost(n), Ghost(d));
        proof {
            rounding::lemma_nearest_is(pattern as int, n, d);
        }
        Binary64::with_sign(negative, pattern)
    }

    /// `self / other`.
    pub fn over(self, other: Binary64) -> (r: Binary64)
        ensures
            r == self.quotient(other),
    {
        let negative = self.is_negative() != other.is_negative();
        if self.is_nan() || other.is_nan() {
            return Binary64 { bits: NAN };
        }
        if self.is_infinite() {
            if other.is_infinite() {
                return Binary64 { bits: NAN };
            }
            return Binary64::with_sign(negative, INFINITY);
        }
        if other.is_infinite() {
            return Binary64::with_sign(negative, 0);
        }
        if other.is_zero() {
            if self.is_zero() {
                return Binary64 { bits: NAN };
            }
            return Binary64::with_sign(negative, INFINITY);
        }
        let (ma, ea) = self.parts();
        let (mb, eb) = other.parts();
        let ghost n = self.units() * pow2(UNIT_DIGITS as nat);
        let ghost d = other.units();
        proof {
            rounding::lemma_magnitude_increases(0, other.pattern());
            if mb == 0 {
                assert(0 * pow2(eb as nat) == 0) by (nonlinear_arith);
            }
        }
        if ma == 0 {
            proof {
                assert(0 * pow2(ea as nat) == 0) by (nonlinear_arith);
                assert(0 * pow2(UNIT_DIGITS as nat) == 0) by (nonlinear_arith);
                assert(0 * d == 0) by (nonlinear_arith);
                rounding::lemma_nearest_exact(0, d);
            }
            return Binary64::with_sign(negative, 0);
        }
        // The dividend is widened to 115 digits, so that the quotient has at least 61.
        let len = rounding::digits(ma as u128);
        proof {
            lemma2_to64_rest();
            if len > 53 {
                if len > 54 {
                    lemma_pow2_strictly_increases(53, (len - 1) as nat);
                }
                assert(false);
            }
        }
        let widen: u32 = 115 - len;
        let p = rounding::power_of_two(widen);
        proof {
            lemma_pow2_adds(widen as nat, len as nat);
            lemma_pow2_adds(widen as nat, (len - 1) as nat);
            lemma_wide();
            assert(pow2(114) <= ma * p < pow2(115)) by (nonlinear_arith)
                requires
                    pow2((len - 1) as nat) <= ma < pow2(len as nat),
                    p > 0,
                    pow2(115) == p * pow2(len as nat),
                    pow2(114) == p * pow2((len - 1) as nat),
            ;
        }
        let dividend: u128 = (ma as u128) * p;
        let significand: u128 = dividend / (mb as u128);
        let rest: u128 = dividend % (mb as u128);
        let exponent: i32 = ea as i32 - eb as i32 + UNIT_DIGITS as i32 - widen as i32;
        proof {
            vstd::arithmetic::div_mod::lemma_fundamental_div_mod(dividend as int, mb as int);
            assert(significand >= 4 * BINADE) by (nonlinear_arith)
                requires
                    dividend == mb * significand + rest,
                    0 <= rest < mb,
                    0 < mb < 2 * BINADE,
                    dividend >= (2 * BINADE) * (4 * BINADE),
            ;
            assert(significand <= dividend) by (nonlinear_arith)
                requires
                    dividend == mb * significand + rest,
                    0 <= rest,
                    significand >= 0,
                    mb >= 1,
            ;
            lemma_quotient_denotes(
                ma as nat,
                ea as nat,
                mb as nat,
                eb as nat,
                widen as nat,
                significand as nat,
                rest as nat,
            );
        }
        let pattern = round_to_nearest(significand, exponent, rest != 0, Ghost(n), Ghost(d));
        proof {
            rounding::lemma_nearest_is(pattern as int, n, d);
        }
        Binary64::with_sign(negative, pattern)
    }
}

proof fn lemma_wide()
    ensures
        pow2(114) >= (2 * BINADE) * (4 * BINADE),
        pow2(115) == 0x8_0000_0000_0000_0000_0000_0000_0000,
{
    lemma2_to64();
    lemma2_to64_rest();
    lemma_pow2_adds(57, 57);
    lemma_pow2_adds(57, 58);
    assert(pow2(57) * pow2(57) == 0x200_0000_0000_0000 * 0x200_0000_0000_0000) by (nonlinear_arith)
        requires
            pow2(57) == 0x200_0000_0000_0000,
    ;
    assert(pow2(57) * pow2(58) == 0x200_0000_0000_0000 * 0x400_0000_0000_0000) by (nonlinear_arith)
        requires
            pow2(57) == 0x200_0000_0000_0000,
            pow2(58) == 0x400_0000_0000_0000,
    ;
    assert((2 * BINADE) * (4 * BINADE) == 0x20_0000_0000_0000 * 0x40_0000_0000_0000)
        by (nonlinear_arith)
        requires
            BINADE == 0x10_0000_0000_0000,
    ;
}

proof fn lemma_quotient_denotes(ma: nat, ea: nat, mb: nat, eb: nat, widen: nat, q: nat, rest: nat)
    requires
        mb > 0,
        ma * pow2(widen) == mb * q + rest,
        rest < mb,
    ensures
        rounding::denotes(
            q,
            ea - eb + UNIT_DIGITS - widen,
            rest != 0,
            (ma * pow2(ea)) * pow2(UNIT_DIGITS as nat),
            mb * pow2(eb),
        ),
{
    let exponent = ea - eb + UNIT_DIGITS - widen;
    let down: nat = if exponent < 0 { (-exponent) as nat } else { 0 };
    let up: nat = if exponent < 0 { 0 } else { exponent as nat };
    let n = (ma * pow2(ea)) * pow2(UNIT_DIGITS as nat);
    let d = mb * pow2(eb);
    let k = pow2((eb + up) as nat);
    lemma_pow2_pos((eb + up) as nat);
    lemma_pow2_adds(eb, up);
    lemma_pow2_adds(ea, UNIT_DIGITS as nat);
    lemma_pow2_adds((ea + UNIT_DIGITS) as nat, down);
    lemma_pow2_adds(widen, (eb + up) as nat);
    assert(ea + UNIT_DIGITS + down == widen + eb + up);
    let pa = pow2(ea);
    let pu = pow2(UNIT_DIGITS as nat);
    let pd = pow2(down);
    let pw = pow2(widen);
    assert(pa * pu * pd == pw * k);
    assert(n * pd == (ma * pw) * k) by (nonlinear_arith)
        requires
            n == (ma * pa) * pu,
            pa * pu * pd == pw * k,
    ;
    assert(d * pow2(up) == mb * k) by (nonlinear_arith)
        requires
            d == mb * pow2(eb),
            k == pow2(eb) * pow2(up),
    ;
    assert((mb * q + rest) * k == q * (mb * k) + rest * k) by (nonlinear_arith);
    assert((q + 1) * (mb * k) == q * (mb * k) + mb * k) by (nonlinear_arith);
    assert(rest * k < mb * k) by (nonlinear_arith)
        requires
            rest < mb,
            k > 0,
    ;
    assert(rest > 0 ==> rest * k > 0) by (nonlinear_arith)
        requires
            k > 0,
    ;
    if rest == 0 {
        assert(rest * k == 0) by (nonlinear_arith)
            requires
                rest == 0,
        ;
    }
}

/// The gaps around a number of a high binade, in units.
proof fn lemma_gaps(significand: nat, exponent: nat)
    requires
        BINADE <= significand < 2 * BINADE,
        exponent > 0,
    ensures
        ({
            let pattern = exponent * BINADE + significand;
            &&& rounding::magnitude(pattern + 1) == rounding::magnitude(pattern) + pow2(exponent)
            &&& rounding::magnitude(pattern) >= rounding::magnitude(pattern - 1) + pow2(
                (exponent - 1) as nat,
            )
        }),
{
    let pattern = exponent * BINADE + significand;
    let step = pow2(exponent);
    lemma_pow2_unfold(exponent);
    lemma_pow2_pos((exponent - 1) as nat);
    rounding::lemma_magnitude_parts(exponent, significand);
    rounding::lemma_magnitude_parts(exponent, significand + 1);
    assert((significand + 1) * step == significand * step + step) by (nonlinear_arith);
    if significand > BINADE {
        rounding::lemma_magnitude_parts(exponent, (significand - 1) as nat);
        assert((significand - 1) * step == significand * step - step) by (nonlinear_arith);
    } else {
        let half = pow2((exponent - 1) as nat);
        let last = (2 * BINADE - 1) as nat;
        rounding::lemma_magnitude_parts((exponent - 1) as nat, last);
        assert((exponent - 1) * BINADE + last == pattern - 1);
        assert(last * half == 2 * BINADE * half - half) by (nonlinear_arith)
            requires
                last == 2 * BINADE - 1,
        ;
        assert(BINADE * step == 2 * BINADE * half) by (nonlinear_arith)
            requires
                step == 2 * half,
        ;
    }
}

/// Adds two finite numbers, the first of which has the larger magnitude.
fn add_smaller(a: Binary64, b: Binary64) -> (r: Binary64)
    requires
        a.finite(),
        b.finite(),
        a.pattern() >= b.pattern(),
    ensures
        r == a.sum(b),
        r == b.sum(a),
{
    let (ma, ea) = a.parts();
    let (mb, eb) = b.parts();
    let ghost exact = a.value() + b.value();
    let ghost n = absolute_of(exact);
    let same = a.is_negative() == b.is_negative();
    proof {
        if a.pattern() > b.pattern() {
            rounding::lemma_magnitude_increases(b.pattern(), a.pattern());
        }
        assert(b.units() <= a.units());
        assert(n == if same {
            a.units() + b.units()
        } else {
            (a.units() - b.units()) as nat
        });
        if ea < eb {
            assert(ea * BINADE + ma < eb * BINADE + mb) by (nonlinear_arith)
                requires
                    ea + 1 <= eb,
                    ma < 2 * BINADE,
                    mb >= BINADE,
                    ea > 0 ==> ma >= BINADE,
                    ea == 0 || ea > 0,
            ;
        }
    }
    let gap: u32 = ea - eb;
    if gap > 64 {
        proof {
            lemma_far_apart(a, b, ma as nat, ea as nat, mb as nat, eb as nat, n);
            rounding::lemma_nearest_is(a.pattern(), n, 1);
        }
        return a;
    }
    let p = rounding::power_of_two(gap);
    proof {
        lemma2_to64();
        lemma2_to64_rest();
        if gap < 64 {
            lemma_pow2_strictly_increases(gap as nat, 64);
        }
        assert(0 <= ma * p < (2 * BINADE) * 0x1_0000_0000_0000_0000) by (nonlinear_arith)
            requires
                0 <= ma < 2 * BINADE,
                0 < p <= 0x1_0000_0000_0000_0000,
        ;
        lemma_pow2_adds(gap as nat, eb as nat);
        lemma_pow2_pos(eb as nat);
        let wide = (ma * p) as nat;
        assert(a.units() == wide * pow2(eb as nat)) by (nonlinear_arith)
            requires
                a.units() == ma * pow2(ea as nat),
                pow2(ea as nat) == p * pow2(eb as nat),
                wide == ma * p,
        ;
        assert(mb <= wide) by (nonlinear_arith)
            requires
                mb * pow2(eb as nat) <= wide * pow2(eb as nat),
                pow2(eb as nat) > 0,
        ;
    }
    let wide: u128 = (ma as u128) * p;
    let significand: u128 = if same {
        wide + mb as u128
    } else {
        wide - mb as u128
    };
    proof {
        let unit = pow2(eb as nat);
        assert(n == significand * unit) by (nonlinear_arith)
            requires
                a.units() == wide * unit,
                b.units() == mb * unit,
                same ==> n == a.units() + b.units() && significand == wide + mb,
                !same ==> n == a.units() - b.units() && significand == wide - mb,
        ;
        assert(significand > 0 ==> n > 0) by (nonlinear_arith)
            requires
                n == significand * unit,
                unit > 0,
        ;
    }
    if significand == 0 {
        proof {
            assert(0 * pow2(eb as nat) == 0) by (nonlinear_arith);
            rounding::lemma_nearest_exact(0, 1);
        }
        return Binary64::with_sign(a.is_negative() && b.is_negative(), 0);
    }
    proof {
        let unit = pow2(eb as nat);
        assert(n * 1 == significand * (1 * unit)) by (nonlinear_arith)
            requires
                n == significand * unit,
        ;
    }
    let pattern = round_to_nearest(significand, eb as i32, false, Ghost(n), Ghost(1));
    proof {
        rounding::lemma_nearest_is(pattern as int, n, 1);
    }
    Binary64::with_sign(a.is_negative(), pattern)
}

/// A number that is more than 64 binary digits smaller does not change a sum.
proof fn lemma_far_apart(a: Binary64, b: Binary64, ma: nat, ea: nat, mb: nat, eb: nat, n: nat)
    requires
        a.finite(),
        BINADE <= ma < 2 * BINADE,
        mb < 2 * BINADE,
        ea > eb + 64,
        a.pattern() == ea * BINADE + ma,
        a.units() == ma * pow2(ea),
        b.units() == mb * pow2(eb),
        b.units() <= a.units(),
        n == a.units() + b.units() || n == a.units() - b.units(),
    ensures
        rounding::is_nearest(a.pattern(), n, 1),
{
    lemma_gaps(ma, ea);
    lemma2_to64();
    lemma2_to64_rest();
    let quarter = pow2((ea - 2) as nat);
    lemma_pow2_unfold(ea);
    lemma_pow2_unfold((ea - 1) as nat);
    lemma_pow2_adds(53, eb);
    lemma_pow2_strictly_increases((53 + eb) as nat, (ea - 2) as nat);
    let small = pow2(eb);
    lemma_pow2_pos(eb);
    assert(mb * small < (2 * BINADE) * small) by (nonlinear_arith)
        requires
            mb < 2 * BINADE,
            small > 0,
    ;
    assert(b.units() < quarter);
    let m = a.units();
    let low = rounding::magnitude(a.pattern() - 1);
    let high = rounding::magnitude(a.pattern() + 1);
    assert((low + m) * 1 == low + m && (m + high) * 1 == m + high) by (nonlinear_arith);
}

} // verus!
