//! What holds of rounded arithmetic.

use vstd::prelude::*;
use vstd::arithmetic::power2::*;
use super::arithmetic::UNIT_DIGITS;
use super::rounding::INFINITY;
use super::{arithmetic, rounding, Binary64};

verus! {

/// Adding is commutative.
pub proof fn lemma_sum_commutes(a: Binary64, b: Binary64)
    ensures
        a.sum(b) == b.sum(a),
{
    super::lemma_sign_and_pattern(a);
    super::lemma_sign_and_pattern(b);
}

/// Multiplying is commutative.
pub proof fn lemma_product_commutes(a: Binary64, b: Binary64)
    ensures
        a.product(b) == b.product(a),
{
    assert(a.units() * b.units() == b.units() * a.units()) by (nonlinear_arith);
}

/// The magnitude of a finite number is less than that of infinity, and only zero
/// has none.
pub proof fn lemma_units_of_finite(x: Binary64)
    ensures
        x.finite() ==> x.units() < rounding::magnitude(INFINITY as int),
        x.pattern() >= INFINITY ==> x.units() >= rounding::magnitude(INFINITY as int),
        x.units() == 0 <==> x.pattern() == 0,
{
    if x.pattern() < INFINITY {
        rounding::lemma_magnitude_increases(x.pattern(), INFINITY as int);
    } else if x.pattern() > INFINITY {
        rounding::lemma_magnitude_increases(INFINITY as int, x.pattern());
    }
    if x.pattern() > 0 {
        rounding::lemma_magnitude_increases(0, x.pattern());
    }
}

/// What is rounded from at most the magnitude of a finite number is finite and at
/// most that number.
proof fn lemma_rounded_at_most(negative: bool, n: nat, d: nat, bound: Binary64)
    requires
        d > 0,
        bound.finite(),
        n <= bound.units() * d,
    ensures
        arithmetic::rounded(negative, n, d).finite(),
        arithmetic::rounded(negative, n, d).negative() == negative,
        arithmetic::rounded(negative, n, d).units() <= bound.units(),
        n == 0 ==> arithmetic::rounded(negative, n, d).units() == 0,
{
    rounding::lemma_nearest_at_most(n, d, bound.pattern());
    rounding::lemma_nearest_exists(n, d);
    let r = rounding::nearest(n, d);
    if r < bound.pattern() {
        rounding::lemma_magnitude_increases(r, bound.pattern());
    }
    if n == 0 {
        assert(rounding::magnitude(0) * d == 0) by (nonlinear_arith)
            requires
                rounding::magnitude(0) == 0,
        ;
        rounding::lemma_nearest_at_most(n, d, 0);
    }
}

/// Taking a smaller amount from a larger one leaves something between nothing and
/// the larger one.
pub proof fn lemma_difference_between(a: Binary64, b: Binary64)
    requires
        a.finite(),
        b.finite(),
        0 <= b.value() <= a.value(),
    ensures
        a.difference(b).finite(),
        0 <= a.difference(b).value() <= a.value(),
        a.value() == b.value() ==> a.difference(b).value() == 0,
{
    super::lemma_opposite(b);
    lemma_units_of_finite(a);
    lemma_units_of_finite(b);
    let exact = a.value() - b.value();
    let n = exact as nat;
    assert(n <= a.units() * 1);
    lemma_rounded_at_most(false, n, 1, a);
    lemma_rounded_at_most(true, n, 1, a);
}

/// Multiplying a finite number that is not negative by a number between zero and
/// one gives something between zero and the number.
pub proof fn lemma_product_with_fraction(a: Binary64, fraction: Binary64)
    requires
        a.finite(),
        !a.negative(),
        !fraction.negative(),
        fraction.units() <= pow2(UNIT_DIGITS as nat),
        fraction.finite(),
    ensures
        a.product(fraction).finite(),
        !a.product(fraction).negative(),
        a.product(fraction).units() <= a.units(),
{
    lemma_pow2_pos(UNIT_DIGITS as nat);
    let d = pow2(UNIT_DIGITS as nat);
    assert(a.units() * fraction.units() <= a.units() * d) by (nonlinear_arith)
        requires
            fraction.units() <= d,
    ;
    lemma_rounded_at_most(false, a.units() * fraction.units(), d, a);
}

/// One has the magnitude of two to the power of 1074 units.
pub proof fn lemma_one()
    ensures
        (Binary64 { bits: super::ONE }).units() == pow2(UNIT_DIGITS as nat),
        (Binary64 { bits: super::ONE }).finite(),
        !(Binary64 { bits: super::ONE }).negative(),
{
    rounding::lemma_magnitude_parts(1022, rounding::BINADE as nat);
    lemma_pow2_adds(52, 1022);
    lemma2_to64_rest();
}

/// A whole number of less than 54 binary digits, times a power of two, is a
/// magnitude.
pub proof fn lemma_representable(m: nat, e: nat) -> (pattern: int)
    requires
        m < 2 * rounding::BINADE,
        e <= 2044,
    ensures
        0 <= pattern < INFINITY,
        rounding::magnitude(pattern) == m * pow2(e),
    decreases e,
{
    if m >= rounding::BINADE {
        rounding::lemma_magnitude_parts(e, m);
        e * rounding::BINADE + m
    } else if e == 0 {
        rounding::lemma_magnitude_parts(0, m);
        m as int
    } else {
        lemma_pow2_unfold(e);
        let pattern = lemma_representable(2 * m, (e - 1) as nat);
        assert((2 * m) * pow2((e - 1) as nat) == m * (2 * pow2((e - 1) as nat))) by (nonlinear_arith);
        pattern
    }
}

/// A whole number of less than 54 binary digits, times a power of two, is rounded
/// to itself.
pub proof fn lemma_rounded_exactly(negative: bool, m: nat, e: nat)
    requires
        m < 2 * rounding::BINADE,
        e <= 2044,
    ensures
        arithmetic::rounded(negative, m * pow2(e), 1).finite(),
        arithmetic::rounded(negative, m * pow2(e), 1).units() == m * pow2(e),
        arithmetic::rounded(negative, m * pow2(e), 1).negative() == negative,
{
    let pattern = lemma_representable(m, e);
    rounding::lemma_nearest_exact(pattern, 1);
    assert(rounding::magnitude(pattern) * 1 == m * pow2(e));
}

/// A whole number of less than 54 binary digits becomes a binary64 number without
/// loss, and back.
pub proof fn lemma_whole_numbers_are_exact(n: nat)
    requires
        n < 2 * rounding::BINADE,
    ensures
        Binary64::of_whole(n).finite(),
        !Binary64::of_whole(n).negative(),
        Binary64::of_whole(n).units() == n * pow2(UNIT_DIGITS as nat),
        Binary64::of_whole(n).truncated() == n,
        Binary64::of_whole(n).rounded_up() == n,
        Binary64::of_whole(n).rounded_half_up() == n,
{
    lemma_rounded_exactly(false, n, UNIT_DIGITS as nat);
    lemma_pow2_pos(UNIT_DIGITS as nat);
    let d = pow2(UNIT_DIGITS as nat) as int;
    vstd::arithmetic::div_mod::lemma_mod_multiples_basic(n as int, d);
    vstd::arithmetic::div_mod::lemma_div_multiples_vanish(n as int, d);
    assert(n * d == d * n) by (nonlinear_arith);
    lemma_units_of_finite(Binary64::of_whole(n));
}

/// Multiplying by one changes nothing.
pub proof fn lemma_product_with_one(a: Binary64)
    requires
        a.finite(),
    ensures
        a.product(Binary64 { bits: super::ONE }) == a,
{
    lemma_one();
    lemma_pow2_pos(UNIT_DIGITS as nat);
    rounding::lemma_nearest_exact(a.pattern(), pow2(UNIT_DIGITS as nat));
    super::lemma_sign_and_pattern(a);
}

/// Multiplying a finite number that is not negative by one or more does not make it
/// smaller.
pub proof fn lemma_product_with_one_or_more(a: Binary64, factor: Binary64)
    requires
        a.finite(),
        !a.negative(),
        factor.finite(),
        !factor.negative(),
        factor.units() >= pow2(UNIT_DIGITS as nat),
    ensures
        a.at_most(a.product(factor)),
        !a.product(factor).negative(),
{
    lemma_pow2_pos(UNIT_DIGITS as nat);
    let d = pow2(UNIT_DIGITS as nat);
    let n = a.units() * factor.units();
    assert(a.units() * d <= n) by (nonlinear_arith)
        requires
            n == a.units() * factor.units(),
            factor.units() >= d,
    ;
    rounding::lemma_nearest_exists(n, d);
    rounding::lemma_nearest_at_least(n, d, a.pattern());
    let r = rounding::nearest(n, d);
    if r > a.pattern() {
        rounding::lemma_magnitude_increases(a.pattern(), r);
    }
}

/// Adding two finite numbers that are not negative gives at least the first.
pub proof fn lemma_sum_at_least(a: Binary64, b: Binary64)
    requires
        a.finite(),
        b.finite(),
        !a.negative(),
        !b.negative(),
    ensures
        a.at_most(a.sum(b)),
        !a.sum(b).negative(),
{
    let n = a.units() + b.units();
    rounding::lemma_nearest_exists(n, 1);
    rounding::lemma_nearest_at_least(n, 1, a.pattern());
    let r = rounding::nearest(n, 1);
    if r > a.pattern() {
        rounding::lemma_magnitude_increases(a.pattern(), r);
    }
}

/// A whole number over one that is not smaller is between nothing and one.
pub proof fn lemma_share(n: nat, of: Binary64)
    requires
        n < 2 * rounding::BINADE,
        of.finite(),
        !of.negative(),
        0 < of.units(),
        n * pow2(UNIT_DIGITS as nat) <= of.units(),
    ensures
        Binary64::of_whole(n).quotient(of).finite(),
        !Binary64::of_whole(n).quotient(of).negative(),
        Binary64::of_whole(n).quotient(of).units() <= pow2(UNIT_DIGITS as nat),
{
    lemma_whole_numbers_are_exact(n);
    lemma_one();
    lemma_units_of_finite(of);
    let d = pow2(UNIT_DIGITS as nat);
    let x = Binary64::of_whole(n);
    assert(x.units() * d <= d * of.units()) by (nonlinear_arith)
        requires
            x.units() <= of.units(),
    ;
    lemma_rounded_at_most(false, x.units() * d, of.units(), Binary64 { bits: super::ONE });
}

/// A whole number becomes a binary64 number that is not negative, if perhaps infinite.
pub proof fn lemma_whole_is_a_number(n: nat)
    ensures
        !Binary64::of_whole(n).nan(),
        !Binary64::of_whole(n).negative(),
{
    rounding::lemma_nearest_exists(n * pow2(UNIT_DIGITS as nat), 1);
}

/// Multiplying what is not negative by more does not make the whole part of the product
/// smaller.
pub proof fn lemma_product_is_ordered(a: Binary64, low: Binary64, high: Binary64)
    requires
        !a.nan(),
        !a.negative(),
        low.at_most(high),
    ensures
        a.product(low).truncated() <= a.product(high).truncated(),
{
    let d = pow2(UNIT_DIGITS as nat);
    lemma_pow2_pos(UNIT_DIGITS as nat);
    let x = a.product(low);
    let y = a.product(high);
    lemma_units_of_finite(a);
    lemma_units_of_finite(low);
    lemma_units_of_finite(high);
    let m = a.units() * low.units();
    let n = a.units() * high.units();
    rounding::lemma_nearest_exists(m, d);
    rounding::lemma_nearest_exists(n, d);
    if low.negative() {
        assert(x.truncated() == 0);
    } else if a.zero() || low.zero() {
        assert(m == 0) by (nonlinear_arith)
            requires
                m == a.units() * low.units(),
                a.units() == 0 || low.units() == 0,
        ;
        rounding::lemma_nearest_at_most(0, d, 0);
        assert(x.nan() || x.units() == 0);
        assert(0int / d as int == 0) by (nonlinear_arith)
            requires
                d > 0,
        ;
        assert(x.truncated() == 0);
    } else if !a.infinite() && !low.infinite() {
        if high.infinite() {
            if x.pattern() < INFINITY {
                rounding::lemma_magnitude_increases(x.pattern(), INFINITY as int);
            }
        } else {
            assert(m <= n) by (nonlinear_arith)
                requires
                    m == a.units() * low.units(),
                    n == a.units() * high.units(),
                    low.units() <= high.units(),
            ;
            rounding::lemma_nearest_is_ordered(m, n, d);
            if x.pattern() < y.pattern() {
                rounding::lemma_magnitude_increases(x.pattern(), y.pattern());
            }
        }
        assert(x.units() <= y.units());
        vstd::arithmetic::div_mod::lemma_div_is_ordered(
            x.units() as int,
            y.units() as int,
            d as int,
        );
    }
}

} // verus!
