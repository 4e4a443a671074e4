//! Arithmetic on whole numbers, which is exact as long as they have fewer than 54
//! binary digits; and what rounding means where it is not.

use vstd::prelude::*;
use vstd::arithmetic::power2::*;
use super::arithmetic::UNIT_DIGITS;
use super::{arithmetic, laws, rounding, Binary64};

verus! {

/// Whole numbers below this one are binary64 numbers, all of them.
pub const EXACT: u64 = 0x20_0000_0000_0000;

/// The value of the number one.
pub open spec fn unit() -> int {
    pow2(UNIT_DIGITS as nat) as int
}

/// A whole number as a binary64 number: it is finite, not negative, and has the value
/// of the whole number.
pub proof fn lemma_whole(n: nat)
    requires
        n < EXACT,
    ensures
        Binary64::of_whole(n).finite(),
        !Binary64::of_whole(n).negative(),
        Binary64::of_whole(n).value() == n * unit(),
        Binary64::of_whole(n).units() == n * unit(),
        unit() > 0,
        n == 0 ==> Binary64::of_whole(n) == (Binary64 { bits: 0 }),
        n > 0 ==> Binary64::of_whole(n).value() > 0,
{
    laws::lemma_whole_numbers_are_exact(n);
    lemma_pow2_pos(UNIT_DIGITS as nat);
    laws::lemma_units_of_finite(Binary64::of_whole(n));
    if n > 0 {
        assert(n * unit() > 0) by (nonlinear_arith)
            requires
                n > 0,
                unit() > 0,
        ;
    } else {
        assert(0 * unit() == 0) by (nonlinear_arith);
        assert(Binary64::of_whole(n).pattern() == 0);
    }
}

/// Whole numbers are ordered by their values.
pub proof fn lemma_whole_order(a: nat, b: nat)
    requires
        a < EXACT,
        b < EXACT,
    ensures
        a < b <==> Binary64::of_whole(a).less(Binary64::of_whole(b)),
        a <= b <==> Binary64::of_whole(a).at_most(Binary64::of_whole(b)),
        a == b <==> Binary64::of_whole(a) == Binary64::of_whole(b),
{
    lemma_whole(a);
    lemma_whole(b);
    if a < b {
        assert(a * unit() < b * unit()) by (nonlinear_arith)
            requires
                a < b,
                unit() > 0,
        ;
    } else if b < a {
        assert(b * unit() < a * unit()) by (nonlinear_arith)
            requires
                b < a,
                unit() > 0,
        ;
    }
}

/// Two numbers that are not negative and have the same magnitude are the same.
pub proof fn lemma_same_units(a: Binary64, b: Binary64)
    requires
        !a.negative(),
        !b.negative(),
        a.units() == b.units(),
    ensures
        a == b,
{
    if a.pattern() < b.pattern() {
        rounding::lemma_magnitude_increases(a.pattern(), b.pattern());
    } else if b.pattern() < a.pattern() {
        rounding::lemma_magnitude_increases(b.pattern(), a.pattern());
    }
}

/// What a number becomes as a whole number: the largest that is not above it, the
/// smallest that is not below it, and one that is at most a half away, which is above
/// where it is exactly a half.
pub proof fn lemma_as_whole(x: Binary64)
    requires
        x.finite(),
        !x.negative(),
        x.value() < 0xffff_ffff_ffff_ffff * unit(),
    ensures
        x.truncated() * unit() <= x.value() < (x.truncated() + 1) * unit(),
        (x.rounded_up() - 1) * unit() < x.value() <= x.rounded_up() * unit(),
        2 * x.rounded_half_up() * unit() - unit() <= 2 * x.value(),
        2 * x.value() < 2 * x.rounded_half_up() * unit() + unit(),
{
    lemma_pow2_pos(UNIT_DIGITS as nat);
    let u = unit();
    let v = x.value();
    let q = x.whole();
    let r = x.rest();
    vstd::arithmetic::div_mod::lemma_fundamental_div_mod(v, u);
    vstd::arithmetic::div_mod::lemma_mod_bound(v, u);
    assert(v == u * q + r);
    assert(q < 0xffff_ffff_ffff_ffff && q >= 0) by (nonlinear_arith)
        requires
            v < 0xffff_ffff_ffff_ffff * u,
            v >= 0,
            v == u * q + r,
            0 <= r < u,
    ;
    assert(u * q == q * u && (q + 1) * u == q * u + u && (q - 1) * u == q * u - u) by (
    nonlinear_arith);
    assert(2 * (q + 1) * u == 2 * (q * u) + 2 * u && 2 * q * u == 2 * (q * u)) by (
    nonlinear_arith);
}

/// The sum of two whole numbers.
pub proof fn lemma_whole_sum(a: nat, b: nat)
    requires
        a + b < EXACT,
    ensures
        Binary64::of_whole(a).sum(Binary64::of_whole(b)) == Binary64::of_whole(a + b),
{
    lemma_whole(a);
    lemma_whole(b);
    lemma_whole(a + b);
    assert(a * unit() + b * unit() == (a + b) * unit()) by (nonlinear_arith);
}

/// The difference of two whole numbers: where more is taken than there is, it is the
/// opposite of what is missing.
pub proof fn lemma_whole_difference(a: nat, b: nat)
    requires
        a < EXACT,
        b < EXACT,
    ensures
        a >= b ==> Binary64::of_whole(a).difference(Binary64::of_whole(b)) == Binary64::of_whole(
            (a - b) as nat,
        ),
        a < b ==> Binary64::of_whole(a).difference(Binary64::of_whole(b)) == Binary64::of_whole(
            (b - a) as nat,
        ).opposite(),
{
    let x = Binary64::of_whole(a);
    let y = Binary64::of_whole(b);
    lemma_whole(a);
    lemma_whole(b);
    super::lemma_opposite(y);
    if a >= b {
        assert(a * unit() - b * unit() == (a - b) * unit()) by (nonlinear_arith);
        lemma_whole((a - b) as nat);
    } else {
        let d = (b - a) as nat;
        lemma_whole(d);
        assert(a * unit() - b * unit() == -(d * unit())) by (nonlinear_arith)
            requires
                d == b - a,
        ;
        rounding::lemma_nearest_exists((d * unit()) as nat, 1);
        assert(d * pow2(UNIT_DIGITS as nat) == d * unit());
        assert(x.difference(y) == arithmetic::rounded(true, (d * unit()) as nat, 1));
    }
}

/// Starting from negative zero, adding a whole number gives that number.
pub proof fn lemma_whole_from_nothing(a: nat)
    requires
        a < EXACT,
    ensures
        (Binary64 { bits: super::SIGN }).sum(Binary64::of_whole(a)) == Binary64::of_whole(a),
{
    lemma_whole(a);
    let none = Binary64 { bits: super::SIGN };
    assert(none.pattern() == 0);
    assert(none.value() == 0);
}

/// The product of two whole numbers.
pub proof fn lemma_whole_product(a: nat, b: nat)
    requires
        a < EXACT,
        b < EXACT,
        a * b < EXACT,
    ensures
        Binary64::of_whole(a).product(Binary64::of_whole(b)) == Binary64::of_whole(a * b),
{
    lemma_whole(a);
    lemma_whole(b);
    lemma_whole(a * b);
    let r = Binary64::of_whole(a * b);
    let d = pow2(UNIT_DIGITS as nat);
    rounding::lemma_nearest_exact(r.pattern(), d);
    assert((a * d) * (b * d) == ((a * b) * d) * d) by (nonlinear_arith);
    super::lemma_sign_and_pattern(r);
}

/// The quotient of two whole numbers, where it is one.
pub proof fn lemma_whole_quotient(q: nat, b: nat)
    requires
        q < EXACT,
        0 < b < EXACT,
        q * b < EXACT,
    ensures
        Binary64::of_whole(q * b).quotient(Binary64::of_whole(b)) == Binary64::of_whole(q),
{
    lemma_whole(q);
    lemma_whole(b);
    lemma_whole(q * b);
    let r = Binary64::of_whole(q);
    let y = Binary64::of_whole(b);
    let d = pow2(UNIT_DIGITS as nat);
    laws::lemma_units_of_finite(y);
    rounding::lemma_nearest_exact(r.pattern(), y.units());
    assert(((q * b) * d) * d == (q * d) * (b * d)) by (nonlinear_arith);
    super::lemma_sign_and_pattern(r);
}

/// Some number has this value.
pub open spec fn representable(value: int) -> bool {
    exists|z: Binary64| z.finite() && #[trigger] z.value() == value
}

/// A sum is not rounded where a number has its value.
pub proof fn lemma_exact_sum(a: Binary64, b: Binary64)
    requires
        a.finite(),
        b.finite(),
        representable(a.value() + b.value()),
    ensures
        a.sum(b).finite(),
        a.sum(b).value() == a.value() + b.value(),
{
    let z = choose|z: Binary64| z.finite() && #[trigger] z.value() == a.value() + b.value();
    rounding::lemma_nearest_exact(z.pattern(), 1);
    laws::lemma_units_of_finite(z);
}

/// A product is not rounded where a number has its value.
pub proof fn lemma_exact_product(a: Binary64, b: Binary64, value: int)
    requires
        a.finite(),
        b.finite(),
        representable(value),
        value * unit() == a.value() * b.value(),
    ensures
        a.product(b).finite(),
        a.product(b).value() == value,
{
    let z = choose|z: Binary64| z.finite() && #[trigger] z.value() == value;
    let d = pow2(UNIT_DIGITS as nat);
    lemma_pow2_pos(UNIT_DIGITS as nat);
    laws::lemma_units_of_finite(z);
    let (u, v, w) = (a.units() as int, b.units() as int, z.units() as int);
    let same = a.negative() == b.negative();
    assert(w * d == u * v && (w > 0 ==> same == !z.negative())) by (nonlinear_arith)
        requires
            u >= 0,
            v >= 0,
            w >= 0,
            d > 0,
            (if z.negative() {
                -w
            } else {
                w
            }) * d == (if a.negative() {
                -u
            } else {
                u
            }) * (if b.negative() {
                -v
            } else {
                v
            }),
            same == (a.negative() == b.negative()),
    ;
    rounding::lemma_nearest_exact(z.pattern(), d);
}

/// A quotient is not rounded where a number has its value.
pub proof fn lemma_exact_quotient(a: Binary64, b: Binary64, value: int)
    requires
        a.finite(),
        b.finite(),
        b.value() != 0,
        representable(value),
        value * b.value() == a.value() * unit(),
    ensures
        a.quotient(b).finite(),
        a.quotient(b).value() == value,
{
    let z = choose|z: Binary64| z.finite() && #[trigger] z.value() == value;
    let d = pow2(UNIT_DIGITS as nat);
    lemma_pow2_pos(UNIT_DIGITS as nat);
    laws::lemma_units_of_finite(z);
    laws::lemma_units_of_finite(b);
    let (u, v, w) = (a.units() as int, b.units() as int, z.units() as int);
    let same = a.negative() == b.negative();
    assert(w * v == u * d && (w > 0 ==> same == !z.negative())) by (nonlinear_arith)
        requires
            u >= 0,
            v > 0,
            w >= 0,
            d > 0,
            (if z.negative() {
                -w
            } else {
                w
            }) * (if b.negative() {
                -v
            } else {
                v
            }) == (if a.negative() {
                -u
            } else {
                u
            }) * d,
            same == (a.negative() == b.negative()),
    ;
    rounding::lemma_nearest_exact(z.pattern(), b.units());
}

/// How far two numbers are apart.
pub open spec fn apart(a: int, b: int) -> int {
    if a < b {
        b - a
    } else {
        a - b
    }
}

/// No pattern is nearer to a quotient than the nearest one.
pub proof fn lemma_none_nearer(n: nat, d: nat, z: int)
    requires
        d > 0,
        0 <= z < rounding::INFINITY,
        rounding::nearest(n, d) < rounding::INFINITY,
    ensures
        apart(rounding::magnitude(rounding::nearest(n, d)) as int * d, n as int) <= apart(
            rounding::magnitude(z) as int * d,
            n as int,
        ),
{
    rounding::lemma_nearest_exists(n, d);
    let r = rounding::nearest(n, d);
    let m = rounding::magnitude(r) as int;
    let o = rounding::magnitude(z) as int;
    if r < z {
        rounding::lemma_magnitude_increases(r, z);
        if r + 1 < z {
            rounding::lemma_magnitude_increases(r + 1, z);
        }
        let next = rounding::magnitude(r + 1) as int;
        assert((m + next) * d <= m * d + o * d && m * d <= o * d) by (nonlinear_arith)
            requires
                next <= o,
                m <= o,
                d > 0,
        ;
    } else if z < r {
        rounding::lemma_magnitude_increases(z, r);
        if z < r - 1 {
            rounding::lemma_magnitude_increases(z, r - 1);
        }
        let prev = rounding::magnitude(r - 1) as int;
        assert(o * d + m * d <= (prev + m) * d && o * d <= m * d) by (nonlinear_arith)
            requires
                o <= prev,
                o <= m,
                d > 0,
        ;
    }
}

/// No number is nearer to the exact sum of two numbers than their sum.
pub proof fn lemma_sum_is_nearest(a: Binary64, b: Binary64, z: Binary64)
    requires
        a.finite(),
        b.finite(),
        z.finite(),
        a.sum(b).finite(),
    ensures
        apart(a.sum(b).value(), a.value() + b.value()) <= apart(
            z.value(),
            a.value() + b.value(),
        ),
{
    let exact = a.value() + b.value();
    let n = arithmetic::absolute_of(exact);
    rounding::lemma_nearest_exists(n, 1);
    lemma_none_nearer(n, 1, z.pattern());
    lemma_none_nearer(n, 1, 0);
}

/// No number is nearer to the exact product of two numbers than their product.
pub proof fn lemma_product_is_nearest(a: Binary64, b: Binary64, z: Binary64)
    requires
        a.finite(),
        b.finite(),
        z.finite(),
        a.product(b).finite(),
    ensures
        apart(a.product(b).value() * unit(), a.value() * b.value()) <= apart(
            z.value() * unit(),
            a.value() * b.value(),
        ),
{
    let n = a.units() * b.units();
    let d = pow2(UNIT_DIGITS as nat);
    lemma_pow2_pos(UNIT_DIGITS as nat);
    rounding::lemma_nearest_exists(n, d);
    lemma_none_nearer(n, d, z.pattern());
    lemma_none_nearer(n, d, 0);
    let r = a.product(b);
    let (x, y) = (a.value(), b.value());
    let (u, v) = (a.units() as int, b.units() as int);
    let (p, q) = (r.units() as int, z.units() as int);
    let e = unit();
    assert(x * y == if a.negative() != b.negative() {
        -(u * v)
    } else {
        u * v
    }) by (nonlinear_arith)
        requires
            x == if a.negative() {
                -u
            } else {
                u
            },
            y == if b.negative() {
                -v
            } else {
                v
            },
    ;
    assert((-p) * e == -(p * e) && (-q) * e == -(q * e)) by (nonlinear_arith);
    assert(p * e >= 0 && q * e >= 0 && u * v >= 0) by (nonlinear_arith)
        requires
            p >= 0,
            q >= 0,
            u >= 0,
            v >= 0,
            e > 0,
    ;
}

/// No number is nearer to the exact quotient of two numbers than their quotient.
pub proof fn lemma_quotient_is_nearest(a: Binary64, b: Binary64, z: Binary64)
    requires
        a.finite(),
        b.finite(),
        b.value() != 0,
        z.finite(),
        a.quotient(b).finite(),
    ensures
        apart(a.quotient(b).value() * b.value(), a.value() * unit()) <= apart(
            z.value() * b.value(),
            a.value() * unit(),
        ),
{
    let d = b.units();
    lemma_pow2_pos(UNIT_DIGITS as nat);
    let n = a.units() * pow2(UNIT_DIGITS as nat);
    laws::lemma_units_of_finite(b);
    rounding::lemma_nearest_exists(n, d);
    lemma_none_nearer(n, d, z.pattern());
    lemma_none_nearer(n, d, 0);
    let r = a.quotient(b);
    let (u, v) = (a.units() as int, b.units() as int);
    let (p, q) = (r.units() as int, z.units() as int);
    let e = unit();
    assert(u * e >= 0 && p * v >= 0 && q * v >= 0) by (nonlinear_arith)
        requires
            p >= 0,
            q >= 0,
            u >= 0,
            v >= 0,
            e > 0,
    ;
    assert((-p) * v == -(p * v) && p * (-v) == -(p * v) && (-p) * (-v) == p * v) by (
    nonlinear_arith);
    assert((-q) * v == -(q * v) && q * (-v) == -(q * v) && (-q) * (-v) == q * v) by (
    nonlinear_arith);
    assert((-u) * e == -(u * e)) by (nonlinear_arith);
}

/// A magnitude of nearest patterns follows the order of what they are nearest to.
proof fn lemma_magnitude_is_ordered(m: nat, n: nat, d: nat)
    requires
        d > 0,
        m <= n,
    ensures
        rounding::magnitude(rounding::nearest(m, d)) <= rounding::magnitude(
            rounding::nearest(n, d),
        ),
{
    rounding::lemma_nearest_exists(m, d);
    rounding::lemma_nearest_exists(n, d);
    rounding::lemma_nearest_is_ordered(m, n, d);
    let a = rounding::nearest(m, d);
    let b = rounding::nearest(n, d);
    if a < b {
        rounding::lemma_magnitude_increases(a, b);
    }
}

/// Adding more gives no less.
pub proof fn lemma_sum_is_ordered(a: Binary64, low: Binary64, high: Binary64)
    requires
        a.finite(),
        low.finite(),
        high.finite(),
        low.value() <= high.value(),
    ensures
        a.sum(low).value() <= a.sum(high).value(),
{
    let x = a.value() + low.value();
    let y = a.value() + high.value();
    rounding::lemma_nearest_exists(arithmetic::absolute_of(x), 1);
    rounding::lemma_nearest_exists(arithmetic::absolute_of(y), 1);
    rounding::lemma_nearest_at_most(0, 1, 0);
    if x >= 0 {
        lemma_magnitude_is_ordered(x as nat, y as nat, 1);
    } else if y <= 0 {
        lemma_magnitude_is_ordered((-y) as nat, (-x) as nat, 1);
    }
}

/// Multiplying what is not negative by more gives no less.
pub proof fn lemma_product_follows_order(a: Binary64, low: Binary64, high: Binary64)
    requires
        a.finite(),
        !a.negative(),
        low.finite(),
        high.finite(),
        low.value() <= high.value(),
    ensures
        a.product(low).value() <= a.product(high).value(),
{
    let d = pow2(UNIT_DIGITS as nat);
    lemma_pow2_pos(UNIT_DIGITS as nat);
    let m = a.units() * low.units();
    let n = a.units() * high.units();
    rounding::lemma_nearest_exists(m, d);
    rounding::lemma_nearest_exists(n, d);
    if !low.negative() && !high.negative() {
        assert(m <= n) by (nonlinear_arith)
            requires
                m == a.units() * low.units(),
                n == a.units() * high.units(),
                low.units() <= high.units(),
        ;
        lemma_magnitude_is_ordered(m, n, d);
    } else if low.negative() && high.negative() {
        assert(n <= m) by (nonlinear_arith)
            requires
                m == a.units() * low.units(),
                n == a.units() * high.units(),
                high.units() <= low.units(),
        ;
        lemma_magnitude_is_ordered(n, m, d);
    } else if high.negative() {
        assert(m == 0 && n == 0) by (nonlinear_arith)
            requires
                m == a.units() * low.units(),
                n == a.units() * high.units(),
                low.units() == 0,
                high.units() == 0,
        ;
        rounding::lemma_nearest_at_most(0, d, 0);
    }
}

/// The lesser of two numbers is one of them and no more than either, and the greater one
/// of them and no less; where one is not a number, both are the other.
pub proof fn lemma_lesser_and_greater(a: Binary64, b: Binary64)
    ensures
        a.nan() ==> a.lesser(b) == b && a.greater(b) == b,
        !a.nan() && b.nan() ==> a.lesser(b) == a && a.greater(b) == a,
        !a.nan() && !b.nan() ==> {
            &&& a.lesser(b) == a || a.lesser(b) == b
            &&& a.greater(b) == a || a.greater(b) == b
            &&& a.lesser(b).value() <= a.value() <= a.greater(b).value()
            &&& a.lesser(b).value() <= b.value() <= a.greater(b).value()
        },
{
}

/// The magnitude of a number is its value without the sign.
pub proof fn lemma_absolute(a: Binary64)
    ensures
        !a.absolute().negative(),
        a.value() >= 0 ==> a.absolute().value() == a.value(),
        a.value() <= 0 ==> a.absolute().value() == -a.value(),
{
}

/// What comes of the numbers that are infinite, and of zero: no number, where nothing can
/// be said; and otherwise the sign is that of the sum, or the product of the signs.
pub proof fn lemma_special_numbers(a: Binary64, b: Binary64)
    ensures
        a.nan() || b.nan() ==> a.sum(b).nan() && a.product(b).nan() && a.quotient(b).nan(),
        a.infinite() && b.infinite() && a.negative() != b.negative() ==> a.sum(b).nan(),
        a.infinite() && (b.finite() || b == a) ==> a.sum(b) == a && b.sum(a) == a,
        a.infinite() && b.zero() ==> a.product(b).nan() && b.product(a).nan(),
        a.infinite() && !b.nan() && !b.zero() ==> a.product(b).infinite() && b.product(
            a,
        ).infinite(),
        a.infinite() && b.infinite() ==> a.quotient(b).nan(),
        a.infinite() && b.finite() ==> a.quotient(b).infinite(),
        a.finite() && b.infinite() ==> a.quotient(b).zero(),
        a.zero() && b.zero() ==> a.quotient(b).nan(),
        a.finite() && !a.zero() && b.zero() ==> a.quotient(b).infinite(),
        !a.product(b).nan() ==> (a.product(b).negative() <==> a.negative() != b.negative()),
        !a.quotient(b).nan() ==> (a.quotient(b).negative() <==> a.negative() != b.negative()),
        a.finite() && b.finite() && a.value() + b.value() == 0 ==> a.sum(b).zero() && (a.sum(
            b,
        ).negative() <==> a.negative() && b.negative()),
        a.finite() && b.finite() && a.value() + b.value() < 0 ==> a.sum(b).negative(),
        a.finite() && b.finite() && a.value() + b.value() > 0 ==> !a.sum(b).negative(),
{
    let d = pow2(UNIT_DIGITS as nat);
    lemma_pow2_pos(UNIT_DIGITS as nat);
    rounding::lemma_nearest_exists(a.units() * b.units(), d);
    if a.finite() && b.finite() {
        rounding::lemma_nearest_exists(arithmetic::absolute_of(a.value() + b.value()), 1);
        rounding::lemma_nearest_at_most(0, 1, 0);
        if !b.zero() {
            laws::lemma_units_of_finite(b);
            rounding::lemma_nearest_exists((a.units() * d) as nat, b.units());
        }
    }
}

/// Half way between two neighbours it is the one with an even pattern that is taken.
pub proof fn lemma_ties_go_to_even(n: nat, d: nat, pattern: int)
    requires
        d > 0,
        0 <= pattern < rounding::INFINITY,
        2 * n == (rounding::magnitude(pattern) + rounding::magnitude(pattern + 1)) * d,
    ensures
        rounding::nearest(n, d) == if pattern % 2 == 0 {
            pattern
        } else {
            pattern + 1
        },
{
    let (a, b) = (rounding::magnitude(pattern), rounding::magnitude(pattern + 1));
    rounding::lemma_magnitude_increases(pattern, pattern + 1);
    rounding::lemma_nearest_exists(n, d);
    let r = rounding::nearest(n, d);
    assert(a * d <= n && n <= b * d) by (nonlinear_arith)
        requires
            2 * n == (a + b) * d,
            a <= b,
            d > 0,
    ;
    rounding::lemma_nearest_at_least(n, d, pattern);
    rounding::lemma_nearest_at_most(n, d, pattern + 1);
}

/// As a 64-bit whole number what is negative, and what is not a number, becomes zero, and
/// what is too large the largest there is.
pub proof fn lemma_out_of_range(x: Binary64)
    ensures
        x.nan() || x.negative() ==> x.truncated() == 0 && x.rounded_up() == 0
            && x.rounded_half_up() == 0,
        !x.nan() && x.value() >= 0x1_0000_0000_0000_0000 * unit() ==> x.truncated() == u64::MAX
            && x.rounded_up() == u64::MAX && x.rounded_half_up() == u64::MAX,
{
    lemma_pow2_pos(UNIT_DIGITS as nat);
    let u = unit();
    let m = x.units() as int;
    if !x.nan() && x.value() >= 0x1_0000_0000_0000_0000 * u {
        assert(0x1_0000_0000_0000_0000 * u > 0) by (nonlinear_arith)
            requires
                u > 0,
        ;
        vstd::arithmetic::div_mod::lemma_fundamental_div_mod(m, u);
        vstd::arithmetic::div_mod::lemma_mod_bound(m, u);
        let q = x.whole();
        assert(q >= 0x1_0000_0000_0000_0000) by (nonlinear_arith)
            requires
                m >= 0x1_0000_0000_0000_0000 * u,
                m == u * q + m % u,
                m % u < u,
                u > 0,
        ;
    }
}

} // verus!
