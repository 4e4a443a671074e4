//! What it means for a bit pattern to be the correctly rounded form of an
//! exact rational number.
//!
//! The sign aside, the patterns `0 ..= INFINITY` of a binary64 number are in
//! the order of the numbers that they stand for, so the neighbours of a number
//! are the neighbours of its pattern. All magnitudes are counted in units of
//! the smallest positive number, two to the power of -1074; in that unit each of
//! them is a whole number.

use vstd::prelude::*;
use vstd::arithmetic::power2::*;

verus! {

/// Two to the power of 52: the number of patterns with one exponent.
pub const BINADE: u64 = 0x10_0000_0000_0000;

/// The pattern of infinity without its sign.
pub const INFINITY: u64 = 0x7ff0_0000_0000_0000;

/// The magnitude of an unsigned pattern, in units of the smallest positive
/// number. Infinity is given the magnitude that follows the largest finite one,
/// which is where rounding has to turn to infinity.
pub open spec fn magnitude(pattern: int) -> nat {
    if pattern < BINADE {
        pattern as nat
    } else {
        ((BINADE + pattern % (BINADE as int)) * pow2((pattern / (BINADE as int) - 1) as nat)) as nat
    }
}

/// The pattern is the nearest one to `n / d` units: the quotient lies between
/// the midpoints to either side, and on a midpoint the even pattern is taken.
pub open spec fn is_nearest(pattern: int, n: nat, d: nat) -> bool {
    &&& 0 <= pattern <= INFINITY
    &&& pattern > 0 ==> {
        let midpoint = (magnitude(pattern - 1) + magnitude(pattern)) * d;
        midpoint <= 2 * n && (midpoint == 2 * n ==> pattern % 2 == 0)
    }
    &&& pattern < INFINITY ==> {
        let midpoint = (magnitude(pattern) + magnitude(pattern + 1)) * d;
        2 * n <= midpoint && (midpoint == 2 * n ==> pattern % 2 == 0)
    }
}

/// The pattern nearest to `n / d` units.
pub open spec fn nearest(n: nat, d: nat) -> int {
    choose|pattern: int| is_nearest(pattern, n, d)
}

/// A significand `q` with the exponent `g`, written as a pattern, has the
/// magnitude `q` times two to the `g`.
pub proof fn lemma_magnitude_parts(g: nat, q: nat)
    requires
        q <= 2 * BINADE,
        g == 0 || q >= BINADE,
    ensures
        magnitude(g * BINADE + q) == q * pow2(g),
{
    let pattern = g * BINADE + q;
    lemma_pow2_pos(g);
    if q < BINADE {
        assert(g == 0);
        lemma2_to64();
        assert(pattern == q);
        assert(pow2(g) == 1);
        assert(q * 1 == q) by (nonlinear_arith);
    } else if q < 2 * BINADE {
        assert(pattern / (BINADE as int) == g + 1);
        assert(pattern % (BINADE as int) == q - BINADE);
    } else {
        assert(pattern / (BINADE as int) == g + 2);
        assert(pattern % (BINADE as int) == 0);
        lemma_pow2_unfold((g + 1) as nat);
        assert(BINADE * (2 * pow2(g)) == (2 * BINADE) * pow2(g)) by (nonlinear_arith);
    }
}

/// Every pattern has a larger magnitude than the one before it.
pub proof fn lemma_magnitude_step(pattern: int)
    requires
        pattern >= 0,
    ensures
        magnitude(pattern) < magnitude(pattern + 1),
{
    let (g, q): (nat, nat) = if pattern < 2 * BINADE {
        (0, pattern as nat)
    } else {
        (
            (pattern / (BINADE as int) - 1) as nat,
            (BINADE + pattern % (BINADE as int)) as nat,
        )
    };
    assert(g * BINADE + q == pattern);
    lemma_magnitude_parts(g, q);
    lemma_magnitude_parts(g, q + 1);
    lemma_pow2_pos(g);
    assert(q * pow2(g) < (q + 1) * pow2(g)) by (nonlinear_arith)
        requires
            pow2(g) > 0,
    ;
}

/// Magnitudes keep the order of the patterns.
pub proof fn lemma_magnitude_increases(a: int, b: int)
    requires
        0 <= a < b,
    ensures
        magnitude(a) < magnitude(b),
    decreases b - a,
{
    lemma_magnitude_step(b - 1);
    if a < b - 1 {
        lemma_magnitude_increases(a, b - 1);
    }
}

/// Two patterns cannot both be nearest to one quotient.
pub proof fn lemma_nearest_unique(a: int, b: int, n: nat, d: nat)
    requires
        d > 0,
        is_nearest(a, n, d),
        is_nearest(b, n, d),
    ensures
        a == b,
{
    if a != b {
        let (lo, hi) = if a < b { (a, b) } else { (b, a) };
        lemma_magnitude_step(lo);
        lemma_magnitude_step(hi - 1);
        if lo + 1 < hi {
            lemma_magnitude_increases(lo, hi - 1);
            lemma_magnitude_increases(lo + 1, hi);
        }
        let below = (magnitude(lo) + magnitude(lo + 1)) as int;
        let above = (magnitude(hi - 1) + magnitude(hi)) as int;
        assert(below * d <= above * d) by (nonlinear_arith)
            requires
                below <= above,
                d > 0,
        ;
        assert(below == above) by (nonlinear_arith)
            requires
                below <= above,
                below * d == above * d,
                d > 0,
        ;
        assert(lo + 1 == hi);
        assert(false);
    }
}

/// The last pattern, not above `from`, whose magnitude does not exceed the
/// quotient.
proof fn lemma_floor_exists(from: int, n: nat, d: nat) -> (pattern: int)
    requires
        0 <= from <= INFINITY,
        from < INFINITY ==> n < magnitude(from + 1) * d,
    ensures
        0 <= pattern <= from,
        magnitude(pattern) * d <= n,
        pattern < INFINITY ==> n < magnitude(pattern + 1) * d,
    decreases from,
{
    if magnitude(from) * d <= n {
        from
    } else {
        assert(0 * d == 0) by (nonlinear_arith);
        lemma_floor_exists(from - 1, n, d)
    }
}

/// Every quotient has a nearest pattern.
pub proof fn lemma_nearest_exists(n: nat, d: nat)
    requires
        d > 0,
    ensures
        is_nearest(nearest(n, d), n, d),
{
    let p = lemma_floor_exists(INFINITY as int, n, d);
    let m = magnitude(p);
    if p > 0 {
        let before = magnitude(p - 1);
        lemma_magnitude_step(p - 1);
        assert((before + m) * d < 2 * n) by (nonlinear_arith)
            requires
                before < m,
                m * d <= n,
                d > 0,
        ;
    }
    if p == INFINITY {
        assert(is_nearest(p, n, d));
    } else {
        let next = magnitude(p + 1);
        lemma_magnitude_step(p);
        lemma_magnitude_step(p + 1);
        let after = magnitude(p + 2);
        assert(2 * n < (next + after) * d) by (nonlinear_arith)
            requires
                next < after,
                n < next * d,
                d > 0,
        ;
        let midpoint = (m + next) * d;
        if 2 * n < midpoint || (2 * n == midpoint && p % 2 == 0) {
            assert(is_nearest(p, n, d));
        } else {
            assert(is_nearest(p + 1, n, d));
        }
    }
}

/// Rounding never crosses a number: a quotient that is at most the magnitude
/// of a pattern is rounded to that pattern or a lower one.
pub proof fn lemma_nearest_at_most(n: nat, d: nat, bound: int)
    requires
        d > 0,
        0 <= bound <= INFINITY,
        n <= magnitude(bound) * d,
    ensures
        nearest(n, d) <= bound,
{
    lemma_nearest_exists(n, d);
    let r = nearest(n, d);
    if r > bound {
        lemma_magnitude_increases(bound, r);
        if r - 1 > bound {
            lemma_magnitude_increases(bound, r - 1);
        }
        let low = magnitude(r - 1);
        let high = magnitude(r);
        let m = magnitude(bound);
        assert(2 * n < (low + high) * d) by (nonlinear_arith)
            requires
                m <= low,
                m < high,
                n <= m * d,
                d > 0,
        ;
    }
}

/// A quotient that is at least the magnitude of a pattern is rounded to that pattern
/// or a higher one.
pub proof fn lemma_nearest_at_least(n: nat, d: nat, bound: int)
    requires
        d > 0,
        0 <= bound <= INFINITY,
        magnitude(bound) * d <= n,
    ensures
        nearest(n, d) >= bound,
{
    lemma_nearest_exists(n, d);
    let r = nearest(n, d);
    if r < bound {
        lemma_magnitude_increases(r, bound);
        if r + 1 < bound {
            lemma_magnitude_increases(r + 1, bound);
        }
        let low = magnitude(r);
        let high = magnitude(r + 1);
        let m = magnitude(bound);
        assert((low + high) * d < 2 * n) by (nonlinear_arith)
            requires
                low < m,
                high <= m,
                m * d <= n,
                d > 0,
        ;
    }
}

/// Rounding keeps the order: a larger quotient is not rounded to a lower pattern.
pub proof fn lemma_nearest_is_ordered(low: nat, high: nat, d: nat)
    requires
        d > 0,
        low <= high,
    ensures
        nearest(low, d) <= nearest(high, d),
{
    lemma_nearest_exists(low, d);
    lemma_nearest_exists(high, d);
    let a = nearest(low, d);
    let b = nearest(high, d);
    if a > b {
        if b + 1 < a {
            lemma_magnitude_increases(b, a - 1);
            lemma_magnitude_increases(b + 1, a);
        }
        let below = magnitude(b) + magnitude(b + 1);
        let above = magnitude(a - 1) + magnitude(a);
        assert(below * d <= above * d) by (nonlinear_arith)
            requires
                below <= above,
        ;
        assert(low == high);
        lemma_nearest_unique(a, b, low, d);
    }
}

/// From one magnitude to the next it is one unit, or at most as much as the
/// magnitude over two to the power of 52.
proof fn lemma_magnitude_gap(pattern: int)
    requires
        pattern >= 0,
    ensures
        magnitude(pattern + 1) - magnitude(pattern) == 1 || (magnitude(pattern + 1) - magnitude(
            pattern,
        )) * BINADE <= magnitude(pattern),
{
    let (g, q): (nat, nat) = if pattern < 2 * BINADE {
        (0, pattern as nat)
    } else {
        (
            (pattern / (BINADE as int) - 1) as nat,
            (BINADE + pattern % (BINADE as int)) as nat,
        )
    };
    assert(g * BINADE + q == pattern);
    lemma_magnitude_parts(g, q);
    lemma_magnitude_parts(g, q + 1);
    lemma_pow2_pos(g);
    let step = pow2(g) as int;
    assert((q + 1) * step - q * step == step) by (nonlinear_arith);
    if g == 0 {
        lemma2_to64();
    } else {
        assert(step * BINADE <= q * step) by (nonlinear_arith)
            requires
                step > 0,
                q >= BINADE,
        ;
    }
}

/// Rounding a quotient of at least two to the power of 52 units to a finite number
/// changes it by at most one part in two to the power of 53.
pub proof fn lemma_nearest_of_quotient(n: nat, d: nat)
    requires
        d > 0,
        d * BINADE <= n,
    ensures
        ({
            let r = nearest(n, d);
            r < INFINITY ==> {
                &&& (magnitude(r) * d - n) * (2 * BINADE) <= n
                &&& (n - magnitude(r) * d) * (2 * BINADE) <= n
            }
        }),
{
    lemma_nearest_exists(n, d);
    let r = nearest(n, d);
    let m = magnitude(r) as int;
    if r < INFINITY {
        lemma_magnitude_gap(r);
        lemma_magnitude_step(r);
        let gap = magnitude(r + 1) - m;
        if m * d < n {
            assert(2 * n <= (m + (m + gap)) * d);
            assert((n - m * d) * (2 * BINADE) <= n) by (nonlinear_arith)
                requires
                    2 * n <= (m + (m + gap)) * d,
                    gap == 1 || gap * BINADE <= m,
                    m * d < n,
                    d * BINADE <= n,
                    d > 0,
                    BINADE == 0x10_0000_0000_0000,
            ;
        } else if r > 0 {
            lemma_magnitude_gap(r - 1);
            lemma_magnitude_step(r - 1);
            let low = magnitude(r - 1) as int;
            let step = m - low;
            assert((low + m) * d <= 2 * n);
            assert(low * d <= n) by (nonlinear_arith)
                requires
                    (low + m) * d <= 2 * n,
                    low < m,
                    d > 0,
            ;
            assert((m * d - n) * (2 * BINADE) <= n) by (nonlinear_arith)
                requires
                    (low + m) * d <= 2 * n,
                    step == m - low,
                    step == 1 || step * BINADE <= low,
                    low * d <= n,
                    d * BINADE <= n,
                    d > 0,
                    BINADE == 0x10_0000_0000_0000,
            ;
        } else {
            assert(m == 0);
            assert(0 * d == 0) by (nonlinear_arith);
        }
        if m * d >= n {
            assert((n - m * d) * (2 * BINADE) <= n) by (nonlinear_arith)
                requires
                    m * d >= n,
                    BINADE == 0x10_0000_0000_0000,
            ;
        } else {
            assert((m * d - n) * (2 * BINADE) <= n) by (nonlinear_arith)
                requires
                    m * d < n,
                    BINADE == 0x10_0000_0000_0000,
            ;
        }
    }
}

/// Rounding a whole number of units to a finite number changes it by at most one
/// part in two to the power of 53.
pub proof fn lemma_nearest_error(n: nat)
    ensures
        ({
            let r = nearest(n, 1);
            r < INFINITY ==> {
                &&& (magnitude(r) - n) * (2 * BINADE) <= n
                &&& (n - magnitude(r)) * (2 * BINADE) <= n
            }
        }),
{
    lemma_nearest_exists(n, 1);
    let r = nearest(n, 1);
    let m = magnitude(r) as int;
    if r < INFINITY {
        lemma_magnitude_gap(r);
        lemma_magnitude_step(r);
        let gap = magnitude(r + 1) - m;
        if m < n {
            assert(2 * (n - m) <= gap);
            assert((n - m) * (2 * BINADE) <= n) by (nonlinear_arith)
                requires
                    2 * (n - m) <= gap,
                    gap == 1 || gap * BINADE <= m,
                    0 <= m < n,
                    BINADE == 0x10_0000_0000_0000,
            ;
        } else if m > n {
            lemma_magnitude_gap(r - 1);
            lemma_magnitude_step(r - 1);
            let low = magnitude(r - 1) as int;
            let before = m - low;
            assert((m - n) * (2 * BINADE) <= n) by (nonlinear_arith)
                requires
                    low + m <= 2 * n,
                    before == m - low,
                    before == 1 || before * BINADE <= low,
                    0 <= low < m,
                    m > n,
                    BINADE == 0x10_0000_0000_0000,
            ;
        }
    }
}

/// A number is rounded to itself.
pub proof fn lemma_nearest_exact(pattern: int, d: nat)
    requires
        d > 0,
        0 <= pattern <= INFINITY,
    ensures
        is_nearest(pattern, magnitude(pattern) * d, d),
        nearest(magnitude(pattern) * d, d) == pattern,
{
    let m = magnitude(pattern);
    if pattern > 0 {
        lemma_magnitude_step(pattern - 1);
        let low = magnitude(pattern - 1);
        assert((low + m) * d < 2 * (m * d)) by (nonlinear_arith)
            requires
                low < m,
                d > 0,
        ;
    }
    lemma_magnitude_step(pattern);
    let high = magnitude(pattern + 1);
    assert(2 * (m * d) < (m + high) * d) by (nonlinear_arith)
        requires
            m < high,
            d > 0,
    ;
    lemma_nearest_is(pattern, m * d, d);
}

/// Anything that is nearest to a quotient is what `nearest` names.
pub proof fn lemma_nearest_is(pattern: int, n: nat, d: nat)
    requires
        d > 0,
        is_nearest(pattern, n, d),
    ensures
        nearest(n, d) == pattern,
{
    lemma_nearest_unique(nearest(n, d), pattern, n, d);
}

/// A quotient between `q` and `q + 1` steps of two to the `g`, rounded up or
/// down as the midpoint of the two says, gives the nearest pattern.
proof fn lemma_nearest_of_step(q: nat, g: nat, n: nat, d: nat, up: bool)
    requires
        d > 0,
        q < 2 * BINADE,
        g == 0 || q >= BINADE,
        q * (pow2(g) * d) <= n < (q + 1) * (pow2(g) * d),
        up ==> 2 * n > (2 * q + 1) * (pow2(g) * d) || (2 * n == (2 * q + 1) * (pow2(g) * d) && q % 2
            == 1),
        !up ==> 2 * n < (2 * q + 1) * (pow2(g) * d) || (2 * n == (2 * q + 1) * (pow2(g) * d) && q
            % 2 == 0),
    ensures
        ({
            let pattern = g * BINADE + q + if up { 1int } else { 0int };
            is_nearest(if pattern < INFINITY { pattern } else { INFINITY as int }, n, d)
        }),
{
    let lower = g * BINADE + q;
    let step = pow2(g);
    lemma_pow2_pos(g);
    lemma_magnitude_parts(g, q);
    lemma_magnitude_parts(g, q + 1);
    let m0 = magnitude(lower);
    let m1 = magnitude(lower + 1);
    assert(m0 * d == q * (step * d)) by (nonlinear_arith)
        requires
            m0 == q * step,
    ;
    assert(m1 * d == (q + 1) * (step * d)) by (nonlinear_arith)
        requires
            m1 == (q + 1) * step,
    ;
    assert((m0 + m1) * d == (2 * q + 1) * (step * d)) by (nonlinear_arith)
        requires
            m0 == q * step,
            m1 == (q + 1) * step,
    ;
    assert(lower % 2 == q % 2) by (nonlinear_arith)
        requires
            lower == g * BINADE + q,
            BINADE == 0x10_0000_0000_0000,
    ;
    if lower >= INFINITY {
        if lower > INFINITY {
            lemma_magnitude_increases(INFINITY as int, lower);
        }
        let last = magnitude(INFINITY - 1);
        let top = magnitude(INFINITY as int);
        lemma_magnitude_step(INFINITY - 1);
        assert((last + top) * d < 2 * n) by (nonlinear_arith)
            requires
                last < top,
                top <= m0,
                m0 * d <= n,
                d > 0,
        ;
    } else if up {
        if lower + 1 < INFINITY {
            let m2 = magnitude(lower + 2);
            lemma_magnitude_step(lower + 1);
            assert(2 * n < (m1 + m2) * d) by (nonlinear_arith)
                requires
                    m1 < m2,
                    n < m1 * d,
                    d > 0,
            ;
        }
    } else {
        if lower > 0 {
            let m = magnitude(lower - 1);
            lemma_magnitude_step(lower - 1);
            assert((m + m0) * d < 2 * n) by (nonlinear_arith)
                requires
                    m < m0,
                    m0 * d <= n,
                    d > 0,
            ;
        }
    }
}

/// The quotient `n / d` is `significand` times two to the `exponent`, or, where
/// `inexact`, lies strictly between that and the next significand.
pub open spec fn denotes(significand: nat, exponent: int, inexact: bool, n: nat, d: nat) -> bool {
    let scaled = n * pow2(if exponent < 0 { (-exponent) as nat } else { 0 });
    let unit = d * pow2(if exponent < 0 { 0 } else { exponent as nat });
    if inexact {
        significand * unit < scaled < (significand + 1) * unit
    } else {
        scaled == significand * unit
    }
}

/// Two to the power of `e`.
pub(crate) fn power_of_two(e: u32) -> (r: u128)
    requires
        e < 128,
    ensures
        r == pow2(e as nat),
        r > 0,
{
    let mut r: u128 = 1;
    let mut i: u32 = 0;
    proof {
        lemma2_to64();
    }
    while i < e
        invariant
            i <= e < 128,
            r == pow2(i as nat),
        decreases e - i,
    {
        proof {
            lemma_pow2_unfold((i + 1) as nat);
            lemma_pow2_strictly_increases((i + 1) as nat, 128);
            lemma_pow2_is_u128_bound();
        }
        r = 2 * r;
        i = i + 1;
    }
    proof {
        lemma_pow2_pos(e as nat);
    }
    r
}

proof fn lemma_pow2_is_u128_bound()
    ensures
        pow2(128) == u128::MAX + 1,
{
    lemma2_to64();
    lemma2_to64_rest();
    lemma_pow2_adds(64, 64);
    assert(pow2(64) * pow2(64) == 0x1_0000_0000_0000_0000 * 0x1_0000_0000_0000_0000)
        by (nonlinear_arith)
        requires
            pow2(64) == 0x1_0000_0000_0000_0000,
    ;
}

/// The number of binary digits of a positive number.
pub(crate) fn digits(x: u128) -> (len: u32)
    requires
        x > 0,
    ensures
        1 <= len <= 128,
        pow2((len - 1) as nat) <= x < pow2(len as nat),
{
    let mut len: u32 = 1;
    let mut rest: u128 = x;
    proof {
        lemma2_to64();
        lemma_pow2_is_u128_bound();
        assert(x * 1 == x && (x + 1) * 1 == x + 1) by (nonlinear_arith);
    }
    while rest > 1
        invariant
            1 <= len,
            rest >= 1,
            rest * pow2((len - 1) as nat) <= x < (rest + 1) * pow2((len - 1) as nat),
            pow2(128) == u128::MAX + 1,
        decreases rest,
    {
        let half = rest / 2;
        proof {
            let p = pow2((len - 1) as nat);
            lemma_pow2_pos((len - 1) as nat);
            if len >= 128 {
                if len > 129 {
                    lemma_pow2_strictly_increases(128, (len - 1) as nat);
                }
                lemma_pow2_unfold(128);
                lemma_pow2_strictly_increases(127, 128);
                if len == 128 {
                    assert(rest * p >= 2 * p) by (nonlinear_arith)
                        requires
                            rest >= 2,
                            p > 0,
                    ;
                } else {
                    assert(rest * p >= p) by (nonlinear_arith)
                        requires
                            rest >= 1,
                            p > 0,
                    ;
                }
                assert(false);
            }
            lemma_pow2_unfold(len as nat);
            assert(half * (2 * p) <= x) by (nonlinear_arith)
                requires
                    2 * half <= rest,
                    rest * p <= x,
                    p > 0,
            ;
            assert(x < (half + 1) * (2 * p)) by (nonlinear_arith)
                requires
                    rest + 1 <= 2 * half + 2,
                    x < (rest + 1) * p,
                    p > 0,
            ;
        }
        rest = half;
        len = len + 1;
    }
    proof {
        let p = pow2((len - 1) as nat);
        assert(rest == 1);
        assert(1 * p == p && (1 + 1) * p == 2 * p) by (nonlinear_arith);
        lemma_pow2_unfold(len as nat);
        if len > 128 {
            if len > 129 {
                lemma_pow2_strictly_increases(128, (len - 1) as nat);
            }
            assert(false);
        }
    }
    len
}

/// Dropping `shift` binary digits of the significand leaves `q` steps of two to
/// the `exponent + shift`; what was dropped is compared with half a step.
proof fn lemma_drop_digits(
    significand: nat,
    exponent: int,
    inexact: bool,
    n: nat,
    d: nat,
    shift: nat,
    q: nat,
    rest: nat,
)
    requires
        d > 0,
        denotes(significand, exponent, inexact, n, d),
        exponent + shift >= 0,
        shift > 0,
        significand == q * pow2(shift) + rest,
        rest < pow2(shift),
    ensures
        ({
            let unit = pow2((exponent + shift) as nat) * d;
            &&& q * unit <= n < (q + 1) * unit
            &&& 2 * rest > pow2(shift) ==> 2 * n > (2 * q + 1) * unit
            &&& 2 * rest < pow2(shift) ==> 2 * n < (2 * q + 1) * unit
            &&& 2 * rest == pow2(shift) && inexact ==> 2 * n > (2 * q + 1) * unit
            &&& 2 * rest == pow2(shift) && !inexact ==> 2 * n == (2 * q + 1) * unit
        }),
{
    let g = (exponent + shift) as nat;
    let scale = pow2(if exponent < 0 { (-exponent) as nat } else { 0 });
    let fine = d * pow2(if exponent < 0 { 0 } else { exponent as nat });
    let unit = pow2(g) * d;
    let p = pow2(shift);
    lemma2_to64();
    lemma_pow2_pos(shift);
    lemma_pow2_pos(g);
    lemma_pow2_pos(if exponent < 0 { (-exponent) as nat } else { 0 });
    lemma_pow2_pos(if exponent < 0 { 0 } else { exponent as nat });
    lemma_pow2_unfold(shift);
    let half = pow2((shift - 1) as nat);
    assert(p * fine == unit * scale) by {
        if exponent < 0 {
            lemma_pow2_adds(g, (-exponent) as nat);
            assert(p * (d * 1) == (pow2(g) * d) * scale) by (nonlinear_arith)
                requires
                    p == pow2(g) * scale,
            ;
        } else {
            lemma_pow2_adds(exponent as nat, shift);
            let pe = pow2(exponent as nat);
            assert(p * (d * pe) == (pow2(g) * d) * 1) by (nonlinear_arith)
                requires
                    pow2(g) == pe * p,
            ;
        }
    }
    assert(fine > 0) by (nonlinear_arith)
        requires
            d > 0,
            fine == d * pow2(if exponent < 0 { 0 } else { exponent as nat }),
            pow2(if exponent < 0 { 0 } else { exponent as nat }) > 0,
    ;
    let scaled = n * scale;
    let whole = unit * scale;
    assert(significand * fine == q * whole + rest * fine) by (nonlinear_arith)
        requires
            significand == q * p + rest,
            p * fine == whole,
    ;
    assert((significand + 1) * fine == q * whole + rest * fine + fine) by (nonlinear_arith)
        requires
            significand == q * p + rest,
            p * fine == whole,
    ;
    assert(rest * fine + fine <= whole) by (nonlinear_arith)
        requires
            rest + 1 <= p,
            p * fine == whole,
            fine > 0,
    ;
    assert(rest * fine >= 0) by (nonlinear_arith)
        requires
            fine > 0,
    ;
    assert((q + 1) * whole == q * whole + whole) by (nonlinear_arith);
    assert(q * whole <= scaled < (q + 1) * whole);
    assert(q * unit <= n) by (nonlinear_arith)
        requires
            q * whole <= n * scale,
            whole == unit * scale,
            scale > 0,
    ;
    assert(n < (q + 1) * unit) by (nonlinear_arith)
        requires
            n * scale < (q + 1) * whole,
            whole == unit * scale,
            scale > 0,
    ;
    assert(2 * (half * fine) == whole) by (nonlinear_arith)
        requires
            p == 2 * half,
            p * fine == whole,
    ;
    assert((2 * q + 1) * whole == 2 * (q * whole) + whole) by (nonlinear_arith);
    if rest > half {
        assert(rest * fine >= half * fine + fine) by (nonlinear_arith)
            requires
                rest >= half + 1,
                fine > 0,
        ;
        assert(2 * scaled > (2 * q + 1) * whole);
    } else if rest < half {
        assert(rest * fine + fine <= half * fine) by (nonlinear_arith)
            requires
                rest + 1 <= half,
                fine > 0,
        ;
        assert(2 * scaled < (2 * q + 1) * whole);
    }
    assert(2 * scaled > (2 * q + 1) * whole ==> 2 * n > (2 * q + 1) * unit) by (nonlinear_arith)
        requires
            scaled == n * scale,
            whole == unit * scale,
            scale > 0,
    ;
    assert(2 * scaled < (2 * q + 1) * whole ==> 2 * n < (2 * q + 1) * unit) by (nonlinear_arith)
        requires
            scaled == n * scale,
            whole == unit * scale,
            scale > 0,
    ;
    assert(2 * scaled == (2 * q + 1) * whole ==> 2 * n == (2 * q + 1) * unit) by (nonlinear_arith)
        requires
            scaled == n * scale,
            whole == unit * scale,
            scale > 0,
    ;
}

/// The bounds on the leading digits that are left when all but the first 53
/// are dropped.
proof fn lemma_leading_digits(significand: nat, len: nat, shift: nat, q: nat, rest: nat)
    requires
        len >= 1,
        pow2((len - 1) as nat) <= significand < pow2(len),
        significand == q * pow2(shift) + rest,
        rest < pow2(shift),
        len <= shift + 53,
    ensures
        q < 2 * BINADE,
        len == shift + 53 ==> q >= BINADE,
{
    let p = pow2(shift);
    lemma_pow2_pos(shift);
    lemma2_to64_rest();
    lemma_pow2_adds(shift, 53);
    if len < shift + 53 {
        lemma_pow2_strictly_increases(len, shift + 53);
    }
    assert(q < 2 * BINADE) by (nonlinear_arith)
        requires
            q * p + rest < p * pow2(53),
            pow2(53) == 2 * BINADE,
            p > 0,
            rest >= 0,
    ;
    if len == shift + 53 {
        lemma_pow2_adds(shift, 52);
        assert(q >= BINADE) by (nonlinear_arith)
            requires
                q * p + rest >= p * pow2(52),
                pow2(52) == BINADE,
                p > 0,
                rest < p,
        ;
    }
}

/// Rounds `significand` times two to the `exponent` (and a little more, where
/// `inexact`) to the nearest pattern.
pub(crate) fn round_to_nearest(
    significand: u128,
    exponent: i32,
    inexact: bool,
    Ghost(n): Ghost<nat>,
    Ghost(d): Ghost<nat>,
) -> (pattern: u64)
    requires
        d > 0,
        0 < significand < 0x4000_0000_0000_0000_0000_0000_0000_0000,
        -5000 <= exponent <= 5000,
        denotes(significand as nat, exponent as int, inexact, n, d),
        inexact ==> significand >= 4 * BINADE,
    ensures
        is_nearest(pattern as int, n, d),
{
    let len: i32 = digits(significand) as i32;
    let top: i32 = len + exponent;
    let g: i32 = if top > 53 {
        top - 53
    } else {
        0
    };
    let shift: i32 = g - exponent;
    proof {
        lemma2_to64();
        lemma2_to64_rest();
        if inexact && len < 55 {
            if len < 54 {
                lemma_pow2_strictly_increases(len as nat, 54);
            }
            assert(false);
        }
    }
    let q: u64;
    let up: bool;
    if shift <= 0 {
        let widen: u32 = (0 - shift) as u32;
        proof {
            assert(widen + len <= 53);
            assert(!inexact);
        }
        let p = power_of_two(widen);
        proof {
            let w = widen as nat;
            lemma_pow2_adds(w, len as nat);
            if w + len < 53 {
                lemma_pow2_strictly_increases(w + len as nat, 53);
            }
            assert(significand * p < 2 * BINADE) by (nonlinear_arith)
                requires
                    significand < pow2(len as nat),
                    pow2(w) == p,
                    p > 0,
                    pow2(w) * pow2(len as nat) <= 2 * BINADE,
            ;
            lemma_pow2_adds(w, (len - 1) as nat);
            assert(significand * p >= pow2(w) * pow2((len - 1) as nat)) by (nonlinear_arith)
                requires
                    significand >= pow2((len - 1) as nat),
                    pow2(w) == p,
                    p > 0,
            ;
            // The exponent is split into the step and the widening.
            assert(exponent == g + w);
            lemma_pow2_adds(g as nat, w);
            assert(n * 1 == n) by (nonlinear_arith);
            let product = (significand * p) as nat;
            assert(n == product * (pow2(g as nat) * d)) by (nonlinear_arith)
                requires
                    n == significand * (d * pow2(exponent as nat)),
                    pow2(exponent as nat) == pow2(g as nat) * pow2(w),
                    pow2(w) == p,
                    product == significand * p,
            ;
            lemma_pow2_pos(g as nat);
            let unit = pow2(g as nat) * d;
            assert(unit > 0) by (nonlinear_arith)
                requires
                    unit == pow2(g as nat) * d,
                    pow2(g as nat) > 0,
                    d > 0,
            ;
            assert((product + 1) * unit == product * unit + unit) by (nonlinear_arith);
            assert((2 * product + 1) * unit == 2 * (product * unit) + unit) by (nonlinear_arith);
            lemma_nearest_of_step(product, g as nat, n, d, false);
        }
        q = (significand * p) as u64;
        up = false;
    } else if shift < 128 {
        let p = power_of_two(shift as u32);
        let whole: u128 = significand / p;
        let rest: u128 = significand % p;
        proof {
            let w = shift as nat;
            vstd::arithmetic::div_mod::lemma_fundamental_div_mod(significand as int, p as int);
            assert(significand == whole * p + rest) by (nonlinear_arith)
                requires
                    significand == p * whole + rest,
            ;
            lemma_leading_digits(significand as nat, len as nat, w, whole as nat, rest as nat);
            lemma_drop_digits(
                significand as nat,
                exponent as int,
                inexact,
                n,
                d,
                w,
                whole as nat,
                rest as nat,
            );
        }
        q = whole as u64;
        let half: u128 = p / 2;
        proof {
            lemma_pow2_unfold(shift as nat);
        }
        up = rest > half || (rest == half && (inexact || q % 2 == 1));
        proof {
            lemma_nearest_of_step(q as nat, g as nat, n, d, up);
        }
    } else {
        proof {
            let w = shift as nat;
            lemma_pow2_pos(w);
            if w > 128 {
                lemma_pow2_strictly_increases(128, w);
            }
            lemma_pow2_is_u128_bound();
            assert(significand == 0 * pow2(w) + significand) by (nonlinear_arith);
            lemma_drop_digits(
                significand as nat,
                exponent as int,
                inexact,
                n,
                d,
                w,
                0,
                significand as nat,
            );
            lemma_nearest_of_step(0, g as nat, n, d, false);
        }
        q = 0;
        up = false;
    }
    if g >= 2047 {
        return INFINITY;
    }
    let pattern: u64 = (g as u64) * BINADE + q + if up { 1u64 } else { 0u64 };
    if pattern < INFINITY {
        pattern
    } else {
        INFINITY
    }
}

} // verus!
