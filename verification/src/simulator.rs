//! A simulated feed.

use vstd::prelude::*;
use vstd::arithmetic::power2::*;
use crate::binary64::arithmetic::UNIT_DIGITS;
use crate::binary64;
use crate::binary64::{laws, rounding, whole, ONE};
use crate::Binary64;
use crate::Candle;

verus! {

/// The multiplier of the random sequence.
pub const LCG_MUL: u64 = 6_364_136_223_846_793_005;

/// The increment of the random sequence.
pub const LCG_ADD: u64 = 1_442_695_040_888_963_407;

/// The first seed.
pub const FIRST_SEED: u64 = 0xDEAD_BEEF_1234_5678;

/// The pattern of the first price, 50000.
pub const FIRST_PRICE: u64 = 0x40e8_6a00_0000_0000;

/// The pattern of the largest 32-bit number.
pub const U32_MAX_NUMBER: u64 = 0x41ef_ffff_ffe0_0000;

/// The pattern of 0.003.
pub const SPAN: u64 = 0x3f68_9374_bc6a_7efa;

/// The pattern of 0.0015.
pub const HALF_SPAN: u64 = 0x3f58_9374_bc6a_7efa;

/// The pattern of 0.001.
pub const WICK: u64 = 0x3f50_624d_d2f1_a9fc;

/// The pattern of 0.5.
pub const HALF: u64 = 0x3fe0_0000_0000_0000;

/// The pattern of two.
pub const TWO: u64 = 0x4000_0000_0000_0000;

pub open spec fn b(bits: u64) -> Binary64 {
    Binary64 { bits }
}

/// The timestamp of the next candle: the clock's, or the last one and a nanosecond
/// where the clock has not moved on.
pub open spec fn following_ts(now: i64, last: i64) -> i64 {
    if now > last {
        now
    } else if last == i64::MAX {
        last
    } else {
        (last + 1) as i64
    }
}

/// The timestamp of the next candle, which never goes back.
pub fn next_ts(now: i64, last: i64) -> (r: i64)
    ensures
        r == following_ts(now, last),
{
    if now > last {
        now
    } else if last == i64::MAX {
        last
    } else {
        last + 1
    }
}

/// The seed after a seed.
pub open spec fn following_seed(seed: u64) -> u64 {
    seed.wrapping_mul(LCG_MUL).wrapping_add(LCG_ADD)
}

/// The upper half of a seed, as a share of the largest 32-bit number.
pub open spec fn upper_share(seed: u64) -> Binary64 {
    Binary64::of_whole((seed / 0x1_0000_0000) as nat).quotient(b(U32_MAX_NUMBER))
}

/// The lower half of a seed, as a share of the largest 32-bit number.
pub open spec fn lower_share(seed: u64) -> Binary64 {
    Binary64::of_whole((seed % 0x1_0000_0000) as nat).quotient(b(U32_MAX_NUMBER))
}

/// The price after a price: changed by up to 0.15 percent either way, and never
/// below one.
pub open spec fn following_price(prev: Binary64, seed: u64) -> Binary64 {
    let change = upper_share(seed).product(b(SPAN)).difference(b(HALF_SPAN));
    prev.product(b(ONE).sum(change)).greater(b(ONE))
}

fn upper_half(seed: u64) -> (r: Binary64)
    ensures
        r == upper_share(seed),
{
    Binary64::from_u64(seed / 0x1_0000_0000).over(Binary64::from_bits(U32_MAX_NUMBER))
}

fn lower_half(seed: u64) -> (r: Binary64)
    ensures
        r == lower_share(seed),
{
    Binary64::from_u64(seed % 0x1_0000_0000).over(Binary64::from_bits(U32_MAX_NUMBER))
}

/// The price after a price; the seed moves on.
pub fn next_price(prev: Binary64, seed: &mut u64) -> (r: Binary64)
    ensures
        *final(seed) == following_seed(*old(seed)),
        r == following_price(prev, *final(seed)),
{
    *seed = seed.wrapping_mul(LCG_MUL).wrapping_add(LCG_ADD);
    let change = upper_half(*seed).times(Binary64::from_bits(SPAN)).minus(
        Binary64::from_bits(HALF_SPAN),
    );
    let one = Binary64::from_bits(ONE);
    prev.times(one.plus(change)).max(one)
}

/// The candle from one price to the next, with a seed for its wicks and its volume.
pub open spec fn simulated(ts: i64, open: Binary64, close: Binary64, seed: u64) -> Candle {
    let r1 = upper_share(seed);
    let r2 = lower_share(seed);
    Candle {
        ts,
        open,
        high: open.greater(close).product(b(ONE).sum(r1.product(b(WICK)))),
        low: open.lesser(close).product(b(ONE).difference(r2.product(b(WICK)))),
        close,
        volume: b(HALF).sum(r1.product(b(TWO))),
    }
}

/// The first of something is reported, and every hundredth.
pub open spec fn reportable(n: u64) -> bool {
    n == 1 || n % 100 == 0
}

/// The simulation.
#[derive(Debug, Clone, Copy)]
pub struct Simulation {
    pub price: Binary64,
    pub seed: u64,
    pub last_ts: i64,
    /// How often the clock had not moved on.
    pub corrections: u64,
}

/// A candle, and whether a correction of its timestamp is to be reported: the first
/// one is, and every hundredth.
#[derive(Debug, Clone, Copy)]
pub struct Tick {
    pub candle: Candle,
    pub report_correction: bool,
}

impl Simulation {
    /// A simulation at its first price.
    pub fn new() -> (r: Simulation)
        ensures
            r == (Simulation {
                price: b(FIRST_PRICE),
                seed: FIRST_SEED,
                last_ts: 0,
                corrections: 0,
            }),
    {
        Simulation {
            price: Binary64::from_bits(FIRST_PRICE),
            seed: FIRST_SEED,
            last_ts: 0,
            corrections: 0,
        }
    }

    /// The next candle. The clock is read twice: `raw` tells whether it has moved on
    /// since the last candle, and `now` is the time of this one.
    pub fn tick(&mut self, raw: i64, now: i64) -> (r: Tick)
        requires
            old(self).corrections < u64::MAX,
        ensures
            ({
                let seed = following_seed(old(self).seed);
                let close = following_price(old(self).price, seed);
                let ts = following_ts(now, old(self).last_ts);
                let corrected = raw <= old(self).last_ts;
                &&& r.candle == simulated(ts, old(self).price, close, seed)
                &&& *final(self) == (Simulation {
                    price: close,
                    seed,
                    last_ts: ts,
                    corrections: (old(self).corrections + if corrected {
                        1int
                    } else {
                        0int
                    }) as u64,
                })
                &&& r.report_correction == (corrected && reportable(final(self).corrections))
            }),
    {
        let open = self.price;
        let mut seed = self.seed;
        let close = next_price(open, &mut seed);
        self.seed = seed;
        let one = Binary64::from_bits(ONE);
        let r1 = upper_half(seed);
        let r2 = lower_half(seed);
        let wick = Binary64::from_bits(WICK);
        let high = open.max(close).times(one.plus(r1.times(wick)));
        let low = open.min(close).times(one.minus(r2.times(wick)));
        let volume = Binary64::from_bits(HALF).plus(r1.times(Binary64::from_bits(TWO)));
        self.price = close;
        let ts = next_ts(now, self.last_ts);
        let mut report_correction = false;
        if raw <= self.last_ts {
            self.corrections = self.corrections + 1;
            report_correction = self.corrections == 1 || self.corrections % 100 == 0;
        }
        self.last_ts = ts;
        Tick { candle: Candle { ts, open, high, low, close, volume }, report_correction }
    }
}

/// When to send the next candle. Times are in nanoseconds.
#[derive(Debug, Clone, Copy)]
pub struct Pace {
    /// How long to sleep first.
    pub sleep: u64,
    /// By how many candles the feed has fallen behind, if it starts afresh.
    pub behind: Option<u64>,
    /// When the candle after it is due.
    pub next_due: u64,
}

/// The nanoseconds between two candles at so many candles a second.
pub fn interval_for(rate: u64) -> (r: u64)
    requires
        rate > 0,
    ensures
        r == 1_000_000_000u64 / rate,
{
    1_000_000_000 / rate
}

/// When to send the candle that is due: not before that, and if it is overdue by
/// more than a hundred intervals, the schedule starts afresh from now.
pub fn pace(now: u64, due: u64, interval: u64) -> (r: Pace)
    requires
        due + 100 * interval <= u64::MAX,
        now + interval <= u64::MAX,
        interval > 0 || now <= due,
    ensures
        r.sleep == if now < due {
            due - now
        } else {
            0
        },
        r.behind == if now > due + 100 * interval {
            Some(((now - due) / interval as int) as u64)
        } else {
            None
        },
        r.next_due == if now > due + 100 * interval {
            now + interval
        } else {
            due + interval
        },
{
    if now < due {
        Pace { sleep: due - now, behind: None, next_due: due + interval }
    } else if now > due + 100 * interval {
        Pace { sleep: 0, behind: Some((now - due) / interval), next_due: now + interval }
    } else {
        Pace { sleep: 0, behind: None, next_due: due + interval }
    }
}

/// The candles that have been sent.
#[derive(Debug, Clone, Copy)]
pub struct Progress {
    pub count: u64,
    /// How many candles there are from one report to the next.
    pub report_every: u64,
}

impl Progress {
    /// No candles yet, at so many candles a second; there is a report every five
    /// seconds.
    pub fn new(rate: u64) -> (r: Progress)
        requires
            rate * 5 <= u64::MAX,
        ensures
            r == (Progress { count: 0, report_every: (rate * 5) as u64 }),
    {
        Progress { count: 0, report_every: rate * 5 }
    }

    /// One more candle has been sent. Whether the count is to be made known, which
    /// it is at every multiple of 1024, and whether there is a report.
    pub fn pushed(&mut self) -> (r: (bool, bool))
        requires
            old(self).count < u64::MAX,
        ensures
            *final(self) == (Progress { count: (old(self).count + 1) as u64, ..*old(self) }),
            r.0 == (final(self).count % 1024 == 0),
            r.1 == (old(self).report_every > 0 && final(self).count % old(self).report_every == 0),
    {
        self.count = self.count + 1;
        let reported = self.report_every > 0 && self.count % self.report_every == 0;
        (self.count % 1024 == 0, reported)
    }
}

/// Timestamps go up from candle to candle, whatever the clock does, until there are
/// none left.
pub proof fn lemma_ts_goes_up(now: i64, last: i64)
    ensures
        last < i64::MAX ==> following_ts(now, last) > last,
        following_ts(now, last) >= last,
        now > last ==> following_ts(now, last) == now,
{
}

/// A price is never below one.
pub proof fn lemma_price_at_least_one(prev: Binary64, seed: u64)
    ensures
        b(ONE).at_most(following_price(prev, seed)),
{
    laws::lemma_one();
    assert(!b(ONE).nan());
}

/// The shares of a seed's halves are between nothing and one.
proof fn lemma_shares(seed: u64)
    ensures
        upper_share(seed).finite(),
        !upper_share(seed).negative(),
        upper_share(seed).units() <= pow2(UNIT_DIGITS as nat),
        lower_share(seed).finite(),
        !lower_share(seed).negative(),
        lower_share(seed).units() <= pow2(UNIT_DIGITS as nat),
{
    let most = b(U32_MAX_NUMBER);
    let d = pow2(UNIT_DIGITS as nat) as int;
    assert(most.units() == 0xffff_ffff * d) by {
        let pattern = U32_MAX_NUMBER as int;
        let binade = rounding::BINADE as int;
        assert(pattern / binade == 1054);
        lemma_pow2_adds(21, 1053);
        lemma2_to64();
        let a = pow2(1053) as int;
        assert(most.units() == 0x1f_ffff_ffe0_0000 * a);
        assert(0x1f_ffff_ffe0_0000 * a == 0xffff_ffff * (0x20_0000 * a)) by (nonlinear_arith);
    }
    lemma_pow2_pos(UNIT_DIGITS as nat);
    let hi = (seed / 0x1_0000_0000) as nat;
    let lo = (seed % 0x1_0000_0000) as nat;
    assert(hi * d <= 0xffff_ffff * d && lo * d <= 0xffff_ffff * d) by (nonlinear_arith)
        requires
            hi <= 0xffff_ffff,
            lo <= 0xffff_ffff,
            d > 0,
    ;
    laws::lemma_share(hi, most);
    laws::lemma_share(lo, most);
}

/// A simulated candle is one: its open and its close are between its low and its
/// high.
pub proof fn lemma_wicks_enclose_the_body(ts: i64, open: Binary64, close: Binary64, seed: u64)
    requires
        open.finite(),
        close.finite(),
        !open.negative(),
        !close.negative(),
    ensures
        ({
            let c = simulated(ts, open, close, seed);
            &&& c.low.at_most(open)
            &&& c.low.at_most(close)
            &&& open.at_most(c.high)
            &&& close.at_most(c.high)
        }),
{
    lemma_shares(seed);
    laws::lemma_one();
    let one = b(ONE);
    let wick = b(WICK);
    let d = pow2(UNIT_DIGITS as nat);
    rounding::lemma_magnitude_increases(WICK as int, ONE as int);
    let up = upper_share(seed).product(wick);
    let down = lower_share(seed).product(wick);
    laws::lemma_product_commutes(upper_share(seed), wick);
    laws::lemma_product_commutes(lower_share(seed), wick);
    laws::lemma_product_with_fraction(wick, upper_share(seed));
    laws::lemma_product_with_fraction(wick, lower_share(seed));
    // one and a thousandth at most
    laws::lemma_sum_at_least(one, up);
    let two = b(TWO);
    assert(two.units() == 2 * d) by {
        lemma_pow2_unfold(1075);
        rounding::lemma_magnitude_parts(1023, rounding::BINADE as nat);
        lemma_pow2_adds(52, 1023);
        lemma2_to64_rest();
    }
    rounding::lemma_nearest_at_most((one.units() + up.units()) as nat, 1, TWO as int);
    rounding::lemma_nearest_exists((one.units() + up.units()) as nat, 1);
    laws::lemma_product_with_one_or_more(open.greater(close), one.sum(up));
    // and not more than one
    laws::lemma_difference_between(one, down);
    let factor = one.difference(down);
    laws::lemma_units_of_finite(factor);
    assert(!factor.negative() || factor.units() == 0);
    lemma_low(open.lesser(close), factor);
}

/// Multiplying by a factor from nothing to one, of either sign where it is nothing,
/// does not make a number larger.
proof fn lemma_low(a: Binary64, factor: Binary64)
    requires
        a.finite(),
        !a.negative(),
        factor.finite(),
        0 <= factor.value() <= pow2(UNIT_DIGITS as nat),
    ensures
        a.product(factor).at_most(a),
{
    let f = factor.absolute();
    lemma_pow2_pos(UNIT_DIGITS as nat);
    laws::lemma_product_with_fraction(a, f);
    laws::lemma_units_of_finite(factor);
    laws::lemma_units_of_finite(a.product(f));
    let n = a.units() * factor.units();
    rounding::lemma_nearest_exists(n, pow2(UNIT_DIGITS as nat));
}

/// The seeds follow each other by a multiplication and an addition, within 64 bits.
pub proof fn lemma_next_seed(seed: u64)
    ensures
        following_seed(seed) as int == (seed * 6_364_136_223_846_793_005 + 1_442_695_040_888_963_407)
            % 0x1_0000_0000_0000_0000,
{
    let w = 0x1_0000_0000_0000_0000int;
    let p = seed * LCG_MUL;
    let m = seed.wrapping_mul(LCG_MUL);
    assert(m as int == p % w);
    vstd::arithmetic::div_mod::lemma_fundamental_div_mod(p, w);
    vstd::arithmetic::div_mod::lemma_fundamental_div_mod(p + LCG_ADD, w);
    vstd::arithmetic::div_mod::lemma_fundamental_div_mod(m + LCG_ADD, w);
    vstd::arithmetic::div_mod::lemma_mod_bound(p, w);
    let s = m + LCG_ADD;
    let k = s / w;
    let r = s % w;
    assert(following_seed(seed) as int == r);
    assert(p + LCG_ADD == (p / w + k) * w + r) by (nonlinear_arith)
        requires
            p == w * (p / w) + m,
            s == m + LCG_ADD,
            s == w * k + r,
    ;
    vstd::arithmetic::div_mod::lemma_mod_bound(s, w);
    vstd::arithmetic::div_mod::lemma_fundamental_div_mod_converse(
        p + LCG_ADD,
        w,
        p / w + k,
        r,
    );
}

/// The price, the high and the volume go by the upper half of the seed alone, and the low
/// by the lower half.
pub proof fn lemma_halves_of_the_seed(
    ts: i64,
    open: Binary64,
    close: Binary64,
    x: u64,
    y: u64,
)
    ensures
        ({
            let (a, b) = (simulated(ts, open, close, x), simulated(ts, open, close, y));
            &&& x / 0x1_0000_0000 == y / 0x1_0000_0000 ==> a.high == b.high && a.volume == b.volume
                && following_price(open, x) == following_price(open, y)
            &&& x % 0x1_0000_0000 == y % 0x1_0000_0000 ==> a.low == b.low
            &&& a.ts == ts && a.open == open && a.close == close
        }),
{
}

proof fn lemma_shares_are_ordered(x: u64, y: u64)
    ensures
        x / 0x1_0000_0000 <= y / 0x1_0000_0000 ==> upper_share(x).value() <= upper_share(y).value(),
        x % 0x1_0000_0000 <= y % 0x1_0000_0000 ==> lower_share(x).value() <= lower_share(y).value(),
{
    lemma_shares(x);
    lemma_shares(y);
    let of = b(U32_MAX_NUMBER);
    if x / 0x1_0000_0000 <= y / 0x1_0000_0000 {
        lemma_share_is_ordered((x / 0x1_0000_0000) as nat, (y / 0x1_0000_0000) as nat, of);
    }
    if x % 0x1_0000_0000 <= y % 0x1_0000_0000 {
        lemma_share_is_ordered((x % 0x1_0000_0000) as nat, (y % 0x1_0000_0000) as nat, of);
    }
}

proof fn lemma_share_is_ordered(m: nat, n: nat, of: Binary64)
    requires
        m <= n < whole::EXACT,
        of == b(U32_MAX_NUMBER),
    ensures
        Binary64::of_whole(m).quotient(of).value() <= Binary64::of_whole(n).quotient(of).value(),
{
    whole::lemma_whole(m);
    whole::lemma_whole(n);
    let d = pow2(UNIT_DIGITS as nat);
    assert(of.pattern() > 0);
    rounding::lemma_magnitude_increases(0, of.pattern());
    let (p, q) = (Binary64::of_whole(m).units() * d, Binary64::of_whole(n).units() * d);
    assert(p <= q) by (nonlinear_arith)
        requires
            p == (m * d) * d,
            q == (n * d) * d,
            m <= n,
            d > 0,
    ;
    rounding::lemma_nearest_exists(p as nat, of.units());
    rounding::lemma_nearest_exists(q as nat, of.units());
    rounding::lemma_nearest_is_ordered(p as nat, q as nat, of.units());
    let (s, t) = (
        rounding::nearest(p as nat, of.units()),
        rounding::nearest(q as nat, of.units()),
    );
    if s < t {
        rounding::lemma_magnitude_increases(s, t);
    }
}

/// The change of a price as a share of it.
proof fn lemma_change(seed: u64)
    ensures
        ({
            let change = upper_share(seed).product(b(SPAN)).difference(b(HALF_SPAN));
            &&& change.finite()
            &&& b(HALF_SPAN).opposite().value() <= change.value() <= b(HALF_SPAN).value()
        }),
        b(HALF_SPAN).finite(),
        b(SPAN).finite(),
        b(SPAN).value() == 2 * b(HALF_SPAN).value(),
        0 < b(HALF_SPAN).value(),
        b(HALF_SPAN).value() < whole::unit(),
{
    lemma_shares(seed);
    laws::lemma_one();
    let share = upper_share(seed);
    let (half, span) = (b(HALF_SPAN), b(SPAN));
    binary64::lemma_opposite(half);
    // twice as much has the next exponent
    let g = HALF_SPAN as int / rounding::BINADE as int - 1;
    let q = rounding::BINADE + HALF_SPAN as int % rounding::BINADE as int;
    rounding::lemma_magnitude_parts(g as nat, q as nat);
    rounding::lemma_magnitude_parts((g + 1) as nat, q as nat);
    lemma_pow2_unfold((g + 1) as nat);
    assert(half.units() == q * pow2(g as nat));
    assert(span.units() == q * pow2((g + 1) as nat));
    let e = pow2(g as nat) as int;
    assert(q * (2 * e) == 2 * (q * e)) by (nonlinear_arith);
    rounding::lemma_magnitude_increases(0, HALF_SPAN as int);
    rounding::lemma_magnitude_increases(HALF_SPAN as int, binary64::ONE as int);
    // between nothing and all of the span
    laws::lemma_product_commutes(share, span);
    laws::lemma_product_with_fraction(span, share);
    let p = share.product(span);
    let turned = half.opposite();
    let none = b(0);
    assert(none.value() == 0);
    assert(whole::representable(none.value() + turned.value())) by {
        assert(turned.finite() && turned.value() == none.value() + turned.value());
    }
    assert(whole::representable(span.value() + turned.value())) by {
        assert(half.finite() && half.value() == span.value() + turned.value());
    }
    whole::lemma_exact_sum(none, turned);
    whole::lemma_exact_sum(span, turned);
    laws::lemma_sum_commutes(none, turned);
    laws::lemma_sum_commutes(span, turned);
    laws::lemma_sum_commutes(p, turned);
    whole::lemma_sum_is_ordered(turned, none, p);
    whole::lemma_sum_is_ordered(turned, p, span);
    lemma_finite_between(p.sum(turned), half);
}

/// What is no further from zero than a finite number is finite.
proof fn lemma_finite_between(x: Binary64, bound: Binary64)
    requires
        bound.finite(),
        -bound.value() <= x.value() <= bound.value(),
    ensures
        x.finite(),
{
    if !x.finite() {
        rounding::lemma_magnitude_increases(bound.pattern(), rounding::INFINITY as int);
        if x.pattern() > rounding::INFINITY {
            rounding::lemma_magnitude_increases(rounding::INFINITY as int, x.pattern());
        }
    }
}

/// The next price is at most 0.15 percent above or below, and never below one; the larger
/// the upper half of the seed, the higher it is.
pub proof fn lemma_price_changes_little(prev: Binary64, x: u64, y: u64)
    requires
        prev.finite(),
        !prev.negative(),
        x / 0x1_0000_0000 <= y / 0x1_0000_0000,
    ensures
        following_price(prev, x).value() <= following_price(prev, y).value(),
        ({
            let low = prev.product(b(ONE).difference(b(HALF_SPAN)));
            let high = prev.product(b(ONE).sum(b(HALF_SPAN)));
            let p = following_price(prev, x);
            &&& p == b(ONE) || low.value() <= p.value() <= high.value()
            &&& b(ONE).value() <= p.value()
        }),
{
    lemma_shares(x);
    lemma_shares(y);
    lemma_shares_are_ordered(x, y);
    lemma_change(x);
    lemma_change(y);
    laws::lemma_one();
    let one = b(ONE);
    let (half, span) = (b(HALF_SPAN), b(SPAN));
    binary64::lemma_opposite(half);
    let (s, t) = (upper_share(x), upper_share(y));
    laws::lemma_product_commutes(s, span);
    laws::lemma_product_commutes(t, span);
    whole::lemma_product_follows_order(span, s, t);
    laws::lemma_product_with_fraction(span, s);
    laws::lemma_product_with_fraction(span, t);
    let turned = half.opposite();
    let (p, q) = (s.product(span), t.product(span));
    laws::lemma_sum_commutes(p, turned);
    laws::lemma_sum_commutes(q, turned);
    whole::lemma_sum_is_ordered(turned, p, q);
    let (c, d) = (p.difference(half), q.difference(half));
    whole::lemma_sum_is_ordered(one, c, d);
    whole::lemma_sum_is_ordered(one, turned, c);
    whole::lemma_sum_is_ordered(one, c, half);
    whole::lemma_sum_is_ordered(one, turned, d);
    whole::lemma_sum_is_ordered(one, d, half);
    lemma_factors(c);
    lemma_factors(d);
    lemma_factors(turned);
    lemma_factors(half);
    whole::lemma_product_follows_order(prev, one.sum(c), one.sum(d));
    whole::lemma_product_follows_order(prev, one.sum(turned), one.sum(c));
    whole::lemma_product_follows_order(prev, one.sum(c), one.sum(half));
    assert(!one.nan());
    lemma_no_nan(prev, one.sum(c));
    lemma_no_nan(prev, one.sum(d));
}

proof fn lemma_factors(c: Binary64)
    requires
        c.finite(),
        -whole::unit() <= c.value() <= whole::unit(),
    ensures
        b(ONE).sum(c).finite(),
{
    laws::lemma_one();
    let one = b(ONE);
    let two = b(TWO);
    let d = pow2(UNIT_DIGITS as nat);
    assert(two.units() == 2 * d) by {
        lemma_pow2_unfold(1075);
        rounding::lemma_magnitude_parts(1023, rounding::BINADE as nat);
        lemma_pow2_adds(52, 1023);
        lemma2_to64_rest();
    }
    let exact = (one.value() + c.value()) as nat;
    rounding::lemma_nearest_at_most(exact, 1, TWO as int);
    rounding::lemma_nearest_exists(exact, 1);
}

proof fn lemma_no_nan(x: Binary64, y: Binary64)
    requires
        x.finite(),
        y.finite(),
    ensures
        !x.product(y).nan(),
{
    lemma_pow2_pos(UNIT_DIGITS as nat);
    rounding::lemma_nearest_exists(x.units() * y.units(), pow2(UNIT_DIGITS as nat));
}

/// The volume of a simulated candle is between a half and two and a half.
pub proof fn lemma_volume(ts: i64, open: Binary64, close: Binary64, seed: u64)
    ensures
        ({
            let volume = simulated(ts, open, close, seed).volume;
            &&& volume.finite()
            &&& whole::unit() <= 2 * volume.value() <= 5 * whole::unit()
        }),
{
    lemma_shares(seed);
    let share = upper_share(seed);
    let (half, two) = (b(HALF), b(TWO));
    let most = Binary64 { bits: 0x4004_0000_0000_0000 };
    let u = whole::unit();
    let d = pow2(UNIT_DIGITS as nat);
    let e = pow2(1021) as int;
    lemma_pow2_pos(1021);
    rounding::lemma_magnitude_parts(1021, rounding::BINADE as nat);
    rounding::lemma_magnitude_parts(1023, rounding::BINADE as nat);
    rounding::lemma_magnitude_parts(1023, 0x14_0000_0000_0000);
    lemma_pow2_adds(53, 1021);
    lemma_pow2_adds(2, 1021);
    lemma2_to64();
    lemma2_to64_rest();
    assert(u == 0x20_0000_0000_0000 * e);
    assert(pow2(1023) == 4 * e);
    assert(half.units() == 0x10_0000_0000_0000 * e);
    assert(two.units() == 0x10_0000_0000_0000 * (4 * e)) by (nonlinear_arith)
        requires
            two.units() == 0x10_0000_0000_0000 * pow2(1023),
            pow2(1023) == 4 * e,
    ;
    assert(most.units() == 0x14_0000_0000_0000 * (4 * e)) by (nonlinear_arith)
        requires
            most.units() == 0x14_0000_0000_0000 * pow2(1023),
            pow2(1023) == 4 * e,
    ;
    assert(2 * half.value() == u && two.value() == 2 * u && 2 * most.value() == 5 * u) by (
    nonlinear_arith)
        requires
            u == 0x20_0000_0000_0000 * e,
            half.value() == 0x10_0000_0000_0000 * e,
            two.value() == 0x10_0000_0000_0000 * (4 * e),
            most.value() == 0x14_0000_0000_0000 * (4 * e),
    ;
    laws::lemma_product_commutes(share, two);
    laws::lemma_product_with_fraction(two, share);
    let p = share.product(two);
    let none = b(0);
    assert(none.value() == 0);
    assert(whole::representable(half.value() + none.value())) by {
        assert(half.finite() && half.value() == half.value() + none.value());
    }
    assert(whole::representable(half.value() + two.value())) by {
        assert(most.finite() && most.value() == half.value() + two.value());
    }
    whole::lemma_exact_sum(half, none);
    whole::lemma_exact_sum(half, two);
    whole::lemma_sum_is_ordered(half, none, p);
    whole::lemma_sum_is_ordered(half, p, two);
    lemma_finite_between(half.sum(p), most);
}

/// Of corrections, the first is reported and then every hundredth.
pub proof fn lemma_reported_corrections(n: u64)
    ensures
        reportable(1),
        n <= u64::MAX / 100 ==> reportable((100 * n) as u64),
        1 < n && 0 < n % 100 ==> !reportable(n),
{
}

/// A pattern is the nearest to a share of one, where it is nearer than its neighbours:
/// the significand is as close to the share of the exponent as it can be.
proof fn lemma_nearest_share(pattern: u64, m: nat, of: nat, g: nat, digits: nat)
    requires
        g + digits == UNIT_DIGITS,
        0 < of,
        rounding::BINADE + 1 < pattern - g * rounding::BINADE < 2 * rounding::BINADE,
        ({
            let q = pattern - g * rounding::BINADE;
            let whole = pow2(digits) as int;
            (2 * q - 1) * of < 2 * m * whole && 2 * m * whole < (2 * q + 1) * of
        }),
        pattern < rounding::INFINITY,
    ensures
        rounding::nearest(m * pow2(UNIT_DIGITS as nat), of) == pattern,
{
    let q = pattern - g * rounding::BINADE;
    let p = pattern as int;
    let e = pow2(g) as int;
    let w = pow2(digits) as int;
    let d = pow2(UNIT_DIGITS as nat) as int;
    lemma_pow2_pos(g);
    lemma_pow2_adds(digits, g);
    rounding::lemma_magnitude_parts(g, (q - 1) as nat);
    rounding::lemma_magnitude_parts(g, q as nat);
    rounding::lemma_magnitude_parts(g, (q + 1) as nat);
    let n = m * pow2(UNIT_DIGITS as nat);
    let (low, mid, high) = (
        rounding::magnitude(p - 1) as int,
        rounding::magnitude(p) as int,
        rounding::magnitude(p + 1) as int,
    );
    assert((low + mid) * of < 2 * n && 2 * n < (mid + high) * of) by (nonlinear_arith)
        requires
            low == (q - 1) * e,
            mid == q * e,
            high == (q + 1) * e,
            n == m * d,
            d == w * e,
            e > 0,
            (2 * q - 1) * of < 2 * m * w,
            2 * m * w < (2 * q + 1) * of,
    ;
    assert(rounding::is_nearest(p, n, of));
    rounding::lemma_nearest_exists(n, of);
    rounding::lemma_nearest_unique(p, rounding::nearest(n, of), n, of);
}

/// The numbers of the simulation are the nearest to 0.003, 0.0015 and 0.001; a half and
/// two are themselves. It starts at a price of 50000.
pub proof fn lemma_numbers_of_the_simulation()
    ensures
        rounding::nearest(3 * pow2(UNIT_DIGITS as nat), 1000) == SPAN,
        rounding::nearest(15 * pow2(UNIT_DIGITS as nat), 10_000) == HALF_SPAN,
        rounding::nearest(1 * pow2(UNIT_DIGITS as nat), 1000) == WICK,
        2 * b(HALF).value() == whole::unit(),
        b(TWO) == Binary64::of_whole(2),
        b(FIRST_PRICE) == Binary64::of_whole(50_000),
{
    lemma2_to64();
    lemma2_to64_rest();
    lemma_nearest_share(SPAN, 3, 1000, 0x3f5, 61);
    lemma_nearest_share(HALF_SPAN, 15, 10_000, 0x3f4, 62);
    lemma_nearest_share(WICK, 1, 1000, 0x3f4, 62);
    let u = whole::unit();
    rounding::lemma_magnitude_parts(1021, rounding::BINADE as nat);
    lemma_pow2_adds(53, 1021);
    let e = pow2(1021) as int;
    assert(u == 0x20_0000_0000_0000 * e);
    assert(b(HALF).units() == 0x10_0000_0000_0000 * e);
    assert(2 * b(HALF).value() == u) by (nonlinear_arith)
        requires
            u == 0x20_0000_0000_0000 * e,
            b(HALF).value() == 0x10_0000_0000_0000 * e,
    ;
    whole::lemma_whole(2);
    rounding::lemma_magnitude_parts(1023, rounding::BINADE as nat);
    lemma_pow2_adds(51, 1023);
    let f = pow2(1023) as int;
    assert(u == 0x8_0000_0000_0000 * f);
    assert(b(TWO).units() == 0x10_0000_0000_0000 * f);
    assert(0x10_0000_0000_0000 * f == 2 * (0x8_0000_0000_0000 * f)) by (nonlinear_arith);
    whole::lemma_same_units(b(TWO), Binary64::of_whole(2));
    whole::lemma_whole(50_000);
    rounding::lemma_magnitude_parts(1037, 0x18_6a00_0000_0000);
    lemma_pow2_adds(37, 1037);
    let h = pow2(1037) as int;
    assert(u == 0x20_0000_0000 * h);
    assert(b(FIRST_PRICE).units() == 0x18_6a00_0000_0000 * h);
    assert(0x18_6a00_0000_0000 * h == 50_000 * (0x20_0000_0000 * h)) by (nonlinear_arith);
    whole::lemma_same_units(b(FIRST_PRICE), Binary64::of_whole(50_000));
}

} // verus!
