//! How far rounding can keep an order from being filled: with up to two to the power
//! of 20 resting orders, by less than the tolerance for dust.

use vstd::prelude::*;
use vstd::arithmetic::power2::*;
use super::book::BookView;
use super::levels::LevelView;
use super::order::{Order, Side};
use super::{book, levels, order, price, totals};
use crate::binary64;
use crate::binary64::arithmetic::UNIT_DIGITS;
use crate::binary64::{arithmetic, laws, rounding};
use crate::Binary64;

verus! {

/// The most resting orders for which the laws of this module are stated.
pub const MOST_ORDERS: u64 = 0x10_0000;

/// What remains of an order.
pub open spec fn amounts() -> spec_fn(Order) -> int {
    |o: Order| o.remaining.value()
}

/// One for each order.
pub open spec fn ones() -> spec_fn(Order) -> int {
    |o: Order| 1int
}

/// The most by which rounding can change an amount up to `w`.
pub open spec fn slack(w: Binary64) -> int {
    w.value() / (2 * rounding::BINADE)
}

/// The quantity that counts as nothing of an order.
pub open spec fn tolerance(o: Order) -> Binary64 {
    o.qty.product(Binary64 { bits: order::QTY_REL_TOL })
}

/// Not less than nothing.
pub open spec fn is_amount(x: Binary64) -> bool {
    !x.nan() && x.value() >= 0
}

/// A sum of `k` amounts that was rounded at each step, beside their exact total: both
/// have come to `w`, but for the slack, or they differ by no more than that.
pub open spec fn near_sum(s: Binary64, total: int, k: int, w: Binary64) -> bool {
    &&& is_amount(s)
    &&& s.value() >= w.value() || s.value() >= total - k * slack(w)
    &&& total >= w.value() - k * slack(w) || s.value() <= total + k * slack(w)
}

proof fn lemma_slack(change: int, n: int, w: Binary64)
    requires
        change * (2 * rounding::BINADE) <= n <= w.value(),
    ensures
        change <= slack(w),
{
    let c = 2 * rounding::BINADE as int;
    let q = w.value() / c;
    vstd::arithmetic::div_mod::lemma_fundamental_div_mod(w.value(), c);
    assert(change < q + 1) by (nonlinear_arith)
        requires
            change * c < c * q + c,
            c > 0,
    ;
}

/// Adding rounds by no more than the slack, and does not cross `w`.
proof fn lemma_add_near(a: Binary64, b: Binary64, w: Binary64)
    requires
        is_amount(a),
        is_amount(b),
        b.finite(),
        is_amount(w),
        w.finite(),
    ensures
        is_amount(a.sum(b)),
        a.value() + b.value() >= w.value() ==> a.sum(b).value() >= w.value(),
        a.value() + b.value() <= w.value() ==> {
            &&& a.sum(b).value() <= a.value() + b.value() + slack(w)
            &&& a.sum(b).value() >= a.value() + b.value() - slack(w)
        },
{
    laws::lemma_units_of_finite(a);
    laws::lemma_units_of_finite(b);
    laws::lemma_units_of_finite(w);
    if a.finite() {
        let exact = (a.value() + b.value()) as nat;
        let r = rounding::nearest(exact, 1);
        let s = a.sum(b);
        rounding::lemma_nearest_exists(exact, 1);
        assert(s.pattern() == r);
        if exact == 0 {
            rounding::lemma_nearest_exact(0, 1);
        }
        if exact >= w.value() {
            rounding::lemma_nearest_at_least(exact, 1, w.pattern());
            if r > w.pattern() {
                rounding::lemma_magnitude_increases(w.pattern(), r);
            }
        }
        if exact <= w.value() {
            rounding::lemma_nearest_at_most(exact, 1, w.pattern());
            rounding::lemma_nearest_error(exact);
            lemma_slack(s.value() - exact, exact as int, w);
            lemma_slack(exact - s.value(), exact as int, w);
        }
    }
}

/// Taking away rounds up by no more than the slack.
proof fn lemma_subtract_near(a: Binary64, b: Binary64, w: Binary64)
    requires
        a.finite(),
        b.finite(),
        0 <= b.value() <= a.value() <= w.value(),
        w.finite(),
    ensures
        a.difference(b).finite(),
        0 <= a.difference(b).value() <= a.value(),
        a.difference(b).value() <= a.value() - b.value() + slack(w),
{
    laws::lemma_difference_between(a, b);
    binary64::lemma_opposite(b);
    let exact = (a.value() - b.value()) as nat;
    rounding::lemma_nearest_exists(exact, 1);
    rounding::lemma_nearest_error(exact);
    lemma_slack(a.difference(b).value() - exact, exact as int, w);
}

/// Every order has a finite amount left.
pub open spec fn all_amounts(orders: Seq<Order>) -> bool {
    forall|i: int|
        0 <= i < orders.len() ==> (#[trigger] orders[i]).remaining.finite()
            && orders[i].remaining.value() >= 0
}

proof fn lemma_orders_near(start: Binary64, total: int, k: int, orders: Seq<Order>, w: Binary64)
    requires
        near_sum(start, total, k, w),
        k >= 0,
        all_amounts(orders),
        is_amount(w),
        w.finite(),
    ensures
        near_sum(
            levels::plus_orders(start, orders),
            total + totals::orders_total(orders, amounts()),
            k + totals::orders_total(orders, ones()),
            w,
        ),
        totals::orders_total(orders, ones()) >= 0,
    decreases orders.len(),
{
    if orders.len() > 0 {
        let front = orders.drop_last();
        let last = orders[orders.len() - 1].remaining;
        assert forall|i: int| 0 <= i < front.len() implies (
        #[trigger] front[i]).remaining.finite() && front[i].remaining.value() >= 0 by {
            assert(front[i] == orders[i]);
        }
        lemma_orders_near(start, total, k, front, w);
        let before = levels::plus_orders(start, front);
        lemma_add_near(before, last, w);
        let n = k + totals::orders_total(front, ones());
        let u = slack(w);
        vstd::arithmetic::div_mod::lemma_div_pos_is_pos(w.value(), 2 * rounding::BINADE as int);
        assert((n + 1) * u == n * u + u) by (nonlinear_arith);
        assert(n * u >= 0) by (nonlinear_arith)
            requires
                n >= 0,
                u >= 0,
        ;
    }
}

proof fn lemma_levels_near(side: Seq<LevelView>, w: Binary64)
    requires
        forall|i: int| 0 <= i < side.len() ==> all_amounts((#[trigger] side[i]).orders),
        is_amount(w),
        w.finite(),
    ensures
        near_sum(
            levels::plus_levels(side),
            totals::levels_total(side, amounts()),
            totals::levels_total(side, ones()),
            w,
        ),
        totals::levels_total(side, ones()) >= 0,
    decreases side.len(),
{
    if side.len() == 0 {
        assert((Binary64 { bits: binary64::SIGN }).value() == 0);
        assert(0 * slack(w) == 0) by (nonlinear_arith);
    } else {
        let front = side.drop_last();
        assert forall|i: int| 0 <= i < front.len() implies all_amounts(
            (#[trigger] front[i]).orders,
        ) by {
            assert(front[i] == side[i]);
        }
        lemma_levels_near(front, w);
        assert(all_amounts(side[side.len() - 1].orders));
        lemma_orders_near(
            levels::plus_levels(front),
            totals::levels_total(front, amounts()),
            totals::levels_total(front, ones()),
            side.last().orders,
            w,
        );
    }
}

/// What is left of a taker is little more than what the orders of a level lack.
proof fn lemma_level_near(
    resting: Side,
    key: u64,
    taker: Order,
    orders: Seq<Order>,
    price: Binary64,
    ts: i64,
    w: Binary64,
)
    requires
        levels::sound(taker),
        taker.remaining.value() <= w.value(),
        w.finite(),
        forall|i: int|
            0 <= i < orders.len() ==> levels::rests_at(resting, key, #[trigger] orders[i]),
    ensures
        ({
            let m = levels::match_level(taker, orders, price, ts);
            m.taker.filled() || {
                &&& m.orders.len() == 0
                &&& levels::sound(m.taker)
                &&& m.taker.qty == taker.qty
                &&& m.taker.remaining.value() <= w.value()
                &&& m.taker.remaining.value() <= taker.remaining.value() - totals::orders_total(
                    orders,
                    amounts(),
                ) + totals::orders_total(orders, ones()) * slack(w)
            }
        }),
    decreases orders.len(),
{
    if orders.len() == 0 {
        assert(0 * slack(w) == 0) by (nonlinear_arith);
    } else if !taker.filled() {
        let maker = orders[0];
        assert(levels::rests_at(resting, key, maker));
        levels::lemma_trade(taker, maker);
        totals::lemma_orders_total_front(orders, amounts());
        totals::lemma_orders_total_front(orders, ones());
        let qty = levels::traded(taker, maker);
        let left = levels::reduced(taker, qty);
        if maker.remaining.less(taker.remaining) {
            lemma_subtract_near(taker.remaining, maker.remaining, w);
            laws::lemma_difference_between(maker.remaining, maker.remaining);
            order::lemma_dust(maker.remaining.difference(qty), maker.qty);
            let tail = orders.drop_first();
            assert forall|i: int| 0 <= i < tail.len() implies levels::rests_at(
                resting,
                key,
                #[trigger] tail[i],
            ) by {
                assert(tail[i] == orders[i + 1]);
            }
            lemma_level_near(resting, key, left, tail, price, ts, w);
            let n = totals::orders_total(tail, ones());
            let u = slack(w);
            assert((1 + n) * u == u + n * u) by (nonlinear_arith);
        } else {
            laws::lemma_difference_between(taker.remaining, taker.remaining);
            order::lemma_dust(left.remaining, taker.qty);
            assert(left.filled());
            assert(levels::match_level(left, orders.drop_first(), price, ts).taker == left);
        }
    }
}

/// What is left of a taker is little more than what one side of the book lacks within
/// its limit.
proof fn lemma_side_near(
    resting: Side,
    taker: Order,
    side: Seq<LevelView>,
    limit: Option<u64>,
    ts: i64,
    w: Binary64,
)
    requires
        levels::sound(taker),
        taker.remaining.value() <= w.value(),
        w.finite(),
        levels::side_ok(resting, side),
    ensures
        ({
            let m = levels::match_levels(resting, taker, side, limit, ts);
            let near = totals::reachable(resting, side, limit);
            m.taker.filled() || {
                &&& levels::sound(m.taker)
                &&& m.taker.qty == taker.qty
                &&& m.taker.remaining.value() <= taker.remaining.value() - totals::levels_total(
                    near,
                    amounts(),
                ) + totals::levels_total(near, ones()) * slack(w)
            }
        }),
    decreases side.len(),
{
    let p = |l: LevelView| levels::within(resting, limit, l.key);
    let u = slack(w);
    assert(0 * u == 0) by (nonlinear_arith);
    if side.len() == 0 {
        reveal(Seq::filter);
    } else if !levels::within(resting, limit, side[0].key) {
        assert forall|i: int| 0 <= i < side.len() implies !p(#[trigger] side[i]) by {
            if i > 0 {
                assert(levels::before(resting, side[0].key, side[i].key));
            }
        }
        side.lemma_all_neg_filter_empty(p);
    } else {
        let level = side[0];
        assert(levels::level_ok(resting, level));
        let price = price::price_of(level.key);
        lemma_level_near(resting, level.key, taker, level.orders, price, ts, w);
        totals::lemma_filtered_total_front(side, p, amounts());
        totals::lemma_filtered_total_front(side, p, ones());
        let m = levels::match_level(taker, level.orders, price, ts);
        if !m.taker.filled() {
            let tail = side.drop_first();
            assert forall|i: int| 0 <= i < tail.len() implies levels::level_ok(
                resting,
                #[trigger] tail[i],
            ) by {
                assert(tail[i] == side[i + 1]);
            }
            lemma_side_near(resting, m.taker, tail, limit, ts, w);
            let i = totals::orders_total(level.orders, ones());
            let j = totals::levels_total(tail.filter(p), ones());
            assert((i + j) * u == i * u + j * u) by (nonlinear_arith);
        }
    }
}

/// The tolerance of an order is more than one part in two to the power of 31, unless
/// the order is so small that nothing is lost in rounding.
proof fn lemma_tolerance(o: Order)
    requires
        o.qty.finite(),
        o.qty.value() > 0,
    ensures
        tolerance(o).finite(),
        !tolerance(o).negative(),
        o.qty.value() >= 2 * rounding::BINADE ==> tolerance(o).value() * 0x8000_0000 >= o.qty.value(),
{
    let tol = Binary64 { bits: order::QTY_REL_TOL };
    let t = order::QTY_REL_TOL as int;
    let binade = rounding::BINADE as int;
    laws::lemma_one();
    rounding::lemma_magnitude_increases(t, binary64::ONE as int);
    laws::lemma_product_with_fraction(o.qty, tol);
    let n = o.qty.units();
    if n >= 2 * binade {
        let d = pow2(UNIT_DIGITS as nat);
        lemma_pow2_pos(UNIT_DIGITS as nat);
        let pattern = o.qty.pattern();
        assert(pattern >= binade);
        let g = (pattern / binade - 1) as nat;
        let q = (binade + pattern % binade) as nat;
        lemma_pow2_pos(g);
        assert(g > 0) by {
            if g == 0 {
                lemma2_to64();
                assert(n == q * pow2(0));
                assert(q * 1 == q) by (nonlinear_arith);
            }
        }
        // the tolerance is at least two to the power of 1044 units
        assert(t / binade == 993);
        let tq = binade + t % binade;
        assert(tol.units() == tq * pow2(992));
        lemma_pow2_pos(992);
        lemma_pow2_adds(30, 992);
        lemma_pow2_adds(52, 1022);
        lemma2_to64();
        lemma2_to64_rest();
        let a = pow2(992) as int;
        assert(d == binade * (0x4000_0000 * a)) by (nonlinear_arith)
            requires
                d == pow2(52) * pow2(1022),
                pow2(52) == binade,
                pow2(1022) == 0x4000_0000 * a,
        ;
        assert(tol.units() * 0x4000_0000 >= d) by (nonlinear_arith)
            requires
                tol.units() == tq * a,
                tq >= binade,
                a > 0,
                d == binade * (0x4000_0000 * a),
        ;
        // so the product is at least the quantity's power of two, less 30 places
        let bound: int = if g >= 30 {
            (g - 30) * binade + binade
        } else {
            pow2((22 + g) as nat) as int
        };
        let m = rounding::magnitude(bound) as int;
        assert(m * 0x4000_0000 == binade * pow2(g) && 0 <= bound <= rounding::INFINITY) by {
            if g >= 30 {
                let h = (g - 30) as nat;
                rounding::lemma_magnitude_parts(h, binade as nat);
                lemma_pow2_adds(30, h);
                assert(binade * pow2(h) * 0x4000_0000 == binade * (0x4000_0000 * pow2(h)))
                    by (nonlinear_arith);
                assert(pattern < rounding::INFINITY);
                assert(bound <= pattern);
            } else {
                let h = (22 + g) as nat;
                lemma_pow2_strictly_increases(h, 52);
                lemma_pow2_adds(h, 30);
                lemma_pow2_adds(52, g);
                assert(rounding::magnitude(bound) == bound);
            }
        }
        assert(m * d <= n * tol.units()) by (nonlinear_arith)
            requires
                m * 0x4000_0000 == binade * pow2(g),
                n == q * pow2(g),
                q >= binade,
                tol.units() * 0x4000_0000 >= d,
                m >= 0,
                pow2(g) > 0,
                d > 0,
        {
            assert(n >= binade * pow2(g));
            assert(n >= m * 0x4000_0000);
            assert(n * tol.units() >= (m * 0x4000_0000) * tol.units());
            assert((m * 0x4000_0000) * tol.units() == m * (tol.units() * 0x4000_0000));
            assert(m * (tol.units() * 0x4000_0000) >= m * d);
        }
        rounding::lemma_nearest_at_least(n * tol.units(), d, bound);
        rounding::lemma_nearest_exists(n * tol.units(), d);
        let r = rounding::nearest(n * tol.units(), d);
        assert(tolerance(o).pattern() == r);
        if r > bound {
            rounding::lemma_magnitude_increases(bound, r);
        }
        assert(tolerance(o).value() >= m);
        assert(m * 0x8000_0000 >= n) by (nonlinear_arith)
            requires
                m * 0x4000_0000 == binade * pow2(g),
                n == q * pow2(g),
                q < 2 * binade,
                pow2(g) > 0,
        ;
    }
}

/// The slack of all resting orders together, twice and one more, is within the
/// tolerance.
proof fn lemma_slack_within_tolerance(o: Order, k: int)
    requires
        o.qty.finite(),
        o.qty.value() > 0,
        o.remaining.finite(),
        0 <= o.remaining.value() <= o.qty.value(),
        0 <= k <= MOST_ORDERS,
    ensures
        (2 * k + 1) * slack(o.remaining) <= tolerance(o).value(),
        k * slack(o.remaining) <= (2 * k + 1) * slack(o.remaining),
        slack(o.remaining) >= 0,
{
    lemma_tolerance(o);
    let w = o.remaining.value();
    let u = slack(o.remaining);
    let c = 2 * rounding::BINADE as int;
    vstd::arithmetic::div_mod::lemma_fundamental_div_mod(w, c);
    vstd::arithmetic::div_mod::lemma_div_pos_is_pos(w, c);
    if w < c {
        assert(u == 0);
        assert((2 * k + 1) * 0 == 0) by (nonlinear_arith);
        assert(k * 0 == 0) by (nonlinear_arith);
    } else {
        let t = tolerance(o).value();
        assert((2 * k + 1) * u <= t) by (nonlinear_arith)
            requires
                0 <= k <= 0x10_0000,
                u >= 0,
                c * u <= w,
                w <= t * 0x8000_0000,
                c == 0x20_0000_0000_0000,
        {
            assert((2 * k + 1) * u <= 0x20_0001 * u);
            assert(0x20_0001 * u * 0x8000_0000 <= c * u);
        }
        assert(k * u <= (2 * k + 1) * u) by (nonlinear_arith)
            requires
                0 <= k,
                u >= 0,
        ;
    }
}

/// The levels that an order may trade with hold amounts only.
proof fn lemma_reachable_amounts(b: BookView, o: Order)
    requires
        b.ok(),
    ensures
        ({
            let other = o.side.other();
            let near = totals::reachable(other, b.side(other), book::limit_of(o));
            let lined = levels::by_price(other, near);
            &&& forall|i: int|
                0 <= i < lined.len() ==> all_amounts((#[trigger] lined[i]).orders)
            &&& totals::levels_total(lined, amounts()) == totals::levels_total(near, amounts())
            &&& totals::levels_total(lined, ones()) == totals::levels_total(near, ones())
        }),
{
    let other = o.side.other();
    let side = b.side(other);
    let limit = book::limit_of(o);
    let near = totals::reachable(other, side, limit);
    let lined = levels::by_price(other, near);
    totals::lemma_total_reversed(near, amounts());
    totals::lemma_total_reversed(near, ones());
    assert forall|i: int| 0 <= i < lined.len() implies all_amounts((#[trigger] lined[i]).orders) by {
        let level = lined[i];
        match other {
            Side::Sell => assert(level == near[i]),
            Side::Buy => assert(level == near[near.len() - 1 - i]),
        }
        side.lemma_filter_contains_rev(|l: LevelView| levels::within(other, limit, l.key), level);
        assert(levels::level_ok(other, level));
        assert forall|j: int| 0 <= j < level.orders.len() implies (
        #[trigger] level.orders[j]).remaining.finite() && level.orders[j].remaining.value()
            >= 0 by {
            let resting = level.orders[j];
            assert(levels::rests_at(other, level.key, resting));
            order::lemma_dust(resting.remaining, resting.qty);
        }
    }
}

/// Where the other side holds as much within an order's limit as remains of the
/// order, the order is filled: a fill-or-kill order is accepted, nothing is
/// cancelled and nothing rests.
pub proof fn lemma_sufficient_liquidity_fills(b: BookView, o: Order, ts: i64)
    requires
        b.ok(),
        price::validity(o) is Ok,
        o.remaining.finite(),
        0 <= o.remaining.value() <= o.qty.value(),
        ({
            let other = o.side.other();
            let near = totals::reachable(other, b.side(other), book::limit_of(o));
            &&& totals::levels_total(near, ones()) <= MOST_ORDERS
            &&& totals::levels_total(near, amounts()) >= o.remaining.value()
        }),
    ensures
        b.can_fill(o),
        b.matched(o, ts).taker.filled(),
        b.submitted(o, ts).events == b.matched(o, ts).events,
        b.submitted(o, ts).book.side(o.side) == b.side(o.side),
{
    let other = o.side.other();
    let side = b.side(other);
    let limit = book::limit_of(o);
    let near = totals::reachable(other, side, limit);
    let w = o.remaining;
    assert((Binary64 { bits: 0 }).value() == 0);
    lemma_reachable_amounts(b, o);
    lemma_levels_near(levels::by_price(other, near), w);
    let k = totals::levels_total(near, ones());
    lemma_slack_within_tolerance(o, k);
    lemma_tolerance(o);
    let offer = levels::available(other, side, limit);
    let rest = w.difference(offer);
    lemma_difference_at_most(w, offer, tolerance(o));
    lemma_side_near(other, o, side, limit, ts, w);
}

/// A difference that is at most a number is rounded to at most that number.
proof fn lemma_difference_at_most(a: Binary64, b: Binary64, bound: Binary64)
    requires
        a.finite(),
        is_amount(a),
        is_amount(b),
        bound.finite(),
        !bound.negative(),
        a.value() - b.value() <= bound.value(),
    ensures
        a.difference(b).at_most(bound),
{
    binary64::lemma_opposite(b);
    laws::lemma_units_of_finite(a);
    laws::lemma_units_of_finite(b);
    if b.finite() {
        let exact = a.value() - b.value();
        let n = arithmetic::absolute_of(exact);
        rounding::lemma_nearest_exists(n, 1);
        let r = rounding::nearest(n, 1);
        assert(a.difference(b).pattern() == r);
        if exact >= 0 {
            rounding::lemma_nearest_at_most(n, 1, bound.pattern());
            if r < bound.pattern() {
                rounding::lemma_magnitude_increases(r, bound.pattern());
            }
        }
    }
}

/// A fill-or-kill order that is accepted is filled, but for rounding: no more than
/// twice its tolerance for dust is left of it.
pub proof fn lemma_accepted_fok_leaves_dust(b: BookView, o: Order, ts: i64)
    requires
        b.ok(),
        o.kind is Fok,
        price::validity(o) is Ok,
        o.remaining.finite(),
        0 <= o.remaining.value() <= o.qty.value(),
        b.can_fill(o),
        totals::levels_total(
            totals::reachable(o.side.other(), b.side(o.side.other()), book::limit_of(o)),
            ones(),
        ) <= MOST_ORDERS,
    ensures
        b.matched(o, ts).taker.remaining.value() <= 2 * tolerance(o).value(),
{
    let other = o.side.other();
    let side = b.side(other);
    let limit = book::limit_of(o);
    let near = totals::reachable(other, side, limit);
    let w = o.remaining;
    assert((Binary64 { bits: 0 }).value() == 0);
    lemma_reachable_amounts(b, o);
    lemma_levels_near(levels::by_price(other, near), w);
    let k = totals::levels_total(near, ones());
    let total = totals::levels_total(near, amounts());
    lemma_slack_within_tolerance(o, k);
    lemma_tolerance(o);
    let offer = levels::available(other, side, limit);
    lemma_side_near(other, o, side, limit, ts, w);
    let taker = b.matched(o, ts).taker;
    let u = slack(w);
    assert((2 * k + 1) * u == 2 * (k * u) + u) by (nonlinear_arith);
    if taker.filled() {
        levels::lemma_match_levels(other, o, side, limit, ts);
    } else if w.value() > offer.value() {
        laws::lemma_units_of_finite(offer);
        laws::lemma_units_of_finite(w);
        binary64::lemma_opposite(offer);
        let exact = (w.value() - offer.value()) as nat;
        rounding::lemma_nearest_exists(exact, 1);
        laws::lemma_difference_between(w, offer);
        rounding::lemma_nearest_error(exact);
        let rest = w.difference(offer);
        lemma_slack(exact - rest.value(), exact as int, w);
        assert(w.value() - offer.value() <= tolerance(o).value() + u);
    }
}

} // verus!
