//! Matching where all quantities are whole multiples of one step, so that nothing
//! is lost in rounding.

use vstd::prelude::*;
use vstd::arithmetic::power2::*;
use super::book::BookView;
use super::levels::LevelView;
use super::order::{Order, Side};
use super::{book, levels, order, price, totals};
use crate::binary64;
use crate::binary64::{arithmetic, laws, rounding};
use crate::Binary64;

verus! {

/// The number of steps of a quantity. A step is two to the power of `e` units of the
/// smallest positive number.
pub open spec fn steps(x: Binary64, e: nat) -> int {
    x.value() / pow2(e) as int
}

/// The quantity is a whole number of steps.
pub open spec fn stepped(x: Binary64, e: nat) -> bool {
    x.finite() && x.value() == steps(x, e) * pow2(e)
}

/// The number of steps that remain of an order.
pub open spec fn in_steps(e: nat) -> spec_fn(Order) -> int {
    |o: Order| steps(o.remaining, e)
}

/// Every order's remaining quantity is a whole number of steps.
pub open spec fn orders_stepped(orders: Seq<Order>, e: nat) -> bool {
    forall|i: int| 0 <= i < orders.len() ==> stepped((#[trigger] orders[i]).remaining, e)
}

/// Every remaining quantity is a whole number of steps.
pub open spec fn levels_stepped(side: Seq<LevelView>, e: nat) -> bool {
    forall|i: int| 0 <= i < side.len() ==> orders_stepped((#[trigger] side[i]).orders, e)
}

proof fn lemma_steps(x: Binary64, n: int, e: nat)
    requires
        x.finite(),
        x.value() == n * pow2(e),
    ensures
        steps(x, e) == n,
        stepped(x, e),
{
    lemma_pow2_pos(e);
    vstd::arithmetic::div_mod::lemma_div_multiples_vanish(n, pow2(e) as int);
    assert(n * pow2(e) == pow2(e) as int * n) by (nonlinear_arith);
}

/// Sums of few enough steps are exact.
proof fn lemma_sum_exact(a: Binary64, b: Binary64, i: int, j: int, e: nat)
    requires
        e <= 2044,
        a.finite(),
        b.finite(),
        a.value() == i * pow2(e),
        b.value() == j * pow2(e),
        -(2 * rounding::BINADE) < i + j < 2 * rounding::BINADE,
    ensures
        a.sum(b).finite(),
        a.sum(b).value() == (i + j) * pow2(e),
{
    let p = pow2(e) as int;
    lemma_pow2_pos(e);
    let exact = a.value() + b.value();
    assert(exact == (i + j) * p) by (nonlinear_arith)
        requires
            a.value() == i * p,
            b.value() == j * p,
            exact == a.value() + b.value(),
    ;
    let n = arithmetic::absolute_of(i + j);
    assert(arithmetic::absolute_of(exact) == n * p) by (nonlinear_arith)
        requires
            exact == (i + j) * p,
            p > 0,
            n == if i + j < 0 {
                -(i + j)
            } else {
                i + j
            },
            arithmetic::absolute_of(exact) == if exact < 0 {
                -exact
            } else {
                exact
            },
    ;
    laws::lemma_rounded_exactly(true, n, e);
    laws::lemma_rounded_exactly(false, n, e);
    assert(exact < 0 <==> i + j < 0) by (nonlinear_arith)
        requires
            exact == (i + j) * p,
            p > 0,
    ;
    assert(exact == 0 ==> i + j == 0) by (nonlinear_arith)
        requires
            exact == (i + j) * p,
            p > 0,
    ;
    assert(-(n * p) == -n * p) by (nonlinear_arith);
}

/// Differences of few enough steps are exact.
proof fn lemma_difference_exact(a: Binary64, b: Binary64, i: int, j: int, e: nat)
    requires
        e <= 2044,
        a.finite(),
        b.finite(),
        a.value() == i * pow2(e),
        b.value() == j * pow2(e),
        -(2 * rounding::BINADE) < i - j < 2 * rounding::BINADE,
    ensures
        a.difference(b).finite(),
        a.difference(b).value() == (i - j) * pow2(e),
{
    binary64::lemma_opposite(b);
    assert(-(j * pow2(e)) == -j * pow2(e)) by (nonlinear_arith);
    lemma_sum_exact(a, b.opposite(), i, -j, e);
}

/// The orders of a level that a taker cannot use up leave nothing of it; where
/// something is left, it is exactly what the orders lack.
proof fn lemma_level_exact(
    resting: Side,
    key: u64,
    taker: Order,
    orders: Seq<Order>,
    price: Binary64,
    ts: i64,
    e: nat,
)
    requires
        e <= 2044,
        levels::sound(taker),
        stepped(taker.remaining, e),
        steps(taker.remaining, e) < 2 * rounding::BINADE,
        orders_stepped(orders, e),
        forall|i: int|
            0 <= i < orders.len() ==> levels::rests_at(resting, key, #[trigger] orders[i]),
    ensures
        ({
            let m = levels::match_level(taker, orders, price, ts);
            m.taker.filled() || {
                &&& m.orders.len() == 0
                &&& levels::sound(m.taker)
                &&& m.taker.qty == taker.qty
                &&& stepped(m.taker.remaining, e)
                &&& steps(m.taker.remaining, e) == steps(taker.remaining, e)
                    - totals::orders_total(orders, in_steps(e))
                &&& steps(m.taker.remaining, e) <= steps(taker.remaining, e)
            }
        }),
    decreases orders.len(),
{
    if !taker.filled() && orders.len() > 0 {
        let maker = orders[0];
        assert(levels::rests_at(resting, key, maker));
        assert(stepped(maker.remaining, e));
        levels::lemma_trade(taker, maker);
        totals::lemma_orders_total_front(orders, in_steps(e));
        let qty = levels::traded(taker, maker);
        let left = levels::reduced(taker, qty);
        if maker.remaining.less(taker.remaining) {
            let t = steps(taker.remaining, e);
            let m = steps(maker.remaining, e);
            lemma_pow2_pos(e);
            let p = pow2(e) as int;
            assert(0 < m < t) by (nonlinear_arith)
                requires
                    0 < m * p < t * p,
                    p > 0,
            ;
            lemma_difference_exact(taker.remaining, maker.remaining, t, m, e);
            lemma_steps(left.remaining, t - m, e);
            laws::lemma_difference_between(maker.remaining, maker.remaining);
            order::lemma_dust(maker.remaining.difference(qty), maker.qty);
            let tail = orders.drop_first();
            assert forall|i: int| 0 <= i < tail.len() implies levels::rests_at(
                resting,
                key,
                #[trigger] tail[i],
            ) && stepped(tail[i].remaining, e) by {
                assert(tail[i] == orders[i + 1]);
            }
            lemma_level_exact(resting, key, left, tail, price, ts, e);
        } else {
            laws::lemma_difference_between(taker.remaining, taker.remaining);
            order::lemma_dust(left.remaining, taker.qty);
            assert(left.filled());
            assert(levels::match_level(left, orders.drop_first(), price, ts).taker == left);
        }
    }
}

/// Where something is left of a taker, it is exactly what one side of the book lacks
/// within its limit.
proof fn lemma_side_exact(
    resting: Side,
    taker: Order,
    side: Seq<LevelView>,
    limit: Option<u64>,
    ts: i64,
    e: nat,
)
    requires
        e <= 2044,
        levels::sound(taker),
        stepped(taker.remaining, e),
        steps(taker.remaining, e) < 2 * rounding::BINADE,
        levels::side_ok(resting, side),
        levels_stepped(side, e),
    ensures
        ({
            let m = levels::match_levels(resting, taker, side, limit, ts);
            m.taker.filled() || {
                &&& m.taker.qty == taker.qty
                &&& levels::sound(m.taker)
                &&& stepped(m.taker.remaining, e)
                &&& steps(m.taker.remaining, e) == steps(taker.remaining, e) - totals::levels_total(
                    totals::reachable(resting, side, limit),
                    in_steps(e),
                )
            }
        }),
    decreases side.len(),
{
    let p = |l: LevelView| levels::within(resting, limit, l.key);
    if side.len() == 0 {
        reveal(Seq::filter);
    } else if !levels::within(resting, limit, side[0].key) {
        assert forall|i: int| 0 <= i < side.len() implies !p(#[trigger] side[i]) by {
            if i > 0 {
                assert(levels::before(resting, side[0].key, side[i].key));
            }
        }
        side.lemma_all_neg_filter_empty(p);
    } else {
        let level = side[0];
        assert(levels::level_ok(resting, level));
        assert(orders_stepped(level.orders, e));
        let price = price::price_of(level.key);
        lemma_level_exact(resting, level.key, taker, level.orders, price, ts, e);
        totals::lemma_filtered_total_front(side, p, in_steps(e));
        let m = levels::match_level(taker, level.orders, price, ts);
        if !m.taker.filled() {
            let tail = side.drop_first();
            assert forall|i: int| 0 <= i < tail.len() implies levels::level_ok(
                resting,
                #[trigger] tail[i],
            ) && orders_stepped(tail[i].orders, e) by {
                assert(tail[i] == side[i + 1]);
            }
            lemma_side_exact(resting, m.taker, tail, limit, ts, e);
        }
    }
}

proof fn lemma_orders_total_positive(orders: Seq<Order>, e: nat)
    requires
        orders_stepped(orders, e),
        forall|i: int| 0 <= i < orders.len() ==> (#[trigger] orders[i]).remaining.value() >= 0,
    ensures
        totals::orders_total(orders, in_steps(e)) >= 0,
    decreases orders.len(),
{
    if orders.len() > 0 {
        let front = orders.drop_last();
        assert forall|i: int| 0 <= i < front.len() implies stepped(
            (#[trigger] front[i]).remaining,
            e,
        ) && front[i].remaining.value() >= 0 by {
            assert(front[i] == orders[i]);
        }
        lemma_orders_total_positive(front, e);
        let last = orders[orders.len() - 1];
        lemma_pow2_pos(e);
        vstd::arithmetic::div_mod::lemma_div_pos_is_pos(last.remaining.value(), pow2(e) as int);
    }
}

/// What remains of some orders adds up without loss.
proof fn lemma_orders_add_up(start: Binary64, n: int, orders: Seq<Order>, e: nat)
    requires
        e <= 2044,
        start.finite(),
        0 <= n,
        start.value() == n * pow2(e),
        orders_stepped(orders, e),
        forall|i: int| 0 <= i < orders.len() ==> (#[trigger] orders[i]).remaining.value() >= 0,
        n + totals::orders_total(orders, in_steps(e)) < 2 * rounding::BINADE,
    ensures
        levels::plus_orders(start, orders).finite(),
        levels::plus_orders(start, orders).value() == (n + totals::orders_total(
            orders,
            in_steps(e),
        )) * pow2(e),
    decreases orders.len(),
{
    if orders.len() > 0 {
        let front = orders.drop_last();
        let last = orders[orders.len() - 1];
        assert forall|i: int| 0 <= i < front.len() implies stepped(
            (#[trigger] front[i]).remaining,
            e,
        ) && front[i].remaining.value() >= 0 by {
            assert(front[i] == orders[i]);
        }
        lemma_pow2_pos(e);
        vstd::arithmetic::div_mod::lemma_div_pos_is_pos(last.remaining.value(), pow2(e) as int);
        lemma_orders_total_positive(front, e);
        lemma_orders_add_up(start, n, front, e);
        lemma_sum_exact(
            levels::plus_orders(start, front),
            last.remaining,
            n + totals::orders_total(front, in_steps(e)),
            steps(last.remaining, e),
            e,
        );
    }
}

/// Something is left of every order of some levels.
pub open spec fn all_left(side: Seq<LevelView>) -> bool {
    forall|i: int, j: int|
        0 <= i < side.len() && 0 <= j < side[i].orders.len() ==> (
        #[trigger] side[i].orders[j]).remaining.value() >= 0
}

proof fn lemma_levels_add_up(side: Seq<LevelView>, e: nat)
    requires
        e <= 2044,
        levels_stepped(side, e),
        all_left(side),
        totals::levels_total(side, in_steps(e)) < 2 * rounding::BINADE,
    ensures
        levels::plus_levels(side).finite(),
        levels::plus_levels(side).value() == totals::levels_total(side, in_steps(e)) * pow2(e),
        totals::levels_total(side, in_steps(e)) >= 0,
    decreases side.len(),
{
    if side.len() == 0 {
        assert((Binary64 { bits: binary64::SIGN }).value() == 0);
        assert(0 * pow2(e) == 0) by (nonlinear_arith);
    } else {
        let front = side.drop_last();
        let last = side[side.len() - 1];
        assert forall|i: int| 0 <= i < front.len() implies orders_stepped(
            (#[trigger] front[i]).orders,
            e,
        ) by {
            assert(front[i] == side[i]);
        }
        assert forall|i: int, j: int|
            0 <= i < front.len() && 0 <= j < front[i].orders.len() implies (
        #[trigger] front[i].orders[j]).remaining.value() >= 0 by {
            assert(front[i] == side[i]);
            assert(side[i].orders[j].remaining.value() >= 0);
        }
        assert(orders_stepped(last.orders, e));
        assert forall|j: int| 0 <= j < last.orders.len() implies (
        #[trigger] last.orders[j]).remaining.value() >= 0 by {
            assert(side[side.len() - 1].orders[j].remaining.value() >= 0);
        }
        lemma_orders_total_positive(last.orders, e);
        lemma_levels_add_up(front, e);
        lemma_orders_add_up(
            levels::plus_levels(front),
            totals::levels_total(front, in_steps(e)),
            last.orders,
            e,
        );
    }
}

/// A fill-or-kill order that is not cancelled is filled as a whole, where all
/// quantities are whole numbers of one step and there are fewer than two to the
/// power of 53 steps on either side.
pub proof fn lemma_accepted_fok_is_filled(b: BookView, o: Order, ts: i64, e: nat)
    requires
        b.ok(),
        o.kind is Fok,
        price::validity(o) is Ok,
        b.can_fill(o),
        e <= 2044,
        stepped(o.remaining, e),
        steps(o.remaining, e) < 2 * rounding::BINADE,
        levels_stepped(b.side(o.side.other()), e),
        totals::levels_total(
            totals::reachable(o.side.other(), b.side(o.side.other()), book::limit_of(o)),
            in_steps(e),
        ) < 2 * rounding::BINADE,
    ensures
        b.matched(o, ts).taker.filled(),
{
    let other = o.side.other();
    let side = b.side(other);
    let limit = book::limit_of(o);
    let near = totals::reachable(other, side, limit);
    let taker = b.matched(o, ts).taker;
    assert((Binary64 { bits: 0 }).value() == 0);
    lemma_side_exact(other, o, side, limit, ts, e);
    if !taker.filled() {
        assert forall|i: int| 0 <= i < near.len() implies levels::level_ok(
            other,
            #[trigger] near[i],
        ) && orders_stepped(near[i].orders, e) by {
            side.lemma_filter_contains_rev(
                |l: LevelView| levels::within(other, limit, l.key),
                near[i],
            );
        }
        let lined = levels::by_price(other, near);
        assert forall|i: int| 0 <= i < lined.len() implies levels::level_ok(
            other,
            #[trigger] lined[i],
        ) && orders_stepped(lined[i].orders, e) by {
            match other {
                Side::Sell => assert(lined[i] == near[i]),
                Side::Buy => assert(lined[i] == near[near.len() - 1 - i]),
            }
        }
        assert forall|i: int, j: int|
            0 <= i < lined.len() && 0 <= j < lined[i].orders.len() implies (
        #[trigger] lined[i].orders[j]).remaining.value() >= 0 by {
            assert(levels::level_ok(other, lined[i]));
            let resting = lined[i].orders[j];
            assert(levels::rests_at(other, lined[i].key, resting));
            order::lemma_dust(resting.remaining, resting.qty);
        }
        totals::lemma_total_reversed(near, in_steps(e));
        lemma_levels_add_up(lined, e);
        let offer = levels::available(other, side, limit);
        let t = steps(o.remaining, e);
        let n = totals::levels_total(near, in_steps(e));
        order::lemma_dust(taker.remaining, taker.qty);
        lemma_pow2_pos(e);
        let p = pow2(e) as int;
        assert(t - n > 0) by (nonlinear_arith)
            requires
                (t - n) * p > 0,
                p > 0,
        ;
        lemma_difference_exact(o.remaining, offer, t, n, e);
        assert(order::is_dust(taker.remaining, o.qty));
    }
}

} // verus!
