//! Price-time priority: who trades first, at what price, and how much.

use vstd::prelude::*;
use super::book::BookView;
use super::event::{CancelReason, TradeEvent};
use super::levels::LevelView;
use super::order::{Order, Side};
use super::{book, levels, price};
use crate::Binary64;

verus! {

/// The orders that rest at a price, in the order in which they are served.
pub open spec fn queue_at(side: Seq<LevelView>, key: u64) -> Seq<Order>
    decreases side.len(),
{
    if side.len() == 0 {
        Seq::empty()
    } else if side[0].key == key {
        side[0].orders
    } else {
        queue_at(side.drop_first(), key)
    }
}

/// All orders of one side, in the order in which they are served.
pub open spec fn makers(side: Seq<LevelView>) -> Seq<Order>
    decreases side.len(),
{
    if side.len() == 0 {
        Seq::empty()
    } else {
        side[0].orders + makers(side.drop_first())
    }
}

/// The key of the price of an order that has one.
pub open spec fn key(o: Order) -> u64 {
    price::key_of(o.price->Some_0)->Ok_0
}

/// The first order is served before the second: the lower of two sells, the higher of two
/// buys.
pub open spec fn comes_first(side: Side, a: u64, b: u64) -> bool {
    match side {
        Side::Sell => a < b,
        Side::Buy => b < a,
    }
}

/// A price at which an order of the other side rests is no worse than the limit: no
/// higher for who buys, and no lower for who sells.
pub open spec fn is_no_worse(resting: Side, price: u64, limit: Option<u64>) -> bool {
    match limit {
        Some(worst) => match resting {
            Side::Sell => price <= worst,
            Side::Buy => price >= worst,
        },
        None => true,
    }
}

proof fn lemma_side_tail(resting: Side, side: Seq<LevelView>)
    requires
        levels::side_ok(resting, side),
        side.len() > 0,
    ensures
        levels::side_ok(resting, side.drop_first()),
        levels::level_ok(resting, side[0]),
        forall|i: int|
            0 <= i < side.drop_first().len() ==> levels::before(
                resting,
                side[0].key,
                (#[trigger] side.drop_first()[i]).key,
            ),
{
    let tail = side.drop_first();
    assert forall|i: int| 0 <= i < tail.len() implies levels::level_ok(
        resting,
        #[trigger] tail[i],
    ) by {
        assert(tail[i] == side[i + 1]);
    }
}

proof fn lemma_no_queue(resting: Side, side: Seq<LevelView>, k: u64)
    requires
        forall|i: int| 0 <= i < side.len() ==> (#[trigger] side[i]).key != k,
    ensures
        queue_at(side, k) == Seq::<Order>::empty(),
    decreases side.len(),
{
    if side.len() > 0 {
        assert(side[0].key != k);
        let tail = side.drop_first();
        assert forall|i: int| 0 <= i < tail.len() implies (#[trigger] tail[i]).key != k by {
            assert(tail[i] == side[i + 1]);
        }
        lemma_no_queue(resting, tail, k);
    }
}

/// An order that is put on a side goes to the end of the queue at its price, behind all
/// that rest there already, and no other queue changes.
pub proof fn lemma_rests_behind(
    resting: Side,
    side: Seq<LevelView>,
    at: u64,
    o: Order,
    k: u64,
)
    requires
        levels::side_ok(resting, side),
    ensures
        queue_at(levels::with_order(resting, side, at, o), k) == if k == at {
            queue_at(side, at).push(o)
        } else {
            queue_at(side, k)
        },
    decreases side.len(),
{
    let after = levels::with_order(resting, side, at, o);
    if side.len() == 0 || levels::before(resting, at, side[0].key) {
        assert forall|i: int| 0 <= i < side.len() implies (#[trigger] side[i]).key != at by {
            if i > 0 {
                assert(levels::before(resting, side[0].key, side[i].key));
            }
        }
        lemma_no_queue(resting, side, at);
        assert(after[0] == (LevelView { key: at, orders: seq![o] }));
        assert(after.drop_first() =~= side);
        assert(seq![o] =~= Seq::<Order>::empty().push(o));
    } else if side[0].key == at {
        assert(after.drop_first() =~= side.drop_first());
    } else {
        lemma_side_tail(resting, side);
        lemma_rests_behind(resting, side.drop_first(), at, o, k);
        assert(after[0] == side[0]);
        assert(after.drop_first() =~= levels::with_order(resting, side.drop_first(), at, o));
    }
}

/// What is left of a limit order that was not filled rests behind all orders of its side
/// at its price, and no other queue of its side changes. Any other order, and one that
/// was filled, leaves all queues of its side as they were.
pub proof fn lemma_first_come_first_queued(b: BookView, o: Order, ts: i64, k: u64)
    requires
        b.ok(),
        book::entry(o) is Ok,
    ensures
        ({
            let own = b.side(o.side);
            let after = b.submitted(o, ts).book.side(o.side);
            let left = b.matched(o, ts).taker;
            let rests = o.kind is Limit && !left.filled();
            &&& queue_at(after, k) == if rests && k == key(o) {
                queue_at(own, k).push(left)
            } else {
                queue_at(own, k)
            }
            &&& left == (Order { remaining: left.remaining, ..o })
        }),
{
    let other = o.side.other();
    book::lemma_submit_keeps_book(b, o, ts);
    book::lemma_entry_is_sound(o);
    levels::lemma_match_levels(other, o, b.side(other), book::limit_of(o), ts);
    let left = b.matched(o, ts).taker;
    if o.kind is Limit && !left.filled() {
        lemma_rests_behind(o.side, b.side(o.side), key(o), left, k);
    }
}

/// The quantity that is left of an order after so many trades.
pub open spec fn left_after(taker: Order, events: Seq<TradeEvent>, trades: int) -> Binary64
    decreases trades,
{
    if trades <= 0 {
        taker.remaining
    } else {
        left_after(taker, events, trades - 1).difference(events[2 * trades - 2]->Fill_0.qty)
    }
}

/// A trade: a fill of the taker and one of the maker, of the same quantity and at the
/// maker's price. The quantity is what is left of the smaller of the two.
pub open spec fn is_trade_with(
    events: Seq<TradeEvent>,
    j: int,
    taker: Order,
    maker: Order,
    ts: i64,
) -> bool {
    let left = left_after(taker, events, j);
    &&& events[2 * j] matches TradeEvent::Fill(f)
    &&& events[2 * j + 1] matches TradeEvent::Fill(g)
    &&& f.order_id == taker.id
    &&& f.symbol == taker.symbol
    &&& f.side == taker.side
    &&& g.order_id == maker.id
    &&& g.symbol == maker.symbol
    &&& g.side == maker.side
    &&& f.price == price::price_of(key(maker))
    &&& g.price == f.price
    &&& f.ts == ts
    &&& g.ts == ts
    &&& g.qty == f.qty
    &&& f.qty.value() == if left.value() < maker.remaining.value() {
        left.value()
    } else {
        maker.remaining.value()
    }
}

/// The orders that were served are the first of those that were there, each as a whole
/// but for the last, of which something may be left; the others are as they were.
pub open spec fn serves_the_first(
    before: Seq<Order>,
    after: Seq<Order>,
    events: Seq<TradeEvent>,
    taker: Order,
    ts: i64,
) -> bool {
    let gone = before.len() - after.len();
    let trades = events.len() as int / 2;
    &&& events.len() == 2 * trades
    &&& 0 <= gone <= trades <= gone + 1
    &&& trades <= before.len()
    &&& forall|j: int|
        0 <= j < trades ==> #[trigger] is_trade_with(events, j, taker, before[j], ts)
    &&& forall|i: int|
        trades - gone <= i < after.len() ==> #[trigger] after[i] == before[gone + i]
    &&& trades > gone ==> after[0] == (Order {
        remaining: before[gone].remaining.difference(events[2 * gone + 1]->Fill_0.qty),
        ..before[gone]
    })
}

proof fn lemma_left_after_tail(
    taker: Order,
    next: Order,
    events: Seq<TradeEvent>,
    rest: Seq<TradeEvent>,
    n: int,
    j: int,
)
    requires
        n >= 0,
        0 <= j,
        2 * j <= rest.len(),
        events.len() == 2 * n + rest.len(),
        forall|i: int| 0 <= i < rest.len() ==> events[2 * n + i] == #[trigger] rest[i],
        next.remaining == left_after(taker, events, n),
    ensures
        left_after(taker, events, n + j) == left_after(next, rest, j),
    decreases j,
{
    if j > 0 {
        lemma_left_after_tail(taker, next, events, rest, n, j - 1);
        assert(events[2 * n + (2 * j - 2)] == rest[2 * j - 2]);
    }
}

/// Serving the first of some orders and then the first of the rest is serving the first
/// of all.
proof fn lemma_serving_goes_on(
    a: Seq<Order>,
    b: Seq<Order>,
    after: Seq<Order>,
    first: Seq<TradeEvent>,
    rest: Seq<TradeEvent>,
    taker: Order,
    next: Order,
    ts: i64,
)
    requires
        serves_the_first(a, Seq::empty(), first, taker, ts),
        next == (Order {
            remaining: left_after(taker, first, first.len() as int / 2),
            ..taker
        }),
        serves_the_first(b, after, rest, next, ts),
    ensures
        serves_the_first(a + b, after, first + rest, taker, ts),
        left_after(taker, first + rest, (first + rest).len() as int / 2) == left_after(
            next,
            rest,
            rest.len() as int / 2,
        ),
{
    let events = first + rest;
    let n = a.len() as int;
    let before = a + b;
    assert(first.len() == 2 * n);
    assert forall|j: int| 0 <= j <= n implies #[trigger] left_after(taker, events, j) == left_after(
        taker,
        first,
        j,
    ) by {
        lemma_left_after_front(taker, events, first, j);
    }
    let m = rest.len() as int / 2;
    assert forall|j: int| 0 <= j <= m implies #[trigger] left_after(taker, events, n + j)
        == left_after(next, rest, j) by {
        lemma_left_after_tail(taker, next, events, rest, n, j);
    }
    assert forall|j: int| 0 <= j < n + m implies #[trigger] is_trade_with(
        events,
        j,
        taker,
        before[j],
        ts,
    ) by {
        if j < n {
            assert(is_trade_with(first, j, taker, a[j], ts));
            assert(events[2 * j] == first[2 * j] && events[2 * j + 1] == first[2 * j + 1]);
        } else {
            let i = j - n;
            assert(is_trade_with(rest, i, next, b[i], ts));
            assert(events[2 * j] == rest[2 * i] && events[2 * j + 1] == rest[2 * i + 1]);
            assert(left_after(taker, events, n + i) == left_after(next, rest, i));
        }
    }
    let gone = before.len() - after.len();
    assert forall|i: int| n + m - gone <= i < after.len() implies #[trigger] after[i]
        == before[gone + i] by {
        assert(after[i] == b[b.len() - after.len() + i]);
    }
    if n + m > gone {
        let g = b.len() - after.len();
        assert(events[2 * gone + 1] == rest[2 * g + 1]);
        assert(before[gone] == b[g]);
    }
    assert(left_after(taker, events, n + m) == left_after(next, rest, m));
}

proof fn lemma_left_after_front(
    taker: Order,
    events: Seq<TradeEvent>,
    first: Seq<TradeEvent>,
    j: int,
)
    requires
        0 <= j,
        2 * j <= first.len() <= events.len(),
        forall|i: int| 0 <= i < first.len() ==> events[i] == #[trigger] first[i],
    ensures
        left_after(taker, events, j) == left_after(taker, first, j),
    decreases j,
{
    if j > 0 {
        lemma_left_after_front(taker, events, first, j - 1);
        assert(events[2 * j - 2] == first[2 * j - 2]);
    }
}

/// A taker and the queue at one price: the oldest are served first.
proof fn lemma_level_serves_the_first(
    resting: Side,
    at: u64,
    taker: Order,
    orders: Seq<Order>,
    ts: i64,
)
    requires
        levels::sound(taker),
        forall|i: int|
            0 <= i < orders.len() ==> levels::rests_at(resting, at, #[trigger] orders[i]),
    ensures
        ({
            let m = levels::match_level(taker, orders, price::price_of(at), ts);
            &&& serves_the_first(orders, m.orders, m.events, taker, ts)
            &&& m.taker == (Order {
                remaining: left_after(taker, m.events, m.events.len() as int / 2),
                ..taker
            })
        }),
    decreases orders.len(),
{
    let price = price::price_of(at);
    let m = levels::match_level(taker, orders, price, ts);
    if !taker.filled() && orders.len() > 0 {
        let maker = orders[0];
        assert(levels::rests_at(resting, at, maker));
        levels::lemma_trade(taker, maker);
        let qty = levels::traded(taker, maker);
        let next = levels::reduced(taker, qty);
        let pair = seq![
            levels::fill_of(taker, price, qty, ts),
            levels::fill_of(maker, price, qty, ts),
        ];
        assert(left_after(taker, pair, 0) == taker.remaining);
        assert(left_after(taker, pair, 1) == next.remaining) by {
            assert(pair[0]->Fill_0.qty == qty);
        }
        assert(is_trade_with(pair, 0, taker, maker, ts));
        assert(pair.len() as int / 2 == 1);
        if levels::reduced(maker, qty).filled() {
            let tail = orders.drop_first();
            assert forall|i: int| 0 <= i < tail.len() implies levels::rests_at(
                resting,
                at,
                #[trigger] tail[i],
            ) by {
                assert(tail[i] == orders[i + 1]);
            }
            lemma_level_serves_the_first(resting, at, next, tail, ts);
            let rest = levels::match_level(next, tail, price, ts);
            assert(serves_the_first(seq![maker], Seq::empty(), pair, taker, ts));
            lemma_serving_goes_on(
                seq![maker],
                tail,
                rest.orders,
                pair,
                rest.events,
                taker,
                next,
                ts,
            );
            assert(seq![maker] + tail =~= orders);
        } else {
            assert(m.orders =~= orders.update(0, levels::reduced(maker, qty)));
            assert(m.events == pair);
            assert(serves_the_first(orders, m.orders, pair, taker, ts));
        }
    } else {
        assert(serves_the_first(orders, orders, Seq::empty(), taker, ts));
    }
}

/// A taker trades with the orders of the other side in the order of that side, the best
/// price first and the oldest first at one price; each trade is at the maker's price and
/// of what is left of the smaller order.
pub proof fn lemma_side_serves_the_first(
    resting: Side,
    taker: Order,
    side: Seq<LevelView>,
    limit: Option<u64>,
    ts: i64,
)
    requires
        levels::sound(taker),
        levels::side_ok(resting, side),
    ensures
        ({
            let m = levels::match_levels(resting, taker, side, limit, ts);
            &&& serves_the_first(makers(side), makers(m.levels), m.events, taker, ts)
            &&& m.taker == (Order {
                remaining: left_after(taker, m.events, m.events.len() as int / 2),
                ..taker
            })
        }),
    decreases side.len(),
{
    let m = levels::match_levels(resting, taker, side, limit, ts);
    if side.len() > 0 && levels::within(resting, limit, side[0].key) {
        let at = side[0].key;
        let price = price::price_of(at);
        lemma_side_tail(resting, side);
        let tail = side.drop_first();
        let l = levels::match_level(taker, side[0].orders, price, ts);
        lemma_level_serves_the_first(resting, at, taker, side[0].orders, ts);
        levels::lemma_match_level(resting, at, taker, side[0].orders, price, ts);
        if l.orders.len() > 0 {
            let changed = side.update(0, LevelView { key: at, orders: l.orders });
            assert(changed.drop_first() =~= tail);
            assert(makers(changed) == l.orders + makers(tail));
            lemma_served_with_more(side[0].orders, l.orders, makers(tail), l.events, taker, ts);
        } else {
            assert(l.orders =~= Seq::<Order>::empty());
            if l.taker.filled() {
                lemma_served_with_more(
                    side[0].orders,
                    l.orders,
                    makers(tail),
                    l.events,
                    taker,
                    ts,
                );
                assert(Seq::<Order>::empty() + makers(tail) =~= makers(tail));
            } else {
                lemma_side_serves_the_first(resting, l.taker, tail, limit, ts);
                let rest = levels::match_levels(resting, l.taker, tail, limit, ts);
                lemma_serving_goes_on(
                    side[0].orders,
                    makers(tail),
                    makers(rest.levels),
                    l.events,
                    rest.events,
                    taker,
                    l.taker,
                    ts,
                );
            }
        }
    } else {
        assert(serves_the_first(makers(side), makers(side), Seq::empty(), taker, ts));
    }
}

proof fn lemma_served_with_more(
    before: Seq<Order>,
    after: Seq<Order>,
    more: Seq<Order>,
    events: Seq<TradeEvent>,
    taker: Order,
    ts: i64,
)
    requires
        serves_the_first(before, after, events, taker, ts),
    ensures
        serves_the_first(before + more, after + more, events, taker, ts),
{
    let all = before + more;
    let left = after + more;
    let gone = before.len() - after.len();
    let trades = events.len() as int / 2;
    assert forall|j: int| 0 <= j < trades implies #[trigger] is_trade_with(
        events,
        j,
        taker,
        all[j],
        ts,
    ) by {
        assert(is_trade_with(events, j, taker, before[j], ts));
    }
    assert forall|i: int| trades - gone <= i < left.len() implies #[trigger] left[i] == all[gone
        + i] by {
        if i < after.len() {
            assert(left[i] == after[i]);
            assert(after[i] == before[gone + i]);
        }
    }
}

/// The orders of one side are served by price, the lowest sell and the highest buy first,
/// and each of them is of that side, has a price, and has something left.
pub proof fn lemma_makers_are_sorted(resting: Side, side: Seq<LevelView>)
    requires
        levels::side_ok(resting, side),
    ensures
        forall|i: int, j: int|
            #![trigger makers(side)[i], makers(side)[j]]
            0 <= i < j < makers(side).len() ==> key(makers(side)[i]) == key(makers(side)[j])
                || comes_first(resting, key(makers(side)[i]), key(makers(side)[j])),
        forall|i: int|
            0 <= i < makers(side).len() ==> {
                let o = #[trigger] makers(side)[i];
                o.side == resting && o.price is Some && o.remaining.finite()
                    && o.remaining.value() > 0 && exists|l: int|
                    0 <= l < side.len() && (#[trigger] side[l]).key == key(o)
            },
    decreases side.len(),
{
    let all = makers(side);
    if side.len() > 0 {
        lemma_side_tail(resting, side);
        let first = side[0].orders;
        let tail = side.drop_first();
        lemma_makers_are_sorted(resting, tail);
        let rest = makers(tail);
        assert forall|i: int| 0 <= i < all.len() implies {
            let o = #[trigger] all[i];
            o.side == resting && o.price is Some && o.remaining.finite() && o.remaining.value() > 0
                && exists|l: int| 0 <= l < side.len() && (#[trigger] side[l]).key == key(o)
        } by {
            let o = all[i];
            if i < first.len() {
                assert(levels::rests_at(resting, side[0].key, first[i]));
                super::order::lemma_dust(o.remaining, o.qty);
                assert(side[0].key == key(o));
            } else {
                assert(o == rest[i - first.len()]);
                let l = choose|l: int| 0 <= l < tail.len() && (#[trigger] tail[l]).key == key(o);
                assert(side[l + 1].key == key(o));
            }
        }
        assert forall|i: int, j: int|
            #![trigger all[i], all[j]]
            0 <= i < j < all.len() implies key(all[i]) == key(all[j]) || comes_first(
            resting,
            key(all[i]),
            key(all[j]),
        ) by {
            if j < first.len() {
                assert(levels::rests_at(resting, side[0].key, first[i]));
                assert(levels::rests_at(resting, side[0].key, first[j]));
            } else {
                assert(all[j] == rest[j - first.len()]);
                if i < first.len() {
                    assert(levels::rests_at(resting, side[0].key, first[i]));
                    let l = choose|l: int|
                        0 <= l < tail.len() && (#[trigger] tail[l]).key == key(all[j]);
                    assert(levels::before(resting, side[0].key, tail[l].key));
                } else {
                    assert(all[i] == rest[i - first.len()]);
                }
            }
        }
    }
}

/// A taker trades only at prices that are no worse than its limit, and with everything
/// there is at those prices, until nothing is left of it.
pub proof fn lemma_limit_is_kept(
    resting: Side,
    taker: Order,
    side: Seq<LevelView>,
    limit: Option<u64>,
    ts: i64,
)
    requires
        levels::sound(taker),
        levels::side_ok(resting, side),
    ensures
        ({
            let m = levels::match_levels(resting, taker, side, limit, ts);
            &&& forall|j: int|
                0 <= j < m.events.len() as int / 2 ==> is_no_worse(
                    resting,
                    key(#[trigger] makers(side)[j]),
                    limit,
                )
            &&& m.taker.filled() || forall|i: int|
                0 <= i < makers(m.levels).len() ==> !is_no_worse(
                    resting,
                    key(#[trigger] makers(m.levels)[i]),
                    limit,
                )
        }),
    decreases side.len(),
{
    let m = levels::match_levels(resting, taker, side, limit, ts);
    lemma_side_serves_the_first(resting, taker, side, limit, ts);
    levels::lemma_match_levels(resting, taker, side, limit, ts);
    lemma_makers_are_sorted(resting, m.levels);
    if !m.taker.filled() {
        assert forall|i: int| 0 <= i < makers(m.levels).len() implies !is_no_worse(
            resting,
            key(#[trigger] makers(m.levels)[i]),
            limit,
        ) by {
            let o = makers(m.levels)[i];
            let l = choose|l: int|
                0 <= l < m.levels.len() && (#[trigger] m.levels[l]).key == key(o);
            if l > 0 {
                assert(levels::before(resting, m.levels[0].key, m.levels[l].key));
            }
        }
    }
    if side.len() > 0 && levels::within(resting, limit, side[0].key) {
        lemma_side_tail(resting, side);
        let tail = side.drop_first();
        let first = side[0].orders;
        let price = price::price_of(side[0].key);
        let l = levels::match_level(taker, first, price, ts);
        lemma_level_serves_the_first(resting, side[0].key, taker, first, ts);
        levels::lemma_match_level(resting, side[0].key, taker, first, price, ts);
        if l.orders.len() == 0 && !l.taker.filled() {
            lemma_limit_is_kept(resting, l.taker, tail, limit, ts);
        }
        assert forall|j: int| 0 <= j < m.events.len() as int / 2 implies is_no_worse(
            resting,
            key(#[trigger] makers(side)[j]),
            limit,
        ) by {
            if j < first.len() {
                assert(levels::rests_at(resting, side[0].key, first[j]));
                assert(makers(side)[j] == first[j]);
            } else {
                assert(makers(side)[j] == makers(tail)[j - first.len()]);
            }
        }
    }
}

/// The fills among the events of a submission: all but a cancellation at the end.
pub open spec fn fills_of(events: Seq<TradeEvent>) -> Seq<TradeEvent> {
    if events.len() > 0 && events[events.len() - 1] is Cancel {
        events.drop_last()
    } else {
        events
    }
}

/// What comes of an order that goes on a book. It trades with the other side in the order
/// of that side. What is left of a limit order is not cancelled. What is left of a market
/// order is cancelled for want of liquidity, and what is left of an immediate-or-cancel
/// order as its remainder. A fill-or-kill order is either cancelled and changes nothing,
/// or trades and is not cancelled. Neither of the last three changes its own side.
pub proof fn lemma_what_comes_of_an_order(b: BookView, o: Order, ts: i64)
    requires
        b.ok(),
        book::entry(o) is Ok,
    ensures
        ({
            let s = b.submitted(o, ts);
            let fills = fills_of(s.events);
            let other = o.side.other();
            let trades = fills.len() as int / 2;
            let left = Order { remaining: left_after(o, fills, trades), ..o };
            let cancelled = fills.len() < s.events.len();
            &&& serves_the_first(makers(b.side(other)), makers(s.book.side(other)), fills, o, ts)
            &&& forall|j: int|
                0 <= j < trades ==> is_no_worse(
                    other,
                    key(#[trigger] makers(b.side(other))[j]),
                    book::limit_of(o),
                )
            &&& o.kind is Limit ==> !cancelled
            &&& o.kind is Market ==> (cancelled <==> !left.filled())
            &&& o.kind is Ioc ==> (cancelled <==> !left.filled())
            &&& o.kind is Fok && cancelled ==> s.book == b && fills.len() == 0
            &&& cancelled ==> s.events[s.events.len() - 1] == (TradeEvent::Cancel {
                order_id: o.id,
                reason: if o.kind is Market {
                    CancelReason::MarketNoLiquidity
                } else if o.kind is Ioc {
                    CancelReason::IocRemainder
                } else {
                    CancelReason::FokNoFill
                },
            })
            &&& !(o.kind is Limit) ==> s.book.side(o.side) == b.side(o.side)
            &&& o.kind is Limit && left.filled() ==> s.book.side(o.side) == b.side(o.side)
            &&& !left.filled() && !(o.kind is Fok && cancelled) ==> forall|i: int|
                0 <= i < makers(s.book.side(other)).len() ==> !is_no_worse(
                    other,
                    key(#[trigger] makers(s.book.side(other))[i]),
                    book::limit_of(o),
                )
            &&& s.book.symbol == b.symbol
        }),
{
    let s = b.submitted(o, ts);
    let other = o.side.other();
    let side = b.side(other);
    let m = b.matched(o, ts);
    book::lemma_entry_is_sound(o);
    lemma_side_serves_the_first(other, o, side, book::limit_of(o), ts);
    lemma_limit_is_kept(other, o, side, book::limit_of(o), ts);
    if m.events.len() > 0 {
        let j = m.events.len() as int / 2 - 1;
        assert(is_trade_with(m.events, j, o, makers(side)[j], ts));
        assert(m.events[m.events.len() - 1] is Fill);
    }
    if o.kind is Fok && !b.can_fill(o) {
        assert(fills_of(s.events) =~= Seq::<TradeEvent>::empty());
        assert(serves_the_first(makers(side), makers(side), Seq::empty(), o, ts));
    } else {
        assert(fills_of(s.events) =~= m.events);
    }
}

/// Of two limit orders of one side and one price, neither of which finds anything to
/// trade with, the one that is submitted first stands in the queue before the other.
pub proof fn lemma_first_submitted_stands_first(b: BookView, first: Order, second: Order, ts: i64)
    requires
        b.ok(),
        book::entry(first) is Ok,
        book::entry(second) is Ok,
        first.kind is Limit,
        second.kind is Limit,
        first.side == second.side,
        key(first) == key(second),
        b.side(first.side.other()).len() == 0,
        !first.filled(),
        !second.filled(),
    ensures
        ({
            let after = b.submitted(first, ts).book.submitted(second, ts).book;
            queue_at(after.side(first.side), key(first)) == queue_at(
                b.side(first.side),
                key(first),
            ).push(first).push(second)
        }),
{
    let between = b.submitted(first, ts).book;
    book::lemma_submit_keeps_book(b, first, ts);
    lemma_first_come_first_queued(b, first, ts, key(first));
    lemma_first_come_first_queued(between, second, ts, key(first));
}

} // verus!
