//! One side of an order book: price levels, best first, each a queue of orders,
//! oldest first.

use std::collections::VecDeque;

use vstd::prelude::*;
use super::event::{Fill, TradeEvent};
use super::order::{Order, Side};
use super::price::key_price;
use super::{order, price};
use crate::binary64::laws;
use crate::Binary64;

verus! {

/// The orders that rest at one price.
#[derive(Debug, Clone)]
pub struct Level {
    pub key: u64,
    pub orders: VecDeque<Order>,
}

/// The orders that rest at one price, oldest first.
#[verifier::ext_equal]
pub struct LevelView {
    pub key: u64,
    pub orders: Seq<Order>,
}

impl Level {
    pub open spec fn view(&self) -> LevelView {
        LevelView { key: self.key, orders: self.orders@ }
    }
}

pub open spec fn levels_view(levels: Seq<Level>) -> Seq<LevelView> {
    levels.map_values(|l: Level| l.view())
}

/// Of the prices at which orders of one side rest, `a` is taken before `b`: the
/// lowest sell first, and the highest buy.
pub open spec fn before(resting: Side, a: u64, b: u64) -> bool {
    match resting {
        Side::Sell => a < b,
        Side::Buy => a > b,
    }
}

/// The price is no worse than the taker's limit.
pub open spec fn within(resting: Side, limit: Option<u64>, key: u64) -> bool {
    match limit {
        Some(worst) => !before(resting, worst, key),
        None => true,
    }
}

/// An order that can be matched.
pub open spec fn sound(o: Order) -> bool {
    &&& o.qty.finite()
    &&& o.qty.value() > 0
    &&& o.remaining.finite()
}

/// An order that rests at a price: it is the order's own price, and something is
/// left of the order.
pub open spec fn rests_at(resting: Side, key: u64, o: Order) -> bool {
    &&& sound(o)
    &&& !o.filled()
    &&& o.side == resting
    &&& o.price matches Some(p) && price::key_of(p) == Ok::<u64, price::BookError>(key)
}

/// The levels of one side are in order, none is empty, and every order rests where
/// it belongs.
pub open spec fn side_ok(resting: Side, levels: Seq<LevelView>) -> bool {
    &&& forall|i: int, j: int|
        0 <= i < j < levels.len() ==> before(resting, levels[i].key, levels[j].key)
    &&& forall|i: int|
        0 <= i < levels.len() ==> level_ok(resting, #[trigger] levels[i])
}

pub open spec fn level_ok(resting: Side, level: LevelView) -> bool {
    &&& level.orders.len() > 0
    &&& forall|i: int|
        0 <= i < level.orders.len() ==> rests_at(resting, level.key, #[trigger] level.orders[i])
}

/// The quantity that two orders trade: all that is left of the smaller one.
pub open spec fn traded(taker: Order, maker: Order) -> Binary64 {
    taker.remaining.lesser(maker.remaining)
}

/// The order after so much of it has been traded.
pub open spec fn reduced(o: Order, qty: Binary64) -> Order {
    Order { remaining: o.remaining.difference(qty), ..o }
}

pub open spec fn fill_of(o: Order, price: Binary64, qty: Binary64, ts: i64) -> TradeEvent {
    TradeEvent::Fill(Fill { order_id: o.id, symbol: o.symbol, side: o.side, price, qty, ts })
}

/// What comes of a taker and a queue of makers.
pub struct LevelMatch {
    pub taker: Order,
    pub orders: Seq<Order>,
    pub events: Seq<TradeEvent>,
}

/// The taker trades with the makers in turn, the oldest first, until one of the
/// two has nothing left. Each trade is a fill for the taker and one for the maker.
pub open spec fn match_level(
    taker: Order,
    orders: Seq<Order>,
    price: Binary64,
    ts: i64,
) -> LevelMatch
    decreases orders.len(),
{
    if taker.filled() || orders.len() == 0 {
        LevelMatch { taker, orders, events: Seq::empty() }
    } else {
        let qty = traded(taker, orders[0]);
        let taker_left = reduced(taker, qty);
        let maker_left = reduced(orders[0], qty);
        let pair = seq![fill_of(taker, price, qty, ts), fill_of(orders[0], price, qty, ts)];
        if maker_left.filled() {
            let rest = match_level(taker_left, orders.drop_first(), price, ts);
            LevelMatch { taker: rest.taker, orders: rest.orders, events: pair + rest.events }
        } else {
            LevelMatch { taker: taker_left, orders: orders.update(0, maker_left), events: pair }
        }
    }
}

/// What comes of a taker and one side of the book.
pub struct SideMatch {
    pub taker: Order,
    pub levels: Seq<LevelView>,
    pub events: Seq<TradeEvent>,
}

/// The taker trades with the levels in turn, the best first, as far as its limit
/// allows and until it has nothing left. A level without orders goes.
pub open spec fn match_levels(
    resting: Side,
    taker: Order,
    levels: Seq<LevelView>,
    limit: Option<u64>,
    ts: i64,
) -> SideMatch
    decreases levels.len(),
{
    if levels.len() == 0 || !within(resting, limit, levels[0].key) {
        SideMatch { taker, levels, events: Seq::empty() }
    } else {
        let m = match_level(taker, levels[0].orders, price::price_of(levels[0].key), ts);
        if m.orders.len() > 0 {
            SideMatch {
                taker: m.taker,
                levels: levels.update(0, LevelView { key: levels[0].key, orders: m.orders }),
                events: m.events,
            }
        } else if m.taker.filled() {
            SideMatch { taker: m.taker, levels: levels.drop_first(), events: m.events }
        } else {
            let rest = match_levels(resting, m.taker, levels.drop_first(), limit, ts);
            SideMatch { taker: rest.taker, levels: rest.levels, events: m.events + rest.events }
        }
    }
}

/// One side with one more order, behind those at the same price.
pub open spec fn with_order(
    resting: Side,
    levels: Seq<LevelView>,
    key: u64,
    o: Order,
) -> Seq<LevelView>
    decreases levels.len(),
{
    if levels.len() == 0 || before(resting, key, levels[0].key) {
        seq![LevelView { key, orders: seq![o] }] + levels
    } else if levels[0].key == key {
        levels.update(0, LevelView { key, orders: levels[0].orders.push(o) })
    } else {
        seq![levels[0]] + with_order(resting, levels.drop_first(), key, o)
    }
}

/// A quantity and what is left of some orders, added up in turn.
pub open spec fn plus_orders(start: Binary64, orders: Seq<Order>) -> Binary64
    decreases orders.len(),
{
    if orders.len() == 0 {
        start
    } else {
        plus_orders(start, orders.drop_last()).sum(orders.last().remaining)
    }
}

/// What is left of the orders of some levels, added up in turn from negative zero.
pub open spec fn plus_levels(levels: Seq<LevelView>) -> Binary64
    decreases levels.len(),
{
    if levels.len() == 0 {
        Binary64 { bits: crate::binary64::SIGN }
    } else {
        plus_orders(plus_levels(levels.drop_last()), levels.last().orders)
    }
}

/// The levels in the order of their prices.
pub open spec fn by_price(resting: Side, levels: Seq<LevelView>) -> Seq<LevelView> {
    match resting {
        Side::Sell => levels,
        Side::Buy => levels.reverse(),
    }
}

/// What one side offers within a limit, added up from the lowest price.
pub open spec fn available(
    resting: Side,
    levels: Seq<LevelView>,
    limit: Option<u64>,
) -> Binary64 {
    plus_levels(by_price(resting, levels.filter(|l: LevelView| within(resting, limit, l.key))))
}

/// A trade leaves nothing of the taker or nothing of the maker, and never less
/// than nothing of either.
pub proof fn lemma_trade(taker: Order, maker: Order)
    requires
        sound(taker),
        sound(maker),
        !taker.filled(),
        !maker.filled(),
    ensures
        ({
            let qty = traded(taker, maker);
            let t = reduced(taker, qty);
            let m = reduced(maker, qty);
            &&& qty.finite()
            &&& qty.value() > 0
            &&& qty.value() <= taker.remaining.value()
            &&& qty.value() <= maker.remaining.value()
            &&& sound(t)
            &&& sound(m)
            &&& 0 <= t.remaining.value() <= taker.remaining.value()
            &&& 0 <= m.remaining.value() <= maker.remaining.value()
            &&& t.filled() || m.filled()
        }),
{
    order::lemma_dust(taker.remaining, taker.qty);
    order::lemma_dust(maker.remaining, maker.qty);
    let qty = traded(taker, maker);
    laws::lemma_difference_between(taker.remaining, qty);
    laws::lemma_difference_between(maker.remaining, qty);
    order::lemma_dust(taker.remaining.difference(qty), taker.qty);
    order::lemma_dust(maker.remaining.difference(qty), maker.qty);
}

/// Matching a level leaves a taker that can be matched further and a level in
/// order, and either nothing of the taker or nothing of the level.
pub proof fn lemma_match_level(
    resting: Side,
    key: u64,
    taker: Order,
    orders: Seq<Order>,
    price: Binary64,
    ts: i64,
)
    requires
        sound(taker),
        forall|i: int| 0 <= i < orders.len() ==> rests_at(resting, key, #[trigger] orders[i]),
    ensures
        ({
            let m = match_level(taker, orders, price, ts);
            &&& sound(m.taker)
            &&& m.taker == (Order { remaining: m.taker.remaining, ..taker })
            &&& forall|i: int|
                0 <= i < m.orders.len() ==> rests_at(resting, key, #[trigger] m.orders[i])
            &&& m.taker.filled() || m.orders.len() == 0
            &&& m.orders.len() <= orders.len()
        }),
    decreases orders.len(),
{
    if !taker.filled() && orders.len() > 0 {
        assert(rests_at(resting, key, orders[0]));
        lemma_trade(taker, orders[0]);
        let qty = traded(taker, orders[0]);
        if reduced(orders[0], qty).filled() {
            assert forall|i: int| 0 <= i < orders.drop_first().len() implies rests_at(
                resting,
                key,
                #[trigger] orders.drop_first()[i],
            ) by {
                assert(rests_at(resting, key, orders[i + 1]));
            }
            lemma_match_level(
                resting,
                key,
                reduced(taker, qty),
                orders.drop_first(),
                price,
                ts,
            );
        }
    }
}

/// Matching a side leaves it in order, and leaves something of the taker only
/// where nothing within its limit is left on the side.
pub proof fn lemma_match_levels(
    resting: Side,
    taker: Order,
    levels: Seq<LevelView>,
    limit: Option<u64>,
    ts: i64,
)
    requires
        sound(taker),
        side_ok(resting, levels),
    ensures
        ({
            let m = match_levels(resting, taker, levels, limit, ts);
            &&& sound(m.taker)
            &&& m.taker == (Order { remaining: m.taker.remaining, ..taker })
            &&& side_ok(resting, m.levels)
            &&& m.taker.filled() || m.levels.len() == 0 || !within(
                resting,
                limit,
                m.levels[0].key,
            )
            &&& m.levels.len() <= levels.len()
            &&& forall|i: int|
                0 <= i < m.levels.len() ==> (#[trigger] m.levels[i]).key == levels[i
                    + levels.len() - m.levels.len()].key
        }),
    decreases levels.len(),
{
    if levels.len() > 0 && within(resting, limit, levels[0].key) {
        assert(level_ok(resting, levels[0]));
        let key = levels[0].key;
        let m = match_level(taker, levels[0].orders, price::price_of(key), ts);
        lemma_match_level(resting, key, taker, levels[0].orders, price::price_of(key), ts);
        let tail = levels.drop_first();
        assert(side_ok(resting, tail)) by {
            assert forall|i: int| 0 <= i < tail.len() implies level_ok(
                resting,
                #[trigger] tail[i],
            ) by {
                assert(tail[i] == levels[i + 1]);
            }
        }
        if m.orders.len() == 0 {
            if !m.taker.filled() {
                lemma_match_levels(resting, m.taker, tail, limit, ts);
            }
        } else {
            let new = LevelView { key, orders: m.orders };
            let changed = levels.update(0, new);
            assert(level_ok(resting, new));
            assert(side_ok(resting, changed)) by {
                assert forall|i: int| 0 <= i < changed.len() implies level_ok(
                    resting,
                    #[trigger] changed[i],
                ) by {
                    if i > 0 {
                        assert(changed[i] == levels[i]);
                    }
                }
            }
        }
    }
}

/// Trade with the orders of one level.
pub(crate) fn fill_at(
    Ghost(resting): Ghost<Side>,
    level: &mut Level,
    taker: &mut Order,
    events: &mut Vec<TradeEvent>,
    ts: i64,
)
    requires
        sound(*old(taker)),
        forall|i: int|
            0 <= i < old(level).orders@.len() ==> rests_at(
                resting,
                old(level).key,
                #[trigger] old(level).orders@[i],
            ),
    ensures
        ({
            let m = match_level(
                *old(taker),
                old(level).orders@,
                price::price_of(old(level).key),
                ts,
            );
            &&& *final(taker) == m.taker
            &&& final(level).key == old(level).key
            &&& final(level).orders@ == m.orders
            &&& final(events)@ == old(events)@ + m.events
        }),
{
    let key = level.key;
    let fill_price = key_price(key);
    let ghost all = match_level(*taker, level.orders@, fill_price, ts);
    let ghost start = events@;
    assert(start + all.events == events@ + all.events);
    while !taker.is_filled() && level.orders.len() > 0
        invariant
            level.key == key,
            sound(*taker),
            forall|i: int|
                0 <= i < level.orders@.len() ==> rests_at(
                    resting,
                    key,
                    #[trigger] level.orders@[i],
                ),
            ({
                let rest = match_level(*taker, level.orders@, fill_price, ts);
                &&& rest.taker == all.taker
                &&& rest.orders == all.orders
                &&& events@ + rest.events == start + all.events
            }),
        decreases level.orders@.len(), if taker.filled() { 0int } else { 1int },
    {
        let ghost orders = level.orders@;
        let ghost was = *taker;
        let ghost had = events@;
        assert(rests_at(resting, key, orders[0]));
        proof {
            lemma_trade(*taker, orders[0]);
        }
        match level.orders.pop_front() {
            Some(front) => {
                let mut maker = front;
                let qty = taker.remaining.min(maker.remaining);
                taker.remaining = taker.remaining.minus(qty);
                maker.remaining = maker.remaining.minus(qty);
                events.push(
                    TradeEvent::Fill(
                        Fill {
                            order_id: taker.id,
                            symbol: taker.symbol.clone(),
                            side: taker.side,
                            price: fill_price,
                            qty,
                            ts,
                        },
                    ),
                );
                events.push(
                    TradeEvent::Fill(
                        Fill {
                            order_id: maker.id,
                            symbol: maker.symbol.clone(),
                            side: maker.side,
                            price: fill_price,
                            qty,
                            ts,
                        },
                    ),
                );
                let ghost pair = seq![
                    fill_of(was, fill_price, qty, ts),
                    fill_of(orders[0], fill_price, qty, ts),
                ];
                assert(events@ =~= had + pair);
                assert(*taker == reduced(was, qty));
                assert(maker == reduced(orders[0], qty));
                assert(level.orders@ =~= orders.drop_first());
                if !maker.is_filled() {
                    level.orders.push_front(maker);
                    assert(level.orders@ =~= orders.update(0, maker));
                }
                proof {
                    let rest = match_level(*taker, level.orders@, fill_price, ts);
                    let before = match_level(was, orders, fill_price, ts);
                    if maker.filled() {
                        assert(before.events == pair + rest.events);
                        assert(events@ + rest.events =~= had + before.events);
                    } else {
                        assert(before.events == pair);
                        assert(events@ + rest.events =~= had + before.events);
                    }
                    assert forall|i: int| 0 <= i < level.orders@.len() implies rests_at(
                        resting,
                        key,
                        #[trigger] level.orders@[i],
                    ) by {
                        if maker.filled() {
                            assert(level.orders@[i] == orders[i + 1]);
                        } else if i > 0 {
                            assert(level.orders@[i] == orders[i]);
                        }
                    }
                }
            },
            None => {
                assert(false);
            },
        }
    }
    proof {
        let rest = match_level(*taker, level.orders@, fill_price, ts);
        assert(rest.events =~= Seq::<TradeEvent>::empty());
        assert(events@ + rest.events =~= events@);
    }
}

/// Whether `a` is taken before `b`.
fn is_before(resting: Side, a: u64, b: u64) -> (r: bool)
    ensures
        r == before(resting, a, b),
{
    match resting {
        Side::Sell => a < b,
        Side::Buy => a > b,
    }
}

/// Whether the price is no worse than the limit.
fn is_within(resting: Side, limit: Option<u64>, key: u64) -> (r: bool)
    ensures
        r == within(resting, limit, key),
{
    match limit {
        Some(worst) => !is_before(resting, worst, key),
        None => true,
    }
}

/// Trade with one side of the book.
pub(crate) fn match_side(
    resting: Side,
    levels: &mut Vec<Level>,
    taker: &mut Order,
    limit: Option<u64>,
    events: &mut Vec<TradeEvent>,
    ts: i64,
)
    requires
        sound(*old(taker)),
        side_ok(resting, levels_view(old(levels)@)),
    ensures
        ({
            let m = match_levels(resting, *old(taker), levels_view(old(levels)@), limit, ts);
            &&& *final(taker) == m.taker
            &&& levels_view(final(levels)@) == m.levels
            &&& final(events)@ == old(events)@ + m.events
        }),
{
    let ghost all = match_levels(resting, *taker, levels_view(levels@), limit, ts);
    let ghost start = events@;
    while levels.len() > 0 && is_within(resting, limit, levels[0].key)
        invariant_except_break
            sound(*taker),
            side_ok(resting, levels_view(levels@)),
            ({
                let rest = match_levels(resting, *taker, levels_view(levels@), limit, ts);
                &&& rest.taker == all.taker
                &&& rest.levels == all.levels
                &&& events@ + rest.events == start + all.events
            }),
        ensures
            *taker == all.taker,
            levels_view(levels@) == all.levels,
            events@ == start + all.events,
        decreases levels@.len(),
    {
        let ghost was = *taker;
        let ghost had = events@;
        let ghost side = levels_view(levels@);
        let ghost first = side[0];
        let ghost m = match_level(was, first.orders, price::price_of(first.key), ts);
        let ghost rest = match_levels(resting, was, side, limit, ts);
        proof {
            assert(level_ok(resting, side[0]));
            lemma_match_levels(resting, was, side, limit, ts);
            lemma_match_level(
                resting,
                first.key,
                was,
                first.orders,
                price::price_of(first.key),
                ts,
            );
        }
        let mut level = levels.remove(0);
        assert(level.view() == first);
        assert(levels_view(levels@) =~= side.drop_first());
        fill_at(Ghost(resting), &mut level, taker, events, ts);
        if level.orders.len() > 0 {
            levels.insert(0, level);
            proof {
                assert(levels_view(levels@) =~= side.update(
                    0,
                    LevelView { key: first.key, orders: m.orders },
                ));
                assert(events@ == start + all.events);
            }
            break;
        }
        if taker.is_filled() {
            break;
        }
        proof {
            let tail = match_levels(resting, *taker, levels_view(levels@), limit, ts);
            assert(rest.events == m.events + tail.events);
            assert(events@ + tail.events =~= had + rest.events);
            assert(side_ok(resting, levels_view(levels@))) by {
                assert forall|i: int| 0 <= i < levels_view(levels@).len() implies level_ok(
                    resting,
                    #[trigger] levels_view(levels@)[i],
                ) by {
                    assert(levels_view(levels@)[i] == side[i + 1]);
                }
            }
        }
    }
}

proof fn lemma_with_order_skips(
    resting: Side,
    levels: Seq<LevelView>,
    key: u64,
    o: Order,
    n: int,
)
    requires
        0 <= n <= levels.len(),
        forall|i: int| 0 <= i < n ==> before(resting, (#[trigger] levels[i]).key, key),
    ensures
        with_order(resting, levels, key, o) == levels.take(n) + with_order(
            resting,
            levels.skip(n),
            key,
            o,
        ),
    decreases n,
{
    if n == 0 {
        assert(levels.skip(0) =~= levels);
        assert(levels.take(0) + with_order(resting, levels, key, o) =~= with_order(
            resting,
            levels,
            key,
            o,
        ));
    } else {
        assert(before(resting, levels[0].key, key));
        let tail = levels.drop_first();
        assert forall|i: int| 0 <= i < n - 1 implies before(
            resting,
            (#[trigger] tail[i]).key,
            key,
        ) by {
            assert(tail[i] == levels[i + 1]);
        }
        lemma_with_order_skips(resting, tail, key, o, n - 1);
        assert(tail.skip(n - 1) =~= levels.skip(n));
        let end = with_order(resting, levels.skip(n), key, o);
        assert(seq![levels[0]] + (tail.take(n - 1) + end) =~= levels.take(n) + end);
    }
}

/// Put an order behind those at its price.
pub(crate) fn rest(resting: Side, levels: &mut Vec<Level>, key: u64, o: Order)
    requires
        side_ok(resting, levels_view(old(levels)@)),
    ensures
        levels_view(final(levels)@) == with_order(resting, levels_view(old(levels)@), key, o),
{
    let ghost side = levels_view(levels@);
    let mut i: usize = 0;
    while i < levels.len() && is_before(resting, levels[i].key, key)
        invariant
            i <= levels@.len(),
            side == levels_view(levels@),
            forall|j: int| 0 <= j < i ==> before(resting, (#[trigger] side[j]).key, key),
        decreases levels@.len() - i,
    {
        i = i + 1;
    }
    proof {
        lemma_with_order_skips(resting, side, key, o, i as int);
        if i < side.len() {
            assert(side.skip(i as int)[0] == side[i as int]);
        }
    }
    if i < levels.len() && levels[i].key == key {
        let mut level = levels.remove(i);
        level.orders.push_back(o);
        levels.insert(i, level);
        assert(levels_view(levels@) =~= with_order(resting, side, key, o));
    } else {
        let mut orders: VecDeque<Order> = VecDeque::new();
        orders.push_back(o);
        assert(orders@ =~= seq![o]);
        let level = Level { key, orders };
        levels.insert(i, level);
        assert(levels_view(levels@) =~= with_order(resting, side, key, o));
    }
}

/// A resting order keeps its side in order, and no level comes before both those
/// that were there and the order's own.
pub proof fn lemma_with_order(resting: Side, levels: Seq<LevelView>, key: u64, o: Order)
    requires
        side_ok(resting, levels),
        rests_at(resting, key, o),
    ensures
        ({
            let after = with_order(resting, levels, key, o);
            &&& side_ok(resting, after)
            &&& after.len() > 0
            &&& after[0].key == if levels.len() == 0 || before(resting, key, levels[0].key) {
                key
            } else {
                levels[0].key
            }
        }),
    decreases levels.len(),
{
    let after = with_order(resting, levels, key, o);
    if levels.len() == 0 || before(resting, key, levels[0].key) {
        let new = LevelView { key, orders: seq![o] };
        assert(level_ok(resting, new));
        assert forall|i: int| 0 <= i < after.len() implies level_ok(resting, #[trigger] after[i]) by {
            if i > 0 {
                assert(after[i] == levels[i - 1]);
            }
        }
        assert forall|i: int, j: int| 0 <= i < j < after.len() implies before(
            resting,
            after[i].key,
            after[j].key,
        ) by {
            assert(after[j] == levels[j - 1]);
            if i > 0 {
                assert(after[i] == levels[i - 1]);
            } else if j > 1 {
                assert(before(resting, levels[0].key, levels[j - 1].key));
            }
        }
    } else if levels[0].key == key {
        assert(level_ok(resting, levels[0]));
        let new = LevelView { key, orders: levels[0].orders.push(o) };
        assert(level_ok(resting, new));
        assert forall|i: int| 0 <= i < after.len() implies level_ok(resting, #[trigger] after[i]) by {
            if i > 0 {
                assert(after[i] == levels[i]);
            }
        }
    } else {
        let tail = levels.drop_first();
        assert(side_ok(resting, tail)) by {
            assert forall|i: int| 0 <= i < tail.len() implies level_ok(
                resting,
                #[trigger] tail[i],
            ) by {
                assert(tail[i] == levels[i + 1]);
            }
        }
        lemma_with_order(resting, tail, key, o);
        let end = with_order(resting, tail, key, o);
        assert(after == seq![levels[0]] + end);
        assert(level_ok(resting, levels[0]));
        assert forall|i: int| 0 <= i < after.len() implies level_ok(resting, #[trigger] after[i]) by {
            if i > 0 {
                assert(after[i] == end[i - 1]);
            }
        }
        assert forall|i: int, j: int| 0 <= i < j < after.len() implies before(
            resting,
            after[i].key,
            after[j].key,
        ) by {
            assert(after[j] == end[j - 1]);
            if i > 0 {
                assert(after[i] == end[i - 1]);
            } else {
                if tail.len() > 0 {
                    assert(tail[0] == levels[1]);
                    assert(before(resting, levels[0].key, levels[1].key));
                }
                assert(before(resting, levels[0].key, end[0].key));
                if j > 1 {
                    assert(before(resting, end[0].key, end[j - 1].key));
                }
            }
        }
    }
}

/// What is within a limit comes first.
proof fn lemma_within_first(resting: Side, levels: Seq<LevelView>, limit: Option<u64>, n: int)
    requires
        side_ok(resting, levels),
        0 <= n <= levels.len(),
        forall|i: int| 0 <= i < n ==> within(resting, limit, (#[trigger] levels[i]).key),
        n < levels.len() ==> !within(resting, limit, levels[n].key),
    ensures
        levels.filter(|l: LevelView| within(resting, limit, l.key)) == levels.take(n),
    decreases levels.len(),
{
    let keep = |l: LevelView| within(resting, limit, l.key);
    reveal(Seq::filter);
    if levels.len() > 0 {
        let front = levels.drop_last();
        assert(side_ok(resting, front)) by {
            assert forall|i: int| 0 <= i < front.len() implies level_ok(
                resting,
                #[trigger] front[i],
            ) by {
                assert(front[i] == levels[i]);
            }
        }
        if n == levels.len() {
            assert(keep(levels.last()));
            lemma_within_first(resting, front, limit, n - 1);
            assert(front.take(n - 1).push(levels.last()) =~= levels.take(n));
        } else {
            let last = levels.len() - 1;
            assert(!keep(levels.last())) by {
                if n < last {
                    assert(before(resting, levels[n].key, levels[last].key));
                }
            }
            lemma_within_first(resting, front, limit, n);
            assert(front.take(n) =~= levels.take(n));
        }
    } else {
        assert(levels.take(n) =~= levels);
    }
}

/// What one side offers within a limit.
pub(crate) fn offered(resting: Side, levels: &Vec<Level>, limit: Option<u64>) -> (r: Binary64)
    requires
        side_ok(resting, levels_view(levels@)),
    ensures
        r == available(resting, levels_view(levels@), limit),
{
    let ghost side = levels_view(levels@);
    let mut n: usize = 0;
    while n < levels.len() && is_within(resting, limit, levels[n].key)
        invariant
            n <= levels@.len(),
            side == levels_view(levels@),
            forall|i: int| 0 <= i < n ==> within(resting, limit, (#[trigger] side[i]).key),
        decreases levels@.len() - n,
    {
        n = n + 1;
    }
    proof {
        lemma_within_first(resting, side, limit, n as int);
    }
    let ghost reached = by_price(resting, side.take(n as int));
    let mut sum = Binary64::from_bits(crate::binary64::SIGN);
    let mut i: usize = 0;
    while i < n
        invariant
            i <= n <= levels@.len(),
            side == levels_view(levels@),
            reached == by_price(resting, side.take(n as int)),
            sum == plus_levels(reached.take(i as int)),
        decreases n - i,
    {
        let at = match resting {
            Side::Sell => i,
            Side::Buy => n - 1 - i,
        };
        let ghost before = sum;
        let ghost orders = levels@[at as int].orders@;
        assert(reached[i as int] == side[at as int]);
        let mut j: usize = 0;
        assert(orders.take(0) =~= Seq::<Order>::empty());
        while j < levels[at].orders.len()
            invariant
                at < levels@.len(),
                j <= orders.len(),
                orders == levels@[at as int].orders@,
                sum == plus_orders(before, orders.take(j as int)),
            decreases orders.len() - j,
        {
            sum = sum.plus(levels[at].orders[j].remaining);
            assert(orders.take(j + 1).drop_last() =~= orders.take(j as int));
            j = j + 1;
        }
        assert(orders.take(j as int) =~= orders);
        assert(reached.take(i + 1).drop_last() =~= reached.take(i as int));
        i = i + 1;
    }
    assert(reached.take(i as int) =~= reached);
    sum
}

} // verus!
