//! What candles do to pending orders, and what is booked of it.

use vstd::prelude::*;
use super::event::{CancelReason, Fill, TradeEvent};
use super::order::{Order, Side};
use super::paper;
use super::portfolio::{PortfolioView, Trade};
use crate::binary64::laws;
use crate::Binary64;
use crate::Candle;

verus! {

/// The order was not filled yet and is of the candle's symbol.
pub open spec fn is_open(o: Order, symbol: Seq<char>) -> bool {
    o.symbol@ == symbol && !o.filled()
}

/// The candle came to the order's price: it was low enough for who buys, or high enough
/// for who sells. What is not a number is never reached.
pub open spec fn is_touched(o: Order, candle: Candle) -> bool {
    o.price matches Some(p) && !p.nan() && match o.side {
        Side::Buy => !candle.low.nan() && candle.low.value() <= p.value(),
        Side::Sell => !candle.high.nan() && candle.high.value() >= p.value(),
    }
}

/// The fill of all that remains of an order, when the candle closed.
pub open spec fn is_fill_of(e: TradeEvent, o: Order, candle: Candle) -> bool {
    &&& e matches TradeEvent::Fill(f)
    &&& f.order_id == o.id
    &&& f.symbol == o.symbol
    &&& f.side == o.side
    &&& f.qty == o.remaining
    &&& f.ts == candle.ts
}

/// The price is the better of the order's own and the open: the lower one for who buys,
/// and the higher one for who sells. Where the open is not a number, it is the order's.
pub open spec fn is_better_of(price: Binary64, o: Order, candle: Candle) -> bool {
    let p = o.price->Some_0;
    if candle.open.nan() {
        price == p
    } else {
        &&& price == p || price == candle.open
        &&& match o.side {
            Side::Buy => price.value() <= p.value() && price.value() <= candle.open.value(),
            Side::Sell => price.value() >= p.value() && price.value() >= candle.open.value(),
        }
    }
}

/// What a candle does to an order. An order of another symbol, and one that is filled, is
/// left alone. A market order is filled at the open. Any other is filled where the candle
/// came to its price, at the better of that price and the open; where it did not, a limit
/// order waits on, and one that cannot wait is cancelled. Whatever is filled is filled as
/// a whole.
pub proof fn lemma_what_a_candle_does(o: Order, symbol: Seq<char>, candle: Candle)
    ensures
        ({
            let s = paper::stepped(o, symbol, candle);
            let filled = is_open(o, symbol) && (o.kind is Market || is_touched(o, candle));
            &&& !is_open(o, symbol) ==> s.order == o && s.events.len() == 0
            &&& filled ==> s.events.len() == 1 && is_fill_of(s.events[0], o, candle)
            &&& filled && o.kind is Market ==> s.events[0]->Fill_0.price == candle.open
            &&& filled && !(o.kind is Market) ==> is_better_of(
                s.events[0]->Fill_0.price,
                o,
                candle,
            )
            &&& is_open(o, symbol) && !filled && o.kind is Limit ==> s.order == o
                && s.events.len() == 0
            &&& is_open(o, symbol) && !filled && !(o.kind is Limit) ==> s.events == seq![
                TradeEvent::Cancel {
                    order_id: o.id,
                    reason: if o.kind is Fok {
                        CancelReason::FokNoFill
                    } else {
                        CancelReason::IocRemainder
                    },
                },
            ]
            &&& s.events.len() > 0 ==> s.order == (Order {
                remaining: s.order.remaining,
                ..o
            })
            &&& s.events.len() > 0 && o.remaining.finite() && o.remaining.value() >= 0
                ==> s.order.remaining.value() == 0
        }),
{
    if o.remaining.finite() && o.remaining.value() >= 0 {
        laws::lemma_difference_between(o.remaining, o.remaining);
    }
    assert((Binary64 { bits: 0 }).value() == 0);
}

/// The events of some orders come in the order of the orders, each order's by itself, and
/// the orders that still wait stay in their order.
pub proof fn lemma_orders_in_turn(
    a: Seq<Order>,
    b: Seq<Order>,
    o: Order,
    symbol: Seq<char>,
    candle: Candle,
)
    ensures
        paper::all_events(a + b, symbol, candle) == paper::all_events(a, symbol, candle)
            + paper::all_events(b, symbol, candle),
        paper::still_pending(a + b, symbol, candle) == paper::still_pending(a, symbol, candle)
            + paper::still_pending(b, symbol, candle),
        paper::all_events(seq![o], symbol, candle) == paper::stepped(o, symbol, candle).events,
        paper::still_pending(seq![o], symbol, candle) == if paper::stepped(
            o,
            symbol,
            candle,
        ).order.filled() {
            Seq::empty()
        } else {
            seq![paper::stepped(o, symbol, candle).order]
        },
    decreases b.len(),
{
    reveal_with_fuel(paper::all_events, 2);
    reveal_with_fuel(paper::still_pending, 2);
    assert(seq![o].drop_last() =~= Seq::<Order>::empty());
    let s = paper::stepped(o, symbol, candle);
    assert(paper::all_events(seq![o], symbol, candle) =~= s.events);
    assert(paper::still_pending(seq![o], symbol, candle) =~= if s.order.filled() {
        Seq::empty()
    } else {
        seq![s.order]
    });
    if b.len() == 0 {
        assert(a + b =~= a);
        assert(paper::all_events(a, symbol, candle) + Seq::<TradeEvent>::empty()
            =~= paper::all_events(a, symbol, candle));
        assert(paper::still_pending(a, symbol, candle) + Seq::<Order>::empty()
            =~= paper::still_pending(a, symbol, candle));
    } else {
        let front = b.drop_last();
        lemma_orders_in_turn(a, front, o, symbol, candle);
        assert((a + b).drop_last() =~= a + front);
        assert((a + b).last() == b.last());
        assert(paper::all_events(a + b, symbol, candle) =~= paper::all_events(a, symbol, candle)
            + paper::all_events(b, symbol, candle));
        assert(paper::still_pending(a + b, symbol, candle) =~= paper::still_pending(
            a,
            symbol,
            candle,
        ) + paper::still_pending(b, symbol, candle));
    }
}

/// Every fill that a candle brings is of a pending order of its symbol. Of one with a
/// price, which is no market order, the fill is at the better of that price and the open,
/// so that no buy costs more than its price and no sale brings less; a market order is
/// filled at the open.
pub proof fn lemma_no_fill_beyond_the_price(
    orders: Seq<Order>,
    symbol: Seq<char>,
    candle: Candle,
    e: TradeEvent,
)
    requires
        paper::all_events(orders, symbol, candle).contains(e),
        e is Fill,
    ensures
        exists|k: int|
            0 <= k < orders.len() && is_open(orders[k], symbol) && #[trigger] is_fill_of(
                e,
                orders[k],
                candle,
            ) && (if orders[k].kind is Market {
                e->Fill_0.price == candle.open
            } else {
                is_touched(orders[k], candle) && is_better_of(e->Fill_0.price, orders[k], candle)
            }),
    decreases orders.len(),
{
    if orders.len() > 0 {
        let n = orders.len() - 1;
        let front = orders.drop_last();
        let before = paper::all_events(front, symbol, candle);
        let last = orders[n];
        let s = paper::stepped(last, symbol, candle);
        let all = paper::all_events(orders, symbol, candle);
        lemma_what_a_candle_does(last, symbol, candle);
        let i = choose|i: int| 0 <= i < all.len() && all[i] == e;
        if i < before.len() {
            assert(before[i] == e);
            lemma_no_fill_beyond_the_price(front, symbol, candle, e);
            let k = choose|k: int|
                0 <= k < front.len() && is_open(front[k], symbol) && #[trigger] is_fill_of(
                    e,
                    front[k],
                    candle,
                ) && (if front[k].kind is Market {
                    e->Fill_0.price == candle.open
                } else {
                    is_touched(front[k], candle) && is_better_of(
                        e->Fill_0.price,
                        front[k],
                        candle,
                    )
                });
            assert(front[k] == orders[k]);
            assert(is_fill_of(e, orders[k], candle));
        } else {
            assert(s.events[i - before.len()] == e);
            assert(is_fill_of(e, orders[n], candle));
        }
    }
}

/// The trades that the fills among some events make, in turn.
pub open spec fn trades_of(events: Seq<TradeEvent>) -> Seq<Trade>
    decreases events.len(),
{
    if events.len() == 0 {
        Seq::empty()
    } else {
        match events.last() {
            TradeEvent::Fill(f) => trades_of(events.drop_last()).push(
                Trade {
                    order_id: f.order_id,
                    symbol: f.symbol,
                    side: f.side,
                    price: f.price,
                    qty: f.qty,
                    ts: f.ts,
                },
            ),
            TradeEvent::Cancel { .. } => trades_of(events.drop_last()),
        }
    }
}

/// Every fill is booked once and in turn, and is recorded as a trade with its own numbers;
/// a cancellation changes nothing.
pub proof fn lemma_fills_are_booked_in_turn(
    v: PortfolioView,
    a: Seq<TradeEvent>,
    b: Seq<TradeEvent>,
    fill: Fill,
    order_id: u64,
    reason: CancelReason,
)
    ensures
        paper::with_fills(v, a + b) == paper::with_fills(paper::with_fills(v, a), b),
        paper::with_fills(v, seq![TradeEvent::Fill(fill)]) == v.applied(fill),
        paper::with_fills(v, seq![TradeEvent::Cancel { order_id, reason }]) == v,
        paper::with_fills(v, a).trades == v.trades + trades_of(a),
    decreases b.len(),
{
    reveal_with_fuel(paper::with_fills, 2);
    assert(seq![TradeEvent::Fill(fill)].drop_last() =~= Seq::<TradeEvent>::empty());
    assert(seq![TradeEvent::Cancel { order_id, reason }].drop_last()
        =~= Seq::<TradeEvent>::empty());
    lemma_trades_are_recorded(v, a);
    if b.len() == 0 {
        assert(a + b =~= a);
    } else {
        lemma_fills_are_booked_in_turn(v, a, b.drop_last(), fill, order_id, reason);
        assert((a + b).drop_last() =~= a + b.drop_last());
    }
}

proof fn lemma_trades_are_recorded(v: PortfolioView, events: Seq<TradeEvent>)
    ensures
        paper::with_fills(v, events).trades == v.trades + trades_of(events),
    decreases events.len(),
{
    if events.len() == 0 {
        assert(v.trades + Seq::<Trade>::empty() =~= v.trades);
    } else {
        lemma_trades_are_recorded(v, events.drop_last());
        assert(paper::with_fills(v, events).trades =~= v.trades + trades_of(events));
    }
}

} // verus!
