//! Paper trading against candles.

use vstd::prelude::*;
use super::event::{CancelReason, Fill, TradeEvent};
use super::order::{Order, OrderId, OrderType, Side};
use super::portfolio::{Portfolio, PortfolioView};
use super::price::{validate_order, BookError};
use super::{levels, order, price};
use crate::binary64::laws;
use crate::Binary64;
use crate::Candle;

verus! {

/// The price at which a candle fills an order with a limit, if it does: a buy
/// where the low is no higher than the limit, at the limit or the open, whichever
/// is lower; a sell the other way round.
pub open spec fn touch_price(o: Order, candle: Candle) -> Option<Binary64> {
    match o.price {
        Some(limit) => match o.side {
            Side::Buy => if candle.low.at_most(limit) {
                Some(limit.lesser(candle.open))
            } else {
                None
            },
            Side::Sell => if limit.at_most(candle.high) {
                Some(limit.greater(candle.open))
            } else {
                None
            },
        },
        None => None,
    }
}

/// What a candle does to an order.
pub struct Step {
    pub order: Order,
    pub events: Seq<TradeEvent>,
}

pub open spec fn filled_at(o: Order, price: Binary64, ts: i64) -> Step {
    Step {
        order: levels::reduced(o, o.remaining),
        events: seq![levels::fill_of(o, price, o.remaining, ts)],
    }
}

/// A market order is filled at the open. An order with a limit is filled where the
/// candle touches it; where it does not, a limit order stays, and one that cannot
/// wait is cancelled.
pub open spec fn stepped(o: Order, symbol: Seq<char>, candle: Candle) -> Step {
    if o.symbol@ != symbol || o.filled() {
        Step { order: o, events: Seq::empty() }
    } else if o.kind is Market {
        filled_at(o, candle.open, candle.ts)
    } else {
        match touch_price(o, candle) {
            Some(price) => filled_at(o, price, candle.ts),
            None => if o.kind is Limit {
                Step { order: o, events: Seq::empty() }
            } else {
                let reason = if o.kind is Fok {
                    CancelReason::FokNoFill
                } else {
                    CancelReason::IocRemainder
                };
                Step {
                    order: Order { remaining: Binary64 { bits: 0 }, ..o },
                    events: seq![TradeEvent::Cancel { order_id: o.id, reason }],
                }
            },
        }
    }
}

/// What comes of all pending orders, in turn.
pub open spec fn all_events(
    orders: Seq<Order>,
    symbol: Seq<char>,
    candle: Candle,
) -> Seq<TradeEvent>
    decreases orders.len(),
{
    if orders.len() == 0 {
        Seq::empty()
    } else {
        all_events(orders.drop_last(), symbol, candle) + stepped(
            orders.last(),
            symbol,
            candle,
        ).events
    }
}

/// The orders that are still pending, in turn.
pub open spec fn still_pending(
    orders: Seq<Order>,
    symbol: Seq<char>,
    candle: Candle,
) -> Seq<Order>
    decreases orders.len(),
{
    if orders.len() == 0 {
        Seq::empty()
    } else {
        let front = still_pending(orders.drop_last(), symbol, candle);
        let last = stepped(orders.last(), symbol, candle).order;
        if last.filled() {
            front
        } else {
            front.push(last)
        }
    }
}

/// The portfolio after the fills among some events, in turn.
pub open spec fn with_fills(v: PortfolioView, events: Seq<TradeEvent>) -> PortfolioView
    decreases events.len(),
{
    if events.len() == 0 {
        v
    } else {
        let before = with_fills(v, events.drop_last());
        match events.last() {
            TradeEvent::Fill(fill) => before.applied(fill),
            TradeEvent::Cancel { .. } => before,
        }
    }
}

/// What an engine holds.
pub struct PaperView {
    pub portfolio: PortfolioView,
    pub pending: Seq<Order>,
    pub next_id: u64,
}

/// Paper trading engine: orders wait for candles, which fill them.
pub struct PaperEngine {
    pub portfolio: Portfolio,
    pending: Vec<Order>,
    next_id: u64,
}

impl PaperEngine {
    /// What the engine holds.
    pub closed spec fn view(&self) -> PaperView {
        PaperView {
            portfolio: self.portfolio.view(),
            pending: self.pending@,
            next_id: self.next_id,
        }
    }

    /// An engine with cash and no orders.
    pub fn new(initial_cash: Binary64) -> (r: PaperEngine)
        ensures
            r.view().portfolio == (PortfolioView {
                cash: initial_cash,
                positions: Map::empty(),
                avg_cost: Map::empty(),
                trades: Seq::empty(),
                realized_pnl: Binary64 { bits: 0 },
            }),
            r.view().pending == Seq::<Order>::empty(),
            r.view().next_id == 1,
    {
        PaperEngine { portfolio: Portfolio::new(initial_cash), pending: Vec::new(), next_id: 1 }
    }

    /// The portfolio, which is what the field of that name holds.
    pub fn portfolio(&self) -> (r: &Portfolio)
        ensures
            r.view() == self.view().portfolio,
    {
        &self.portfolio
    }

    /// Take in an order under a new id, unless it is not valid.
    pub fn try_submit(&mut self, order: Order) -> (r: Result<OrderId, BookError>)
        ensures
            match price::validity(order) {
                Ok(_) => {
                    let id = old(self).view().next_id;
                    &&& r == Ok::<OrderId, BookError>(id)
                    &&& final(self).view() == (PaperView {
                        pending: old(self).view().pending.push(Order { id, ..order }),
                        next_id: id.wrapping_add(1),
                        ..old(self).view()
                    })
                },
                Err(e) => {
                    &&& r == Err::<OrderId, BookError>(e)
                    &&& final(self).view() == old(self).view()
                },
            },
    {
        match validate_order(&order) {
            Ok(()) => Ok(self.enqueue(order)),
            Err(e) => Err(e),
        }
    }

    /// Take in an order. One that is not valid is dropped; it uses up an id too,
    /// which never comes to a fill.
    pub fn submit(&mut self, order: Order) -> (r: OrderId)
        ensures
            r == old(self).view().next_id,
            final(self).view() == (PaperView {
                pending: if price::validity(order) is Ok {
                    old(self).view().pending.push(Order { id: r, ..order })
                } else {
                    old(self).view().pending
                },
                next_id: r.wrapping_add(1),
                ..old(self).view()
            }),
    {
        match self.try_submit(order) {
            Ok(id) => id,
            Err(_) => {
                let id = self.next_id;
                self.next_id = id.wrapping_add(1);
                id
            },
        }
    }

    fn enqueue(&mut self, order: Order) -> (r: OrderId)
        ensures
            r == old(self).view().next_id,
            final(self).view() == (PaperView {
                pending: old(self).view().pending.push(Order { id: r, ..order }),
                next_id: r.wrapping_add(1),
                ..old(self).view()
            }),
    {
        let id = self.next_id;
        self.next_id = id.wrapping_add(1);
        let mut order = order;
        order.id = id;
        self.pending.push(order);
        id
    }

    /// Let a closed candle fill or cancel the pending orders of its symbol, and
    /// book the fills.
    pub fn on_candle(&mut self, symbol: &str, candle: &Candle) -> (events: Vec<TradeEvent>)
        ensures
            ({
                let before = old(self).view();
                &&& events@ == all_events(before.pending, symbol@, *candle)
                &&& final(self).view() == (PaperView {
                    portfolio: with_fills(before.portfolio, events@),
                    pending: still_pending(before.pending, symbol@, *candle),
                    next_id: before.next_id,
                })
            }),
    {
        let ghost orders = self.pending@;
        let name = symbol.to_owned();
        let mut events: Vec<TradeEvent> = Vec::new();
        let mut pending: Vec<Order> = Vec::new();
        std::mem::swap(&mut pending, &mut self.pending);
        let ghost mut done: int = 0;
        let mut kept: Vec<Order> = Vec::new();
        pending = reversed(pending);
        while pending.len() > 0
            invariant
                0 <= done,
                done + pending@.len() == orders.len(),
                pending@ == orders.skip(done).reverse(),
                name@ == symbol@,
                events@ == all_events(orders.take(done), symbol@, *candle),
                kept@ == still_pending(orders.take(done), symbol@, *candle),
            decreases pending@.len(),
        {
            let ghost left = pending@;
            if let Some(o) = pending.pop() {
                let mut order = o;
                assert(left.last() == orders.skip(done)[0]);
                assert(order == orders[done]);
                assert(orders.take(done + 1).drop_last() =~= orders.take(done));
                assert(pending@ =~= orders.skip(done + 1).reverse());
                step(&mut order, &name, candle, &mut events);
                if !order.is_filled() {
                    kept.push(order);
                }
                proof {
                    done = done + 1;
                }
            }
        }
        assert(orders.take(done) =~= orders);
        self.pending = kept;
        let mut i: usize = 0;
        let ghost start = self.portfolio.view();
        while i < events.len()
            invariant
                i <= events@.len(),
                self.portfolio.view() == with_fills(start, events@.take(i as int)),
                self.pending@ == kept@,
                self.next_id == old(self).next_id,
            decreases events@.len() - i,
        {
            assert(events@.take(i + 1).drop_last() =~= events@.take(i as int));
            if let TradeEvent::Fill(fill) = &events[i] {
                self.portfolio.apply(fill);
            }
            i = i + 1;
        }
        assert(events@.take(i as int) =~= events@);
        events
    }

    /// The number of pending orders.
    pub fn pending_count(&self) -> (r: usize)
        ensures
            r == self.view().pending.len(),
    {
        self.pending.len()
    }
}

/// The orders from the last to the first.
fn reversed(orders: Vec<Order>) -> (r: Vec<Order>)
    ensures
        r@ == orders@.reverse(),
{
    let ghost all = orders@;
    let mut orders = orders;
    let mut r: Vec<Order> = Vec::new();
    while orders.len() > 0
        invariant
            orders@ == all.take(orders@.len() as int),
            orders@.len() + r@.len() == all.len(),
            r@ == all.skip(orders@.len() as int).reverse(),
        decreases orders@.len(),
    {
        let ghost left = orders@;
        if let Some(o) = orders.pop() {
            r.push(o);
            assert(o == all[left.len() - 1]);
            assert(orders@ =~= all.take(orders@.len() as int));
            assert(r@ =~= all.skip(orders@.len() as int).reverse());
        }
    }
    assert(all.skip(0) =~= all);
    r
}

/// Let a candle fill or cancel one order.
fn step(order: &mut Order, symbol: &String, candle: &Candle, events: &mut Vec<TradeEvent>)
    ensures
        ({
            let s = stepped(*old(order), symbol@, *candle);
            *final(order) == s.order && final(events)@ == old(events)@ + s.events
        }),
{
    if order.symbol != *symbol || order.is_filled() {
        assert(events@ =~= events@ + Seq::<TradeEvent>::empty());
        return;
    }
    match order.kind {
        OrderType::Market => {
            let qty = order.remaining;
            emit_fill(order, candle.open, qty, candle.ts, events);
        },
        OrderType::Limit => {
            if let Some(fill_price) = limit_fill_price(order, candle) {
                let qty = order.remaining;
                emit_fill(order, fill_price, qty, candle.ts, events);
            } else {
                assert(events@ =~= events@ + Seq::<TradeEvent>::empty());
            }
        },
        OrderType::Ioc | OrderType::Fok => {
            if let Some(fill_price) = limit_fill_price(order, candle) {
                let qty = order.remaining;
                emit_fill(order, fill_price, qty, candle.ts, events);
            } else {
                let reason = if order.kind == OrderType::Fok {
                    CancelReason::FokNoFill
                } else {
                    CancelReason::IocRemainder
                };
                let ghost had = events@;
                events.push(TradeEvent::Cancel { order_id: order.id, reason });
                assert(events@ =~= had + seq![TradeEvent::Cancel { order_id: order.id, reason }]);
                order.remaining = Binary64::from_bits(0);
            }
        },
    }
}

/// The price at which a candle fills an order with a limit.
fn limit_fill_price(order: &Order, candle: &Candle) -> (r: Option<Binary64>)
    ensures
        r == touch_price(*order, *candle),
{
    match order.price {
        Some(limit) => match order.side {
            Side::Buy => if candle.low.le(limit) {
                Some(limit.min(candle.open))
            } else {
                None
            },
            Side::Sell => if limit.le(candle.high) {
                Some(limit.max(candle.open))
            } else {
                None
            },
        },
        None => None,
    }
}

/// Fill so much of an order.
fn emit_fill(
    order: &mut Order,
    price: Binary64,
    qty: Binary64,
    ts: i64,
    events: &mut Vec<TradeEvent>,
)
    ensures
        *final(order) == levels::reduced(*old(order), qty),
        final(events)@ == old(events)@ + seq![levels::fill_of(*old(order), price, qty, ts)],
{
    let ghost had = events@;
    let ghost was = *order;
    order.remaining = order.remaining.minus(qty);
    events.push(
        TradeEvent::Fill(
            Fill {
                order_id: order.id,
                symbol: order.symbol.clone(),
                side: order.side,
                price,
                qty,
                ts,
            },
        ),
    );
    assert(events@ =~= had + seq![levels::fill_of(was, price, qty, ts)]);
}

/// A candle fills no order at a price worse than its limit.
pub proof fn lemma_fill_no_worse_than_limit(o: Order, candle: Candle)
    requires
        o.price matches Some(limit) && !limit.nan(),
    ensures
        touch_price(o, candle) matches Some(price) ==> match o.side {
            Side::Buy => price.at_most(o.price->Some_0),
            Side::Sell => o.price->Some_0.at_most(price),
        },
{
}

/// An order that cannot wait is gone after a candle of its symbol, filled or
/// cancelled, and so is a market order.
pub proof fn lemma_only_limit_orders_wait(o: Order, symbol: Seq<char>, candle: Candle)
    requires
        levels::sound(o),
        o.symbol@ == symbol,
        !(o.kind is Limit),
    ensures
        stepped(o, symbol, candle).order.filled(),
{
    if !o.filled() {
        order::lemma_dust(o.remaining, o.qty);
        laws::lemma_difference_between(o.remaining, o.remaining);
        order::lemma_dust(o.remaining.difference(o.remaining), o.qty);
        let nothing = Binary64 { bits: 0 };
        assert(nothing.value() == 0);
        order::lemma_dust(nothing, o.qty);
    }
}

/// A candle fills an order as a whole or not at all.
pub proof fn lemma_filled_as_a_whole(o: Order, symbol: Seq<char>, candle: Candle)
    requires
        levels::sound(o),
    ensures
        ({
            let s = stepped(o, symbol, candle);
            (s.events.len() > 0 && s.events[0] is Fill) ==> s.order.filled() && s.events.len() == 1
                && s.events[0]->Fill_0.qty == o.remaining
        }),
{
    if !o.filled() {
        order::lemma_dust(o.remaining, o.qty);
        laws::lemma_difference_between(o.remaining, o.remaining);
        order::lemma_dust(o.remaining.difference(o.remaining), o.qty);
    }
}

/// Orders of other symbols are left alone.
pub proof fn lemma_other_symbols_wait(o: Order, symbol: Seq<char>, candle: Candle)
    requires
        o.symbol@ != symbol,
    ensures
        stepped(o, symbol, candle).order == o,
        stepped(o, symbol, candle).events == Seq::<TradeEvent>::empty(),
{
}

} // verus!
