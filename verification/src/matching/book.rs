//! The order book of one symbol, with price-time priority.

use vstd::prelude::*;
use super::event::{CancelReason, TradeEvent};
use super::levels::{match_side, offered, rest, Level, LevelView};
use super::order::{qty_is_zero, Order, OrderType, Side};
use super::price::{key_price, limit_price, price_key, validate_order};
use super::{levels, order, price};
use crate::Binary64;

pub use super::price::{BookError, MAX_PRICE};

verus! {

/// The orders on a book.
#[verifier::ext_equal]
pub struct BookView {
    pub symbol: Seq<char>,
    pub bids: Seq<LevelView>,
    pub asks: Seq<LevelView>,
}

/// What comes of an order.
pub struct Submission {
    pub book: BookView,
    pub events: Seq<TradeEvent>,
}

/// The key of the price that limits an order, if one does.
pub open spec fn limit_of(o: Order) -> Option<u64> {
    match price::quoted(o) {
        Some(p) => Some(price::key_of(p)->Ok_0),
        None => None,
    }
}

impl BookView {
    /// The resting orders of one side.
    pub open spec fn side(self, side: Side) -> Seq<LevelView> {
        match side {
            Side::Buy => self.bids,
            Side::Sell => self.asks,
        }
    }

    pub open spec fn with_side(self, side: Side, levels: Seq<LevelView>) -> BookView {
        match side {
            Side::Buy => BookView { bids: levels, ..self },
            Side::Sell => BookView { asks: levels, ..self },
        }
    }

    /// Both sides are in order, and the best bid is below the best ask.
    pub open spec fn ok(self) -> bool {
        &&& levels::side_ok(Side::Buy, self.bids)
        &&& levels::side_ok(Side::Sell, self.asks)
        &&& self.bids.len() > 0 && self.asks.len() > 0 ==> self.bids[0].key < self.asks[0].key
    }

    /// The matching of an order with the other side.
    pub open spec fn matched(self, o: Order, ts: i64) -> levels::SideMatch {
        levels::match_levels(o.side.other(), o, self.side(o.side.other()), limit_of(o), ts)
    }

    /// What the other side offers within the order's limit leaves only dust of
    /// the order.
    pub open spec fn can_fill(self, o: Order) -> bool {
        let offer = levels::available(
            o.side.other(),
            self.side(o.side.other()),
            limit_of(o),
        );
        order::is_dust(o.remaining.difference(offer), o.qty)
    }

    /// What comes of a valid order: a fill-or-kill order that cannot be filled is
    /// cancelled; any other is matched, and what is left of it rests, if it is a
    /// limit order, or is cancelled.
    pub open spec fn submitted(self, o: Order, ts: i64) -> Submission {
        let m = self.matched(o, ts);
        let book = self.with_side(o.side.other(), m.levels);
        if o.kind is Fok {
            if self.can_fill(o) {
                Submission { book, events: m.events }
            } else {
                Submission { book: self, events: seq![cancel(o, CancelReason::FokNoFill)] }
            }
        } else if m.taker.filled() {
            Submission { book, events: m.events }
        } else if o.kind is Limit {
            let own = levels::with_order(
                o.side,
                self.side(o.side),
                limit_of(o)->Some_0,
                m.taker,
            );
            Submission { book: book.with_side(o.side, own), events: m.events }
        } else {
            let reason = if o.kind is Ioc {
                CancelReason::IocRemainder
            } else {
                CancelReason::MarketNoLiquidity
            };
            Submission { book, events: m.events.push(cancel(o, reason)) }
        }
    }
}

pub open spec fn cancel(o: Order, reason: CancelReason) -> TradeEvent {
    TradeEvent::Cancel { order_id: o.id, reason }
}

/// Why an order cannot go on a book, if it cannot: it is not valid, or what remains of
/// it is not finite, or it is a limit order without a price.
pub open spec fn entry(o: Order) -> Result<(), BookError> {
    match price::validity(o) {
        Err(e) => Err(e),
        Ok(_) => if !o.remaining.finite() {
            Err(BookError::QuantityInvalid(o.remaining))
        } else if o.kind is Limit && o.price is None {
            Err(BookError::PriceMissing)
        } else {
            Ok(())
        },
    }
}

/// Whether an order can go on a book.
fn check_entry(o: &Order) -> (r: Result<(), BookError>)
    ensures
        r == entry(*o),
{
    match validate_order(o) {
        Err(e) => Err(e),
        Ok(()) => if !o.remaining.is_finite() {
            Err(BookError::QuantityInvalid(o.remaining))
        } else if o.kind == OrderType::Limit && o.price.is_none() {
            Err(BookError::PriceMissing)
        } else {
            Ok(())
        },
    }
}

/// Price-time priority order book for one symbol.
pub struct OrderBook {
    pub symbol: String,
    bids: Vec<Level>,
    asks: Vec<Level>,
}

impl OrderBook {
    /// The orders on the book, best price first and oldest first at one price.
    pub closed spec fn view(&self) -> BookView {
        BookView {
            symbol: self.symbol@,
            bids: levels::levels_view(self.bids@),
            asks: levels::levels_view(self.asks@),
        }
    }

    /// An empty book.
    pub fn new(symbol: &str) -> (r: OrderBook)
        ensures
            r.view().ok(),
            r.view() == (BookView {
                symbol: symbol@,
                bids: Seq::empty(),
                asks: Seq::empty(),
            }),
    {
        let r = OrderBook { symbol: symbol.to_owned(), bids: Vec::new(), asks: Vec::new() };
        assert(r.view().bids =~= Seq::<LevelView>::empty());
        assert(r.view().asks =~= Seq::<LevelView>::empty());
        r
    }

    /// The symbol, which is what the field of that name holds.
    pub fn symbol(&self) -> (r: &String)
        ensures
            r@ == self.view().symbol,
    {
        &self.symbol
    }

    /// Submit an order, unless it cannot go on the book.
    pub fn try_submit(&mut self, order: Order, ts: i64) -> (r: Result<Vec<TradeEvent>, BookError>)
        requires
            old(self).view().ok(),
        ensures
            final(self).view().ok(),
            match entry(order) {
                Err(e) => {
                    &&& r == Err::<Vec<TradeEvent>, BookError>(e)
                    &&& final(self).view() == old(self).view()
                },
                Ok(_) => {
                    let s = old(self).view().submitted(order, ts);
                    &&& r matches Ok(events) && events@ == s.events
                    &&& final(self).view() == s.book
                },
            },
    {
        match check_entry(&order) {
            Err(e) => Err(e),
            Ok(()) => Ok(self.submit_validated(order, ts)),
        }
    }

    /// Submit an order; one that cannot go on the book is cancelled.
    pub fn submit(&mut self, order: Order, ts: i64) -> (r: Vec<TradeEvent>)
        requires
            old(self).view().ok(),
        ensures
            final(self).view().ok(),
            match entry(order) {
                Err(_) => {
                    &&& r@ == seq![cancel(order, CancelReason::InvalidOrder)]
                    &&& final(self).view() == old(self).view()
                },
                Ok(_) => {
                    let s = old(self).view().submitted(order, ts);
                    &&& r@ == s.events
                    &&& final(self).view() == s.book
                },
            },
    {
        match check_entry(&order) {
            Err(_) => {
                let mut events: Vec<TradeEvent> = Vec::new();
                events.push(
                    TradeEvent::Cancel { order_id: order.id, reason: CancelReason::InvalidOrder },
                );
                assert(events@ =~= seq![cancel(order, CancelReason::InvalidOrder)]);
                events
            },
            Ok(()) => self.submit_validated(order, ts),
        }
    }

    /// Match a valid order.
    fn submit_validated(&mut self, order: Order, ts: i64) -> (r: Vec<TradeEvent>)
        requires
            old(self).view().ok(),
            entry(order) is Ok,
        ensures
            final(self).view().ok(),
            r@ == old(self).view().submitted(order, ts).events,
            final(self).view() == old(self).view().submitted(order, ts).book,
    {
        let ghost before = self.view();
        proof {
            lemma_submit_keeps_book(before, order, ts);
        }
        let mut events: Vec<TradeEvent> = Vec::new();
        let ghost original = order;
        if order.kind == OrderType::Fok && !self.can_fill(&order) {
            events.push(TradeEvent::Cancel { order_id: order.id, reason: CancelReason::FokNoFill });
            assert(events@ =~= seq![cancel(order, CancelReason::FokNoFill)]);
            return events;
        }
        let mut order = order;
        self.match_order(&mut order, &mut events, ts);
        assert(events@ =~= before.matched(original, ts).events);
        proof {
            levels::lemma_match_levels(
                original.side.other(),
                original,
                before.side(original.side.other()),
                limit_of(original),
                ts,
            );
        }
        if order.kind != OrderType::Fok && !order.is_filled() {
            match order.kind {
                OrderType::Limit => {
                    self.rest(order);
                },
                OrderType::Ioc => {
                    events.push(
                        TradeEvent::Cancel {
                            order_id: order.id,
                            reason: CancelReason::IocRemainder,
                        },
                    );
                },
                _ => {
                    events.push(
                        TradeEvent::Cancel {
                            order_id: order.id,
                            reason: CancelReason::MarketNoLiquidity,
                        },
                    );
                },
            }
        }
        events
    }

    /// Whether what is offered within the order's limit suffices for it.
    fn can_fill(&self, o: &Order) -> (r: bool)
        requires
            self.view().ok(),
            price::validity(*o) is Ok,
        ensures
            r == self.view().can_fill(*o),
    {
        let limit = limit_key(o);
        let offer = match o.side {
            Side::Buy => offered(Side::Sell, &self.asks, limit),
            Side::Sell => offered(Side::Buy, &self.bids, limit),
        };
        qty_is_zero(o.remaining.minus(offer), o.qty)
    }

    /// Match an order with the other side.
    fn match_order(&mut self, o: &mut Order, events: &mut Vec<TradeEvent>, ts: i64)
        requires
            old(self).view().ok(),
            levels::sound(*old(o)),
            price::validity(*old(o)) is Ok,
        ensures
            ({
                let m = old(self).view().matched(*old(o), ts);
                &&& *final(o) == m.taker
                &&& final(events)@ == old(events)@ + m.events
                &&& final(self).view() == old(self).view().with_side(
                    old(o).side.other(),
                    m.levels,
                )
            }),
    {
        let limit = limit_key(o);
        match o.side {
            Side::Buy => match_side(Side::Sell, &mut self.asks, o, limit, events, ts),
            Side::Sell => match_side(Side::Buy, &mut self.bids, o, limit, events, ts),
        }
    }

    /// Put an order on its own side.
    fn rest(&mut self, o: Order)
        requires
            levels::side_ok(o.side, old(self).view().side(o.side)),
            price::validity(o) is Ok,
            limit_of(o) is Some,
        ensures
            final(self).view() == old(self).view().with_side(
                o.side,
                levels::with_order(o.side, old(self).view().side(o.side), limit_of(o)->Some_0, o),
            ),
    {
        if let Some(key) = limit_key(&o) {
            match o.side {
                Side::Buy => rest(Side::Buy, &mut self.bids, key, o),
                Side::Sell => rest(Side::Sell, &mut self.asks, key, o),
            }
        }
    }

    /// The highest price at which a buy order rests.
    pub fn best_bid(&self) -> (r: Option<Binary64>)
        ensures
            r == best(self.view().bids),
    {
        if self.bids.len() == 0 {
            None
        } else {
            Some(key_price(self.bids[0].key))
        }
    }

    /// The lowest price at which a sell order rests.
    pub fn best_ask(&self) -> (r: Option<Binary64>)
        ensures
            r == best(self.view().asks),
    {
        if self.asks.len() == 0 {
            None
        } else {
            Some(key_price(self.asks[0].key))
        }
    }

    /// The best ask less the best bid, if there are both.
    pub fn spread(&self) -> (r: Option<Binary64>)
        ensures
            r == match (best(self.view().asks), best(self.view().bids)) {
                (Some(ask), Some(bid)) => Some(ask.difference(bid)),
                _ => None,
            },
    {
        match (self.best_ask(), self.best_bid()) {
            (Some(ask), Some(bid)) => Some(ask.minus(bid)),
            _ => None,
        }
    }
}

/// The price of the first level.
pub open spec fn best(levels: Seq<LevelView>) -> Option<Binary64> {
    if levels.len() == 0 {
        None
    } else {
        Some(price::price_of(levels[0].key))
    }
}

/// The key of an order's price.
fn limit_key(o: &Order) -> (r: Option<u64>)
    requires
        price::validity(*o) is Ok,
    ensures
        r == limit_of(*o),
{
    match limit_price(o) {
        Some(p) => Some(price_key(p)),
        None => None,
    }
}

/// An order that can go on a book can be matched.
pub proof fn lemma_entry_is_sound(o: Order)
    requires
        entry(o) is Ok,
    ensures
        levels::sound(o),
{
    lemma_valid_is_sound(o);
}

/// A valid quantity is more than nothing.
proof fn lemma_valid_is_sound(o: Order)
    requires
        price::validity(o) is Ok,
        o.remaining.finite(),
    ensures
        levels::sound(o),
{
    let zero = Binary64 { bits: 0 };
    assert(zero.value() == 0);
}

/// A book stays in order, with the best bid below the best ask, whatever order is
/// submitted.
pub proof fn lemma_submit_keeps_book(b: BookView, o: Order, ts: i64)
    requires
        b.ok(),
        entry(o) is Ok,
    ensures
        b.submitted(o, ts).book.ok(),
{
    lemma_valid_is_sound(o);
    let other = o.side.other();
    let m = b.matched(o, ts);
    levels::lemma_match_levels(other, o, b.side(other), limit_of(o), ts);
    if m.levels.len() > 0 && m.levels.len() < b.side(other).len() {
        let gone = b.side(other).len() - m.levels.len();
        assert(m.levels[0].key == b.side(other)[0 + gone].key);
        assert(levels::before(other, b.side(other)[0].key, b.side(other)[gone].key));
    }
    if o.kind is Limit && !m.taker.filled() {
        let key = limit_of(o)->Some_0;
        assert(levels::rests_at(o.side, key, m.taker));
        levels::lemma_with_order(o.side, b.side(o.side), key, m.taker);
    }
}

/// A fill-or-kill order is either cancelled, and leaves the book as it was, or
/// matched without a cancellation; it never rests.
pub proof fn lemma_fok_is_all_or_cancelled(b: BookView, o: Order, ts: i64)
    requires
        o.kind is Fok,
    ensures
        ({
            let s = b.submitted(o, ts);
            ||| s.events == seq![cancel(o, CancelReason::FokNoFill)] && s.book == b
            ||| b.can_fill(o) && s.events == b.matched(o, ts).events
        }),
        b.submitted(o, ts).book.side(o.side) == b.side(o.side),
{
}

/// Only limit orders rest: any other leaves its own side of the book as it was.
pub proof fn lemma_only_limit_orders_rest(b: BookView, o: Order, ts: i64)
    requires
        !(o.kind is Limit),
    ensures
        b.submitted(o, ts).book.side(o.side) == b.side(o.side),
{
}

/// The first to trade with an order is the oldest of those at the best price.
pub proof fn lemma_oldest_at_best_price_first(b: BookView, o: Order, ts: i64)
    requires
        b.ok(),
        !o.filled(),
        b.side(o.side.other()).len() > 0,
        levels::within(o.side.other(), limit_of(o), b.side(o.side.other())[0].key),
    ensures
        ({
            let level = b.side(o.side.other())[0];
            let maker = level.orders[0];
            let qty = levels::traded(o, maker);
            let events = b.matched(o, ts).events;
            &&& events.len() >= 2
            &&& events[0] == levels::fill_of(o, price::price_of(level.key), qty, ts)
            &&& events[1] == levels::fill_of(maker, price::price_of(level.key), qty, ts)
        }),
{
    let other = o.side.other();
    let level = b.side(other)[0];
    assert(levels::level_ok(other, level));
}

/// Two fills of one trade: the taker's and a maker's, of the same quantity, at the
/// same price, which is no worse than the taker's limit.
pub open spec fn is_trade(e: TradeEvent, f: TradeEvent, taker: Order, limit: Option<u64>) -> bool {
    &&& e matches TradeEvent::Fill(a)
    &&& f matches TradeEvent::Fill(b)
    &&& a.order_id == taker.id
    &&& a.symbol == taker.symbol
    &&& a.side == taker.side
    &&& b.side == taker.side.other()
    &&& a.price == b.price
    &&& a.qty == b.qty
    &&& a.ts == b.ts
    &&& a.qty.finite()
    &&& a.qty.value() > 0
    &&& exists|key: u64|
        #[trigger] levels::within(taker.side.other(), limit, key) && a.price == price::price_of(
            key,
        )
}

/// Nothing but trades.
pub open spec fn all_trades(events: Seq<TradeEvent>, taker: Order, limit: Option<u64>) -> bool {
    &&& events.len() % 2 == 0
    &&& forall|i: int|
        #![trigger events[2 * i]]
        0 <= 2 * i < events.len() ==> is_trade(events[2 * i], events[2 * i + 1], taker, limit)
}

proof fn lemma_trades_add(
    a: Seq<TradeEvent>,
    b: Seq<TradeEvent>,
    taker: Order,
    limit: Option<u64>,
)
    requires
        all_trades(a, taker, limit),
        all_trades(b, taker, limit),
    ensures
        all_trades(a + b, taker, limit),
{
    assert forall|i: int|
        #![trigger (a + b)[2 * i]]
        0 <= 2 * i < (a + b).len() implies is_trade(
        (a + b)[2 * i],
        (a + b)[2 * i + 1],
        taker,
        limit,
    ) by {
        if 2 * i < a.len() {
            assert(is_trade(a[2 * i], a[2 * i + 1], taker, limit));
        } else {
            let j = i - a.len() as int / 2;
            assert(2 * j == 2 * i - a.len());
            assert(is_trade(b[2 * j], b[2 * j + 1], taker, limit));
        }
    }
}

proof fn lemma_level_trades(
    key: u64,
    taker: Order,
    orders: Seq<Order>,
    limit: Option<u64>,
    ts: i64,
)
    requires
        levels::sound(taker),
        forall|i: int|
            0 <= i < orders.len() ==> levels::rests_at(
                taker.side.other(),
                key,
                #[trigger] orders[i],
            ),
        levels::within(taker.side.other(), limit, key),
    ensures
        all_trades(
            levels::match_level(taker, orders, price::price_of(key), ts).events,
            taker,
            limit,
        ),
    decreases orders.len(),
{
    let price = price::price_of(key);
    if !taker.filled() && orders.len() > 0 {
        let maker = orders[0];
        assert(levels::rests_at(taker.side.other(), key, maker));
        levels::lemma_trade(taker, maker);
        let qty = levels::traded(taker, maker);
        let pair = seq![
            levels::fill_of(taker, price, qty, ts),
            levels::fill_of(maker, price, qty, ts),
        ];
        assert(is_trade(pair[0], pair[1], taker, limit));
        assert(all_trades(pair, taker, limit)) by {
            assert forall|i: int|
                #![trigger pair[2 * i]]
                0 <= 2 * i < pair.len() implies is_trade(
                pair[2 * i],
                pair[2 * i + 1],
                taker,
                limit,
            ) by {
                assert(i == 0);
            }
        }
        if levels::reduced(maker, qty).filled() {
            let left = levels::reduced(taker, qty);
            let tail = orders.drop_first();
            assert forall|i: int| 0 <= i < tail.len() implies levels::rests_at(
                taker.side.other(),
                key,
                #[trigger] tail[i],
            ) by {
                assert(tail[i] == orders[i + 1]);
            }
            lemma_level_trades(key, left, tail, limit, ts);
            let rest = levels::match_level(left, tail, price, ts).events;
            assert(all_trades(rest, taker, limit)) by {
                assert forall|i: int|
                    #![trigger rest[2 * i]]
                    0 <= 2 * i < rest.len() implies is_trade(
                    rest[2 * i],
                    rest[2 * i + 1],
                    taker,
                    limit,
                ) by {
                    assert(is_trade(rest[2 * i], rest[2 * i + 1], left, limit));
                }
            }
            lemma_trades_add(pair, rest, taker, limit);
        }
    }
}

/// Matching an order gives nothing but trades, in pairs of fills, and no trade is
/// at a price worse than the order's limit.
pub proof fn lemma_matching_gives_trades(
    taker: Order,
    side: Seq<LevelView>,
    limit: Option<u64>,
    ts: i64,
)
    requires
        levels::sound(taker),
        levels::side_ok(taker.side.other(), side),
    ensures
        all_trades(
            levels::match_levels(taker.side.other(), taker, side, limit, ts).events,
            taker,
            limit,
        ),
    decreases side.len(),
{
    let other = taker.side.other();
    if side.len() > 0 && levels::within(other, limit, side[0].key) {
        let key = side[0].key;
        let price = price::price_of(key);
        assert(levels::level_ok(other, side[0]));
        lemma_level_trades(key, taker, side[0].orders, limit, ts);
        levels::lemma_match_level(other, key, taker, side[0].orders, price, ts);
        let m = levels::match_level(taker, side[0].orders, price, ts);
        if m.orders.len() == 0 && !m.taker.filled() {
            let tail = side.drop_first();
            assert(levels::side_ok(other, tail)) by {
                assert forall|i: int| 0 <= i < tail.len() implies levels::level_ok(
                    other,
                    #[trigger] tail[i],
                ) by {
                    assert(tail[i] == side[i + 1]);
                }
            }
            lemma_matching_gives_trades(m.taker, tail, limit, ts);
            let rest = levels::match_levels(other, m.taker, tail, limit, ts).events;
            assert(all_trades(rest, taker, limit)) by {
                assert forall|i: int|
                    #![trigger rest[2 * i]]
                    0 <= 2 * i < rest.len() implies is_trade(
                    rest[2 * i],
                    rest[2 * i + 1],
                    taker,
                    limit,
                ) by {
                    assert(is_trade(rest[2 * i], rest[2 * i + 1], m.taker, limit));
                }
            }
            lemma_trades_add(m.events, rest, taker, limit);
        }
    }
}

} // verus!
