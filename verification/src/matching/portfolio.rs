//! Positions, average costs and profit.

use vstd::hash_map::StringHashMap;
use vstd::prelude::*;
use super::event::Fill;
use super::order;
use super::order::{qty_is_zero, Side, QTY_REL_TOL};
use crate::binary64::{arithmetic, laws, rounding, SIGN};
use crate::Binary64;

verus! {

#[derive(Debug, Clone)]
pub struct Trade {
    pub order_id: u64,
    pub symbol: String,
    pub side: Side,
    pub price: Binary64,
    pub qty: Binary64,
    pub ts: i64,
}

/// The position in one symbol: more than zero is long, less is short. The cost is
/// the average price at which the position was entered.
pub struct Holding {
    pub pos: Binary64,
    pub cost: Binary64,
}

/// What comes of a fill: the new position, and what was realized.
pub struct Booking {
    pub holding: Holding,
    pub realized: Binary64,
}

pub open spec fn zero() -> Binary64 {
    Binary64 { bits: 0 }
}

/// The average cost of `held` at `cost` and `q` more at `p`.
pub open spec fn blended(held: Binary64, cost: Binary64, q: Binary64, p: Binary64) -> Binary64 {
    held.product(cost).sum(q.product(p)).quotient(held.sum(q))
}

/// Buying opens or adds to a long position and blends its cost, or covers a short
/// one, which realizes what the price is below its cost, on the covered part. More
/// than the short position turns it into a long one at the price of the fill.
pub open spec fn bought(h: Holding, realized: Binary64, q: Binary64, p: Binary64) -> Booking {
    if zero().at_most(h.pos) {
        Booking {
            holding: Holding { pos: h.pos.sum(q), cost: blended(h.pos, h.cost, q, p) },
            realized,
        }
    } else {
        let covered = q.lesser(h.pos.opposite());
        let leftover = q.difference(covered);
        Booking {
            holding: if order::is_dust(leftover, q) {
                Holding { pos: h.pos.sum(covered), cost: h.cost }
            } else {
                Holding { pos: leftover, cost: p }
            },
            realized: realized.sum(h.cost.difference(p).product(covered)),
        }
    }
}

/// Selling opens or adds to a short position, or reduces a long one, as buying
/// does the other way round.
pub open spec fn sold(h: Holding, realized: Binary64, q: Binary64, p: Binary64) -> Booking {
    if h.pos.at_most(zero()) {
        Booking {
            holding: Holding {
                pos: h.pos.difference(q),
                cost: blended(h.pos.opposite(), h.cost, q, p),
            },
            realized,
        }
    } else {
        let closed = q.lesser(h.pos);
        let leftover = q.difference(closed);
        Booking {
            holding: if order::is_dust(leftover, q) {
                Holding { pos: h.pos.difference(closed), cost: h.cost }
            } else {
                Holding { pos: leftover.opposite(), cost: p }
            },
            realized: realized.sum(p.difference(h.cost).product(closed)),
        }
    }
}

/// A position that is dust of the last fill is flat, and has no cost.
pub open spec fn settled(h: Holding, q: Binary64) -> Holding {
    if order::is_dust(h.pos.absolute(), q) {
        Holding { pos: zero(), cost: zero() }
    } else {
        h
    }
}

/// What comes of a fill.
pub open spec fn booked(
    h: Holding,
    realized: Binary64,
    side: Side,
    q: Binary64,
    p: Binary64,
) -> Booking {
    let b = match side {
        Side::Buy => bought(h, realized, q, p),
        Side::Sell => sold(h, realized, q, p),
    };
    Booking { holding: settled(b.holding, q), realized: b.realized }
}

/// What a portfolio holds.
#[verifier::ext_equal]
pub struct PortfolioView {
    pub cash: Binary64,
    pub positions: Map<Seq<char>, Binary64>,
    pub avg_cost: Map<Seq<char>, Binary64>,
    pub trades: Seq<Trade>,
    pub realized_pnl: Binary64,
}

impl PortfolioView {
    /// The position in a symbol: flat where nothing was traded.
    pub open spec fn holding(self, symbol: Seq<char>) -> Holding {
        Holding {
            pos: if self.positions.contains_key(symbol) {
                self.positions[symbol]
            } else {
                zero()
            },
            cost: if self.avg_cost.contains_key(symbol) {
                self.avg_cost[symbol]
            } else {
                zero()
            },
        }
    }

    /// The portfolio after a fill.
    pub open spec fn applied(self, fill: Fill) -> PortfolioView {
        let symbol = fill.symbol@;
        let b = booked(self.holding(symbol), self.realized_pnl, fill.side, fill.qty, fill.price);
        let amount = fill.qty.product(fill.price);
        PortfolioView {
            cash: match fill.side {
                Side::Buy => self.cash.difference(amount),
                Side::Sell => self.cash.sum(amount),
            },
            positions: self.positions.insert(symbol, b.holding.pos),
            avg_cost: self.avg_cost.insert(symbol, b.holding.cost),
            trades: self.trades.push(
                Trade {
                    order_id: fill.order_id,
                    symbol: fill.symbol,
                    side: fill.side,
                    price: fill.price,
                    qty: fill.qty,
                    ts: fill.ts,
                },
            ),
            realized_pnl: b.realized,
        }
    }

    /// The profit of the open position at the given price.
    pub open spec fn unrealized(self, symbol: Seq<char>, price: Binary64) -> Binary64 {
        let h = self.holding(symbol);
        price.difference(h.cost).product(h.pos)
    }

    /// The profits of the open positions, added up in turn from negative zero.
    pub open spec fn unrealized_total(self, prices: Seq<(Seq<char>, Binary64)>) -> Binary64
        decreases prices.len(),
    {
        if prices.len() == 0 {
            Binary64 { bits: SIGN }
        } else {
            self.unrealized_total(prices.drop_last()).sum(
                self.unrealized(prices.last().0, prices.last().1),
            )
        }
    }

    /// Whoever is flat has no cost.
    pub open spec fn flat_without_cost(self) -> bool {
        forall|symbol: Seq<char>|
            (#[trigger] self.holding(symbol)).pos.zero() ==> self.holding(symbol).cost.zero()
    }
}

pub open spec fn prices_view(prices: Seq<(String, Binary64)>) -> Seq<(Seq<char>, Binary64)> {
    prices.map_values(|x: (String, Binary64)| (x.0@, x.1))
}

/// Signed positions at average cost.
pub struct Portfolio {
    pub cash: Binary64,
    positions: StringHashMap<Binary64>,
    avg_cost: StringHashMap<Binary64>,
    pub trades: Vec<Trade>,
    pub realized_pnl: Binary64,
}

impl Portfolio {
    /// What the portfolio holds.
    pub closed spec fn view(&self) -> PortfolioView {
        PortfolioView {
            cash: self.cash,
            positions: self.positions@,
            avg_cost: self.avg_cost@,
            trades: self.trades@,
            realized_pnl: self.realized_pnl,
        }
    }

    /// Cash, and no positions.
    pub fn new(initial_cash: Binary64) -> (r: Portfolio)
        ensures
            r.view() == (PortfolioView {
                cash: initial_cash,
                positions: Map::empty(),
                avg_cost: Map::empty(),
                trades: Seq::empty(),
                realized_pnl: zero(),
            }),
    {
        Portfolio {
            cash: initial_cash,
            positions: StringHashMap::new(),
            avg_cost: StringHashMap::new(),
            trades: Vec::new(),
            realized_pnl: Binary64::from_bits(0),
        }
    }

    /// The cash, which is what the field of that name holds.
    pub fn cash(&self) -> (r: Binary64)
        ensures
            r == self.view().cash,
    {
        self.cash
    }

    /// The trades, in turn, which are what the field of that name holds.
    pub fn trades(&self) -> (r: &Vec<Trade>)
        ensures
            r@ == self.view().trades,
    {
        &self.trades
    }

    /// The realized profit, which is what the field of that name holds.
    pub fn realized_pnl(&self) -> (r: Binary64)
        ensures
            r == self.view().realized_pnl,
    {
        self.realized_pnl
    }

    /// Book a fill.
    pub fn apply(&mut self, fill: &Fill)
        ensures
            final(self).view() == old(self).view().applied(*fill),
    {
        self.trades.push(
            Trade {
                order_id: fill.order_id,
                symbol: fill.symbol.clone(),
                side: fill.side,
                price: fill.price,
                qty: fill.qty,
                ts: fill.ts,
            },
        );
        let none = Binary64::from_bits(0);
        let mut pos = self.position(fill.symbol.as_str());
        let mut cost = self.avg_cost(fill.symbol.as_str());
        let q = fill.qty;
        let p = fill.price;
        match fill.side {
            Side::Buy => {
                if none.le(pos) {
                    cost = pos.times(cost).plus(q.times(p)).over(pos.plus(q));
                    pos = pos.plus(q);
                } else {
                    let covered = q.min(pos.negated());
                    let gain = cost.minus(p).times(covered);
                    self.realized_pnl = self.realized_pnl.plus(gain);
                    pos = pos.plus(covered);
                    let leftover = q.minus(covered);
                    if !qty_is_zero(leftover, q) {
                        pos = leftover;
                        cost = p;
                    }
                }
                self.cash = self.cash.minus(q.times(p));
            },
            Side::Sell => {
                if pos.le(none) {
                    cost = pos.negated().times(cost).plus(q.times(p)).over(pos.negated().plus(q));
                    pos = pos.minus(q);
                } else {
                    let closed = q.min(pos);
                    let gain = p.minus(cost).times(closed);
                    self.realized_pnl = self.realized_pnl.plus(gain);
                    pos = pos.minus(closed);
                    let leftover = q.minus(closed);
                    if !qty_is_zero(leftover, q) {
                        pos = leftover.negated();
                        cost = p;
                    }
                }
                self.cash = self.cash.plus(q.times(p));
            },
        }
        if pos.abs().le(q.times(Binary64::from_bits(QTY_REL_TOL))) {
            pos = none;
            cost = none;
        }
        self.positions.insert(fill.symbol.clone(), pos);
        self.avg_cost.insert(fill.symbol.clone(), cost);
    }

    /// The position in a symbol.
    pub fn position(&self, symbol: &str) -> (r: Binary64)
        ensures
            r == self.view().holding(symbol@).pos,
    {
        match self.positions.get(symbol) {
            Some(pos) => *pos,
            None => Binary64::from_bits(0),
        }
    }

    /// The average cost of the position in a symbol.
    pub fn avg_cost(&self, symbol: &str) -> (r: Binary64)
        ensures
            r == self.view().holding(symbol@).cost,
    {
        match self.avg_cost.get(symbol) {
            Some(cost) => *cost,
            None => Binary64::from_bits(0),
        }
    }

    /// The profit of the open position at the given price, long or short.
    pub fn unrealized_pnl(&self, symbol: &str, current_price: Binary64) -> (r: Binary64)
        ensures
            r == self.view().unrealized(symbol@, current_price),
    {
        let qty = self.position(symbol);
        let cost = self.avg_cost(symbol);
        current_price.minus(cost).times(qty)
    }

    /// What was realized and the profits of the open positions, added up in the
    /// order of the prices.
    pub fn total_pnl(&self, prices: &Vec<(String, Binary64)>) -> (r: Binary64)
        ensures
            r == self.view().realized_pnl.sum(
                self.view().unrealized_total(prices_view(prices@)),
            ),
    {
        let mut sum = Binary64::from_bits(SIGN);
        let mut i: usize = 0;
        let ghost all = prices_view(prices@);
        while i < prices.len()
            invariant
                i <= prices@.len(),
                all == prices_view(prices@),
                sum == self.view().unrealized_total(all.take(i as int)),
            decreases prices@.len() - i,
        {
            let profit = self.unrealized_pnl(prices[i].0.as_str(), prices[i].1);
            sum = sum.plus(profit);
            assert(all.take(i + 1).drop_last() =~= all.take(i as int));
            i = i + 1;
        }
        assert(all.take(i as int) =~= all);
        self.realized_pnl.plus(sum)
    }
}

/// After a fill of more than nothing, whoever is flat has no cost, so that no
/// stale cost goes into the next position.
pub proof fn lemma_flat_has_no_cost(v: PortfolioView, fill: Fill)
    requires
        v.flat_without_cost(),
        fill.qty.finite(),
        fill.qty.value() > 0,
    ensures
        v.applied(fill).flat_without_cost(),
{
    let after = v.applied(fill);
    assert forall|symbol: Seq<char>| (#[trigger] after.holding(symbol)).pos.zero() implies
    after.holding(symbol).cost.zero() by {
        if symbol == fill.symbol@ {
            let h = v.holding(symbol);
            let b = match fill.side {
                Side::Buy => bought(h, v.realized_pnl, fill.qty, fill.price),
                Side::Sell => sold(h, v.realized_pnl, fill.qty, fill.price),
            };
            if b.holding.pos.zero() {
                let nothing = b.holding.pos.absolute();
                assert(nothing == zero());
                order::lemma_dust(nothing, fill.qty);
            }
        } else {
            assert(after.holding(symbol) == v.holding(symbol));
        }
    }
}

/// Profit is realized only where an existing position is reduced, never where one
/// is opened or added to.
pub proof fn lemma_opening_realizes_nothing(v: PortfolioView, fill: Fill)
    requires
        match fill.side {
            Side::Buy => zero().at_most(v.holding(fill.symbol@).pos),
            Side::Sell => v.holding(fill.symbol@).pos.at_most(zero()),
        },
    ensures
        v.applied(fill).realized_pnl == v.realized_pnl,
{
}

/// A fill of one symbol leaves the positions in the others as they are.
pub proof fn lemma_fill_leaves_other_symbols(v: PortfolioView, fill: Fill, symbol: Seq<char>)
    requires
        symbol != fill.symbol@,
    ensures
        v.applied(fill).holding(symbol) == v.holding(symbol),
{
}

proof fn lemma_opposite_sum(a: Binary64, b: Binary64)
    requires
        a.finite(),
        b.finite(),
    ensures
        a.opposite().sum(b.opposite()).pattern() == a.sum(b).pattern(),
        a.value() + b.value() != 0 ==> a.opposite().sum(b.opposite()) == a.sum(b).opposite(),
        a.value() + b.value() == 0 ==> a.sum(b).pattern() == 0,
{
    crate::binary64::lemma_opposite(a);
    crate::binary64::lemma_opposite(b);
    let exact = a.value() + b.value();
    rounding::lemma_nearest_exists(arithmetic::absolute_of(exact), 1);
    if exact == 0 {
        rounding::lemma_nearest_exact(0, 1);
    }
}

/// Buying and selling mirror each other: from the opposite position at the same
/// cost, a sale leads to the opposite of the position that a purchase leads to,
/// at the same cost.
pub proof fn lemma_buy_and_sell_mirror(
    pos: Binary64,
    cost: Binary64,
    realized: Binary64,
    q: Binary64,
    p: Binary64,
)
    requires
        pos.finite(),
        q.finite(),
        q.value() > 0,
    ensures
        ({
            let b = booked(Holding { pos, cost }, realized, Side::Buy, q, p).holding;
            let s = booked(
                Holding { pos: pos.opposite(), cost },
                realized,
                Side::Sell,
                q,
                p,
            ).holding;
            s.pos.pattern() == b.pos.pattern() && s.pos.value() == -b.pos.value() && s.cost
                == b.cost
        }),
{
    let h = Holding { pos, cost };
    let m = Holding { pos: pos.opposite(), cost };
    crate::binary64::lemma_opposite(pos);
    crate::binary64::lemma_opposite(q);
    laws::lemma_units_of_finite(pos);
    laws::lemma_units_of_finite(q);
    let b = bought(h, realized, q, p).holding;
    let s = sold(m, realized, q, p).holding;
    assert(zero().value() == 0);
    if zero().at_most(pos) {
        lemma_opposite_sum(pos, q);
        assert(pos.opposite().opposite() == pos);
        assert(s.cost == b.cost);
        assert(s.pos == b.pos.opposite());
        crate::binary64::lemma_opposite(b.pos);
    } else {
        let covered = q.lesser(pos.opposite());
        crate::binary64::lemma_opposite(covered);
        lemma_opposite_sum(pos, covered);
        let leftover = q.difference(covered);
        crate::binary64::lemma_opposite(leftover);
        if order::is_dust(leftover, q) {
            if pos.value() + covered.value() == 0 {
                assert(b.pos.pattern() == 0 && s.pos.pattern() == 0);
                order::lemma_dust(b.pos.absolute(), q);
                order::lemma_dust(s.pos.absolute(), q);
            } else {
                assert(s.pos == b.pos.opposite());
                crate::binary64::lemma_opposite(b.pos);
            }
        } else {
            crate::binary64::lemma_opposite(b.pos);
        }
    }
    assert(s.pos.absolute() == b.pos.absolute());
}

} // verus!
