//! Equity: cash and all positions at any marks make up the initial cash and the total
//! profit, as long as nothing is rounded.

use vstd::prelude::*;
use super::balance;
use super::balance::{exact_product, exact_sum, unit};
use super::event::Fill;
use super::portfolio;
use super::portfolio::PortfolioView;
use crate::binary64;
use crate::binary64::SIGN;
use crate::Binary64;

verus! {

/// A portfolio to which nothing was booked yet.
pub open spec fn fresh(initial_cash: Binary64) -> PortfolioView {
    PortfolioView {
        cash: initial_cash,
        positions: Map::empty(),
        avg_cost: Map::empty(),
        trades: Seq::empty(),
        realized_pnl: portfolio::zero(),
    }
}

/// The portfolio after some fills, one after the other.
pub open spec fn run(v: PortfolioView, fills: Seq<Fill>) -> PortfolioView
    decreases fills.len(),
{
    if fills.len() == 0 {
        v
    } else {
        run(v, fills.drop_last()).applied(fills.last())
    }
}

/// All positions in some symbols at their costs.
pub open spec fn at_cost(v: PortfolioView, prices: Seq<(Seq<char>, Binary64)>) -> int
    decreases prices.len(),
{
    if prices.len() == 0 {
        0
    } else {
        let h = v.holding(prices.last().0);
        at_cost(v, prices.drop_last()) + h.pos.value() * h.cost.value()
    }
}

/// All positions in some symbols at the given prices.
pub open spec fn at_market(v: PortfolioView, prices: Seq<(Seq<char>, Binary64)>) -> int
    decreases prices.len(),
{
    if prices.len() == 0 {
        0
    } else {
        let h = v.holding(prices.last().0);
        at_market(v, prices.drop_last()) + h.pos.value() * prices.last().1.value()
    }
}

/// The profit of the open positions in some symbols at the given prices.
pub open spec fn open_profit(v: PortfolioView, prices: Seq<(Seq<char>, Binary64)>) -> int
    decreases prices.len(),
{
    if prices.len() == 0 {
        0
    } else {
        let h = v.holding(prices.last().0);
        open_profit(v, prices.drop_last()) + (prices.last().1.value() - h.cost.value())
            * h.pos.value()
    }
}

/// No symbol comes twice.
pub open spec fn are_distinct(prices: Seq<(Seq<char>, Binary64)>) -> bool {
    forall|i: int, j: int|
        #![trigger prices[i], prices[j]]
        0 <= i < j < prices.len() ==> prices[i].0 != prices[j].0
}

/// The symbol has a price.
pub open spec fn is_priced(prices: Seq<(Seq<char>, Binary64)>, symbol: Seq<char>) -> bool {
    exists|i: int| 0 <= i < prices.len() && (#[trigger] prices[i]).0 == symbol
}

/// What the positions come to at their costs changes by what the only one that
/// changes does.
proof fn lemma_one_position_changes(
    v: PortfolioView,
    w: PortfolioView,
    prices: Seq<(Seq<char>, Binary64)>,
    symbol: Seq<char>,
)
    requires
        are_distinct(prices),
        forall|other: Seq<char>|
            other != symbol ==> #[trigger] w.holding(other) == v.holding(other),
    ensures
        at_cost(w, prices) - at_cost(v, prices) == if is_priced(prices, symbol) {
            w.holding(symbol).pos.value() * w.holding(symbol).cost.value()
                - v.holding(symbol).pos.value() * v.holding(symbol).cost.value()
        } else {
            0
        },
    decreases prices.len(),
{
    if prices.len() > 0 {
        let front = prices.drop_last();
        let last = prices[prices.len() - 1];
        assert forall|i: int, j: int|
            #![trigger front[i], front[j]]
            0 <= i < j < front.len() implies front[i].0 != front[j].0 by {
            assert(prices[i].0 != prices[j].0);
        }
        lemma_one_position_changes(v, w, front, symbol);
        if last.0 == symbol {
            assert(is_priced(prices, symbol));
            if is_priced(front, symbol) {
                let i = choose|i: int| 0 <= i < front.len() && (#[trigger] front[i]).0 == symbol;
                assert(prices[i].0 != prices[prices.len() - 1].0);
            }
        } else {
            assert(w.holding(last.0) == v.holding(last.0));
            if is_priced(prices, symbol) {
                let i = choose|i: int| 0 <= i < prices.len() && (#[trigger] prices[i]).0 == symbol;
                assert(front[i].0 == symbol);
            }
            if is_priced(front, symbol) {
                let i = choose|i: int| 0 <= i < front.len() && (#[trigger] front[i]).0 == symbol;
                assert(prices[i].0 == symbol);
            }
        }
    }
}

/// Nothing is rounded in any of the bookings, and every symbol that is traded has a
/// price.
pub open spec fn books_all_exactly(
    v: PortfolioView,
    fills: Seq<Fill>,
    prices: Seq<(Seq<char>, Binary64)>,
) -> bool {
    forall|i: int|
        0 <= i < fills.len() ==> {
            let fill = #[trigger] fills[i];
            &&& fill.qty.finite()
            &&& fill.qty.value() > 0
            &&& is_priced(prices, fill.symbol@)
            &&& balance::books_exactly(run(v, fills.take(i)), fill)
        }
}

proof fn lemma_stake_stays(
    v: PortfolioView,
    fills: Seq<Fill>,
    prices: Seq<(Seq<char>, Binary64)>,
)
    requires
        are_distinct(prices),
        books_all_exactly(v, fills, prices),
    ensures
        ({
            let w = run(v, fills);
            w.cash.value() * unit() + at_cost(w, prices) - w.realized_pnl.value() * unit()
                == v.cash.value() * unit() + at_cost(v, prices) - v.realized_pnl.value() * unit()
        }),
    decreases fills.len(),
{
    if fills.len() > 0 {
        let front = fills.drop_last();
        let fill = fills[fills.len() - 1];
        assert forall|i: int| 0 <= i < front.len() implies {
            let f = #[trigger] front[i];
            &&& f.qty.finite()
            &&& f.qty.value() > 0
            &&& is_priced(prices, f.symbol@)
            &&& balance::books_exactly(run(v, front.take(i)), f)
        } by {
            assert(front[i] == fills[i]);
            assert(front.take(i) =~= fills.take(i));
        }
        lemma_stake_stays(v, front, prices);
        assert(fills.take(fills.len() - 1) =~= front);
        let before = run(v, front);
        let after = before.applied(fill);
        balance::lemma_books_balance(before, fill);
        assert forall|other: Seq<char>| other != fill.symbol@ implies #[trigger] after.holding(
            other,
        ) == before.holding(other) by {
            portfolio::lemma_fill_leaves_other_symbols(before, fill, other);
        }
        lemma_one_position_changes(before, after, prices, fill.symbol@);
    }
}

/// The profit of the open positions is what they come to at the prices, less what they
/// come to at their costs.
proof fn lemma_open_profit(v: PortfolioView, prices: Seq<(Seq<char>, Binary64)>)
    ensures
        open_profit(v, prices) == at_market(v, prices) - at_cost(v, prices),
    decreases prices.len(),
{
    if prices.len() > 0 {
        lemma_open_profit(v, prices.drop_last());
        let h = v.holding(prices.last().0);
        let (x, k, m) = (h.pos.value(), h.cost.value(), prices.last().1.value());
        assert((m - k) * x == x * m - x * k) by (nonlinear_arith);
    }
}

proof fn lemma_nothing_held(c: Binary64, prices: Seq<(Seq<char>, Binary64)>)
    ensures
        at_cost(fresh(c), prices) == 0,
    decreases prices.len(),
{
    assert(portfolio::zero().value() == 0);
    if prices.len() > 0 {
        lemma_nothing_held(c, prices.drop_last());
    }
}

/// Whatever was bought and sold, in whatever symbols, long and short: cash and all
/// positions at any prices make up the initial cash, what was realized, and the profit
/// of the open positions at those prices, as long as nothing was rounded and nothing
/// dropped as dust.
pub proof fn lemma_equity(
    initial_cash: Binary64,
    fills: Seq<Fill>,
    prices: Seq<(Seq<char>, Binary64)>,
)
    requires
        are_distinct(prices),
        books_all_exactly(fresh(initial_cash), fills, prices),
    ensures
        ({
            let v = run(fresh(initial_cash), fills);
            v.cash.value() * unit() + at_market(v, prices) == initial_cash.value() * unit()
                + v.realized_pnl.value() * unit() + open_profit(v, prices)
        }),
{
    let v = run(fresh(initial_cash), fills);
    lemma_stake_stays(fresh(initial_cash), fills, prices);
    lemma_nothing_held(initial_cash, prices);
    lemma_open_profit(v, prices);
    assert(portfolio::zero().value() == 0);
    assert(0 * unit() == 0) by (nonlinear_arith);
}

/// Nothing is rounded where the profits of the open positions are added up.
pub open spec fn totals_exactly(v: PortfolioView, prices: Seq<(Seq<char>, Binary64)>) -> bool
    decreases prices.len(),
{
    prices.len() > 0 ==> {
        let (symbol, price) = prices.last();
        let h = v.holding(symbol);
        &&& totals_exactly(v, prices.drop_last())
        &&& exact_sum(price, h.cost.opposite())
        &&& exact_product(price.difference(h.cost), h.pos)
        &&& exact_sum(v.unrealized_total(prices.drop_last()), v.unrealized(symbol, price))
    }
}

/// The total profit is what was realized and the profit of the open positions, as long
/// as nothing is rounded.
pub proof fn lemma_total_profit(v: PortfolioView, prices: Seq<(Seq<char>, Binary64)>)
    requires
        totals_exactly(v, prices),
    ensures
        v.unrealized_total(prices).value() * unit() == open_profit(v, prices),
        exact_sum(v.realized_pnl, v.unrealized_total(prices)) ==> v.realized_pnl.sum(
            v.unrealized_total(prices),
        ).value() * unit() == v.realized_pnl.value() * unit() + open_profit(v, prices),
    decreases prices.len(),
{
    let u = unit();
    let total = v.unrealized_total(prices).value();
    if prices.len() == 0 {
        assert((Binary64 { bits: SIGN }).value() == 0);
        assert(0 * u == 0) by (nonlinear_arith);
    } else {
        let front = prices.drop_last();
        let (symbol, price) = prices.last();
        let h = v.holding(symbol);
        lemma_total_profit(v, front);
        binary64::lemma_opposite(h.cost);
        let before = v.unrealized_total(front).value();
        let own = v.unrealized(symbol, price).value();
        assert(total * u == before * u + own * u) by (nonlinear_arith)
            requires
                total == before + own,
        ;
    }
    let r = v.realized_pnl.value();
    assert((r + total) * u == r * u + total * u) by (nonlinear_arith);
}

} // verus!
