//! Buying and selling are mirrors of each other.

use vstd::prelude::*;
use super::equity;
use super::event::Fill;
use super::order::Side;
use super::portfolio;
use super::portfolio::{Holding, PortfolioView};
use crate::binary64;
use crate::binary64::arithmetic;
use crate::binary64::laws;
use crate::binary64::rounding;
use crate::Binary64;

verus! {

/// Each number is the other's opposite; of zeros the sign does not matter.
pub open spec fn mirrored(a: Binary64, b: Binary64) -> bool {
    a.pattern() == b.pattern() && a.value() == -b.value()
}

/// The fill with the other side.
pub open spec fn turned(fill: Fill) -> Fill {
    Fill { side: fill.side.other(), ..fill }
}

/// Each portfolio is the other's mirror: the positions are opposite, at the same
/// costs, and so are the cash and what was realized.
pub open spec fn are_mirrors(v: PortfolioView, w: PortfolioView) -> bool {
    &&& mirrored(v.cash, w.cash)
    &&& mirrored(v.realized_pnl, w.realized_pnl)
    &&& forall|symbol: Seq<char>|
        mirrored((#[trigger] v.holding(symbol)).pos, w.holding(symbol).pos)
            && v.holding(symbol).cost == w.holding(symbol).cost
}

/// The fill reduces a position.
pub open spec fn reduces(v: PortfolioView, fill: Fill) -> bool {
    match fill.side {
        Side::Buy => !portfolio::zero().at_most(v.holding(fill.symbol@).pos),
        Side::Sell => !v.holding(fill.symbol@).pos.at_most(portfolio::zero()),
    }
}

/// The numbers that a fill works with are finite, and so is what comes of them.
pub open spec fn stays_finite(v: PortfolioView, fill: Fill) -> bool {
    let h = v.holding(fill.symbol@);
    &&& fill.qty.finite()
    &&& fill.qty.value() > 0
    &&& fill.price.finite()
    &&& fill.price.value() > 0
    &&& h.pos.finite()
    &&& h.cost.finite()
    &&& v.cash.finite()
    &&& v.realized_pnl.finite()
    &&& fill.qty.product(fill.price).finite()
    &&& reduces(v, fill) ==> {
        &&& h.cost.difference(fill.price).finite()
        &&& h.cost.difference(fill.price).product(fill.qty.lesser(h.pos.absolute())).finite()
    }
}

proof fn lemma_mirrored_finite(a: Binary64, b: Binary64)
    requires
        mirrored(a, b),
    ensures
        mirrored(b, a),
        a.finite() ==> b.finite(),
        a.pattern() != 0 ==> b == a.opposite(),
        a.absolute() == b.absolute(),
{
    binary64::lemma_opposite(a);
    binary64::lemma_sign_and_pattern(a);
    binary64::lemma_sign_and_pattern(b);
    laws::lemma_units_of_finite(a);
}

/// The sum of opposites is the opposite of the sum.
proof fn lemma_mirrored_sum(a: Binary64, b: Binary64, x: Binary64, y: Binary64)
    requires
        a.finite(),
        b.finite(),
        mirrored(a, x),
        mirrored(b, y),
    ensures
        mirrored(a.sum(b), x.sum(y)),
{
    let exact = a.value() + b.value();
    let n = arithmetic::absolute_of(exact);
    assert(arithmetic::absolute_of(-exact) == n);
    rounding::lemma_nearest_exists(n, 1);
    if exact == 0 {
        rounding::lemma_nearest_at_most(0, 1, 0);
    }
    let r = rounding::nearest(n, 1);
    binary64::lemma_sign_and_pattern(Binary64::of(false, r));
    binary64::lemma_sign_and_pattern(Binary64::of(true, r));
    assert(rounding::magnitude(0) == 0);
}

/// The two differences of two numbers are opposite.
proof fn lemma_mirrored_difference(a: Binary64, b: Binary64)
    requires
        a.finite(),
        b.finite(),
    ensures
        mirrored(a.difference(b), b.difference(a)),
{
    binary64::lemma_opposite(a);
    binary64::lemma_opposite(b);
    lemma_mirrored_sum(a, b.opposite(), a.opposite(), b);
    laws::lemma_sum_commutes(a.opposite(), b);
}

/// The product with the opposite is the opposite of the product.
proof fn lemma_mirrored_product(a: Binary64, x: Binary64, b: Binary64)
    requires
        a.finite(),
        b.finite(),
        mirrored(a, x),
    ensures
        mirrored(a.product(b), x.product(b)),
{
    let d = vstd::arithmetic::power2::pow2(arithmetic::UNIT_DIGITS as nat);
    vstd::arithmetic::power2::lemma_pow2_pos(arithmetic::UNIT_DIGITS as nat);
    let n = a.units() * b.units();
    rounding::lemma_nearest_exists(n, d);
    laws::lemma_units_of_finite(a);
    if a.units() == 0 {
        assert(n == 0) by (nonlinear_arith)
            requires
                n == 0 * b.units(),
        ;
        rounding::lemma_nearest_at_most(0, d, 0);
    }
    let r = rounding::nearest(n, d);
    binary64::lemma_sign_and_pattern(Binary64::of(false, r));
    binary64::lemma_sign_and_pattern(Binary64::of(true, r));
    assert(rounding::magnitude(0) == 0);
}

/// Adding zero to a number that is not negative changes nothing.
proof fn lemma_zero_and(z: Binary64, x: Binary64)
    requires
        z.pattern() == 0,
        !x.negative(),
        x.finite(),
    ensures
        z.sum(x) == x,
{
    assert(rounding::magnitude(0) == 0);
    laws::lemma_units_of_finite(x);
    rounding::lemma_nearest_exact(x.pattern(), 1);
    assert(rounding::magnitude(x.pattern()) * 1 == rounding::magnitude(x.pattern()));
    binary64::lemma_sign_and_pattern(x);
}

/// Zero times anything is zero.
proof fn lemma_zero_times(z: Binary64, x: Binary64)
    requires
        z.pattern() == 0,
        x.finite(),
    ensures
        z.product(x).pattern() == 0,
{
    let d = vstd::arithmetic::power2::pow2(arithmetic::UNIT_DIGITS as nat);
    vstd::arithmetic::power2::lemma_pow2_pos(arithmetic::UNIT_DIGITS as nat);
    assert(z.units() * x.units() == 0) by (nonlinear_arith)
        requires
            z.units() == 0,
    ;
    rounding::lemma_nearest_at_most(0, d, 0);
    rounding::lemma_nearest_exists(0, d);
    binary64::lemma_sign_and_pattern(Binary64::of(false, 0));
    binary64::lemma_sign_and_pattern(Binary64::of(true, 0));
}

/// A product of numbers that are not negative is not negative.
proof fn lemma_product_not_negative(a: Binary64, b: Binary64)
    requires
        a.finite(),
        b.finite(),
        !a.negative(),
        !b.negative(),
    ensures
        !a.product(b).negative(),
{
    let d = vstd::arithmetic::power2::pow2(arithmetic::UNIT_DIGITS as nat);
    vstd::arithmetic::power2::lemma_pow2_pos(arithmetic::UNIT_DIGITS as nat);
    rounding::lemma_nearest_exists(a.units() * b.units(), d);
    binary64::lemma_sign_and_pattern(
        Binary64::of(false, rounding::nearest(a.units() * b.units(), d)),
    );
}

/// The cost of what is added to nothing does not depend on the sign of the nothing.
proof fn lemma_blend_from_nothing(z: Binary64, cost: Binary64, q: Binary64, p: Binary64)
    requires
        z.pattern() == 0,
        cost.finite(),
        q.finite(),
        p.finite(),
        !q.negative(),
        !p.negative(),
        q.product(p).finite(),
    ensures
        z.sum(q) == q,
        portfolio::blended(z, cost, q, p) == q.product(p).quotient(q),
{
    lemma_zero_and(z, q);
    lemma_zero_times(z, cost);
    lemma_product_not_negative(q, p);
    lemma_zero_and(z.product(cost), q.product(p));
}

/// A purchase and the sale that mirrors it book opposite positions at the same cost,
/// and opposite profits.
proof fn lemma_mirrored_booking(
    h: Holding,
    m: Holding,
    realized: Binary64,
    lost: Binary64,
    q: Binary64,
    p: Binary64,
)
    requires
        mirrored(h.pos, m.pos),
        h.cost == m.cost,
        mirrored(realized, lost),
        h.pos.finite(),
        h.cost.finite(),
        realized.finite(),
        q.finite(),
        q.value() > 0,
        p.finite(),
        p.value() > 0,
        q.product(p).finite(),
        !portfolio::zero().at_most(h.pos) ==> {
            &&& h.cost.difference(p).finite()
            &&& h.cost.difference(p).product(q.lesser(h.pos.absolute())).finite()
        },
    ensures
        ({
            let b = portfolio::booked(h, realized, Side::Buy, q, p);
            let s = portfolio::booked(m, lost, Side::Sell, q, p);
            &&& mirrored(b.holding.pos, s.holding.pos)
            &&& b.holding.cost == s.holding.cost
            &&& mirrored(b.realized, s.realized)
        }),
{
    let b = portfolio::booked(h, realized, Side::Buy, q, p);
    let s = portfolio::booked(m, lost, Side::Sell, q, p);
    binary64::lemma_opposite(h.pos);
    binary64::lemma_opposite(m.pos);
    laws::lemma_units_of_finite(h.pos);
    laws::lemma_units_of_finite(q);
    laws::lemma_units_of_finite(p);
    assert(portfolio::zero().value() == 0);
    assert(rounding::magnitude(0) == 0);
    lemma_mirrored_finite(h.pos, m.pos);
    if h.pos.pattern() == 0 {
        let z = m.pos.opposite();
        lemma_blend_from_nothing(h.pos, h.cost, q, p);
        lemma_blend_from_nothing(z, m.cost, q, p);
        binary64::lemma_opposite(q);
        lemma_mirrored_sum(h.pos, q, m.pos, q.opposite());
        let raw_b = portfolio::bought(h, realized, q, p).holding;
        let raw_s = portfolio::sold(m, lost, q, p).holding;
        assert(raw_b.cost == raw_s.cost);
        lemma_mirrored_finite(raw_b.pos, raw_s.pos);
    } else {
        assert(m.pos == h.pos.opposite());
        portfolio::lemma_buy_and_sell_mirror(h.pos, h.cost, realized, q, p);
        let s2 = portfolio::booked(m, realized, Side::Sell, q, p);
        assert(s2.holding == s.holding);
        if !portfolio::zero().at_most(h.pos) {
            let part = q.lesser(h.pos.opposite());
            assert(h.pos.opposite() == h.pos.absolute());
            lemma_mirrored_difference(h.cost, p);
            lemma_mirrored_product(h.cost.difference(p), p.difference(h.cost), part);
            lemma_mirrored_sum(
                realized,
                h.cost.difference(p).product(part),
                lost,
                p.difference(h.cost).product(part),
            );
        }
    }
}

/// Of two portfolios that mirror each other, one fill in the one and the same fill
/// with the other side in the other leave mirrors, as long as nothing overflows.
pub proof fn lemma_fills_mirror(v: PortfolioView, w: PortfolioView, fill: Fill)
    requires
        are_mirrors(v, w),
        stays_finite(v, fill),
    ensures
        are_mirrors(v.applied(fill), w.applied(turned(fill))),
{
    let symbol = fill.symbol@;
    let other = turned(fill);
    let (a, b) = (v.applied(fill), w.applied(other));
    let (h, m) = (v.holding(symbol), w.holding(symbol));
    let (q, p) = (fill.qty, fill.price);
    let amount = q.product(p);
    assert(mirrored(h.pos, m.pos) && h.cost == m.cost);
    lemma_mirrored_finite(h.pos, m.pos);
    lemma_mirrored_finite(v.realized_pnl, w.realized_pnl);
    lemma_mirrored_finite(v.cash, w.cash);
    binary64::lemma_opposite(amount);
    match fill.side {
        Side::Buy => {
            lemma_mirrored_booking(h, m, v.realized_pnl, w.realized_pnl, q, p);
            lemma_mirrored_sum(v.cash, amount.opposite(), w.cash, amount);
        },
        Side::Sell => {
            lemma_mirrored_booking(m, h, w.realized_pnl, v.realized_pnl, q, p);
            lemma_mirrored_sum(v.cash, amount, w.cash, amount.opposite());
        },
    }
    assert forall|s: Seq<char>| mirrored((#[trigger] a.holding(s)).pos, b.holding(s).pos)
        && a.holding(s).cost == b.holding(s).cost by {
        assert(mirrored(v.holding(s).pos, w.holding(s).pos));
        if s != symbol {
            portfolio::lemma_fill_leaves_other_symbols(v, fill, s);
            portfolio::lemma_fill_leaves_other_symbols(w, other, s);
        }
    }
}

/// Buys and sells are exact mirrors: with every side turned, the same fills lead to
/// the opposite of every position, at the same cost, to the opposite of the cash and
/// to the opposite of what was realized, as long as nothing overflows.
pub proof fn lemma_runs_mirror(fills: Seq<Fill>, other: Seq<Fill>)
    requires
        other.len() == fills.len(),
        forall|i: int| 0 <= i < fills.len() ==> other[i] == turned(#[trigger] fills[i]),
        forall|i: int|
            0 <= i < fills.len() ==> stays_finite(
                equity::run(equity::fresh(portfolio::zero()), fills.take(i)),
                #[trigger] fills[i],
            ),
    ensures
        are_mirrors(
            equity::run(equity::fresh(portfolio::zero()), fills),
            equity::run(equity::fresh(portfolio::zero()), other),
        ),
    decreases fills.len(),
{
    let start = equity::fresh(portfolio::zero());
    assert(portfolio::zero().value() == 0);
    if fills.len() > 0 {
        let front = fills.drop_last();
        let back = other.drop_last();
        assert forall|i: int| 0 <= i < front.len() implies back[i] == turned(#[trigger] front[i])
            && stays_finite(equity::run(start, front.take(i)), front[i]) by {
            assert(front[i] == fills[i]);
            assert(front.take(i) =~= fills.take(i));
        }
        lemma_runs_mirror(front, back);
        let last = fills[fills.len() - 1];
        assert(fills.take(fills.len() - 1) =~= front);
        assert(other.last() == turned(last));
        lemma_fills_mirror(equity::run(start, front), equity::run(start, back), last);
    }
}

} // verus!
