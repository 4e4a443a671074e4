//! The books balance: whatever is bought or sold, cash and the positions at cost make
//! up the initial cash and the realized profit, as long as nothing is rounded.

use vstd::prelude::*;
use vstd::arithmetic::power2::*;
use super::event::Fill;
use super::order;
use super::order::Side;
use super::portfolio;
use super::portfolio::{Holding, PortfolioView};
use crate::binary64;
use crate::binary64::arithmetic::UNIT_DIGITS;
use crate::binary64::laws;
use crate::Binary64;

verus! {

/// The value of the number one.
pub open spec fn unit() -> int {
    pow2(UNIT_DIGITS as nat) as int
}

/// The sum is not rounded.
pub open spec fn exact_sum(a: Binary64, b: Binary64) -> bool {
    a.sum(b).value() == a.value() + b.value()
}

/// The product is not rounded.
pub open spec fn exact_product(a: Binary64, b: Binary64) -> bool {
    a.product(b).value() * unit() == a.value() * b.value()
}

/// The quotient is not rounded.
pub open spec fn exact_quotient(a: Binary64, b: Binary64) -> bool {
    a.quotient(b).value() * b.value() == a.value() * unit()
}

/// Nothing is rounded where a position is opened or added to.
pub open spec fn blends_exactly(held: Binary64, cost: Binary64, q: Binary64, p: Binary64) -> bool {
    &&& exact_product(held, cost)
    &&& exact_product(q, p)
    &&& exact_sum(held, q)
    &&& exact_sum(held.product(cost), q.product(p))
    &&& exact_quotient(held.product(cost).sum(q.product(p)), held.sum(q))
}

/// Nothing is rounded where `part` of a position is given up at a profit of `gain`
/// for each, and nothing is dropped as dust.
pub open spec fn reduces_exactly(
    realized: Binary64,
    gain: Binary64,
    part: Binary64,
    q: Binary64,
) -> bool {
    &&& exact_product(gain, part)
    &&& exact_sum(realized, gain.product(part))
    &&& exact_sum(q, part.opposite())
    &&& order::is_dust(q.difference(part), q) ==> q.difference(part).value() == 0
}

/// Nothing is rounded in a booking, and nothing is dropped as dust.
pub open spec fn books_exactly(v: PortfolioView, fill: Fill) -> bool {
    let h = v.holding(fill.symbol@);
    let (q, p) = (fill.qty, fill.price);
    let b = match fill.side {
        Side::Buy => portfolio::bought(h, v.realized_pnl, q, p),
        Side::Sell => portfolio::sold(h, v.realized_pnl, q, p),
    };
    &&& exact_product(q, p)
    &&& order::is_dust(b.holding.pos.absolute(), q) ==> b.holding.pos.value() == 0
    &&& match fill.side {
        Side::Buy => {
            &&& exact_sum(v.cash, q.product(p).opposite())
            &&& if portfolio::zero().at_most(h.pos) {
                blends_exactly(h.pos, h.cost, q, p)
            } else {
                let part = q.lesser(h.pos.opposite());
                &&& exact_sum(h.cost, p.opposite())
                &&& exact_sum(h.pos, part)
                &&& reduces_exactly(v.realized_pnl, h.cost.difference(p), part, q)
            }
        },
        Side::Sell => {
            &&& exact_sum(v.cash, q.product(p))
            &&& if h.pos.at_most(portfolio::zero()) {
                &&& exact_sum(h.pos, q.opposite())
                &&& blends_exactly(h.pos.opposite(), h.cost, q, p)
            } else {
                let part = q.lesser(h.pos);
                &&& exact_sum(p, h.cost.opposite())
                &&& exact_sum(h.pos, part.opposite())
                &&& reduces_exactly(v.realized_pnl, p.difference(h.cost), part, q)
            }
        },
    }
}

/// Cash and one position at cost, less the realized profit.
pub open spec fn stake(cash: Binary64, h: Holding, realized: Binary64) -> int {
    cash.value() * unit() + h.pos.value() * h.cost.value() - realized.value() * unit()
}

/// A fill changes neither the initial cash nor makes up any: cash and the position at
/// cost, less the realized profit, stay what they were, as long as nothing is
/// rounded and nothing dropped as dust. So at any price the cash and the position
/// make up the initial cash and all profit.
pub proof fn lemma_books_balance(v: PortfolioView, fill: Fill)
    requires
        fill.qty.finite(),
        fill.qty.value() > 0,
        books_exactly(v, fill),
    ensures
        stake(
            v.applied(fill).cash,
            v.applied(fill).holding(fill.symbol@),
            v.applied(fill).realized_pnl,
        ) == stake(v.cash, v.holding(fill.symbol@), v.realized_pnl),
{
    let h = v.holding(fill.symbol@);
    let (q, p) = (fill.qty, fill.price);
    let u = unit();
    let after = v.applied(fill);
    let settled = after.holding(fill.symbol@);
    let b = match fill.side {
        Side::Buy => portfolio::bought(h, v.realized_pnl, q, p),
        Side::Sell => portfolio::sold(h, v.realized_pnl, q, p),
    };
    assert(portfolio::zero().value() == 0);
    binary64::lemma_opposite(h.pos);
    binary64::lemma_opposite(h.cost);
    binary64::lemma_opposite(p);
    binary64::lemma_opposite(q);
    binary64::lemma_opposite(q.product(p));
    // snapping to flat takes nothing away
    assert(settled.pos.value() * settled.cost.value() == b.holding.pos.value()
        * b.holding.cost.value()) by {
        if order::is_dust(b.holding.pos.absolute(), q) {
            let c = b.holding.cost.value();
            assert(0 * c == 0) by (nonlinear_arith);
            assert(0int * 0int == 0);
        }
    }
    let (x, k) = (h.pos.value(), h.cost.value());
    let (qv, pv) = (q.value(), p.value());
    let paid = q.product(p).value();
    let (nx, nk) = (b.holding.pos.value(), b.holding.cost.value());
    let (c0, c1) = (v.cash.value(), after.cash.value());
    let (r0, r1) = (v.realized_pnl.value(), after.realized_pnl.value());
    let opens = match fill.side {
        Side::Buy => portfolio::zero().at_most(h.pos),
        Side::Sell => h.pos.at_most(portfolio::zero()),
    };
    if opens {
        let held = match fill.side {
            Side::Buy => h.pos,
            Side::Sell => h.pos.opposite(),
        };
        let hv = held.value();
        let worth = held.product(h.cost).value();
        assert(nk * (hv + qv) == (worth + paid) * u);
        match fill.side {
            Side::Buy => {
                assert(c1 * u + nx * nk - r1 * u == c0 * u + x * k - r0 * u) by (nonlinear_arith)
                    requires
                        c1 == c0 - paid,
                        nx == x + qv,
                        r1 == r0,
                        nk * (x + qv) == (worth + paid) * u,
                        worth * u == x * k,
                ;
            },
            Side::Sell => {
                assert(c1 * u + nx * nk - r1 * u == c0 * u + x * k - r0 * u) by (nonlinear_arith)
                    requires
                        c1 == c0 + paid,
                        nx == x - qv,
                        r1 == r0,
                        nk * (-x + qv) == (worth + paid) * u,
                        worth * u == -x * k,
                ;
            },
        }
    } else {
        let (part, gain) = match fill.side {
            Side::Buy => (q.lesser(h.pos.opposite()), h.cost.difference(p)),
            Side::Sell => (q.lesser(h.pos), p.difference(h.cost)),
        };
        binary64::lemma_opposite(part);
        let leftover = q.difference(part);
        binary64::lemma_opposite(leftover);
        if part == q {
            laws::lemma_difference_between(q, q);
            order::lemma_dust(leftover, q);
        }
        let (a, g) = (part.value(), gain.value());
        let won = gain.product(part).value();
        match fill.side {
            Side::Buy => {
                if order::is_dust(leftover, q) {
                    assert(c1 * u + nx * nk - r1 * u == c0 * u + x * k - r0 * u)
                        by (nonlinear_arith)
                        requires
                            c1 == c0 - paid,
                            paid * u == qv * pv,
                            qv == a,
                            nx == x + a,
                            nk == k,
                            r1 == r0 + won,
                            won * u == g * a,
                            g == k - pv,
                    ;
                } else {
                    assert(a == -x);
                    assert(c1 * u + nx * nk - r1 * u == c0 * u + x * k - r0 * u)
                        by (nonlinear_arith)
                        requires
                            c1 == c0 - paid,
                            paid * u == qv * pv,
                            a == -x,
                            nx == qv - a,
                            nk == pv,
                            r1 == r0 + won,
                            won * u == g * a,
                            g == k - pv,
                    ;
                }
            },
            Side::Sell => {
                if order::is_dust(leftover, q) {
                    assert(c1 * u + nx * nk - r1 * u == c0 * u + x * k - r0 * u)
                        by (nonlinear_arith)
                        requires
                            c1 == c0 + paid,
                            paid * u == qv * pv,
                            qv == a,
                            nx == x - a,
                            nk == k,
                            r1 == r0 + won,
                            won * u == g * a,
                            g == pv - k,
                    ;
                } else {
                    assert(a == x);
                    assert(c1 * u + nx * nk - r1 * u == c0 * u + x * k - r0 * u)
                        by (nonlinear_arith)
                        requires
                            c1 == c0 + paid,
                            paid * u == qv * pv,
                            a == x,
                            nx == -(qv - a),
                            nk == pv,
                            r1 == r0 + won,
                            won * u == g * a,
                            g == pv - k,
                    ;
                }
            },
        }
    }
}

} // verus!
