//! What fills do to cash, positions, costs and profit, in whole numbers, where nothing is
//! rounded: of who is long and of who is short.

use vstd::prelude::*;
use vstd::arithmetic::power2::*;
use super::event::Fill;
use super::order;
use super::order::Side;
use super::portfolio;
use super::portfolio::PortfolioView;
use crate::binary64;
use crate::binary64::whole;
use crate::Binary64;

verus! {

/// A whole number.
pub open spec fn n(x: nat) -> Binary64 {
    Binary64::of_whole(x)
}

/// The portfolio has so much of a symbol, at such a cost, and so much cash and profit.
pub open spec fn has(
    v: PortfolioView,
    symbol: Seq<char>,
    pos: Binary64,
    cost: Binary64,
    cash: nat,
    realized: nat,
) -> bool {
    &&& v.holding(symbol).pos == pos
    &&& v.holding(symbol).cost == cost
    &&& v.cash == n(cash)
    &&& v.realized_pnl == n(realized)
}

/// A quantity and a price that are whole.
pub open spec fn is_whole_fill(f: Fill, side: Side, qty: nat, price: nat) -> bool {
    &&& f.side == side
    &&& f.qty == n(qty)
    &&& f.price == n(price)
}

/// Whole quantities that are more than a billionth of another are not dust of it, and
/// nothing is.
proof fn lemma_whole_dust(left: nat, of: nat)
    requires
        left < whole::EXACT,
        0 < of < whole::EXACT,
    ensures
        left == 0 ==> order::is_dust(n(left), n(of)),
        left * 999_999_999 > of ==> !order::is_dust(n(left), n(of)),
{
    whole::lemma_whole(left);
    whole::lemma_whole(of);
    let u = whole::unit();
    assert(u >= 0x1_0000_0000_0000_0000_0000_0000) by {
        lemma_pow2_adds(96, 978);
        lemma_pow2_adds(32, 64);
        lemma2_to64();
        lemma_pow2_pos(978);
        let a = pow2(978) as int;
        assert(pow2(96) == 0x1_0000_0000_0000_0000_0000_0000);
        assert(0x1_0000_0000_0000_0000_0000_0000 * a >= 0x1_0000_0000_0000_0000_0000_0000) by (
        nonlinear_arith)
            requires
                a >= 1,
        ;
    }
    assert(of * u >= u) by (nonlinear_arith)
        requires
            of >= 1,
            u > 0,
    ;
    order::lemma_dust_is_a_billionth(n(left), n(of));
    order::lemma_dust(n(left), n(of));
    if left * 999_999_999 > of {
        assert((left * u) * 999_999_999 > of * u) by (nonlinear_arith)
            requires
                left * 999_999_999 > of,
                u > 0,
        ;
    }
}

proof fn lemma_whole_sides(pos: nat)
    requires
        pos < whole::EXACT,
    ensures
        portfolio::zero() == n(0),
        portfolio::zero().at_most(n(pos)),
        n(pos).at_most(portfolio::zero()) <==> pos == 0,
        n(pos).absolute() == n(pos),
        n(pos).opposite().absolute() == n(pos),
{
    whole::lemma_whole(0);
    whole::lemma_whole(pos);
    assert(portfolio::zero().value() == 0);
    binary64::lemma_sign_and_pattern(n(pos));
}

/// A purchase by who is flat or long adds to the position, blends its cost, and is paid
/// for in cash; it realizes nothing.
pub proof fn lemma_purchase(
    v: PortfolioView,
    fill: Fill,
    held: nat,
    cost: nat,
    cash: nat,
    realized: nat,
    qty: nat,
    price: nat,
    mean: nat,
)
    requires
        has(v, fill.symbol@, n(held), n(cost), cash, realized),
        is_whole_fill(fill, Side::Buy, qty, price),
        qty > 0,
        qty * price <= cash < whole::EXACT,
        realized < whole::EXACT,
        held < whole::EXACT,
        cost < whole::EXACT,
        price < whole::EXACT,
        held + qty < whole::EXACT,
        held * cost + qty * price < whole::EXACT,
        mean * (held + qty) == held * cost + qty * price,
    ensures
        has(
            v.applied(fill),
            fill.symbol@,
            n(held + qty),
            n(mean),
            (cash - qty * price) as nat,
            realized,
        ),
{
    lemma_whole_sides(held);
    lemma_whole_sides(held + qty);
    lemma_facts(qty, price);
    lemma_facts(held, cost);
    whole::lemma_whole_product(qty, price);
    whole::lemma_whole_product(held, cost);
    whole::lemma_whole_sum(held * cost, qty * price);
    whole::lemma_whole_sum(held, qty);
    assert(mean <= mean * (held + qty)) by (nonlinear_arith)
        requires
            held + qty >= 1,
    ;
    whole::lemma_whole_quotient(mean, held + qty);
    whole::lemma_whole_difference(cash, qty * price);
    assert((held + qty) * 999_999_999 > qty);
    lemma_whole_dust(held + qty, qty);
}

proof fn lemma_facts(a: nat, b: nat)
    ensures
        a * b >= 0,
        a == 0 ==> a * b == 0,
        b >= 1 ==> a <= a * b,
        a >= 1 ==> b <= a * b,
{
    assert(a * b >= 0 && (a == 0 ==> a * b == 0) && (b >= 1 ==> a <= a * b) && (a >= 1 ==> b <= a
        * b)) by (nonlinear_arith);
}

/// A sale by who is long takes from the position and leaves its cost as it is. It brings
/// in cash, and realizes what the price is above the cost on what was sold. Who sells all
/// is flat, and has no cost.
pub proof fn lemma_sale_at_a_profit(
    v: PortfolioView,
    fill: Fill,
    held: nat,
    cost: nat,
    cash: nat,
    realized: nat,
    qty: nat,
    price: nat,
)
    requires
        has(v, fill.symbol@, n(held), n(cost), cash, realized),
        is_whole_fill(fill, Side::Sell, qty, price),
        0 < qty <= held < whole::EXACT,
        qty < 999_999_999,
        cost <= price < whole::EXACT,
        cash + qty * price < whole::EXACT,
        realized + (price - cost) * qty < whole::EXACT,
    ensures
        ({
            let left = (held - qty) as nat;
            has(
                v.applied(fill),
                fill.symbol@,
                n(left),
                if left == 0 {
                    n(0)
                } else {
                    n(cost)
                },
                cash + qty * price,
                (realized + (price - cost) * qty) as nat,
            )
        }),
{
    let left = (held - qty) as nat;
    let gain = (price - cost) as nat;
    lemma_whole_sides(held);
    lemma_whole_sides(left);
    lemma_facts(qty, price);
    lemma_facts(gain, qty);
    whole::lemma_whole_order(held, qty);
    whole::lemma_whole_difference(qty, qty);
    whole::lemma_whole_difference(held, qty);
    whole::lemma_whole_difference(price, cost);
    whole::lemma_whole_product(gain, qty);
    whole::lemma_whole_sum(realized, gain * qty);
    whole::lemma_whole_product(qty, price);
    whole::lemma_whole_sum(cash, qty * price);
    lemma_whole_dust(0, qty);
    lemma_whole_dust(left, qty);
}

/// Who sells more than they have of a long position is short of the rest, at the price of
/// the sale; the profit is realized on what they had.
pub proof fn lemma_sale_beyond_the_position(
    v: PortfolioView,
    fill: Fill,
    held: nat,
    cost: nat,
    cash: nat,
    realized: nat,
    qty: nat,
    price: nat,
)
    requires
        has(v, fill.symbol@, n(held), n(cost), cash, realized),
        is_whole_fill(fill, Side::Sell, qty, price),
        0 < held < qty < 999_999_999,
        cost <= price < whole::EXACT,
        cash + qty * price < whole::EXACT,
        realized + (price - cost) * held < whole::EXACT,
    ensures
        has(
            v.applied(fill),
            fill.symbol@,
            n((qty - held) as nat).opposite(),
            n(price),
            cash + qty * price,
            (realized + (price - cost) * held) as nat,
        ),
{
    let over = (qty - held) as nat;
    let gain = (price - cost) as nat;
    lemma_whole_sides(held);
    lemma_whole_sides(over);
    lemma_facts(qty, price);
    lemma_facts(gain, held);
    whole::lemma_whole_order(held, qty);
    whole::lemma_whole_difference(qty, held);
    whole::lemma_whole_difference(price, cost);
    whole::lemma_whole_product(gain, held);
    whole::lemma_whole_sum(realized, gain * held);
    whole::lemma_whole_product(qty, price);
    whole::lemma_whole_sum(cash, qty * price);
    lemma_whole_dust(over, qty);
}

/// A sale at less than the cost realizes the loss on what was sold.
pub proof fn lemma_sale_at_a_loss(
    v: PortfolioView,
    fill: Fill,
    held: nat,
    cost: nat,
    cash: nat,
    realized: nat,
    qty: nat,
    price: nat,
)
    requires
        has(v, fill.symbol@, n(held), n(cost), cash, realized),
        is_whole_fill(fill, Side::Sell, qty, price),
        0 < qty <= held < whole::EXACT,
        qty < 999_999_999,
        price < cost < whole::EXACT,
        cash + qty * price < whole::EXACT,
        (cost - price) * qty <= realized < whole::EXACT,
    ensures
        v.applied(fill).realized_pnl.value() == (realized - (cost - price) * qty) * whole::unit(),
        v.applied(fill).cash == n(cash + qty * price),
        v.applied(fill).holding(fill.symbol@).pos == n((held - qty) as nat),
{
    let left = (held - qty) as nat;
    let loss = (cost - price) as nat;
    lemma_whole_sides(held);
    lemma_whole_sides(left);
    lemma_facts(qty, price);
    lemma_facts(loss, qty);
    whole::lemma_whole_order(held, qty);
    whole::lemma_whole_difference(qty, qty);
    whole::lemma_whole_difference(held, qty);
    whole::lemma_whole_difference(price, cost);
    lemma_opposite_product(loss, qty);
    let gain = n(loss).opposite().product(n(qty));
    whole::lemma_whole(realized);
    let kept = (realized - loss * qty) as nat;
    whole::lemma_whole(kept);
    let u = whole::unit();
    assert(realized * u - (loss * qty) * u == kept * u) by (nonlinear_arith)
        requires
            kept == realized - loss * qty,
    ;
    assert(n(kept).value() == kept * u);
    whole::lemma_exact_sum(n(realized), gain);
    whole::lemma_whole_product(qty, price);
    whole::lemma_whole_sum(cash, qty * price);
    lemma_whole_dust(0, qty);
    lemma_whole_dust(left, qty);
}

proof fn lemma_opposite_product(a: nat, b: nat)
    requires
        a < whole::EXACT,
        b < whole::EXACT,
        a * b < whole::EXACT,
    ensures
        n(a).opposite().product(n(b)).finite(),
        n(a).opposite().product(n(b)).value() == -((a * b) * whole::unit()),
{
    whole::lemma_whole(a);
    whole::lemma_whole(b);
    whole::lemma_whole(a * b);
    binary64::lemma_opposite(n(a));
    binary64::lemma_opposite(n(a * b));
    let u = whole::unit();
    let v = -((a * b) * u);
    assert(n(a * b).opposite().value() == v);
    assert(n(a * b).opposite().finite());
    assert(v * u == (-(a * u)) * (b * u)) by (nonlinear_arith)
        requires
            v == -((a * b) * u),
    ;
    whole::lemma_exact_product(n(a).opposite(), n(b), v);
}

/// The open profit of a long position is what the price is above its cost, on all of it;
/// below its cost it is a loss. Who is flat has neither.
pub proof fn lemma_open_profit(
    v: PortfolioView,
    symbol: Seq<char>,
    held: nat,
    cost: nat,
    price: nat,
)
    requires
        v.holding(symbol).pos == n(held),
        v.holding(symbol).cost == n(cost),
        held < whole::EXACT,
        cost < whole::EXACT,
        price < whole::EXACT,
        price >= cost ==> (price - cost) * held < whole::EXACT,
        price < cost ==> (cost - price) * held < whole::EXACT,
    ensures
        v.unrealized(symbol, n(price)).value() == (price - cost) * held * whole::unit(),
{
    whole::lemma_whole_difference(price, cost);
    let u = whole::unit();
    if price >= cost {
        let gain = (price - cost) as nat;
        lemma_facts(gain, held);
        whole::lemma_whole_product(gain, held);
        whole::lemma_whole(gain * held);
    } else {
        let loss = (cost - price) as nat;
        lemma_opposite_product(loss, held);
        assert((price - cost) * held * u == -((loss * held) * u)) by (nonlinear_arith)
            requires
                loss == cost - price,
        ;
    }
}

/// What is known of the opposite of a whole number.
proof fn lemma_owed(held: nat)
    requires
        held < whole::EXACT,
    ensures
        n(held).opposite().finite(),
        n(held).opposite().value() == -(held * whole::unit()),
        n(held).opposite().opposite() == n(held),
        held > 0 ==> !portfolio::zero().at_most(n(held).opposite()),
        n(held).opposite().at_most(portfolio::zero()),
{
    whole::lemma_whole(held);
    whole::lemma_whole(0);
    binary64::lemma_opposite(n(held));
    binary64::lemma_sign_and_pattern(n(held));
    assert(portfolio::zero() == n(0));
    assert(0 * whole::unit() == 0) by (nonlinear_arith);
}

/// A position that is so much short is what its magnitude says.
proof fn lemma_owed_magnitude(pos: Binary64, held: nat)
    requires
        held < whole::EXACT,
        pos.finite(),
        pos.value() == -(held * whole::unit()),
    ensures
        pos.absolute() == n(held),
{
    whole::lemma_whole(held);
    binary64::lemma_sign_and_pattern(pos);
    assert(held * whole::unit() >= 0) by (nonlinear_arith)
        requires
            whole::unit() > 0,
    ;
    assert(pos.absolute().units() == held * whole::unit());
    whole::lemma_same_units(pos.absolute(), n(held));
}

/// A sale by who is short adds to what they owe, blends its cost, and brings in cash; it
/// realizes nothing.
pub proof fn lemma_short_sale(
    v: PortfolioView,
    fill: Fill,
    owed: nat,
    cost: nat,
    cash: nat,
    realized: nat,
    qty: nat,
    price: nat,
    mean: nat,
)
    requires
        has(v, fill.symbol@, n(owed).opposite(), n(cost), cash, realized),
        is_whole_fill(fill, Side::Sell, qty, price),
        owed > 0,
        qty > 0,
        cash + qty * price < whole::EXACT,
        cost < whole::EXACT,
        price < whole::EXACT,
        owed + qty < whole::EXACT,
        owed * cost + qty * price < whole::EXACT,
        mean * (owed + qty) == owed * cost + qty * price,
    ensures
        ({
            let after = v.applied(fill);
            let h = after.holding(fill.symbol@);
            &&& h.pos.value() == -((owed + qty) * whole::unit())
            &&& h.cost == n(mean)
            &&& after.cash == n(cash + qty * price)
            &&& after.realized_pnl == n(realized)
        }),
{
    lemma_owed(owed);
    lemma_owed(qty);
    lemma_facts(qty, price);
    lemma_facts(owed, cost);
    whole::lemma_whole_product(qty, price);
    whole::lemma_whole_product(owed, cost);
    whole::lemma_whole_sum(owed * cost, qty * price);
    whole::lemma_whole_sum(owed, qty);
    assert(mean <= mean * (owed + qty)) by (nonlinear_arith)
        requires
            owed + qty >= 1,
    ;
    whole::lemma_whole_quotient(mean, owed + qty);
    whole::lemma_whole_sum(cash, qty * price);
    let u = whole::unit();
    let sum = (owed + qty) as nat;
    lemma_owed(sum);
    assert(-(owed * u) + -(qty * u) == -(sum * u)) by (nonlinear_arith)
        requires
            sum == owed + qty,
    ;
    whole::lemma_exact_sum(n(owed).opposite(), n(qty).opposite());
    let pos = n(owed).opposite().difference(n(qty));
    assert(pos == n(owed).opposite().sum(n(qty).opposite()));
    lemma_owed_magnitude(pos, sum);
    lemma_whole_dust(sum, qty);
}

/// A purchase by who is short takes from what they owe and leaves its cost as it is. It
/// is paid for in cash, and realizes what the price is below the cost on what was bought
/// back. Who buys back all is flat, and has no cost.
pub proof fn lemma_cover_at_a_profit(
    v: PortfolioView,
    fill: Fill,
    owed: nat,
    cost: nat,
    cash: nat,
    realized: nat,
    qty: nat,
    price: nat,
)
    requires
        has(v, fill.symbol@, n(owed).opposite(), n(cost), cash, realized),
        is_whole_fill(fill, Side::Buy, qty, price),
        0 < qty <= owed < whole::EXACT,
        qty < 999_999_999,
        price <= cost < whole::EXACT,
        qty * price <= cash < whole::EXACT,
        realized + (cost - price) * qty < whole::EXACT,
    ensures
        ({
            let after = v.applied(fill);
            let h = after.holding(fill.symbol@);
            &&& h.pos.value() == -((owed - qty) * whole::unit())
            &&& h.cost == if owed == qty {
                n(0)
            } else {
                n(cost)
            }
            &&& after.cash == n((cash - qty * price) as nat)
            &&& after.realized_pnl == n((realized + (cost - price) * qty) as nat)
        }),
{
    let left = (owed - qty) as nat;
    let gain = (cost - price) as nat;
    lemma_owed(owed);
    lemma_owed(left);
    lemma_facts(qty, price);
    lemma_facts(gain, qty);
    whole::lemma_whole(0);
    whole::lemma_whole(qty);
    whole::lemma_whole_order(owed, qty);
    whole::lemma_whole_difference(qty, qty);
    whole::lemma_whole_difference(cost, price);
    whole::lemma_whole_product(gain, qty);
    whole::lemma_whole_sum(realized, gain * qty);
    whole::lemma_whole_product(qty, price);
    whole::lemma_whole_difference(cash, qty * price);
    let u = whole::unit();
    assert(-(owed * u) + qty * u == -(left * u)) by (nonlinear_arith)
        requires
            left == owed - qty,
    ;
    whole::lemma_exact_sum(n(owed).opposite(), n(qty));
    let pos = n(owed).opposite().sum(n(qty));
    lemma_owed_magnitude(pos, left);
    lemma_whole_dust(0, qty);
    lemma_whole_dust(left, qty);
    assert(portfolio::zero().value() == 0);
    if left == 0 {
        assert(left * u == 0) by (nonlinear_arith)
            requires
                left == 0,
        ;
    }
}

/// Who buys more than they owe is long with the rest, at the price of the purchase; the
/// profit is realized on what they owed.
pub proof fn lemma_cover_beyond_the_position(
    v: PortfolioView,
    fill: Fill,
    owed: nat,
    cost: nat,
    cash: nat,
    realized: nat,
    qty: nat,
    price: nat,
)
    requires
        has(v, fill.symbol@, n(owed).opposite(), n(cost), cash, realized),
        is_whole_fill(fill, Side::Buy, qty, price),
        0 < owed < qty < 999_999_999,
        price <= cost < whole::EXACT,
        qty * price <= cash < whole::EXACT,
        realized + (cost - price) * owed < whole::EXACT,
    ensures
        has(
            v.applied(fill),
            fill.symbol@,
            n((qty - owed) as nat),
            n(price),
            (cash - qty * price) as nat,
            (realized + (cost - price) * owed) as nat,
        ),
{
    let over = (qty - owed) as nat;
    let gain = (cost - price) as nat;
    lemma_owed(owed);
    lemma_whole_sides(over);
    lemma_facts(qty, price);
    lemma_facts(gain, owed);
    whole::lemma_whole_order(owed, qty);
    whole::lemma_whole_order(qty, owed);
    whole::lemma_whole(qty);
    whole::lemma_whole(owed);
    whole::lemma_whole_difference(qty, owed);
    whole::lemma_whole_difference(cost, price);
    whole::lemma_whole_product(gain, owed);
    whole::lemma_whole_sum(realized, gain * owed);
    whole::lemma_whole_product(qty, price);
    whole::lemma_whole_difference(cash, qty * price);
    lemma_whole_dust(over, qty);
}

/// The open profit of who is short is what the price is below the cost, on all that they
/// owe.
pub proof fn lemma_open_profit_of_a_short_position(
    v: PortfolioView,
    symbol: Seq<char>,
    owed: nat,
    cost: nat,
    price: nat,
)
    requires
        v.holding(symbol).pos == n(owed).opposite(),
        v.holding(symbol).cost == n(cost),
        owed < whole::EXACT,
        price <= cost < whole::EXACT,
        (cost - price) * owed < whole::EXACT,
    ensures
        v.unrealized(symbol, n(price)).value() == (cost - price) * owed * whole::unit(),
{
    let gain = (cost - price) as nat;
    let u = whole::unit();
    whole::lemma_whole_difference(price, cost);
    lemma_owed(owed);
    lemma_owed(gain);
    lemma_facts(gain, owed);
    whole::lemma_whole(gain * owed);
    let w = (gain * owed) * u;
    assert(n(gain * owed).value() == w);
    let d = n(price).difference(n(cost));
    whole::lemma_whole(gain);
    assert(d.value() == -(gain * u)) by {
        if gain == 0 {
            assert(0 * u == 0) by (nonlinear_arith);
        }
    }
    assert(w * u == (-(gain * u)) * (-(owed * u))) by (nonlinear_arith)
        requires
            w == (gain * owed) * u,
    ;
    whole::lemma_exact_product(d, n(owed).opposite(), w);
}

} // verus!
