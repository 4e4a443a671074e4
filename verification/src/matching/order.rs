//! Orders and their remaining quantities.

use vstd::prelude::*;
use vstd::arithmetic::power2::*;
use crate::binary64::{laws, rounding, whole, ONE};
use crate::Binary64;

verus! {

pub type OrderId = u64;

/// The pattern of 1e-9, the tolerance for a quantity that counts as zero. It is
/// relative to the original size of the order: repeated subtraction leaves dust
/// whose size goes with that of the quantities, so that no absolute threshold
/// would do.
pub const QTY_REL_TOL: u64 = 0x3e11_2e0b_e826_d695;

/// The quantity is zero for all that matters: at most one part in 1e9 of the
/// original.
pub open spec fn is_dust(remaining: Binary64, original: Binary64) -> bool {
    remaining.at_most(original.product(Binary64 { bits: QTY_REL_TOL }))
}

/// Whether a remaining quantity is zero for all that matters.
pub fn qty_is_zero(remaining: Binary64, original: Binary64) -> (r: bool)
    ensures
        r == is_dust(remaining, original),
{
    remaining.le(original.times(Binary64::from_bits(QTY_REL_TOL)))
}

/// Nothing left, and less than nothing, is dust of every order; what is left
/// beyond dust is more than nothing.
pub proof fn lemma_dust(remaining: Binary64, original: Binary64)
    requires
        remaining.finite(),
        original.finite(),
        !original.negative(),
    ensures
        remaining.value() <= 0 ==> is_dust(remaining, original),
        !is_dust(remaining, original) ==> remaining.value() > 0,
{
    let tol = Binary64 { bits: QTY_REL_TOL };
    laws::lemma_one();
    rounding::lemma_magnitude_increases(QTY_REL_TOL as int, ONE as int);
    laws::lemma_product_with_fraction(original, tol);
}

/// What remains is dust where it is less than a billionth of the original, and is not
/// where it is more, but for what is so near to a billionth that rounding decides.
pub proof fn lemma_dust_is_a_billionth(remaining: Binary64, original: Binary64)
    requires
        remaining.finite(),
        original.finite(),
        original.value() >= 0x1_0000_0000_0000_0000_0000_0000,
    ensures
        remaining.value() * 1_000_000_001 <= original.value() ==> is_dust(remaining, original),
        is_dust(remaining, original) ==> remaining.value() * 999_999_999 <= original.value(),
{
    let tol = Binary64 { bits: QTY_REL_TOL };
    let u = whole::unit();
    let q = original.value();
    let t = tol.value();
    let a = pow2(992) as int;
    lemma_pow2_pos(992);
    lemma_pow2_pos(1074);
    rounding::lemma_magnitude_parts(992, 0x11_2e0b_e826_d695);
    lemma_pow2_adds(82, 992);
    lemma_pow2_adds(18, 64);
    lemma2_to64();
    assert(pow2(82) == 0x4_0000_0000_0000_0000_0000);
    assert(t == 0x11_2e0b_e826_d695 * a);
    assert(u == 0x4_0000_0000_0000_0000_0000 * a);
    laws::lemma_one();
    rounding::lemma_magnitude_increases(QTY_REL_TOL as int, ONE as int);
    laws::lemma_product_with_fraction(original, tol);
    let bound = original.product(tol);
    let n = original.units() * tol.units();
    let qt = q * t;
    assert(u * rounding::BINADE <= qt) by (nonlinear_arith)
        requires
            qt == q * t,
            q >= 0x1_0000_0000_0000_0000_0000_0000,
            t == 0x11_2e0b_e826_d695 * a,
            u == 0x4_0000_0000_0000_0000_0000 * a,
            a > 0,
            rounding::BINADE == 0x10_0000_0000_0000,
    ;
    rounding::lemma_nearest_of_quotient(n, pow2(1074));
    rounding::lemma_nearest_exists(n, pow2(1074));
    let p = bound.value();
    let pu = p * u;
    let qu = q * u;
    assert(bound.units() * pow2(1074) == pu);
    assert(qt * 1_000_000_000 * 0x20_0000_0000_0000 >= qu * 0x1f_ffff_ffff_ffff) by (
    nonlinear_arith)
        requires
            qt == q * t,
            qu == q * u,
            q >= 0,
            a > 0,
            t == 0x11_2e0b_e826_d695 * a,
            u == 0x4_0000_0000_0000_0000_0000 * a,
    ;
    assert(qt * 1_000_000_000 * 0x20_0000_0000_0000 <= qu * 0x20_0000_0000_0001) by (
    nonlinear_arith)
        requires
            qt == q * t,
            qu == q * u,
            q >= 0,
            a > 0,
            t == 0x11_2e0b_e826_d695 * a,
            u == 0x4_0000_0000_0000_0000_0000 * a,
    ;
    assert((pu - qt) * 0x20_0000_0000_0000 <= qt);
    assert((qt - pu) * 0x20_0000_0000_0000 <= qt);
    let r = remaining.value();
    let ru = r * u;
    if r * 1_000_000_001 <= q && r > 0 {
        assert(ru * 1_000_000_001 <= qu && ru > 0) by (nonlinear_arith)
            requires
                ru == r * u,
                qu == q * u,
                r * 1_000_000_001 <= q,
                r > 0,
                u > 0,
        ;
        assert(ru <= pu);
        assert(r <= p) by (nonlinear_arith)
            requires
                r * u <= p * u,
                u > 0,
        ;
    }
    if r <= p && r > 0 {
        assert(ru <= pu && ru > 0) by (nonlinear_arith)
            requires
                ru == r * u,
                pu == p * u,
                0 < r <= p,
                u > 0,
        ;
        assert(ru * 999_999_999 <= qu);
        assert(r * 999_999_999 <= q) by (nonlinear_arith)
            requires
                (r * u) * 999_999_999 <= q * u,
                u > 0,
        ;
    }
}

#[derive(Debug, Clone, Copy, PartialEq, Eq, Structural)]
pub enum Side {
    Buy,
    Sell,
}

impl Side {
    /// The other side.
    pub open spec fn other(self) -> Side {
        match self {
            Side::Buy => Side::Sell,
            Side::Sell => Side::Buy,
        }
    }
}

#[derive(Debug, Clone, Copy, PartialEq, Eq, Structural)]
pub enum OrderType {
    /// Rests on the book with what is not filled.
    Limit,
    /// Takes whatever price there is, and never rests.
    Market,
    /// Immediate or cancel: never rests.
    Ioc,
    /// Fill or kill: filled as a whole or not at all.
    Fok,
}

#[derive(Debug, Clone)]
pub struct Order {
    pub id: OrderId,
    pub symbol: String,
    pub side: Side,
    pub kind: OrderType,
    /// None for a market order.
    pub price: Option<Binary64>,
    pub qty: Binary64,
    pub remaining: Binary64,
    pub ts: i64,
}

impl Order {
    /// What remains is dust of the original quantity.
    pub open spec fn filled(self) -> bool {
        is_dust(self.remaining, self.qty)
    }

    /// A new order, of which everything remains.
    pub open spec fn is_new(
        self,
        id: OrderId,
        symbol: Seq<char>,
        side: Side,
        kind: OrderType,
        price: Option<Binary64>,
        qty: Binary64,
        ts: i64,
    ) -> bool {
        &&& self.id == id
        &&& self.symbol@ == symbol
        &&& self.side == side
        &&& self.kind == kind
        &&& self.price == price
        &&& self.qty == qty
        &&& self.remaining == qty
        &&& self.ts == ts
    }

    pub fn limit(
        id: OrderId,
        symbol: &str,
        side: Side,
        price: Binary64,
        qty: Binary64,
        ts: i64,
    ) -> (r: Order)
        ensures
            r.is_new(id, symbol@, side, OrderType::Limit, Some(price), qty, ts),
    {
        Order {
            id,
            symbol: symbol.to_owned(),
            side,
            kind: OrderType::Limit,
            price: Some(price),
            qty,
            remaining: qty,
            ts,
        }
    }

    pub fn market(id: OrderId, symbol: &str, side: Side, qty: Binary64, ts: i64) -> (r: Order)
        ensures
            r.is_new(id, symbol@, side, OrderType::Market, None, qty, ts),
    {
        Order {
            id,
            symbol: symbol.to_owned(),
            side,
            kind: OrderType::Market,
            price: None,
            qty,
            remaining: qty,
            ts,
        }
    }

    pub fn ioc(
        id: OrderId,
        symbol: &str,
        side: Side,
        price: Binary64,
        qty: Binary64,
        ts: i64,
    ) -> (r: Order)
        ensures
            r.is_new(id, symbol@, side, OrderType::Ioc, Some(price), qty, ts),
    {
        Order {
            id,
            symbol: symbol.to_owned(),
            side,
            kind: OrderType::Ioc,
            price: Some(price),
            qty,
            remaining: qty,
            ts,
        }
    }

    pub fn fok(
        id: OrderId,
        symbol: &str,
        side: Side,
        price: Binary64,
        qty: Binary64,
        ts: i64,
    ) -> (r: Order)
        ensures
            r.is_new(id, symbol@, side, OrderType::Fok, Some(price), qty, ts),
    {
        Order {
            id,
            symbol: symbol.to_owned(),
            side,
            kind: OrderType::Fok,
            price: Some(price),
            qty,
            remaining: qty,
            ts,
        }
    }

    /// Whether what remains is dust of the original quantity.
    pub fn is_filled(&self) -> (r: bool)
        ensures
            r == self.filled(),
    {
        qty_is_zero(self.remaining, self.qty)
    }
}

/// A new order has all of its quantity still to be filled, and the id, the symbol, the
/// side, the kind and the price that it was made with.
pub proof fn lemma_new_order(
    o: Order,
    id: OrderId,
    symbol: Seq<char>,
    side: Side,
    kind: OrderType,
    price: Option<Binary64>,
    qty: Binary64,
    ts: i64,
)
    requires
        o.is_new(id, symbol, side, kind, price, qty, ts),
    ensures
        o.id == id,
        o.symbol@ == symbol,
        o.side == side,
        o.kind == kind,
        o.price == price,
        o.qty == qty,
        o.remaining == qty,
        o.ts == ts,
{
}

/// What is just as much as the tolerance is dust still, less than dust is dust, and the
/// more there was of an order the more is dust of it.
pub proof fn lemma_dust_follows_order(left: Binary64, more: Binary64, of: Binary64, larger: Binary64)
    requires
        of.finite(),
        !of.negative(),
        larger.finite(),
        !larger.negative(),
        of.value() <= larger.value(),
        !left.nan(),
        left.value() <= more.value(),
    ensures
        is_dust(of.product(Binary64 { bits: QTY_REL_TOL }), of),
        is_dust(more, of) ==> is_dust(left, of),
        is_dust(left, of) ==> is_dust(left, larger),
{
    let tol = Binary64 { bits: QTY_REL_TOL };
    let d = pow2(1074);
    lemma_pow2_pos(1074);
    rounding::lemma_nearest_exists(of.units() * tol.units(), d);
    rounding::lemma_nearest_exists(larger.units() * tol.units(), d);
    laws::lemma_product_commutes(of, tol);
    laws::lemma_product_commutes(larger, tol);
    whole::lemma_product_follows_order(tol, of, larger);
}

} // verus!
