//! The quoted prices of a book.

use vstd::arithmetic::power2::*;
use vstd::prelude::*;
use super::book;
use super::book::BookView;
use super::levels;
use super::order::{Order, Side};
use super::price;
use super::price::BookError;
use super::priority;
use crate::binary64;
use crate::binary64::arithmetic;
use crate::binary64::arithmetic::UNIT_DIGITS;
use crate::binary64::laws;
use crate::binary64::rounding;
use crate::binary64::rounding::BINADE;
use crate::binary64::whole;
use crate::Binary64;

verus! {

/// Keys up to this one stand for prices that all differ. It is two to the power of 52,
/// the key of a price of some 45 million.
pub const MOST_DISTINCT_KEY: u64 = 0x10_0000_0000_0000;

/// The scale of the keys is a hundred million.
proof fn lemma_scale()
    ensures
        (Binary64 { bits: price::PRICE_SCALE }).finite(),
        !(Binary64 { bits: price::PRICE_SCALE }).negative(),
        (Binary64 { bits: price::PRICE_SCALE }).units() == 100_000_000 * pow2(UNIT_DIGITS as nat),
{
    rounding::lemma_magnitude_parts(1048, 6_710_886_400_000_000);
    lemma_pow2_adds(26, 1048);
    lemma2_to64();
    assert(pow2(26) == 0x400_0000);
    let p = pow2(1048);
    assert(6_710_886_400_000_000 * p == 100_000_000 * (0x400_0000 * p)) by (nonlinear_arith);
}

/// The quotient of which a key's price is the nearest number.
proof fn lemma_price_of(key: u64)
    requires
        key <= MOST_DISTINCT_KEY,
    ensures
        ({
            let p = pow2(UNIT_DIGITS as nat);
            let x = price::price_of(key);
            &&& x.finite()
            &&& !x.negative()
            &&& x.pattern() == rounding::nearest(key as nat * p * p, 100_000_000 * p)
        }),
{
    let p = pow2(UNIT_DIGITS as nat);
    let counted = Binary64::of_whole(key as nat);
    let scale = Binary64 { bits: price::PRICE_SCALE };
    lemma_pow2_pos(UNIT_DIGITS as nat);
    laws::lemma_whole_numbers_are_exact(key as nat);
    lemma_scale();
    laws::lemma_units_of_finite(scale);
    assert(100_000_000 * p > 0) by (nonlinear_arith)
        requires
            p > 0,
    ;
    assert(counted.units() * p <= counted.units() * (100_000_000 * p)) by (nonlinear_arith);
    rounding::lemma_nearest_at_most(counted.units() * p, 100_000_000 * p, counted.pattern());
    rounding::lemma_nearest_exists(counted.units() * p, 100_000_000 * p);
    let r = rounding::nearest(counted.units() * p, 100_000_000 * p);
    binary64::lemma_sign_and_pattern(Binary64::of(false, r));
}

/// A higher key stands for a higher price.
pub proof fn lemma_prices_go_up(low: u64, high: u64)
    requires
        low < high <= MOST_DISTINCT_KEY,
    ensures
        price::price_of(low).finite(),
        price::price_of(high).finite(),
        0 <= price::price_of(low).value() < price::price_of(high).value(),
{
    let p = pow2(UNIT_DIGITS as nat);
    let d = 100_000_000 * p;
    lemma_pow2_pos(UNIT_DIGITS as nat);
    lemma_price_of(low);
    lemma_price_of(high);
    let (a, b) = (low as nat * p * p, high as nat * p * p);
    let (x, y) = (price::price_of(low), price::price_of(high));
    assert(d > 0) by (nonlinear_arith)
        requires
            d == 100_000_000 * p,
            p > 0,
    ;
    if low == 0 {
        lemma_at_least_one_key(high);
        assert(a == 0) by (nonlinear_arith)
            requires
                a == 0 * p * p,
        ;
        rounding::lemma_nearest_at_most(0, d, 0);
        rounding::lemma_nearest_exists(0, d);
    } else {
        lemma_large(low, p);
        lemma_large(high, p);
        rounding::lemma_nearest_of_quotient(a, d);
        rounding::lemma_nearest_of_quotient(b, d);
        let (m, n) = (x.units() as int, y.units() as int);
        if n <= m {
            let q = (p * p) as int;
            let (k, l) = (low as int, high as int);
            assert(a == k * q && b == l * q) by (nonlinear_arith)
                requires
                    a == k * p * p,
                    b == l * p * p,
                    q == p * p,
            ;
            assert(q > 0) by (nonlinear_arith)
                requires
                    q == p * p,
                    p > 0,
            ;
            assert(n * d <= m * d) by (nonlinear_arith)
                requires
                    n <= m,
                    d > 0,
            ;
            let (md, nd) = (m * d, n * d);
            let w = 2 * BINADE as int;
            assert(w * (l - k) <= k + l) by (nonlinear_arith)
                requires
                    (md - k * q) * w <= k * q,
                    (l * q - nd) * w <= l * q,
                    nd <= md,
                    q > 0,
                    w > 0,
            ;
            assert(w <= w * (l - k)) by (nonlinear_arith)
                requires
                    l - k >= 1,
                    w > 0,
            ;
            assert(false);
        }
    }
}

/// A key is far above the smallest number.
proof fn lemma_large(key: u64, p: nat)
    requires
        key > 0,
        p == pow2(UNIT_DIGITS as nat),
    ensures
        100_000_000 * p * BINADE <= key as nat * p * p,
{
    lemma_pow2_adds(100, 974);
    lemma_pow2_adds(64, 36);
    lemma2_to64();
    lemma_pow2_pos(974);
    lemma_pow2_pos(36);
    lemma_pow2_strictly_increases(35, 36);
    lemma2_to64_rest();
    assert(pow2(36) == 0x10_0000_0000);
    assert(p == pow2(100) * pow2(974));
    assert(p >= 100_000_000 * BINADE) by (nonlinear_arith)
        requires
            p == pow2(100) * pow2(974),
            pow2(100) == 0x1_0000_0000_0000_0000 * 0x10_0000_0000,
            pow2(974) >= 1,
            BINADE == 0x10_0000_0000_0000,
    ;
    assert(100_000_000 * p * BINADE <= key as nat * p * p) by (nonlinear_arith)
        requires
            p >= 100_000_000 * BINADE,
            key >= 1,
    ;
}

/// The price of a key is more than nothing.
proof fn lemma_at_least_one_key(key: u64)
    requires
        0 < key <= MOST_DISTINCT_KEY,
    ensures
        price::price_of(key).units() > 0,
{
    let p = pow2(UNIT_DIGITS as nat);
    lemma_pow2_pos(UNIT_DIGITS as nat);
    lemma_price_of(key);
    lemma_large(key, p);
    let n = key as nat * p * p;
    assert(100_000_000 * p > 0 && 1 * (100_000_000 * p) <= n) by (nonlinear_arith)
        requires
            100_000_000 * p * BINADE <= n,
            BINADE == 0x10_0000_0000_0000,
            p > 0,
    ;
    assert(rounding::magnitude(1) == 1);
    rounding::lemma_nearest_at_least(n, 100_000_000 * p, 1);
    laws::lemma_units_of_finite(price::price_of(key));
}

/// A book is never left crossed or locked: the best bid is below the best ask, and
/// there is a spread just where there are both, which is more than nothing. This
/// holds as long as the prices of different keys differ.
pub proof fn lemma_quotes_are_apart(b: BookView)
    requires
        b.ok(),
        b.asks.len() > 0 ==> b.asks[0].key <= MOST_DISTINCT_KEY,
    ensures
        book::best(b.bids) matches Some(bid) ==> (book::best(b.asks) matches Some(ask) ==> {
            &&& bid.less(ask)
            &&& ask.difference(bid).finite()
            &&& (Binary64 { bits: 0 }).less(ask.difference(bid))
        }),
{
    if b.bids.len() > 0 && b.asks.len() > 0 {
        let (bid, ask) = (price::price_of(b.bids[0].key), price::price_of(b.asks[0].key));
        lemma_prices_go_up(b.bids[0].key, b.asks[0].key);
        laws::lemma_difference_between(ask, bid);
        binary64::lemma_opposite(bid);
        let exact = (ask.value() - bid.value()) as nat;
        assert(rounding::magnitude(1) == 1);
        rounding::lemma_nearest_at_least(exact, 1, 1);
        rounding::lemma_nearest_exists(exact, 1);
        let spread = ask.difference(bid);
        assert(spread == arithmetic::rounded(false, exact, 1));
        binary64::lemma_sign_and_pattern(spread);
        laws::lemma_units_of_finite(spread);
        assert((Binary64 { bits: 0 }).value() == 0);
    }
}

/// An order is valid just where its quantity is finite and more than nothing and, if it
/// has a price that counts, that is finite, more than nothing and no more than the
/// largest. What is wrong with it is said, the quantity before the price. The price of a
/// market order counts unless it is zero.
pub proof fn lemma_valid_orders(o: Order)
    ensures
        ({
            let v = price::validity(o);
            let largest = Binary64 { bits: price::MAX_PRICE };
            let bad = !o.qty.finite() || o.qty.value() <= 0;
            &&& bad ==> v == Err::<(), BookError>(BookError::QuantityInvalid(o.qty))
            &&& !bad ==> match o.price {
                None => v is Ok && book::limit_of(o) is None,
                Some(p) => if o.kind is Market && p.finite() && p.value() == 0 {
                    v is Ok && book::limit_of(o) is None
                } else if !p.finite() {
                    v == Err::<(), BookError>(BookError::PriceNotFinite)
                } else if p.value() <= 0 {
                    v == Err::<(), BookError>(BookError::PriceNonPositive(p))
                } else if p.value() > largest.value() {
                    v == Err::<(), BookError>(BookError::PriceOutOfRange(p))
                } else {
                    v is Ok && book::limit_of(o) is Some
                },
            }
        }),
{
    assert((Binary64 { bits: 0 }).value() == 0);
    laws::lemma_units_of_finite(o.qty);
    if let Some(p) = o.price {
        laws::lemma_units_of_finite(p);
    }
}

/// The largest price is two to the power of 64 hundred-millionths, as nearly as a number
/// can be.
pub proof fn lemma_largest_price(z: Binary64)
    requires
        z.finite(),
    ensures
        ({
            let most = Binary64 { bits: price::MAX_PRICE };
            let exact = 0x1_0000_0000_0000_0000 * whole::unit();
            whole::apart(100_000_000 * most.value(), exact) <= whole::apart(
                100_000_000 * z.value(),
                exact,
            )
        }),
{
    let l = price::MAX_PRICE as int;
    let a = pow2(1059);
    let d = (0x1_0000_0000_0000_0000 * whole::unit()) as nat;
    lemma_pow2_pos(1059);
    rounding::lemma_magnitude_parts(1059, 0x15_798e_e230_8c39);
    rounding::lemma_magnitude_parts(1059, 0x15_798e_e230_8c3a);
    rounding::lemma_magnitude_parts(1059, 0x15_798e_e230_8c3b);
    lemma_pow2_adds(15, 1059);
    lemma2_to64();
    assert(rounding::is_nearest(l, d, 100_000_000)) by {
        let low = rounding::magnitude(l - 1);
        let mid = rounding::magnitude(l);
        let high = rounding::magnitude(l + 1);
        assert(low == 0x15_798e_e230_8c39 * a);
        assert(mid == 0x15_798e_e230_8c3a * a);
        assert(high == 0x15_798e_e230_8c3b * a);
        assert(whole::unit() == 0x8000 * a);
        assert((low + mid) * 100_000_000 < 2 * d && 2 * d < (mid + high) * 100_000_000);
    }
    rounding::lemma_nearest_exists(d, 100_000_000);
    rounding::lemma_nearest_unique(l, rounding::nearest(d, 100_000_000), d, 100_000_000);
    whole::lemma_none_nearer(d, 100_000_000, z.pattern());
}

/// An order goes on a book just where it is valid, what remains of it is finite, and it
/// is not a limit order without a price.
pub proof fn lemma_entries(o: Order)
    ensures
        book::entry(o) is Ok <==> price::validity(o) is Ok && o.remaining.finite() && !(
        o.kind is Limit && o.price is None),
        price::validity(o) matches Err(e) ==> book::entry(o) == Err::<(), BookError>(e),
{
}

/// The key of a price is its number of hundred-millionths, rounded to the nearest whole
/// number, as long as the product is not rounded before.
pub proof fn lemma_key_of_price(p: Binary64)
    requires
        price::key_of(p) is Ok,
        whole::representable(100_000_000 * p.value()),
        100_000_000 * p.value() < 0xffff_ffff_ffff_ffff * whole::unit(),
    ensures
        2 * price::key_of(p)->Ok_0 * whole::unit() - whole::unit() <= 200_000_000 * p.value(),
        200_000_000 * p.value() < 2 * price::key_of(p)->Ok_0 * whole::unit() + whole::unit(),
{
    let scale = Binary64 { bits: price::PRICE_SCALE };
    lemma_scale();
    lemma_pow2_pos(UNIT_DIGITS as nat);
    assert((Binary64 { bits: 0 }).value() == 0);
    let v = 100_000_000 * p.value();
    let u = whole::unit();
    assert(v * u == p.value() * scale.value()) by (nonlinear_arith)
        requires
            v == 100_000_000 * p.value(),
            scale.value() == 100_000_000 * u,
    ;
    whole::lemma_exact_product(p, scale, v);
    let r = p.product(scale);
    assert(!p.negative());
    rounding::lemma_nearest_exists(p.units() * scale.units(), pow2(UNIT_DIGITS as nat));
    assert(!r.negative());
    whole::lemma_as_whole(r);
}

/// The price that a key stands for is that number of hundred-millionths, as long as it is
/// not rounded.
pub proof fn lemma_price_of_key(key: u64, value: int)
    requires
        key < whole::EXACT,
        whole::representable(value),
        100_000_000 * value == key * whole::unit(),
    ensures
        price::price_of(key).finite(),
        price::price_of(key).value() == value,
{
    let scale = Binary64 { bits: price::PRICE_SCALE };
    lemma_scale();
    whole::lemma_whole(key as nat);
    let x = Binary64::of_whole(key as nat);
    let u = whole::unit();
    assert(value * scale.value() == x.value() * u) by (nonlinear_arith)
        requires
            100_000_000 * value == key * u,
            scale.value() == 100_000_000 * u,
            x.value() == key * u,
    ;
    whole::lemma_exact_quotient(x, scale, value);
}

/// Whole prices keep their values: the key of a price of so many is a hundred million
/// times as many, and it stands for that price again.
pub proof fn lemma_whole_prices(n: nat)
    requires
        0 < n,
        100_000_000 * n < whole::EXACT,
    ensures
        price::key_of(Binary64::of_whole(n)) == Ok::<u64, BookError>((100_000_000 * n) as u64),
        price::price_of((100_000_000 * n) as u64) == Binary64::of_whole(n),
{
    let scale = Binary64 { bits: price::PRICE_SCALE };
    lemma_scale();
    whole::lemma_whole(100_000_000);
    whole::lemma_same_units(scale, Binary64::of_whole(100_000_000));
    whole::lemma_whole(n);
    let p = Binary64::of_whole(n);
    let k = 100_000_000 * n;
    assert((Binary64 { bits: 0 }).value() == 0);
    whole::lemma_whole_product(n, 100_000_000);
    laws::lemma_whole_numbers_are_exact(k);
    whole::lemma_whole_quotient(n, 100_000_000);
    assert(n * 100_000_000 == k);
    // the largest price is far beyond
    let most = Binary64 { bits: price::MAX_PRICE };
    let u = whole::unit();
    assert(most.units() >= 100_000_000 * u) by {
        rounding::lemma_magnitude_increases(price::PRICE_SCALE as int, price::MAX_PRICE as int);
    }
    assert(n < 100_000_000);
    assert(n * u <= 100_000_000 * u) by (nonlinear_arith)
        requires
            n < 100_000_000,
            u > 0,
    ;
    assert(!most.less(p));
}

/// A higher price does not have a lower key.
pub proof fn lemma_keys_go_up(p: Binary64, q: Binary64)
    requires
        price::key_of(p) is Ok,
        price::key_of(q) is Ok,
        p.value() <= q.value(),
    ensures
        price::key_of(p)->Ok_0 <= price::key_of(q)->Ok_0,
{
    let scale = Binary64 { bits: price::PRICE_SCALE };
    lemma_scale();
    let d = pow2(UNIT_DIGITS as nat);
    lemma_pow2_pos(UNIT_DIGITS as nat);
    assert((Binary64 { bits: 0 }).value() == 0);
    let m = p.units() * scale.units();
    let n = q.units() * scale.units();
    assert(m <= n) by (nonlinear_arith)
        requires
            m == p.units() * scale.units(),
            n == q.units() * scale.units(),
            p.units() <= q.units(),
    ;
    rounding::lemma_nearest_exists(m, d);
    rounding::lemma_nearest_exists(n, d);
    rounding::lemma_nearest_is_ordered(m, n, d);
    let x = p.product(scale);
    let y = q.product(scale);
    if x.pattern() < y.pattern() {
        rounding::lemma_magnitude_increases(x.pattern(), y.pattern());
    }
    let u = d as int;
    vstd::arithmetic::div_mod::lemma_fundamental_div_mod(x.units() as int, u);
    vstd::arithmetic::div_mod::lemma_fundamental_div_mod(y.units() as int, u);
    vstd::arithmetic::div_mod::lemma_mod_bound(x.units() as int, u);
    vstd::arithmetic::div_mod::lemma_mod_bound(y.units() as int, u);
    let (a, r) = (x.whole(), x.rest());
    let (b, s) = (y.whole(), y.rest());
    let c = if 2 * r >= u {
        1int
    } else {
        0int
    };
    let e = if 2 * s >= u {
        1int
    } else {
        0int
    };
    assert(a + c <= b + e) by (nonlinear_arith)
        requires
            u > 0,
            u * a + r <= u * b + s,
            0 <= r < u,
            0 <= s < u,
            c == if 2 * r >= u {
                1int
            } else {
                0int
            },
            e == if 2 * s >= u {
                1int
            } else {
                0int
            },
    ;
}

/// The best bid is the highest price at which a buy order rests and the best ask the
/// lowest at which a sell order does; there is none just where there are no orders.
pub proof fn lemma_best_prices(b: BookView)
    requires
        b.ok(),
    ensures
        ({
            let buys = priority::makers(b.bids);
            let sells = priority::makers(b.asks);
            &&& book::best(b.bids) is None <==> buys.len() == 0
            &&& book::best(b.asks) is None <==> sells.len() == 0
            &&& buys.len() > 0 ==> exists|i: int|
                0 <= i < buys.len() && book::best(b.bids) == Some(
                    price::price_of(priority::key(#[trigger] buys[i])),
                ) && forall|j: int|
                    0 <= j < buys.len() ==> priority::key(#[trigger] buys[j]) <= priority::key(
                        buys[i],
                    )
            &&& sells.len() > 0 ==> exists|i: int|
                0 <= i < sells.len() && book::best(b.asks) == Some(
                    price::price_of(priority::key(#[trigger] sells[i])),
                ) && forall|j: int|
                    0 <= j < sells.len() ==> priority::key(#[trigger] sells[j]) >= priority::key(
                        sells[i],
                    )
            &&& forall|i: int, j: int|
                0 <= i < buys.len() && 0 <= j < sells.len() ==> priority::key(
                    #[trigger] buys[i],
                ) < priority::key(#[trigger] sells[j])
        }),
{
    let buys = priority::makers(b.bids);
    let sells = priority::makers(b.asks);
    priority::lemma_makers_are_sorted(Side::Buy, b.bids);
    priority::lemma_makers_are_sorted(Side::Sell, b.asks);
    if b.bids.len() > 0 {
        assert(levels::level_ok(Side::Buy, b.bids[0]));
        assert(buys[0] == b.bids[0].orders[0]);
        assert(levels::rests_at(Side::Buy, b.bids[0].key, b.bids[0].orders[0]));
        assert forall|j: int| 0 <= j < buys.len() implies priority::key(#[trigger] buys[j])
            <= priority::key(buys[0]) by {
            if j > 0 {
                assert(priority::key(buys[0]) == priority::key(buys[j]) || priority::comes_first(
                    Side::Buy,
                    priority::key(buys[0]),
                    priority::key(buys[j]),
                ));
            }
        }
    }
    if b.asks.len() > 0 {
        assert(levels::level_ok(Side::Sell, b.asks[0]));
        assert(sells[0] == b.asks[0].orders[0]);
        assert(levels::rests_at(Side::Sell, b.asks[0].key, b.asks[0].orders[0]));
        assert forall|j: int| 0 <= j < sells.len() implies priority::key(#[trigger] sells[j])
            >= priority::key(sells[0]) by {
            if j > 0 {
                assert(priority::key(sells[0]) == priority::key(sells[j])
                    || priority::comes_first(
                    Side::Sell,
                    priority::key(sells[0]),
                    priority::key(sells[j]),
                ));
            }
        }
    }
}

} // verus!
