//! Prices as whole-number keys, and what makes an order valid.

use vstd::prelude::*;
use super::order::{Order, OrderType};
use crate::Binary64;

verus! {

/// Why an order is not valid.
#[derive(Debug, Clone, Copy, PartialEq)]
pub enum BookError {
    /// The price is infinite or not a number.
    PriceNotFinite,
    /// The price is zero or negative.
    PriceNonPositive(Binary64),
    /// The price is beyond what a key can hold.
    PriceOutOfRange(Binary64),
    /// The quantity is infinite, not a number, zero or negative.
    QuantityInvalid(Binary64),
    /// A limit order has no price to rest at.
    PriceMissing,
}

/// The pattern of 1e8: keys count hundred-millionths.
pub const PRICE_SCALE: u64 = 0x4197_d784_0000_0000;

/// The pattern of the largest price that has a key, which is the largest 64-bit
/// whole number over 1e8.
pub const MAX_PRICE: u64 = 0x4245_798e_e230_8c3a;

/// The key of a price: its hundred-millionths, rounded to the nearest.
pub open spec fn key_of(p: Binary64) -> Result<u64, BookError> {
    if !p.finite() {
        Err(BookError::PriceNotFinite)
    } else if p.at_most(Binary64 { bits: 0 }) {
        Err(BookError::PriceNonPositive(p))
    } else if (Binary64 { bits: MAX_PRICE }).less(p) {
        Err(BookError::PriceOutOfRange(p))
    } else {
        Ok(p.product(Binary64 { bits: PRICE_SCALE }).rounded_half_up())
    }
}

/// The price that a key stands for.
pub open spec fn price_of(key: u64) -> Binary64 {
    Binary64::of_whole(key as nat).quotient(Binary64 { bits: PRICE_SCALE })
}

/// The price that limits an order. An order without a price takes any price, and so
/// does a market order whose price is zero.
pub open spec fn quoted(order: Order) -> Option<Binary64> {
    match order.price {
        Some(p) => if order.kind is Market && p.zero() {
            None
        } else {
            Some(p)
        },
        None => None,
    }
}

/// The first thing that is wrong with an order, if anything is.
pub open spec fn validity(order: Order) -> Result<(), BookError> {
    if !order.qty.finite() || order.qty.at_most(Binary64 { bits: 0 }) {
        Err(BookError::QuantityInvalid(order.qty))
    } else {
        match quoted(order) {
            Some(p) => match key_of(p) {
                Ok(_) => Ok(()),
                Err(e) => Err(e),
            },
            None => Ok(()),
        }
    }
}

/// The key of a price.
pub fn try_price_key(p: Binary64) -> (r: Result<u64, BookError>)
    ensures
        r == key_of(p),
{
    if !p.is_finite() {
        return Err(BookError::PriceNotFinite);
    }
    if p.le(Binary64::from_bits(0)) {
        return Err(BookError::PriceNonPositive(p));
    }
    if Binary64::from_bits(MAX_PRICE).lt(p) {
        return Err(BookError::PriceOutOfRange(p));
    }
    Ok(p.times(Binary64::from_bits(PRICE_SCALE)).round_to_u64())
}

/// The key of a price that is known to have one.
pub fn price_key(p: Binary64) -> (r: u64)
    requires
        key_of(p) is Ok,
    ensures
        key_of(p) == Ok::<u64, BookError>(r),
{
    p.times(Binary64::from_bits(PRICE_SCALE)).round_to_u64()
}

/// The price that a key stands for.
pub fn key_price(key: u64) -> (r: Binary64)
    ensures
        r == price_of(key),
{
    Binary64::from_u64(key).over(Binary64::from_bits(PRICE_SCALE))
}

/// The price that limits an order, if any does.
pub fn limit_price(order: &Order) -> (r: Option<Binary64>)
    ensures
        r == quoted(*order),
{
    match order.price {
        Some(p) => if order.kind == OrderType::Market && p.is_zero() {
            None
        } else {
            Some(p)
        },
        None => None,
    }
}

/// Whether the price, if there is one, and the quantity of an order are valid.
pub fn validate_order(order: &Order) -> (r: Result<(), BookError>)
    ensures
        r == validity(*order),
{
    if !order.qty.is_finite() || order.qty.le(Binary64::from_bits(0)) {
        return Err(BookError::QuantityInvalid(order.qty));
    }
    match limit_price(order) {
        Some(p) => match try_price_key(p) {
            Ok(_) => Ok(()),
            Err(e) => Err(e),
        },
        None => Ok(()),
    }
}

} // verus!
