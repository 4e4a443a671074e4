//! What comes of an order.

use vstd::prelude::*;
use super::order::{OrderId, Side};
use crate::Binary64;

verus! {

#[derive(Debug, Clone)]
pub struct Fill {
    pub order_id: OrderId,
    pub symbol: String,
    pub side: Side,
    pub price: Binary64,
    pub qty: Binary64,
    pub ts: i64,
}

#[derive(Debug, Clone, Copy, PartialEq, Eq, Structural)]
pub enum CancelReason {
    /// An immediate-or-cancel order was not filled as a whole.
    IocRemainder,
    /// A fill-or-kill order could not be filled as a whole.
    FokNoFill,
    /// A market order ran out of opposing liquidity.
    MarketNoLiquidity,
    /// The price or the quantity of the order is not valid.
    InvalidOrder,
}

#[derive(Debug, Clone)]
pub enum TradeEvent {
    Fill(Fill),
    Cancel { order_id: OrderId, reason: CancelReason },
}

impl TradeEvent {
    pub fn order_id(&self) -> (r: OrderId)
        ensures
            r == match *self {
                TradeEvent::Fill(f) => f.order_id,
                TradeEvent::Cancel { order_id, .. } => order_id,
            },
    {
        match self {
            TradeEvent::Fill(f) => f.order_id,
            TradeEvent::Cancel { order_id, .. } => *order_id,
        }
    }

    pub fn is_fill(&self) -> (r: bool)
        ensures
            r == (*self is Fill),
    {
        match self {
            TradeEvent::Fill(_) => true,
            TradeEvent::Cancel { .. } => false,
        }
    }
}

} // verus!
