//! Orders, an order book, paper trading and accounting.

pub mod balance;
pub mod book;
pub mod equity;
pub mod event;
pub mod exact;
pub mod ids;
pub mod ledger;
pub mod levels;
pub mod liquidity;
pub mod mirror;
pub mod order;
pub mod paper;
pub mod portfolio;
pub mod price;
pub mod priority;
pub mod quotes;
pub mod totals;
pub mod touches;

pub use book::OrderBook;
pub use event::{CancelReason, Fill, TradeEvent};
pub use order::{Order, OrderId, OrderType, Side};
pub use paper::PaperEngine;
pub use portfolio::Portfolio;
