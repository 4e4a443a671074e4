use candlestore::matching::book::{BookError, OrderBook, MAX_PRICE};
use candlestore::matching::event::{CancelReason, Fill, TradeEvent};
use candlestore::matching::order::{qty_is_zero, Order, OrderType, Side};
use candlestore::matching::paper::PaperEngine;
use candlestore::matching::portfolio::Portfolio;
use candlestore::matching::price::{key_price, price_key, try_price_key, validate_order};
use candlestore::{Binary64, Candle};

fn d(x: f64) -> Binary64 {
    Binary64::from_bits(x.to_bits())
}

fn f(x: Binary64) -> f64 {
    f64::from_bits(x.to_bits())
}

fn buy_limit(id: u64, price: f64, qty: f64) -> Order {
    Order::limit(id, "BTC", Side::Buy, d(price), d(qty), 0)
}

fn sell_limit(id: u64, price: f64, qty: f64) -> Order {
    Order::limit(id, "BTC", Side::Sell, d(price), d(qty), 0)
}

fn buy_market(id: u64, qty: f64) -> Order {
    Order::market(id, "BTC", Side::Buy, d(qty), 0)
}

fn sell_market(id: u64, qty: f64) -> Order {
    Order::market(id, "BTC", Side::Sell, d(qty), 0)
}

fn fills_of(events: &Vec<TradeEvent>) -> Vec<(u64, f64, f64)> {
    let mut out = Vec::new();
    for e in events {
        if let TradeEvent::Fill(x) = e {
            out.push((x.order_id, f(x.price), f(x.qty)));
        }
    }
    out
}

// orders

#[test]
fn is_filled_tolerates_scale_proportional_dust() {
    let mut o = Order::market(1, "BTC", Side::Buy, d(1_000_000.0), 0);
    o.remaining = d(1e-7);
    assert!(o.is_filled());
}

#[test]
fn is_filled_rejects_real_remainder() {
    let mut o = Order::market(1, "BTC", Side::Buy, d(1_000_000.0), 0);
    o.remaining = d(1.0);
    assert!(!o.is_filled());
}

#[test]
fn dust_is_measured_by_the_order() {
    assert!(qty_is_zero(d(0.0), d(1.0)));
    assert!(qty_is_zero(d(-1e-10), d(1.0)));
    assert!(!qty_is_zero(d(1e-8), d(1.0)));
    assert!(qty_is_zero(d(1e-8), d(100.0)));
}

#[test]
fn orders_are_made_whole() {
    let o = Order::ioc(4, "BTC", Side::Sell, d(2.0), d(3.0), 9);
    assert!(matches!(o.kind, OrderType::Ioc));
    assert_eq!((o.id, o.symbol.as_str(), o.side, o.ts), (4, "BTC", Side::Sell, 9));
    assert_eq!((o.price.map(f), f(o.qty), f(o.remaining)), (Some(2.0), 3.0, 3.0));
    let o = Order::market(4, "BTC", Side::Sell, d(3.0), 9);
    assert!(matches!(o.kind, OrderType::Market) && o.price.is_none());
    let o = Order::fok(4, "BTC", Side::Sell, d(2.0), d(3.0), 9);
    assert!(matches!(o.kind, OrderType::Fok));
    let o = Order::limit(4, "BTC", Side::Sell, d(2.0), d(3.0), 9);
    assert!(matches!(o.kind, OrderType::Limit));
}

// the book

#[test]
fn limit_buy_rests_on_empty_book() {
    let mut book = OrderBook::new("BTC");
    let events = book.submit(buy_limit(1, 50_000.0, 1.0), 0);
    assert!(events.is_empty());
    assert_eq!(book.best_bid().map(f), Some(50_000.0));
}

#[test]
fn limit_sell_matches_existing_bid() {
    let mut book = OrderBook::new("BTC");
    book.submit(buy_limit(1, 50_000.0, 1.0), 0);
    let events = book.submit(sell_limit(2, 50_000.0, 1.0), 0);
    let fills: Vec<_> = events.iter().filter(|e| e.is_fill()).collect();
    assert_eq!(fills.len(), 2);
    assert!(book.best_bid().is_none());
}

#[test]
fn partial_fill_remainder_rests_on_book() {
    let mut book = OrderBook::new("BTC");
    book.submit(sell_limit(1, 50_000.0, 0.5), 0);
    let events = book.submit(buy_limit(2, 50_000.0, 1.0), 0);
    let fills: Vec<_> = events.iter().filter(|e| e.is_fill()).collect();
    assert_eq!(fills.len(), 2);
    assert_eq!(book.best_bid().map(f), Some(50_000.0));
    assert!(book.best_ask().is_none());
}

#[test]
fn market_buy_sweeps_asks() {
    let mut book = OrderBook::new("BTC");
    book.submit(sell_limit(1, 49_900.0, 0.5), 0);
    book.submit(sell_limit(2, 50_000.0, 0.5), 0);
    let events = book.submit(buy_market(3, 1.0), 0);
    let fills: Vec<_> = events.iter().filter(|e| e.is_fill()).collect();
    assert_eq!(fills.len(), 4);
    assert!(book.best_ask().is_none());
}

#[test]
fn ioc_cancels_remainder() {
    let mut book = OrderBook::new("BTC");
    book.submit(sell_limit(1, 50_000.0, 0.3), 0);
    let events = book.submit(Order::ioc(2, "BTC", Side::Buy, d(50_000.0), d(1.0), 0), 0);
    let cancels: Vec<_> = events.iter().filter(|e| !e.is_fill()).collect();
    assert_eq!(cancels.len(), 1);
}

#[test]
fn fok_cancels_if_insufficient_liquidity() {
    let mut book = OrderBook::new("BTC");
    book.submit(sell_limit(1, 50_000.0, 0.3), 0);
    let events = book.submit(Order::fok(2, "BTC", Side::Buy, d(50_000.0), d(1.0), 0), 0);
    assert_eq!(events.len(), 1);
    assert!(!events[0].is_fill());
    assert_eq!(book.best_ask().map(f), Some(50_000.0));
}

#[test]
fn fok_fully_fills_when_sufficient_liquidity() {
    let mut book = OrderBook::new("BTC");
    book.submit(sell_limit(1, 50_000.0, 2.0), 0);
    let events = book.submit(Order::fok(2, "BTC", Side::Buy, d(50_000.0), d(1.0), 0), 0);
    let fills: Vec<_> = events.iter().filter(|e| e.is_fill()).collect();
    assert_eq!(fills.len(), 2);
}

#[test]
fn price_time_priority_fifo_at_same_price() {
    let mut book = OrderBook::new("BTC");
    book.submit(sell_limit(1, 50_000.0, 0.5), 0);
    book.submit(sell_limit(2, 50_000.0, 0.5), 0);
    let events = book.submit(buy_market(3, 0.5), 0);
    let fills: Vec<_> = events
        .iter()
        .filter_map(|e| if let TradeEvent::Fill(f) = e { Some(f.order_id) } else { None })
        .collect();
    assert!(fills.contains(&1));
    assert!(!fills.contains(&2));
}

#[test]
fn try_price_key_accepts_typical_crypto_prices() {
    assert!(try_price_key(d(50_000.0)).is_ok());
    assert!(try_price_key(d(0.000_000_01)).is_ok());
    assert!(try_price_key(Binary64::from_bits(MAX_PRICE)).is_ok());
}

#[test]
fn try_price_key_rejects_nan() {
    assert!(matches!(try_price_key(d(f64::NAN)), Err(BookError::PriceNotFinite)));
}

#[test]
fn try_price_key_rejects_infinity() {
    assert!(matches!(try_price_key(d(f64::INFINITY)), Err(BookError::PriceNotFinite)));
    assert!(matches!(try_price_key(d(f64::NEG_INFINITY)), Err(BookError::PriceNotFinite)));
}

#[test]
fn try_price_key_rejects_zero_or_negative() {
    assert!(matches!(try_price_key(d(0.0)), Err(BookError::PriceNonPositive(_))));
    assert!(matches!(try_price_key(d(-1.0)), Err(BookError::PriceNonPositive(_))));
}

#[test]
fn try_price_key_rejects_overflow() {
    assert!(matches!(try_price_key(d(1e15)), Err(BookError::PriceOutOfRange(_))));
}

#[test]
fn try_submit_returns_err_for_nan_price() {
    let mut book = OrderBook::new("BTC");
    let bad = Order::limit(1, "BTC", Side::Buy, d(f64::NAN), d(1.0), 0);
    match book.try_submit(bad, 0) {
        Err(BookError::PriceNotFinite) => {}
        other => panic!("expected PriceNotFinite, got {other:?}"),
    }
}

#[test]
fn try_submit_returns_err_for_zero_qty() {
    let mut book = OrderBook::new("BTC");
    let bad = Order::limit(1, "BTC", Side::Buy, d(100.0), d(0.0), 0);
    assert!(matches!(book.try_submit(bad, 0), Err(BookError::QuantityInvalid(_))));
}

#[test]
fn submit_emits_invalid_order_cancel_instead_of_panic() {
    let mut book = OrderBook::new("BTC");
    let bad = Order::limit(1, "BTC", Side::Buy, d(f64::NAN), d(1.0), 0);
    let events = book.submit(bad, 0);
    assert_eq!(events.len(), 1);
    match &events[0] {
        TradeEvent::Cancel { reason: CancelReason::InvalidOrder, order_id } => {
            assert_eq!(*order_id, 1);
        }
        other => panic!("expected InvalidOrder cancel, got {other:?}"),
    }
}

#[test]
fn keys_count_hundred_millionths() {
    assert_eq!(price_key(d(50_000.0)), 5_000_000_000_000);
    assert_eq!(price_key(d(0.000_000_01)), 1);
    assert_eq!(price_key(d(0.1)), 10_000_000);
    assert_eq!(f(key_price(5_000_000_000_000)), 50_000.0);
    assert_eq!(f(key_price(1)), 0.000_000_01);
    assert_eq!(MAX_PRICE, (u64::MAX as f64 / 1e8).to_bits());
    for p in [0.1f64, 0.123_456_789, 3.0, 99.999_999_995, 12_345.678_9] {
        assert_eq!(price_key(d(p)), (p * 1e8).round() as u64);
    }
}

#[test]
fn orders_are_validated() {
    assert!(validate_order(&buy_limit(1, 1.0, 1.0)).is_ok());
    assert!(validate_order(&buy_market(1, 1.0)).is_ok());
    assert!(matches!(validate_order(&buy_market(1, f64::INFINITY)), Err(BookError::QuantityInvalid(_))));
    assert!(matches!(validate_order(&buy_limit(1, -2.0, 1.0)), Err(BookError::PriceNonPositive(_))));
    assert!(matches!(validate_order(&buy_limit(1, 1e300, 1.0)), Err(BookError::PriceOutOfRange(_))));
    assert!(matches!(validate_order(&buy_limit(1, f64::NAN, 1.0)), Err(BookError::PriceNotFinite)));
}

#[test]
fn trades_are_at_the_resting_price_best_first() {
    let mut book = OrderBook::new("BTC");
    book.submit(sell_limit(1, 101.0, 1.0), 0);
    book.submit(sell_limit(2, 100.0, 1.0), 0);
    book.submit(sell_limit(3, 100.0, 1.0), 0);
    assert_eq!(book.best_ask().map(f), Some(100.0));
    let events = book.submit(buy_limit(4, 102.0, 2.5), 7);
    assert_eq!(
        fills_of(&events),
        vec![
            (4, 100.0, 1.0),
            (2, 100.0, 1.0),
            (4, 100.0, 1.0),
            (3, 100.0, 1.0),
            (4, 101.0, 0.5),
            (1, 101.0, 0.5),
        ]
    );
    for e in &events {
        if let TradeEvent::Fill(x) = e {
            assert_eq!(x.ts, 7);
            assert_eq!(x.symbol, "BTC");
            assert_eq!(x.side, if x.order_id == 4 { Side::Buy } else { Side::Sell });
        }
    }
    assert_eq!(book.best_ask().map(f), Some(101.0));
    assert!(book.best_bid().is_none());
}

#[test]
fn only_limit_orders_rest() {
    let mut book = OrderBook::new("BTC");
    let events = book.submit(buy_market(1, 1.0), 0);
    assert!(matches!(
        events[0],
        TradeEvent::Cancel { order_id: 1, reason: CancelReason::MarketNoLiquidity }
    ));
    let events = book.submit(Order::ioc(2, "BTC", Side::Buy, d(1.0), d(1.0), 0), 0);
    assert!(matches!(
        events[0],
        TradeEvent::Cancel { order_id: 2, reason: CancelReason::IocRemainder }
    ));
    let events = book.submit(Order::fok(3, "BTC", Side::Buy, d(1.0), d(1.0), 0), 0);
    assert!(matches!(
        events[0],
        TradeEvent::Cancel { order_id: 3, reason: CancelReason::FokNoFill }
    ));
    assert!(book.best_bid().is_none() && book.best_ask().is_none());
}

#[test]
fn spread_is_between_the_best_prices() {
    let mut book = OrderBook::new("BTC");
    assert!(book.spread().is_none());
    book.submit(buy_limit(1, 99.0, 1.0), 0);
    assert!(book.spread().is_none());
    book.submit(sell_limit(2, 101.5, 1.0), 0);
    assert_eq!(book.spread().map(f), Some(2.5));
}

#[test]
fn fok_counts_all_levels_within_its_limit() {
    let mut book = OrderBook::new("BTC");
    book.submit(sell_limit(1, 100.0, 1.0), 0);
    book.submit(sell_limit(2, 101.0, 1.0), 0);
    book.submit(sell_limit(3, 103.0, 1.0), 0);
    let events = book.submit(Order::fok(4, "BTC", Side::Buy, d(102.0), d(3.0), 0), 0);
    assert_eq!(events.len(), 1);
    assert!(!events[0].is_fill());
    let events = book.submit(Order::fok(5, "BTC", Side::Buy, d(102.0), d(2.0), 0), 0);
    assert_eq!(fills_of(&events).len(), 4);
    assert_eq!(book.best_ask().map(f), Some(103.0));
}

#[test]
fn fok_takes_dust_short_liquidity() {
    let mut book = OrderBook::new("BTC");
    for i in 0..10 {
        book.submit(sell_limit(i, 100.0, 0.1), 0);
    }
    // ten tenths add up to a little less than one
    let events = book.submit(Order::fok(99, "BTC", Side::Buy, d(100.0), d(1.0), 0), 0);
    assert_eq!(fills_of(&events).len(), 20);
    assert!(book.best_ask().is_none());
}

#[test]
fn sells_take_the_highest_bid_first() {
    let mut book = OrderBook::new("BTC");
    book.submit(buy_limit(1, 99.0, 1.0), 0);
    book.submit(buy_limit(2, 100.0, 1.0), 0);
    assert_eq!(book.best_bid().map(f), Some(100.0));
    let events = book.submit(sell_market(3, 1.5), 0);
    assert_eq!(
        fills_of(&events),
        vec![(3, 100.0, 1.0), (2, 100.0, 1.0), (3, 99.0, 0.5), (1, 99.0, 0.5)]
    );
}

// paper trading

fn candle(open: f64, high: f64, low: f64, close: f64) -> Candle {
    Candle { ts: 1000, open: d(open), high: d(high), low: d(low), close: d(close), volume: d(100.0) }
}

#[test]
fn market_buy_fills_at_open() {
    let mut engine = PaperEngine::new(d(100_000.0));
    engine.submit(Order::market(0, "BTC", Side::Buy, d(1.0), 0));
    let events = engine.on_candle("BTC", &candle(50_000.0, 51_000.0, 49_000.0, 50_500.0));
    assert_eq!(events.len(), 1);
    if let TradeEvent::Fill(x) = &events[0] {
        assert_eq!(f(x.price), 50_000.0);
    }
}

#[test]
fn limit_buy_fills_when_low_touches_price() {
    let mut engine = PaperEngine::new(d(100_000.0));
    engine.submit(Order::limit(0, "BTC", Side::Buy, d(49_500.0), d(1.0), 0));
    let events = engine.on_candle("BTC", &candle(50_000.0, 51_000.0, 49_000.0, 50_500.0));
    assert_eq!(events.len(), 1);
    if let TradeEvent::Fill(x) = &events[0] {
        assert_eq!(f(x.price), 49_500.0);
    }
}

#[test]
fn limit_buy_no_fill_when_low_above_price() {
    let mut engine = PaperEngine::new(d(100_000.0));
    engine.submit(Order::limit(0, "BTC", Side::Buy, d(48_000.0), d(1.0), 0));
    let events = engine.on_candle("BTC", &candle(50_000.0, 51_000.0, 49_000.0, 50_500.0));
    assert!(events.is_empty());
    assert_eq!(engine.pending_count(), 1);
}

#[test]
fn ioc_cancels_if_not_filled() {
    let mut engine = PaperEngine::new(d(100_000.0));
    engine.submit(Order::ioc(0, "BTC", Side::Buy, d(48_000.0), d(1.0), 0));
    let events = engine.on_candle("BTC", &candle(50_000.0, 51_000.0, 49_000.0, 50_500.0));
    assert_eq!(events.len(), 1);
    assert!(!events[0].is_fill());
    assert_eq!(engine.pending_count(), 0);
}

#[test]
fn portfolio_tracks_pnl() {
    let mut engine = PaperEngine::new(d(100_000.0));
    engine.submit(Order::market(0, "BTC", Side::Buy, d(1.0), 0));
    engine.on_candle("BTC", &candle(50_000.0, 51_000.0, 49_000.0, 50_500.0));
    assert_eq!(f(engine.portfolio.position("BTC")), 1.0);

    engine.submit(Order::market(0, "BTC", Side::Sell, d(1.0), 0));
    engine.on_candle("BTC", &candle(51_000.0, 52_000.0, 50_500.0, 51_500.0));
    assert_eq!(f(engine.portfolio.realized_pnl), 1_000.0);
}

fn assert_no_trace(mut engine: PaperEngine) {
    assert_eq!(engine.pending_count(), 0, "invalid order must not rest as pending");
    let events = engine.on_candle("BTC", &candle(50_000.0, 51_000.0, 49_000.0, 50_500.0));
    assert!(events.is_empty(), "invalid order must produce no events");
    assert_eq!(f(engine.portfolio.cash), 100_000.0, "cash must be unchanged");
    assert!(engine.portfolio.trades.is_empty(), "no trades may be recorded");
}

#[test]
fn submit_rejects_nan_qty() {
    let mut engine = PaperEngine::new(d(100_000.0));
    engine.submit(Order::market(0, "BTC", Side::Buy, d(f64::NAN), 0));
    assert_no_trace(engine);
}

#[test]
fn submit_rejects_infinite_limit_price() {
    let mut engine = PaperEngine::new(d(100_000.0));
    engine.submit(Order::limit(0, "BTC", Side::Buy, d(f64::INFINITY), d(1.0), 0));
    assert_no_trace(engine);
}

#[test]
fn submit_rejects_non_positive_qty() {
    let mut engine = PaperEngine::new(d(100_000.0));
    engine.submit(Order::market(0, "BTC", Side::Buy, d(0.0), 0));
    engine.submit(Order::market(0, "BTC", Side::Sell, d(-1.0), 0));
    assert_no_trace(engine);
}

#[test]
fn try_submit_returns_precise_book_error() {
    let mut engine = PaperEngine::new(d(100_000.0));
    assert!(matches!(
        engine.try_submit(Order::market(0, "BTC", Side::Buy, d(f64::NAN), 0)),
        Err(BookError::QuantityInvalid(_))
    ));
    assert!(matches!(
        engine.try_submit(Order::limit(0, "BTC", Side::Buy, d(f64::INFINITY), d(1.0), 0)),
        Err(BookError::PriceNotFinite)
    ));
    assert_eq!(engine.pending_count(), 0);
}

#[test]
fn limit_orders_fill_at_the_better_of_open_and_limit() {
    let mut engine = PaperEngine::new(d(100_000.0));
    engine.submit(Order::limit(0, "BTC", Side::Buy, d(105.0), d(1.0), 0));
    engine.submit(Order::limit(0, "BTC", Side::Sell, d(95.0), d(1.0), 0));
    engine.submit(Order::limit(0, "BTC", Side::Sell, d(108.0), d(1.0), 0));
    engine.submit(Order::limit(0, "BTC", Side::Sell, d(111.0), d(1.0), 0));
    let events = engine.on_candle("BTC", &candle(100.0, 110.0, 90.0, 101.0));
    let prices: Vec<f64> = fills_of(&events).iter().map(|x| x.1).collect();
    assert_eq!(prices, vec![100.0, 100.0, 108.0]);
    assert_eq!(engine.pending_count(), 1);
}

#[test]
fn other_symbols_wait() {
    let mut engine = PaperEngine::new(d(100_000.0));
    engine.submit(Order::market(0, "ETH", Side::Buy, d(1.0), 0));
    let events = engine.on_candle("BTC", &candle(100.0, 110.0, 90.0, 101.0));
    assert!(events.is_empty());
    assert_eq!(engine.pending_count(), 1);
    let events = engine.on_candle("ETH", &candle(100.0, 110.0, 90.0, 101.0));
    assert_eq!(fills_of(&events).len(), 1);
    assert_eq!(engine.pending_count(), 0);
}

// the portfolio

const CASH: f64 = 10_000.0;

fn fill(side: Side, price: f64, qty: f64) -> Fill {
    Fill { order_id: 1, symbol: "BTC".into(), side, price: d(price), qty: d(qty), ts: 0 }
}

fn portfolio_after(fills: &[Fill]) -> Portfolio {
    let mut pf = Portfolio::new(d(CASH));
    for f in fills {
        pf.apply(f);
    }
    pf
}

#[test]
fn sell_while_flat_opens_short_without_fabricated_pnl() {
    let pf = portfolio_after(&[fill(Side::Sell, 100.0, 2.0)]);
    assert_eq!(f(pf.position("BTC")), -2.0);
    assert_eq!(f(pf.avg_cost("BTC")), 100.0);
    assert_eq!(f(pf.realized_pnl), 0.0);
    assert_eq!(f(pf.cash), CASH + 200.0);
}

#[test]
fn adding_to_short_blends_average_cost() {
    let pf = portfolio_after(&[fill(Side::Sell, 100.0, 1.0), fill(Side::Sell, 110.0, 1.0)]);
    assert_eq!(f(pf.position("BTC")), -2.0);
    assert_eq!(f(pf.avg_cost("BTC")), 105.0);
    assert_eq!(f(pf.realized_pnl), 0.0);
}

#[test]
fn buy_to_cover_realizes_entry_minus_exit() {
    let pf = portfolio_after(&[fill(Side::Sell, 100.0, 2.0), fill(Side::Buy, 90.0, 2.0)]);
    assert_eq!(f(pf.realized_pnl), 20.0);
    assert_eq!(f(pf.position("BTC")), 0.0);
    assert_eq!(f(pf.avg_cost("BTC")), 0.0);
    assert_eq!(f(pf.cash), CASH + 20.0);
}

#[test]
fn oversell_flips_long_to_short_realizing_only_covered_part() {
    let pf = portfolio_after(&[fill(Side::Buy, 100.0, 1.0), fill(Side::Sell, 110.0, 3.0)]);
    assert_eq!(f(pf.realized_pnl), 10.0);
    assert_eq!(f(pf.position("BTC")), -2.0);
    assert_eq!(f(pf.avg_cost("BTC")), 110.0);
    assert_eq!(f(pf.cash), CASH - 100.0 + 330.0);
}

#[test]
fn overbuy_flips_short_to_long_realizing_only_covered_part() {
    let pf = portfolio_after(&[fill(Side::Sell, 100.0, 1.0), fill(Side::Buy, 90.0, 3.0)]);
    assert_eq!(f(pf.realized_pnl), 10.0);
    assert_eq!(f(pf.position("BTC")), 2.0);
    assert_eq!(f(pf.avg_cost("BTC")), 90.0);
    assert_eq!(f(pf.cash), CASH + 100.0 - 270.0);
}

#[test]
fn round_trip_long_realizes_pnl_and_cash() {
    let pf = portfolio_after(&[fill(Side::Buy, 100.0, 1.0), fill(Side::Sell, 110.0, 1.0)]);
    assert_eq!(f(pf.realized_pnl), 10.0);
    assert_eq!(f(pf.position("BTC")), 0.0);
    assert_eq!(f(pf.avg_cost("BTC")), 0.0);
    assert_eq!(f(pf.cash), CASH + 10.0);
}

#[test]
fn round_trip_short_realizes_pnl_and_cash() {
    let pf = portfolio_after(&[fill(Side::Sell, 110.0, 1.0), fill(Side::Buy, 100.0, 1.0)]);
    assert_eq!(f(pf.realized_pnl), 10.0);
    assert_eq!(f(pf.position("BTC")), 0.0);
    assert_eq!(f(pf.avg_cost("BTC")), 0.0);
    assert_eq!(f(pf.cash), CASH + 10.0);
}

#[test]
fn unrealized_and_equity_correct_while_short() {
    let pf = portfolio_after(&[fill(Side::Sell, 100.0, 1.0)]);
    assert_eq!(f(pf.unrealized_pnl("BTC", d(90.0))), 10.0);
    assert_eq!(f(pf.unrealized_pnl("BTC", d(110.0))), -10.0);

    let prices = vec![("BTC".to_string(), d(90.0))];
    assert_eq!(f(pf.total_pnl(&prices)), 10.0);
    let equity = f(pf.cash) + f(pf.position("BTC")) * 90.0;
    assert_eq!(equity, CASH + f(pf.total_pnl(&prices)));
}

#[test]
fn symbols_do_not_mix() {
    let mut pf = portfolio_after(&[fill(Side::Buy, 100.0, 1.0)]);
    let mut other = fill(Side::Sell, 7.0, 4.0);
    other.symbol = "ETH".into();
    pf.apply(&other);
    assert_eq!((f(pf.position("BTC")), f(pf.avg_cost("BTC"))), (1.0, 100.0));
    assert_eq!((f(pf.position("ETH")), f(pf.avg_cost("ETH"))), (-4.0, 7.0));
    assert_eq!(f(pf.position("SOL")), 0.0);
    assert_eq!(pf.trades.len(), 2);
}

#[test]
fn mirrored_trades_realize_the_same() {
    let long = portfolio_after(&[fill(Side::Buy, 64.0, 2.0), fill(Side::Sell, 80.0, 2.0)]);
    let short = portfolio_after(&[fill(Side::Sell, 80.0, 2.0), fill(Side::Buy, 64.0, 2.0)]);
    assert_eq!(f(long.realized_pnl), 32.0);
    assert_eq!(f(short.realized_pnl), 32.0);
}

#[test]
fn books_balance() {
    let mut pf = Portfolio::new(d(CASH));
    for (side, price, qty) in [
        (Side::Buy, 100.0, 2.0),
        (Side::Buy, 104.0, 2.0),
        (Side::Sell, 110.0, 3.0),
        (Side::Sell, 90.0, 4.0),
        (Side::Buy, 80.0, 1.0),
    ] {
        pf.apply(&fill(side, price, qty));
        let at_cost = f(pf.position("BTC")) * f(pf.avg_cost("BTC"));
        assert_eq!(f(pf.cash) + at_cost - f(pf.realized_pnl), CASH);
    }
    assert_eq!(f(pf.position("BTC")), -2.0);
    assert_eq!(f(pf.realized_pnl), 24.0 - 12.0 + 10.0);
}

#[test]
fn enough_liquidity_fills_whatever_the_rounding() {
    for kind in 0..4 {
        let mut book = OrderBook::new("BTC");
        book.submit(sell_limit(1, 100.0, 0.1), 0);
        book.submit(sell_limit(2, 100.0, 0.2), 0);
        book.submit(sell_limit(3, 101.0, 0.4), 0);
        let order = match kind {
            0 => buy_limit(9, 101.0, 0.7),
            1 => buy_market(9, 0.7),
            2 => Order::ioc(9, "BTC", Side::Buy, d(101.0), d(0.7), 0),
            _ => Order::fok(9, "BTC", Side::Buy, d(101.0), d(0.7), 0),
        };
        let events = book.submit(order, 0);
        assert_eq!(fills_of(&events).len(), 6);
        assert_eq!(events.len(), 6, "nothing is cancelled");
        assert!(book.best_bid().is_none(), "nothing rests");
    }
}

#[test]
fn market_orders_may_quote_a_price_of_zero() {
    let mut book = OrderBook::new("BTC");
    book.submit(sell_limit(1, 100.0, 1.0), 0);
    let mut order = buy_market(2, 1.0);
    order.price = Some(d(0.0));
    assert!(validate_order(&order).is_ok());
    assert_eq!(fills_of(&book.submit(order, 0)).len(), 2);
    assert!(matches!(
        validate_order(&buy_limit(3, 0.0, 1.0)),
        Err(BookError::PriceNonPositive(_))
    ));
}

#[test]
fn limit_orders_need_a_price() {
    let mut book = OrderBook::new("BTC");
    let mut order = buy_limit(1, 100.0, 1.0);
    order.price = None;
    let events = book.submit(order, 0);
    assert_eq!(events.len(), 1);
    assert!(matches!(
        events[0],
        TradeEvent::Cancel { order_id: 1, reason: CancelReason::InvalidOrder }
    ));
    assert!(book.best_bid().is_none());
    let mut order = buy_limit(1, 100.0, 1.0);
    order.price = None;
    assert!(matches!(book.try_submit(order, 0), Err(BookError::PriceMissing)));
}

#[test]
fn what_remains_must_be_finite() {
    let mut book = OrderBook::new("BTC");
    for remaining in [f64::NAN, f64::INFINITY, f64::NEG_INFINITY] {
        let mut order = buy_limit(7, 100.0, 1.0);
        order.remaining = d(remaining);
        assert!(matches!(book.try_submit(order, 0), Err(BookError::QuantityInvalid(_))));
        let mut order = buy_market(7, 1.0);
        order.remaining = d(remaining);
        let events = book.submit(order, 0);
        assert!(matches!(
            events[..],
            [TradeEvent::Cancel { order_id: 7, reason: CancelReason::InvalidOrder }]
        ));
    }
    assert!(book.best_bid().is_none());
}

#[test]
fn quotes_stay_apart() {
    let mut book = OrderBook::new("BTC");
    book.submit(buy_limit(1, 45_000_000.0, 1.0), 0);
    book.submit(sell_limit(2, 45_000_000.00000001, 1.0), 0);
    let (bid, ask) = (book.best_bid().unwrap(), book.best_ask().unwrap());
    assert!(f(bid) < f(ask));
    assert!(f(book.spread().unwrap()) > 0.0);
    book.submit(sell_limit(3, 45_000_000.0, 1.0), 0);
    assert!(book.best_bid().is_none());
    assert!(book.spread().is_none());
}

#[test]
fn paper_ids_never_repeat() {
    let mut engine = PaperEngine::new(d(1000.0));
    let a = engine.submit(buy_limit(0, 90.0, 1.0));
    let dropped = engine.submit(buy_limit(0, 90.0, f64::NAN));
    let b = engine.submit(buy_market(0, 1.0));
    assert!(a < dropped && dropped < b);
    assert_eq!(engine.pending_count(), 2);
    let candle = Candle {
        ts: 1,
        open: d(80.0),
        high: d(95.0),
        low: d(70.0),
        close: d(85.0),
        volume: d(1.0),
    };
    for _ in 0..3 {
        for event in engine.on_candle("BTC", &candle) {
            assert_ne!(event.order_id(), dropped);
        }
    }
    let c = engine.submit(buy_market(0, 1.0));
    assert!(b < c);
}

fn fill_of(symbol: &str, side: Side, price: f64, qty: f64) -> Fill {
    Fill {
        order_id: 1,
        symbol: symbol.to_string(),
        side,
        price: d(price),
        qty: d(qty),
        ts: 0,
    }
}

#[test]
fn equity_is_initial_cash_and_profit() {
    let mut pf = Portfolio::new(d(1000.0));
    pf.apply(&fill_of("A", Side::Buy, 10.0, 4.0));
    pf.apply(&fill_of("B", Side::Sell, 20.0, 2.0));
    pf.apply(&fill_of("A", Side::Sell, 12.0, 8.0));
    pf.apply(&fill_of("B", Side::Buy, 16.0, 1.0));
    let marks = vec![("A".to_string(), d(9.0)), ("B".to_string(), d(25.0))];
    let held = f(pf.position("A")) * 9.0 + f(pf.position("B")) * 25.0;
    assert_eq!(f(pf.cash) + held, 1000.0 + f(pf.total_pnl(&marks)));
    assert_eq!(f(pf.position("A")), -4.0);
    assert_eq!(f(pf.realized_pnl), 8.0 + 4.0);
}

#[test]
fn turned_fills_lead_to_the_opposite() {
    let fills = [
        (Side::Buy, 10.1, 3.3),
        (Side::Sell, 12.7, 1.1),
        (Side::Sell, 9.9, 4.7),
        (Side::Buy, 11.3, 0.9),
        (Side::Buy, 8.8, 6.6),
    ];
    let mut p = Portfolio::new(d(0.0));
    let mut q = Portfolio::new(d(0.0));
    for (side, price, qty) in fills {
        let other = match side {
            Side::Buy => Side::Sell,
            Side::Sell => Side::Buy,
        };
        p.apply(&fill_of("A", side, price, qty));
        q.apply(&fill_of("A", other, price, qty));
        assert_eq!(f(p.position("A")), -f(q.position("A")));
        assert_eq!(f(p.avg_cost("A")), f(q.avg_cost("A")));
        assert_eq!(f(p.realized_pnl), -f(q.realized_pnl));
        assert_eq!(f(p.cash), -f(q.cash));
    }
    assert_ne!(f(p.realized_pnl), 0.0);
}

#[test]
fn fields_can_be_asked_for() {
    let engine = PaperEngine::new(d(500.0));
    assert_eq!(engine.portfolio().cash().to_bits(), engine.portfolio.cash.to_bits());
    assert_eq!(engine.portfolio().cash().to_bits(), d(500.0).to_bits());
    assert_eq!(engine.portfolio().trades().len(), 0);
    assert_eq!(engine.portfolio().realized_pnl().to_bits(), 0);
    assert_eq!(OrderBook::new("BTC").symbol(), "BTC");
}
