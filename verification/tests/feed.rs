use candlestore::feed::{
    reconnect_after, store_key_of, stream_name_of, stream_url, FeedError, KlineData, StreamEnd,
};
use candlestore::{Binary64, Subscription};

fn d(x: f64) -> Binary64 {
    Binary64::from_bits(x.to_bits())
}

#[test]
fn streams_are_named_in_lower_case() {
    let s = Subscription::new("BTCusdt", "1m");
    assert_eq!((s.symbol.as_str(), s.interval.as_str()), ("BTCusdt", "1m"));
    assert_eq!(s.stream_name(), "btcusdt@kline_1m");
    assert_eq!(stream_name_of("abc", "5m"), "abc@kline_5m");
}

#[test]
fn keys_are_in_upper_case() {
    assert_eq!(Subscription::new("btcUSDT", "1m").store_key(), "BTCUSDT:1m");
    assert_eq!(store_key_of("ABC", "1h"), "ABC:1h");
}

#[test]
fn case_goes_by_unicode() {
    assert_eq!(Subscription::new("stra\u{df}e", "1m").store_key(), "STRASSE:1m");
    assert_eq!(Subscription::new("\u{c9}T\u{c9}", "1m").stream_name(), "\u{e9}t\u{e9}@kline_1m");
}

#[test]
fn addresses_name_all_streams() {
    let subs = vec![Subscription::new("BTCUSDT", "1m"), Subscription::new("ETHUSDT", "5m")];
    assert_eq!(
        stream_url(&subs).unwrap(),
        "wss://stream.binance.com:9443/stream?streams=btcusdt@kline_1m/ethusdt@kline_5m"
    );
    let one = vec![Subscription::new("SOL", "1d")];
    assert_eq!(
        stream_url(&one).unwrap(),
        "wss://stream.binance.com:9443/stream?streams=sol@kline_1d"
    );
}

#[test]
fn nothing_to_subscribe_to_is_an_error() {
    assert!(matches!(stream_url(&vec![]), Err(FeedError::NoSubscriptions)));
}

#[test]
fn streams_are_opened_again() {
    assert_eq!(reconnect_after(StreamEnd::Closed), 5);
    assert_eq!(reconnect_after(StreamEnd::Failed), 5);
}

fn kline() -> KlineData {
    KlineData {
        ts: 60_000,
        open: Some(d(1.0)),
        high: Some(d(4.0)),
        low: Some(d(0.5)),
        close: Some(d(2.0)),
        volume: Some(d(9.0)),
        is_closed: true,
        symbol: "btcusdt".to_string(),
        interval: "1m".to_string(),
    }
}

#[test]
fn closed_candles_are_stored() {
    let (key, c) = kline().to_store().unwrap();
    assert_eq!(key, "BTCUSDT:1m");
    assert_eq!(key, Subscription::new("BTCUSDT", "1m").store_key());
    assert_eq!(c.ts, 60_000);
    assert_eq!(c.open.to_bits(), d(1.0).to_bits());
    assert_eq!(c.high.to_bits(), d(4.0).to_bits());
    assert_eq!(c.low.to_bits(), d(0.5).to_bits());
    assert_eq!(c.close.to_bits(), d(2.0).to_bits());
    assert_eq!(c.volume.to_bits(), d(9.0).to_bits());
}

#[test]
fn open_and_unreadable_candles_are_not_stored() {
    let mut k = kline();
    k.is_closed = false;
    assert!(k.to_store().is_none());
    assert!(k.to_candle().is_some());
    let mut k = kline();
    k.volume = None;
    assert!(k.to_candle().is_none());
    assert!(k.to_store().is_none());
    assert_eq!(k.store_key(), "BTCUSDT:1m");
}
