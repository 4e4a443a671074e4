use candlestore::signal::{Side, Signal, SignalError, MAX_SIGNAL_SYMBOL_LEN};
use candlestore::Binary64;

fn d(x: f64) -> Binary64 {
    Binary64::from_bits(x.to_bits())
}

#[test]
fn try_new_accepts_max_length_symbol() {
    let s = "X".repeat(MAX_SIGNAL_SYMBOL_LEN);
    let sig = Signal::try_new(0, &s, Side::Buy, d(1.0), d(0.0), 0).unwrap();
    assert_eq!(sig.symbol_str(), s);
}

#[test]
fn try_new_rejects_oversize_symbol() {
    let s = "X".repeat(MAX_SIGNAL_SYMBOL_LEN + 1);
    match Signal::try_new(0, &s, Side::Buy, d(1.0), d(0.0), 0) {
        Err(SignalError::SymbolTooLong { len, max }) => {
            assert_eq!(len, MAX_SIGNAL_SYMBOL_LEN + 1);
            assert_eq!(max, MAX_SIGNAL_SYMBOL_LEN);
        }
        other => panic!("expected SymbolTooLong, got {other:?}"),
    }
}

#[test]
fn try_new_rejects_nan_qty() {
    match Signal::try_new(0, "BTC", Side::Buy, d(f64::NAN), d(0.0), 0) {
        Err(SignalError::NonFiniteField { .. }) => {}
        other => panic!("expected NonFiniteField, got {other:?}"),
    }
}

#[test]
fn try_new_rejects_inf_price() {
    match Signal::try_new(0, "BTC", Side::Sell, d(1.0), d(f64::INFINITY), 0) {
        Err(SignalError::NonFiniteField { .. }) => {}
        other => panic!("expected NonFiniteField, got {other:?}"),
    }
}

#[test]
fn new_truncates_lossy_but_does_not_panic() {
    let s = "X".repeat(40);
    let sig = Signal::new(0, &s, Side::Buy, d(1.0), d(0.0), 0);
    assert_eq!(sig.symbol_str().len(), MAX_SIGNAL_SYMBOL_LEN);
}

#[test]
fn signal_takes_64_bytes() {
    assert_eq!(std::mem::size_of::<Signal>(), 64);
}

#[test]
fn symbol_and_side_are_read_back() {
    let sig = Signal::try_new(7, "BTCUSDT:1m", Side::Sell, d(0.1), d(5.0), 3).unwrap();
    assert_eq!(sig.symbol_str(), "BTCUSDT:1m");
    assert_eq!(sig.side(), Side::Sell);
    assert_eq!((sig.ts, sig.strategy), (7, 3));
    let sig = Signal::try_new(7, "\u{e9}t\u{e9}", Side::Buy, d(0.1), d(5.0), 3).unwrap();
    assert_eq!(sig.symbol_str(), "\u{e9}t\u{e9}");
    assert_eq!(sig.side(), Side::Buy);
}

#[test]
fn symbol_cut_within_a_character_is_empty() {
    // 22 bytes and a character of two bytes, the first of which is the last to fit
    let s = format!("{}\u{e9}", "X".repeat(22));
    let sig = Signal::new(0, &s, Side::Buy, d(1.0), d(0.0), 0);
    assert_eq!(sig.symbol_str(), "");
}

#[test]
fn symbol_ends_at_its_first_zero() {
    let sig = Signal::try_new(0, "A\0B", Side::Buy, d(1.0), d(0.0), 0).unwrap();
    assert_eq!(sig.symbol_str(), "A");
}

#[test]
fn default_signal_is_empty() {
    let sig = Signal::default();
    assert_eq!(sig.symbol_str(), "");
    assert_eq!(sig.side(), Side::Buy);
}
