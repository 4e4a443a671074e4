use candlestore::ffi::{
    candlestore_append, candlestore_l3_cache_bytes, candlestore_new, candlestore_new_hardware,
    candlestore_range, candlestore_symbol_count,
};
use candlestore::hw::{Architecture, CacheReadings};
use candlestore::{Binary64, Candle, HardwareProfile};

fn d(x: f64) -> Binary64 {
    Binary64::from_bits(x.to_bits())
}

fn f(x: Binary64) -> f64 {
    f64::from_bits(x.to_bits())
}

fn good_candle(ts: i64) -> Candle {
    Candle { ts, open: d(100.0), high: d(101.0), low: d(99.0), close: d(100.5), volume: d(1.0) }
}

fn hardware() -> HardwareProfile {
    HardwareProfile::detect(&CacheReadings::Unknown, Architecture::Other)
}

#[test]
fn happy_path_new_append_range_free() {
    let mut store = candlestore_new(10).expect("candlestore_new must not return null");
    let sym = "BTC/USDT:1m".as_bytes();
    for i in 1..=5 {
        let rc = candlestore_append(Some(&mut store), Some(sym), good_candle(i));
        assert_eq!(rc, 0, "append must succeed on candle {i}");
    }
    let count = candlestore_symbol_count(Some(&store));
    assert_eq!(count, 1, "exactly one symbol");

    let mut out: Vec<Candle> = vec![good_candle(0); 16];
    let len = out.len() as i32;
    let written = candlestore_range(Some(&store), Some(sym), 0, 9999, Some(&mut out), len);
    assert_eq!(written, 5, "range must report 5 candles written");
    for (i, c) in out[..5].iter().enumerate() {
        assert_eq!(c.ts, (i + 1) as i64);
        assert_eq!(f(c.close), 100.5);
    }
}

#[test]
fn from_hardware_constructor_also_works() {
    assert!(candlestore_new_hardware(8, &hardware()).is_some());
}

#[test]
fn append_null_store_returns_minus_one_no_segfault() {
    let rc = candlestore_append(None, Some("BTC".as_bytes()), good_candle(1));
    assert_eq!(rc, -1, "null store ptr must return -1, not panic/segfault");
}

#[test]
fn append_null_symbol_returns_minus_one() {
    let mut store = candlestore_new(4).unwrap();
    let rc = candlestore_append(Some(&mut store), None, good_candle(1));
    assert_eq!(rc, -1);
}

#[test]
fn append_of_a_symbol_that_is_not_utf8_returns_minus_one() {
    let mut store = candlestore_new(4).unwrap();
    let rc = candlestore_append(Some(&mut store), Some(&[0x42, 0xff]), good_candle(1));
    assert_eq!(rc, -1);
    let mut out = vec![good_candle(0); 1];
    let rc = candlestore_range(Some(&store), Some(&[0x42, 0xff]), 0, 1, Some(&mut out), 1);
    assert_eq!(rc, -1);
    assert_eq!(candlestore_symbol_count(Some(&store)), 0);
}

#[test]
fn range_null_args_return_minus_one() {
    let store = candlestore_new(4).unwrap();
    let sym = "BTC".as_bytes();
    let mut out: Vec<Candle> = vec![good_candle(0); 4];

    let rc = candlestore_range(None, Some(sym), 0, 100, Some(&mut out), 4);
    assert_eq!(rc, -1);

    let rc = candlestore_range(Some(&store), None, 0, 100, Some(&mut out), 4);
    assert_eq!(rc, -1);

    let rc = candlestore_range(Some(&store), Some(sym), 0, 100, None, 4);
    assert_eq!(rc, -1);
}

#[test]
fn range_buffer_smaller_than_results_clamps_safely() {
    let mut store = candlestore_new(4).unwrap();
    let sym = "BTC".as_bytes();
    for i in 1..=10 {
        assert_eq!(candlestore_append(Some(&mut store), Some(sym), good_candle(i)), 0);
    }

    let mut out: Vec<Candle> = vec![good_candle(0); 3];
    let written = candlestore_range(Some(&store), Some(sym), 0, 100, Some(&mut out), 3);
    assert_eq!(written, 3, "must clamp to max_len without writing past buffer");

    let mut bigger: Vec<Candle> = vec![good_candle(-999); 10];
    let written = candlestore_range(Some(&store), Some(sym), 0, 100, Some(&mut bigger), 3);
    assert_eq!(written, 3);
    assert_eq!(bigger[3].ts, -999, "slots past max_len must not be written");
}

#[test]
fn range_negative_max_len_returns_minus_one_and_writes_nothing() {
    let mut store = candlestore_new(4).unwrap();
    let sym = "BTC".as_bytes();
    for i in 1..=5 {
        assert_eq!(candlestore_append(Some(&mut store), Some(sym), good_candle(i)), 0);
    }

    let mut out: Vec<Candle> = vec![good_candle(-999); 8];
    let rc = candlestore_range(Some(&store), Some(sym), 0, 100, Some(&mut out), -1);
    assert_eq!(rc, -1, "negative max_len must return -1");
    for c in &out {
        assert_eq!(c.ts, -999, "buffer must not be written when max_len is rejected");
    }

    let rc = candlestore_range(Some(&store), Some(sym), 0, 100, Some(&mut out), 0);
    assert_eq!(rc, 0, "max_len = 0 must write nothing and return 0");
    assert_eq!(out[0].ts, -999);
}

#[test]
fn new_with_nonpositive_max_symbols_returns_null_instead_of_aborting() {
    assert!(candlestore_new(-1).is_none());
    assert!(candlestore_new(0).is_none());
    assert!(candlestore_new_hardware(-1, &hardware()).is_none());
    assert!(candlestore_new_hardware(0, &hardware()).is_none());
}

#[test]
fn symbol_count_null_returns_minus_one() {
    let rc = candlestore_symbol_count(None);
    assert_eq!(rc, -1);
}

#[test]
fn l3_cache_bytes_returns_plausible_value() {
    let n = candlestore_l3_cache_bytes(&hardware());
    assert!(n >= 1 << 20, "L3 should be >= 1 MiB, got {n}");
    assert!(n < 1 << 32, "L3 should be < 4 GiB on any sane CPU, got {n}");
}

#[test]
fn invalid_candle_via_ffi_returns_zero_but_does_not_panic() {
    let mut store = candlestore_new(4).unwrap();
    let mut bad = good_candle(1);
    bad.close = d(f64::NAN);
    let rc = candlestore_append(Some(&mut store), Some("BTC".as_bytes()), bad);
    assert_eq!(rc, 0, "FFI return code is about argument validity, not domain validity");
    assert_eq!(candlestore_symbol_count(Some(&store)), 0);
}
