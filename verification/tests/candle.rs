use candlestore::{Binary64, Candle};

fn d(x: f64) -> Binary64 {
    Binary64::from_bits(x.to_bits())
}

fn good() -> Candle {
    Candle { ts: 1, open: d(100.0), high: d(101.0), low: d(99.0), close: d(100.5), volume: d(1.0) }
}

#[test]
fn default_candle_is_valid() {
    assert!(Candle::default().is_valid());
}

#[test]
fn typical_candle_is_valid() {
    assert!(good().is_valid());
}

#[test]
fn nan_close_rejected() {
    let mut c = good();
    c.close = d(f64::NAN);
    assert!(!c.is_valid());
}

#[test]
fn infinite_volume_rejected() {
    let mut c = good();
    c.volume = d(f64::INFINITY);
    assert!(!c.is_valid());
    c.volume = d(f64::NEG_INFINITY);
    assert!(!c.is_valid());
}

#[test]
fn negative_ts_rejected() {
    let mut c = good();
    c.ts = -1;
    assert!(!c.is_valid());
}

#[test]
fn every_field_checked() {
    for set in [
        |c: &mut Candle| c.open = d(f64::NAN),
        |c: &mut Candle| c.high = d(f64::NAN),
        |c: &mut Candle| c.low = d(f64::NAN),
        |c: &mut Candle| c.close = d(f64::NAN),
        |c: &mut Candle| c.volume = d(f64::NAN),
    ] {
        let mut c = good();
        set(&mut c);
        assert!(!c.is_valid(), "expected rejection after mutation");
    }
}

#[test]
fn candle_takes_48_bytes() {
    assert_eq!(std::mem::size_of::<Candle>(), candlestore::candle::CANDLE_BYTES);
    assert_eq!(candlestore::candle::CANDLE_BYTES, 48);
}

#[test]
fn negative_values_are_valid() {
    let mut c = good();
    c.low = d(-1.0);
    c.ts = 0;
    assert!(c.is_valid());
    c.ts = i64::MAX;
    assert!(c.is_valid());
}
