use candlestore::store::merge::merge_by_ts;
use candlestore::{AppendError, Binary64, Candle, CandleStore, HardwareProfile, StoreSnapshot};

fn d(x: f64) -> Binary64 {
    Binary64::from_bits(x.to_bits())
}

fn candle(ts: i64) -> Candle {
    Candle { ts, open: d(1.0), high: d(2.0), low: d(0.5), close: d(1.5), volume: d(100.0) }
}

fn range(store: &CandleStore, symbol: &str, from: i64, to: i64) -> Vec<Candle> {
    store.range(symbol, from, to, Vec::new())
}

#[test]
fn append_and_range_basic() {
    let mut store = CandleStore::new(10);
    store.append("BTC/USDT:1m", candle(100), Ok(()));
    store.append("BTC/USDT:1m", candle(200), Ok(()));
    store.append("BTC/USDT:1m", candle(300), Ok(()));
    assert_eq!(range(&store, "BTC/USDT:1m", 100, 200).len(), 2);
}

#[test]
fn unknown_symbol_returns_empty() {
    let store = CandleStore::new(10);
    assert!(range(&store, "ETH/USDT:1m", 0, 9999).is_empty());
}

#[test]
fn lru_evicts_least_recently_used() {
    let mut store = CandleStore::new(2);
    store.append("A", candle(1), Ok(()));
    store.append("B", candle(2), Ok(()));
    store.append("A", candle(3), Ok(()));
    store.append("C", candle(4), Ok(()));
    assert_eq!(store.symbol_count(), 2);
    assert!(range(&store, "B", 0, 9999).is_empty());
    assert!(!range(&store, "A", 0, 9999).is_empty());
    assert!(!range(&store, "C", 0, 9999).is_empty());
}

#[test]
fn multiple_symbols_independent() {
    let mut store = CandleStore::new(10);
    store.append("BTC/USDT:1m", candle(1), Ok(()));
    store.append("ETH/USDT:1m", candle(2), Ok(()));
    assert_eq!(range(&store, "BTC/USDT:1m", 0, 9999).len(), 1);
    assert_eq!(range(&store, "ETH/USDT:1m", 0, 9999).len(), 1);
}

#[test]
fn version_bumps_on_every_append() {
    let mut store = CandleStore::new(10);
    assert_eq!(store.version(), 0);
    store.append("BTC", candle(1), Ok(()));
    assert_eq!(store.version(), 1);
    store.append("BTC", candle(2), Ok(()));
    store.append("ETH", candle(3), Ok(()));
    assert_eq!(store.version(), 3);
}

#[test]
fn signal_waiters_wakes_wait_for_change_without_appending() {
    let mut store = CandleStore::new(10);
    let v0 = store.version();
    let symbols_before = store.symbol_count();
    assert_eq!(store.changed_since(v0), None);
    store.signal_waiters();
    assert_eq!(store.changed_since(v0), Some(v0 + 1));
    let v1 = store.wait_for_change(v0);
    assert!(v1 > v0, "version must advance");
    assert_eq!(store.symbol_count(), symbols_before);
}

#[test]
fn wait_for_change_returns_when_version_advances() {
    let mut store = CandleStore::new(10);
    store.append("BTC", candle(1), Ok(()));
    let v0 = store.version();
    assert_eq!(store.changed_since(v0), None);
    store.append("BTC", candle(2), Ok(()));
    let v1 = store.wait_for_change(v0);
    assert!(v1 > v0, "version should have advanced");
}

fn bad_candle(field: u8) -> Candle {
    let mut c = candle(1);
    match field {
        0 => c.ts = -1,
        1 => c.open = d(f64::NAN),
        2 => c.high = d(f64::INFINITY),
        3 => c.low = d(f64::NEG_INFINITY),
        4 => c.close = d(f64::NAN),
        5 => c.volume = d(f64::NAN),
        _ => unreachable!(),
    }
    c
}

#[test]
fn try_append_rejects_nan_field() {
    let mut store = CandleStore::new(4);
    for f in 0..=5u8 {
        let bad = bad_candle(f);
        match store.try_append("BTC", bad, Ok(())) {
            Err(AppendError::InvalidCandle { symbol }) => assert_eq!(symbol, "BTC"),
            other => panic!("expected InvalidCandle for field {f}, got {other:?}"),
        }
    }
    assert_eq!(store.symbol_count(), 0);
    let snap = store.snapshot();
    assert_eq!(snap.invalid_candles_total, 6);
    assert_eq!(snap.appends_total, 0);
}

#[test]
fn append_rejects_invalid_candle_without_polluting_existing_data() {
    let mut store = CandleStore::new(4);
    store.append("BTC", candle(1), Ok(()));
    store.append("BTC", candle(2), Ok(()));
    store.append("BTC", bad_candle(4), Ok(()));
    store.append("BTC", bad_candle(5), Ok(()));
    assert_eq!(store.candle_count("BTC"), 2);
    let snap = store.snapshot();
    assert_eq!(snap.invalid_candles_total, 2);
    assert_eq!(snap.appends_total, 2, "version only bumps on accepted appends");
}

#[test]
fn out_of_order_candle_counted_but_accepted() {
    let mut store = CandleStore::new(4);
    store.append("BTC", candle(10), Ok(()));
    store.append("BTC", candle(20), Ok(()));
    store.append("BTC", candle(15), Ok(()));
    assert_eq!(store.candle_count("BTC"), 3, "OOO candle stored");
    let snap = store.snapshot();
    assert_eq!(snap.out_of_order_total, 1);
    assert_eq!(snap.appends_total, 3);
}

#[test]
fn interleaved_appends_to_many_symbols_lose_nothing() {
    let symbols = ["BTC", "ETH", "SOL", "ADA"];
    let mut store = CandleStore::new(8);
    for i in 0..5_000i64 {
        for sym in symbols {
            store.append(sym, candle(i), Ok(()));
        }
    }
    for sym in symbols {
        assert_eq!(store.candle_count(sym), 5_000);
    }
    assert_eq!(store.version(), 20_000);
    assert_eq!(store.symbol_count(), 4);
}

#[test]
fn rotating_symbols_keep_the_bound_and_the_count() {
    let mut store = CandleStore::new(2);
    for i in 0..200i64 {
        let symbol = format!("CHURN_{}", i % 8);
        assert!(store.try_append(&symbol, candle(i), Ok(())).is_ok());
        assert!(store.symbol_count() <= 2);
        assert_eq!(store.last_n(&symbol, 1)[0].ts, i);
    }
    let snap = store.snapshot();
    assert_eq!(snap.appends_total, 200);
    assert_eq!(snap.evictions_total, 198);
    assert_eq!((snap.symbol_count, snap.max_symbols), (2, 2));
}

#[test]
fn a_store_for_no_symbols_keeps_the_last_one() {
    let mut store = CandleStore::with_capacity(0, 3);
    store.append("A", candle(1), Ok(()));
    assert_eq!(store.symbol_count(), 1);
    store.append("B", candle(2), Ok(()));
    assert_eq!(store.symbol_count(), 1);
    assert_eq!(store.candle_count("A"), 0);
}

#[test]
fn nothing_is_asked_to_be_spilled_without_cold_storage() {
    let mut store = CandleStore::new(1);
    store.append("A", candle(1), Ok(()));
    assert!(store.spill_request("B", &candle(2)).is_none());
    let store = store.with_data_dir("data");
    let request = store.spill_request("B", &candle(2)).unwrap();
    assert_eq!((request.data_dir.as_str(), request.symbol.as_str()), ("data", "A"));
    assert_eq!(request.candles.len(), 1);
    assert!(store.spill_request("A", &candle(2)).is_none());
    assert!(store.spill_request("B", &bad_candle(0)).is_none());
}

#[test]
fn cold_candles_count_only_with_cold_storage() {
    let mut store = CandleStore::new(1);
    store.append("A", candle(5), Ok(()));
    assert_eq!(store.range("A", 0, 9, vec![candle(1)]).len(), 1);
    let store = store.with_data_dir("data");
    let found = store.range("A", 0, 9, vec![candle(1), candle(7)]);
    assert_eq!(found.iter().map(|c| c.ts).collect::<Vec<_>>(), vec![1, 5, 7]);
}

#[test]
fn merged_candles_ascend() {
    let times = |m: Vec<Candle>| m.iter().map(|c| c.ts).collect::<Vec<_>>();
    let a = vec![candle(1), candle(4), candle(4), candle(9)];
    let b = vec![candle(2), candle(4), candle(10)];
    assert_eq!(times(merge_by_ts(a, b)), vec![1, 2, 4, 9, 10]);
    assert_eq!(times(merge_by_ts(vec![candle(1)], vec![candle(2), candle(2)])), vec![1, 2]);
    assert_eq!(times(merge_by_ts(vec![], vec![candle(3), candle(3)])), vec![3]);
    assert_eq!(times(merge_by_ts(vec![candle(3), candle(3)], vec![])), vec![3]);
}

#[test]
fn merging_keeps_the_first_candle_of_a_timestamp() {
    let cold = Candle { volume: d(7.0), ..candle(4) };
    let hot = Candle { volume: d(8.0), ..candle(4) };
    let m = merge_by_ts(vec![cold], vec![hot]);
    assert_eq!(m.len(), 1);
    assert_eq!(m[0].volume.to_bits(), 7.0f64.to_bits());
}

#[test]
fn only_answers_from_both_sides_are_merged() {
    let mut store = CandleStore::new(1).with_data_dir("data");
    store.append("A", candle(5), Ok(()));
    store.append("A", candle(5), Ok(()));
    let times = |m: Vec<Candle>| m.iter().map(|c| c.ts).collect::<Vec<_>>();
    assert_eq!(times(store.range("A", 0, 9, vec![])), vec![5, 5]);
    assert_eq!(times(store.range("B", 0, 9, vec![candle(1), candle(1)])), vec![1, 1]);
    assert_eq!(times(store.range("A", 0, 9, vec![candle(1), candle(1), candle(5)])), vec![1, 5]);
}

#[test]
fn nothing_changes_until_the_version_has_passed() {
    let mut store = CandleStore::new(1);
    assert_eq!(store.changed_since(5), None);
    store.append("A", candle(1), Ok(()));
    assert_eq!(store.changed_since(5), None);
    assert_eq!(store.changed_since(0), Some(1));
}

#[test]
fn stores_are_sized_by_the_hardware() {
    let hw = HardwareProfile {
        l3_cache_bytes: 8 << 20,
        cache_line_bytes: 64,
        physical_cores: 8,
        resource_fraction: d(1.0 / 3.0),
    };
    let shared = CandleStore::from_hardware(10, &hw);
    assert_eq!(shared.snapshot().ring_capacity, hw.ring_capacity_for(10));
    let whole = CandleStore::from_hardware_dedicated(10, &hw);
    assert_eq!(whole.snapshot().ring_capacity, (8 << 20) / 10 / 48);
}

#[test]
fn default_snapshot_is_all_zero() {
    let s = StoreSnapshot::default();
    assert_eq!((s.appends_total, s.symbol_count, s.max_symbols, s.ring_capacity), (0, 0, 0, 0));
    assert_eq!((s.evictions_total, s.parquet_spill_bytes_total), (0, 0));
    assert_eq!((s.parquet_spill_errors_total, s.appends_rejected_total), (0, 0));
    assert_eq!((s.invalid_candles_total, s.out_of_order_total), (0, 0));
}
