use candlestore::metrics::{
    describe_all_metrics, describe_feed_metrics, feed_report, hub_report, Metric, Value,
};
use candlestore::shm::WriterStats;
use candlestore::{Binary64, IngesterStats, StoreSnapshot};

fn f(x: Binary64) -> f64 {
    f64::from_bits(x.to_bits())
}

fn snapshot() -> StoreSnapshot {
    let mut s = StoreSnapshot::default();
    s.appends_total = 1;
    s.symbol_count = 2;
    s.evictions_total = 3;
    s.parquet_spill_bytes_total = 4;
    s.parquet_spill_errors_total = 5;
    s.appends_rejected_total = 6;
    s.invalid_candles_total = 7;
    s.out_of_order_total = 8;
    s
}

fn ingester(popped_total: u64, ring_depth: u64, ring_capacity: u64) -> IngesterStats {
    IngesterStats { popped_total, ring_depth, ring_capacity }
}

#[test]
fn hub_publishes_what_it_describes() {
    let described = describe_all_metrics();
    let r = hub_report(&snapshot(), &ingester(9, 1, 4), 11, 12, Binary64::from_bits(0));
    assert_eq!(described.len(), 14);
    assert_eq!(r.values.len(), 14);
    for (metric, value) in &r.values {
        assert!(described.contains(metric));
        assert_eq!(metric.is_counter(), matches!(value, Value::Counter(_)));
        assert!(metric.name().starts_with("candlestore_"));
        assert_eq!(metric.is_counter(), metric.name().ends_with("_total"));
        assert!(metric.description().ends_with('.'));
    }
}

#[test]
fn hub_values_stand_under_their_names() {
    let r = hub_report(
        &snapshot(),
        &ingester(9, 3, 4),
        11,
        12,
        Binary64::from_bits((-1.5f64).to_bits()),
    );
    let text: Vec<String> = r
        .values
        .iter()
        .map(|(m, v)| match v {
            Value::Counter(n) => format!("{} {}", m.name(), n),
            Value::Gauge(x) => format!("{} {}", m.name(), f(*x)),
        })
        .collect();
    assert_eq!(
        text,
        vec![
            "candlestore_appends_total 1",
            "candlestore_symbols_active 2",
            "candlestore_evictions_total 3",
            "candlestore_parquet_spill_bytes_total 4",
            "candlestore_parquet_spill_errors_total 5",
            "candlestore_appends_rejected_total 6",
            "candlestore_invalid_candles_total 7",
            "candlestore_out_of_order_total 8",
            "candlestore_ingest_popped_total 9",
            "candlestore_ingest_ring_depth 3",
            "candlestore_ingest_ring_fill_ratio 0.75",
            "candlestore_signals_total 11",
            "candlestore_executor_signals_total 12",
            "candlestore_executor_position -1.5",
        ]
    );
    assert!(r.alerts.ring);
    assert!(!r.alerts.rejected && !r.alerts.invalid);
}

#[test]
fn alerts_come_at_round_counts() {
    let zero = Binary64::from_bits(0);
    let mut s = StoreSnapshot::default();
    assert!(!hub_report(&s, &ingester(0, 0, 0), 0, 0, zero).alerts.rejected);
    s.appends_rejected_total = 2_000;
    s.invalid_candles_total = 300;
    let a = hub_report(&s, &ingester(0, 2, 4), 0, 0, zero).alerts;
    assert!(a.rejected && a.invalid);
    assert!(!a.ring, "half full is not too full");
    s.appends_rejected_total = 2_001;
    s.invalid_candles_total = 301;
    let a = hub_report(&s, &ingester(0, 0, 0), 0, 0, zero).alerts;
    assert!(!a.rejected && !a.invalid && !a.ring);
}

#[test]
fn feed_publishes_its_counters() {
    let (values, alert) =
        feed_report(5, &WriterStats { push_full_events: 20_000, ring_capacity: 64 });
    assert!(alert);
    assert_eq!(values.len(), 3);
    assert!(matches!(values[0], (Metric::FeedCandlesPushedTotal, Value::Counter(5))));
    assert!(matches!(values[1], (Metric::FeedPushFullTotal, Value::Counter(20_000))));
    match values[2] {
        (Metric::FeedRingCapacity, Value::Gauge(x)) => assert_eq!(f(x), 64.0),
        _ => panic!("expected the capacity"),
    }
    let described = describe_feed_metrics();
    assert!(values.iter().all(|(m, _)| described.contains(m)));
    assert_eq!(described.len(), 3);
    let (_, alert) = feed_report(5, &WriterStats { push_full_events: 0, ring_capacity: 64 });
    assert!(!alert);
}
