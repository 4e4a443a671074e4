use candlestore::ring_buffer::{PushOutcome, RingBuffer};
use candlestore::{Binary64, Candle};

fn d(x: f64) -> Binary64 {
    Binary64::from_bits(x.to_bits())
}

fn candle(ts: i64, close: f64) -> Candle {
    Candle { ts, open: d(close), high: d(close), low: d(close), close: d(close), volume: d(1.0) }
}

#[test]
fn empty_on_creation() {
    let rb = RingBuffer::new(4);
    assert!(rb.is_empty());
    assert_eq!(rb.len(), 0);
    assert_eq!(rb.oldest_ts(), None);
}

#[test]
fn push_and_retrieve_in_order() {
    let mut rb = RingBuffer::new(4);
    let _ = rb.push(candle(1, 10.0));
    let _ = rb.push(candle(2, 20.0));
    let _ = rb.push(candle(3, 30.0));
    let out = rb.to_vec();
    assert_eq!(out.len(), 3);
    assert_eq!(out[0].ts, 1);
    assert_eq!(out[2].ts, 3);
}

#[test]
fn overwrites_oldest_when_full() {
    let mut rb = RingBuffer::new(3);
    let _ = rb.push(candle(1, 10.0));
    let _ = rb.push(candle(2, 20.0));
    let _ = rb.push(candle(3, 30.0));
    let _ = rb.push(candle(4, 40.0));
    let out = rb.to_vec();
    assert_eq!(out.len(), 3);
    assert_eq!(out[0].ts, 2);
    assert_eq!(out[2].ts, 4);
}

#[test]
fn range_query_filters_correctly() {
    let mut rb = RingBuffer::new(10);
    for i in 1..=10 {
        let _ = rb.push(candle(i, i as f64 * 100.0));
    }
    let out = rb.range(3, 6);
    assert_eq!(out.len(), 4);
    assert_eq!(out[0].ts, 3);
    assert_eq!(out[3].ts, 6);
}

#[test]
fn range_returns_empty_for_no_match() {
    let mut rb = RingBuffer::new(5);
    let _ = rb.push(candle(1, 1.0));
    let _ = rb.push(candle(2, 2.0));
    assert!(rb.range(10, 20).is_empty());
}

#[test]
fn oldest_ts_tracks_correctly_after_wrap() {
    let mut rb = RingBuffer::new(3);
    let _ = rb.push(candle(1, 1.0));
    let _ = rb.push(candle(2, 2.0));
    let _ = rb.push(candle(3, 3.0));
    let _ = rb.push(candle(4, 4.0));
    assert_eq!(rb.oldest_ts(), Some(2));
}

#[test]
fn range_returns_empty_on_inverted_bounds() {
    let mut rb = RingBuffer::new(4);
    let _ = rb.push(candle(1, 1.0));
    let _ = rb.push(candle(2, 2.0));
    assert!(rb.range(10, 5).is_empty());
}

#[test]
fn range_inclusive_on_both_ends() {
    let mut rb = RingBuffer::new(8);
    for i in 1..=5i64 {
        let _ = rb.push(candle(i, i as f64));
    }
    let r = rb.range(2, 4);
    assert_eq!(r.len(), 3);
    assert_eq!(r[0].ts, 2);
    assert_eq!(r[2].ts, 4);
}

#[test]
fn range_handles_duplicate_timestamps() {
    let mut rb = RingBuffer::new(8);
    let _ = rb.push(candle(1, 1.0));
    let _ = rb.push(candle(2, 2.0));
    let _ = rb.push(candle(2, 2.1));
    let _ = rb.push(candle(2, 2.2));
    let _ = rb.push(candle(3, 3.0));
    let r = rb.range(2, 2);
    assert_eq!(r.len(), 3);
    assert!(r.iter().all(|c| c.ts == 2));
}

#[test]
fn range_works_across_ring_wrap() {
    let mut rb = RingBuffer::new(4);
    for i in 1..=7i64 {
        let _ = rb.push(candle(i, i as f64));
    }
    let r = rb.range(0, i64::MAX);
    assert_eq!(r.len(), 4);
    assert_eq!(r[0].ts, 4);
    assert_eq!(r[3].ts, 7);

    let mid = rb.range(5, 6);
    assert_eq!(mid.len(), 2);
    assert_eq!(mid[0].ts, 5);
    assert_eq!(mid[1].ts, 6);
}

#[test]
fn range_window_outside_returns_empty() {
    let mut rb = RingBuffer::new(4);
    for i in 1..=3i64 {
        let _ = rb.push(candle(i, i as f64));
    }
    assert!(rb.range(100, 200).is_empty());
    assert!(rb.range(-50, -1).is_empty());
}

#[test]
fn last_n_returns_newest_candles_in_order() {
    let mut rb = RingBuffer::new(8);
    for i in 1..=5i64 {
        let _ = rb.push(candle(i, i as f64));
    }
    let last = rb.last_n(3);
    assert_eq!(last.len(), 3);
    assert_eq!(last[0].ts, 3);
    assert_eq!(last[2].ts, 5);
}

#[test]
fn last_n_caps_at_len() {
    let mut rb = RingBuffer::new(4);
    let _ = rb.push(candle(1, 1.0));
    let _ = rb.push(candle(2, 2.0));
    let last = rb.last_n(100);
    assert_eq!(last.len(), 2);
    assert_eq!(last[0].ts, 1);
}

#[test]
fn last_n_works_across_ring_wrap() {
    let mut rb = RingBuffer::new(4);
    for i in 1..=7i64 {
        let _ = rb.push(candle(i, i as f64));
    }
    let last = rb.last_n(2);
    assert_eq!(last.len(), 2);
    assert_eq!(last[0].ts, 6);
    assert_eq!(last[1].ts, 7);
}

#[test]
fn last_n_zero_is_empty() {
    let mut rb = RingBuffer::new(4);
    let _ = rb.push(candle(1, 1.0));
    assert!(rb.last_n(0).is_empty());
}

#[test]
fn oldest_ts_is_o1_after_wrap() {
    let mut rb = RingBuffer::new(100_000);
    for i in 1..=200_000i64 {
        let _ = rb.push(candle(i, i as f64));
    }
    for _ in 0..10_000 {
        assert_eq!(rb.oldest_ts(), Some(100_001));
    }
}

#[test]
fn push_returns_ok_for_monotonic_inserts() {
    let mut rb = RingBuffer::new(8);
    assert_eq!(rb.push(candle(1, 1.0)), PushOutcome::InOrder);
    assert_eq!(rb.push(candle(2, 2.0)), PushOutcome::InOrder);
    assert_eq!(rb.push(candle(2, 2.5)), PushOutcome::InOrder, "equal ts is monotonic");
    assert_eq!(rb.push(candle(3, 3.0)), PushOutcome::InOrder);
}

#[test]
fn push_detects_out_of_order() {
    let mut rb = RingBuffer::new(8);
    let _ = rb.push(candle(10, 1.0));
    let _ = rb.push(candle(20, 2.0));
    assert_eq!(
        rb.push(candle(15, 1.5)),
        PushOutcome::OutOfOrder { prev_ts: 20, this_ts: 15 }
    );
}

#[test]
fn out_of_order_candle_is_still_stored() {
    let mut rb = RingBuffer::new(8);
    let _ = rb.push(candle(10, 1.0));
    let _ = rb.push(candle(20, 2.0));
    let _ = rb.push(candle(15, 1.5));
    assert_eq!(rb.len(), 3);
    let last = rb.last_n(3);
    assert_eq!(last.iter().map(|c| c.ts).collect::<Vec<_>>(), vec![10, 20, 15]);
}

#[test]
fn range_of_ascending_candles_is_a_filter() {
    for cap in [1usize, 2, 3, 5, 8] {
        let mut rb = RingBuffer::new(cap);
        for ts in [1i64, 1, 2, 4, 4, 4, 7, 9] {
            let _ = rb.push(candle(ts, ts as f64));
            assert!(rb.len() <= rb.capacity());
            for from in -1..11 {
                for to in -1..11 {
                    let got: Vec<i64> = rb.range(from, to).iter().map(|c| c.ts).collect();
                    let expected: Vec<i64> = rb
                        .to_vec()
                        .iter()
                        .map(|c| c.ts)
                        .filter(|ts| from <= *ts && *ts <= to)
                        .collect();
                    assert_eq!(got, expected);
                }
            }
        }
    }
}

#[test]
fn ring_without_slots_answers_nothing() {
    let rb = RingBuffer::new(0);
    assert_eq!(rb.capacity(), 0);
    assert!(rb.range(i64::MIN, i64::MAX).is_empty());
    assert!(rb.last_n(3).is_empty());
    assert!(rb.to_vec().is_empty());
}
