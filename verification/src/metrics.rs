//! What is published of a running system, and what is worth an alert.

use vstd::prelude::*;
use vstd::arithmetic::power2::*;
use crate::binary64;
use crate::binary64::arithmetic::UNIT_DIGITS;
use crate::binary64::{laws, rounding, whole};
use crate::shm::{IngesterStats, WriterStats};
use crate::store::StoreSnapshot;
use crate::Binary64;

verus! {

/// The pattern of 0.5: a ring that is fuller than that is reported.
pub const FILL_ALERT: u64 = 0x3fe0_0000_0000_0000;

/// Every so many rejected appends are reported.
pub const REJECTED_ALERT: u64 = 1000;

/// Every so many invalid candles are reported.
pub const INVALID_ALERT: u64 = 100;

/// Every so many stalls of the producer are reported.
pub const STALL_ALERT: u64 = 10_000;

/// A published number.
#[derive(Debug, Clone, Copy, PartialEq, Eq, Structural)]
pub enum Metric {
    AppendsTotal,
    SymbolsActive,
    EvictionsTotal,
    SpillBytesTotal,
    SpillErrorsTotal,
    AppendsRejectedTotal,
    InvalidCandlesTotal,
    OutOfOrderTotal,
    IngestPoppedTotal,
    IngestRingDepth,
    IngestFillRatio,
    SignalsTotal,
    ExecutorSignalsTotal,
    ExecutorPosition,
    FeedCandlesPushedTotal,
    FeedPushFullTotal,
    FeedRingCapacity,
}

/// The value of a published number: a counter only ever grows, a gauge does not.
#[derive(Debug, Clone, Copy)]
pub enum Value {
    Counter(u64),
    Gauge(Binary64),
}

impl Metric {
    /// The number is a counter.
    pub open spec fn counts(self) -> bool {
        !(self is SymbolsActive || self is IngestRingDepth || self is IngestFillRatio
            || self is ExecutorPosition || self is FeedRingCapacity)
    }

    /// Whether the number is a counter.
    pub fn is_counter(&self) -> (r: bool)
        ensures
            r == self.counts(),
    {
        match self {
            Metric::SymbolsActive | Metric::IngestRingDepth | Metric::IngestFillRatio
            | Metric::ExecutorPosition | Metric::FeedRingCapacity => false,
            _ => true,
        }
    }

    /// The name under which the number is published.
    pub open spec fn label(self) -> Seq<char> {
        match self {
            Metric::AppendsTotal => "candlestore_appends_total"@,
            Metric::SymbolsActive => "candlestore_symbols_active"@,
            Metric::EvictionsTotal => "candlestore_evictions_total"@,
            Metric::SpillBytesTotal => "candlestore_parquet_spill_bytes_total"@,
            Metric::SpillErrorsTotal => "candlestore_parquet_spill_errors_total"@,
            Metric::AppendsRejectedTotal => "candlestore_appends_rejected_total"@,
            Metric::InvalidCandlesTotal => "candlestore_invalid_candles_total"@,
            Metric::OutOfOrderTotal => "candlestore_out_of_order_total"@,
            Metric::IngestPoppedTotal => "candlestore_ingest_popped_total"@,
            Metric::IngestRingDepth => "candlestore_ingest_ring_depth"@,
            Metric::IngestFillRatio => "candlestore_ingest_ring_fill_ratio"@,
            Metric::SignalsTotal => "candlestore_signals_total"@,
            Metric::ExecutorSignalsTotal => "candlestore_executor_signals_total"@,
            Metric::ExecutorPosition => "candlestore_executor_position"@,
            Metric::FeedCandlesPushedTotal => "candlestore_feed_candles_pushed_total"@,
            Metric::FeedPushFullTotal => "candlestore_feed_push_full_total"@,
            Metric::FeedRingCapacity => "candlestore_feed_ring_capacity"@,
        }
    }

    /// The name under which the number is published.
    pub fn name(&self) -> (r: &'static str)
        ensures
            r@ == self.label(),
    {
        match self {
            Metric::AppendsTotal => "candlestore_appends_total",
            Metric::SymbolsActive => "candlestore_symbols_active",
            Metric::EvictionsTotal => "candlestore_evictions_total",
            Metric::SpillBytesTotal => "candlestore_parquet_spill_bytes_total",
            Metric::SpillErrorsTotal => "candlestore_parquet_spill_errors_total",
            Metric::AppendsRejectedTotal => "candlestore_appends_rejected_total",
            Metric::InvalidCandlesTotal => "candlestore_invalid_candles_total",
            Metric::OutOfOrderTotal => "candlestore_out_of_order_total",
            Metric::IngestPoppedTotal => "candlestore_ingest_popped_total",
            Metric::IngestRingDepth => "candlestore_ingest_ring_depth",
            Metric::IngestFillRatio => "candlestore_ingest_ring_fill_ratio",
            Metric::SignalsTotal => "candlestore_signals_total",
            Metric::ExecutorSignalsTotal => "candlestore_executor_signals_total",
            Metric::ExecutorPosition => "candlestore_executor_position",
            Metric::FeedCandlesPushedTotal => "candlestore_feed_candles_pushed_total",
            Metric::FeedPushFullTotal => "candlestore_feed_push_full_total",
            Metric::FeedRingCapacity => "candlestore_feed_ring_capacity",
        }
    }

    /// What the number means.
    pub open spec fn meaning(self) -> Seq<char> {
        match self {
            Metric::AppendsTotal => "Total candles appended to the store across all symbols."@,
            Metric::SymbolsActive => "Symbols currently held in RAM (hot)."@,
            Metric::EvictionsTotal => "Lifetime LRU evictions from the store."@,
            Metric::SpillBytesTotal =>
            "Lifetime bytes successfully spilled to Parquet on eviction."@,
            Metric::SpillErrorsTotal =>
            "Lifetime Parquet spill failures (each is also logged at ERROR)."@,
            Metric::AppendsRejectedTotal =>
            "Lifetime appends rejected to preserve existing data when a spill failed."@,
            Metric::InvalidCandlesTotal =>
            "Lifetime candles rejected at the boundary for NaN/Inf/negative-ts. Sustained growth means the producer is sending garbage."@,
            Metric::OutOfOrderTotal =>
            "Lifetime candles accepted but whose ts went backwards. May be invisible to binary-search range queries until a re-sort runs."@,
            Metric::IngestPoppedTotal =>
            "Lifetime messages popped from the SHM ring by the ingester."@,
            Metric::IngestRingDepth =>
            "Instantaneous unread messages in the SHM ring (lag indicator)."@,
            Metric::IngestFillRatio =>
            "SHM ring fill fraction in [0, 1]. Sustained > 0.5 indicates backpressure."@,
            Metric::SignalsTotal => "Lifetime SMA-crossover signals produced by the strategy."@,
            Metric::ExecutorSignalsTotal => "Lifetime signals consumed by the paper executor."@,
            Metric::ExecutorPosition =>
            "Current paper position (positive = long, negative = short)."@,
            Metric::FeedCandlesPushedTotal =>
            "Total candles pushed by feed_handler to the SHM ring."@,
            Metric::FeedPushFullTotal =>
            "Lifetime count of pushes that found the ring full and had to wait. Sustained growth means the downstream consumer is behind."@,
            Metric::FeedRingCapacity => "Configured SHM ring capacity (slots)."@,
        }
    }

    /// What the number means.
    pub fn description(&self) -> (r: &'static str)
        ensures
            r@ == self.meaning(),
    {
        match self {
            Metric::AppendsTotal => "Total candles appended to the store across all symbols.",
            Metric::SymbolsActive => "Symbols currently held in RAM (hot).",
            Metric::EvictionsTotal => "Lifetime LRU evictions from the store.",
            Metric::SpillBytesTotal =>
            "Lifetime bytes successfully spilled to Parquet on eviction.",
            Metric::SpillErrorsTotal =>
            "Lifetime Parquet spill failures (each is also logged at ERROR).",
            Metric::AppendsRejectedTotal =>
            "Lifetime appends rejected to preserve existing data when a spill failed.",
            Metric::InvalidCandlesTotal =>
            "Lifetime candles rejected at the boundary for NaN/Inf/negative-ts. Sustained growth means the producer is sending garbage.",
            Metric::OutOfOrderTotal =>
            "Lifetime candles accepted but whose ts went backwards. May be invisible to binary-search range queries until a re-sort runs.",
            Metric::IngestPoppedTotal =>
            "Lifetime messages popped from the SHM ring by the ingester.",
            Metric::IngestRingDepth =>
            "Instantaneous unread messages in the SHM ring (lag indicator).",
            Metric::IngestFillRatio =>
            "SHM ring fill fraction in [0, 1]. Sustained > 0.5 indicates backpressure.",
            Metric::SignalsTotal => "Lifetime SMA-crossover signals produced by the strategy.",
            Metric::ExecutorSignalsTotal => "Lifetime signals consumed by the paper executor.",
            Metric::ExecutorPosition =>
            "Current paper position (positive = long, negative = short).",
            Metric::FeedCandlesPushedTotal =>
            "Total candles pushed by feed_handler to the SHM ring.",
            Metric::FeedPushFullTotal =>
            "Lifetime count of pushes that found the ring full and had to wait. Sustained growth means the downstream consumer is behind.",
            Metric::FeedRingCapacity => "Configured SHM ring capacity (slots).",
        }
    }
}

/// Everything that the hub publishes, in the order in which it does.
pub open spec fn hub_metrics() -> Seq<Metric> {
    seq![
        Metric::AppendsTotal,
        Metric::SymbolsActive,
        Metric::EvictionsTotal,
        Metric::SpillBytesTotal,
        Metric::SpillErrorsTotal,
        Metric::AppendsRejectedTotal,
        Metric::InvalidCandlesTotal,
        Metric::OutOfOrderTotal,
        Metric::IngestPoppedTotal,
        Metric::IngestRingDepth,
        Metric::IngestFillRatio,
        Metric::SignalsTotal,
        Metric::ExecutorSignalsTotal,
        Metric::ExecutorPosition,
    ]
}

/// Everything that the hub describes.
pub open spec fn hub_described() -> Seq<Metric> {
    seq![
        Metric::AppendsTotal,
        Metric::SymbolsActive,
        Metric::EvictionsTotal,
        Metric::SpillBytesTotal,
        Metric::SpillErrorsTotal,
        Metric::AppendsRejectedTotal,
        Metric::IngestPoppedTotal,
        Metric::IngestRingDepth,
        Metric::IngestFillRatio,
        Metric::SignalsTotal,
        Metric::ExecutorSignalsTotal,
        Metric::ExecutorPosition,
        Metric::InvalidCandlesTotal,
        Metric::OutOfOrderTotal,
    ]
}

/// Everything that the feed publishes and describes.
pub open spec fn feed_metrics() -> Seq<Metric> {
    seq![
        Metric::FeedCandlesPushedTotal,
        Metric::FeedPushFullTotal,
        Metric::FeedRingCapacity,
    ]
}

/// What the hub describes before it publishes anything.
pub fn describe_all_metrics() -> (r: Vec<Metric>)
    ensures
        r@ == hub_described(),
{
    let mut r: Vec<Metric> = Vec::new();
    r.push(Metric::AppendsTotal);
    r.push(Metric::SymbolsActive);
    r.push(Metric::EvictionsTotal);
    r.push(Metric::SpillBytesTotal);
    r.push(Metric::SpillErrorsTotal);
    r.push(Metric::AppendsRejectedTotal);
    r.push(Metric::IngestPoppedTotal);
    r.push(Metric::IngestRingDepth);
    r.push(Metric::IngestFillRatio);
    r.push(Metric::SignalsTotal);
    r.push(Metric::ExecutorSignalsTotal);
    r.push(Metric::ExecutorPosition);
    r.push(Metric::InvalidCandlesTotal);
    r.push(Metric::OutOfOrderTotal);
    r
}

/// What the feed describes before it publishes anything.
pub fn describe_feed_metrics() -> (r: Vec<Metric>)
    ensures
        r@ == feed_metrics(),
{
    let mut r: Vec<Metric> = Vec::new();
    r.push(Metric::FeedCandlesPushedTotal);
    r.push(Metric::FeedPushFullTotal);
    r.push(Metric::FeedRingCapacity);
    r
}

/// The number of something, as a binary64 number.
pub open spec fn as_number(n: int) -> Binary64 {
    Binary64::of_whole(n as nat)
}

/// The share of a ring that is in use: none of a ring without slots.
pub open spec fn fill_of(stats: IngesterStats) -> Binary64 {
    if stats.ring_capacity > 0 {
        as_number(stats.ring_depth as int).quotient(as_number(stats.ring_capacity as int))
    } else {
        Binary64 { bits: 0 }
    }
}

/// What the hub publishes.
pub open spec fn hub_values(
    store: StoreSnapshot,
    ingester: IngesterStats,
    signals_produced: u64,
    signals_consumed: u64,
    position: Binary64,
) -> Seq<Value> {
    seq![
        Value::Counter(store.appends_total),
        Value::Gauge(as_number(store.symbol_count as int)),
        Value::Counter(store.evictions_total),
        Value::Counter(store.parquet_spill_bytes_total),
        Value::Counter(store.parquet_spill_errors_total),
        Value::Counter(store.appends_rejected_total),
        Value::Counter(store.invalid_candles_total),
        Value::Counter(store.out_of_order_total),
        Value::Counter(ingester.popped_total),
        Value::Gauge(as_number(ingester.ring_depth as int)),
        Value::Gauge(fill_of(ingester)),
        Value::Counter(signals_produced),
        Value::Counter(signals_consumed),
        Value::Gauge(position),
    ]
}

/// What is worth an alert.
#[derive(Debug, Clone, Copy, PartialEq, Eq, Structural)]
pub struct Alerts {
    /// Appends are being rejected.
    pub rejected: bool,
    /// Invalid candles are coming in.
    pub invalid: bool,
    /// The ring is more than half full.
    pub ring: bool,
}

/// A counter has come to a multiple of so many.
pub open spec fn round_count(n: u64, every: u64) -> bool {
    n > 0 && n % every == 0
}

/// What the hub publishes, and what is worth an alert.
#[derive(Debug)]
pub struct Report {
    pub values: Vec<(Metric, Value)>,
    pub alerts: Alerts,
}

fn put(values: &mut Vec<(Metric, Value)>, metric: Metric, value: Value)
    ensures
        final(values)@ == old(values)@.push((metric, value)),
{
    values.push((metric, value));
}

/// One look at the running system.
pub fn hub_report(
    store: &StoreSnapshot,
    ingester: &IngesterStats,
    signals_produced: u64,
    signals_consumed: u64,
    position: Binary64,
) -> (r: Report)
    ensures
        r.values@.len() == hub_metrics().len(),
        forall|i: int|
            0 <= i < hub_metrics().len() ==> (#[trigger] r.values@[i]) == (
                hub_metrics()[i],
                hub_values(*store, *ingester, signals_produced, signals_consumed, position)[i],
            ),
        r.alerts.rejected == round_count(store.appends_rejected_total, REJECTED_ALERT),
        r.alerts.invalid == round_count(store.invalid_candles_total, INVALID_ALERT),
        r.alerts.ring == (Binary64 { bits: FILL_ALERT }).less(fill_of(*ingester)),
{
    let fill = if ingester.ring_capacity > 0 {
        Binary64::from_u64(ingester.ring_depth).over(Binary64::from_u64(ingester.ring_capacity))
    } else {
        Binary64::from_bits(0)
    };
    let mut v: Vec<(Metric, Value)> = Vec::new();
    put(&mut v, Metric::AppendsTotal, Value::Counter(store.appends_total));
    put(
        &mut v,
        Metric::SymbolsActive,
        Value::Gauge(Binary64::from_u64(store.symbol_count as u64)),
    );
    put(&mut v, Metric::EvictionsTotal, Value::Counter(store.evictions_total));
    put(&mut v, Metric::SpillBytesTotal, Value::Counter(store.parquet_spill_bytes_total));
    put(&mut v, Metric::SpillErrorsTotal, Value::Counter(store.parquet_spill_errors_total));
    put(&mut v, Metric::AppendsRejectedTotal, Value::Counter(store.appends_rejected_total));
    put(&mut v, Metric::InvalidCandlesTotal, Value::Counter(store.invalid_candles_total));
    put(&mut v, Metric::OutOfOrderTotal, Value::Counter(store.out_of_order_total));
    put(&mut v, Metric::IngestPoppedTotal, Value::Counter(ingester.popped_total));
    put(
        &mut v,
        Metric::IngestRingDepth,
        Value::Gauge(Binary64::from_u64(ingester.ring_depth)),
    );
    put(&mut v, Metric::IngestFillRatio, Value::Gauge(fill));
    put(&mut v, Metric::SignalsTotal, Value::Counter(signals_produced));
    put(&mut v, Metric::ExecutorSignalsTotal, Value::Counter(signals_consumed));
    put(&mut v, Metric::ExecutorPosition, Value::Gauge(position));
    let alerts = Alerts {
        rejected: store.appends_rejected_total > 0 && store.appends_rejected_total % REJECTED_ALERT
            == 0,
        invalid: store.invalid_candles_total > 0 && store.invalid_candles_total % INVALID_ALERT
            == 0,
        ring: Binary64::from_bits(FILL_ALERT).lt(fill),
    };
    Report { values: v, alerts }
}

/// What the feed publishes, and whether the consumer's being behind is worth an
/// alert.
pub fn feed_report(candles_pushed: u64, stats: &WriterStats) -> (r: (Vec<(Metric, Value)>, bool))
    ensures
        r.0@ == seq![
            (Metric::FeedCandlesPushedTotal, Value::Counter(candles_pushed)),
            (Metric::FeedPushFullTotal, Value::Counter(stats.push_full_events)),
            (Metric::FeedRingCapacity, Value::Gauge(as_number(stats.ring_capacity as int))),
        ],
        r.1 == round_count(stats.push_full_events, STALL_ALERT),
{
    let mut v: Vec<(Metric, Value)> = Vec::new();
    put(&mut v, Metric::FeedCandlesPushedTotal, Value::Counter(candles_pushed));
    put(&mut v, Metric::FeedPushFullTotal, Value::Counter(stats.push_full_events));
    put(&mut v, Metric::FeedRingCapacity, Value::Gauge(Binary64::from_u64(stats.ring_capacity)));
    (v, stats.push_full_events > 0 && stats.push_full_events % STALL_ALERT == 0)
}

/// Counters are published as counters and gauges as gauges.
pub proof fn lemma_values_are_of_their_kind(
    store: StoreSnapshot,
    ingester: IngesterStats,
    signals_produced: u64,
    signals_consumed: u64,
    position: Binary64,
    i: int,
)
    requires
        0 <= i < hub_metrics().len(),
    ensures
        hub_metrics()[i].counts() <==> hub_values(
            store,
            ingester,
            signals_produced,
            signals_consumed,
            position,
        )[i] is Counter,
{
}

/// Whatever the hub publishes has been described.
pub proof fn lemma_published_is_described(i: int)
    requires
        0 <= i < hub_metrics().len(),
    ensures
        hub_described().contains(hub_metrics()[i]),
{
    let at = if i < 6 {
        i
    } else if i < 8 {
        i + 6
    } else {
        i - 2
    };
    assert(hub_described()[at] == hub_metrics()[i]);
}

/// Each number of the hub is published under its own name: the counters of the store and
/// of the ingester, the symbols and the depth as numbers, and the rest as it was given.
pub proof fn lemma_published_under_its_name(
    store: StoreSnapshot,
    ingester: IngesterStats,
    signals_produced: u64,
    signals_consumed: u64,
    position: Binary64,
    i: int,
)
    requires
        0 <= i < hub_metrics().len(),
    ensures
        ({
            let value = hub_values(store, ingester, signals_produced, signals_consumed, position)[i];
            match hub_metrics()[i] {
                Metric::AppendsTotal => value == Value::Counter(store.appends_total),
                Metric::SymbolsActive => value == Value::Gauge(
                    Binary64::of_whole(store.symbol_count as nat),
                ),
                Metric::EvictionsTotal => value == Value::Counter(store.evictions_total),
                Metric::SpillBytesTotal => value == Value::Counter(
                    store.parquet_spill_bytes_total,
                ),
                Metric::SpillErrorsTotal => value == Value::Counter(
                    store.parquet_spill_errors_total,
                ),
                Metric::AppendsRejectedTotal => value == Value::Counter(
                    store.appends_rejected_total,
                ),
                Metric::InvalidCandlesTotal => value == Value::Counter(
                    store.invalid_candles_total,
                ),
                Metric::OutOfOrderTotal => value == Value::Counter(store.out_of_order_total),
                Metric::IngestPoppedTotal => value == Value::Counter(ingester.popped_total),
                Metric::IngestRingDepth => value == Value::Gauge(
                    Binary64::of_whole(ingester.ring_depth as nat),
                ),
                Metric::IngestFillRatio => value == Value::Gauge(fill_of(ingester)),
                Metric::SignalsTotal => value == Value::Counter(signals_produced),
                Metric::ExecutorSignalsTotal => value == Value::Counter(signals_consumed),
                Metric::ExecutorPosition => value == Value::Gauge(position),
                _ => false,
            }
        }),
{
}

/// The number is one of the feed's.
pub open spec fn is_of_the_feed(m: Metric) -> bool {
    m is FeedCandlesPushedTotal || m is FeedPushFullTotal || m is FeedRingCapacity
}

/// The hub publishes every number but those of the feed, each once, and the feed its
/// own.
pub proof fn lemma_each_number_is_published_once(m: Metric, i: int, j: int)
    ensures
        hub_metrics().contains(m) <==> !is_of_the_feed(m),
        feed_metrics().contains(m) <==> is_of_the_feed(m),
        0 <= i < j < hub_metrics().len() ==> hub_metrics()[i] != hub_metrics()[j],
        0 <= i < j < hub_described().len() ==> hub_described()[i] != hub_described()[j],
        0 <= i < j < feed_metrics().len() ==> feed_metrics()[i] != feed_metrics()[j],
{
    let h = hub_metrics();
    let f = feed_metrics();
    assert(h[0] is AppendsTotal && h[1] is SymbolsActive && h[2] is EvictionsTotal
        && h[3] is SpillBytesTotal && h[4] is SpillErrorsTotal && h[5] is AppendsRejectedTotal
        && h[6] is InvalidCandlesTotal && h[7] is OutOfOrderTotal && h[8] is IngestPoppedTotal
        && h[9] is IngestRingDepth && h[10] is IngestFillRatio && h[11] is SignalsTotal
        && h[12] is ExecutorSignalsTotal && h[13] is ExecutorPosition);
    assert(f[0] is FeedCandlesPushedTotal && f[1] is FeedPushFullTotal && f[2] is FeedRingCapacity);
}

/// The totals are the counters; everything else goes up and down.
pub proof fn lemma_totals_are_counters(m: Metric)
    ensures
        m.counts() <==> m is AppendsTotal || m is EvictionsTotal || m is SpillBytesTotal
            || m is SpillErrorsTotal || m is AppendsRejectedTotal || m is InvalidCandlesTotal
            || m is OutOfOrderTotal || m is IngestPoppedTotal || m is SignalsTotal
            || m is ExecutorSignalsTotal || m is FeedCandlesPushedTotal || m is FeedPushFullTotal,
{
}

/// A counter is reported each time that it has gone up by so many, and never between.
pub proof fn lemma_reported_every_so_many(n: u64, every: u64, k: nat)
    requires
        every > 0,
    ensures
        k > 0 && n == k * every ==> round_count(n, every),
        k * every < n < (k + 1) * every ==> !round_count(n, every),
        !round_count(0, every),
        REJECTED_ALERT == 1_000,
        INVALID_ALERT == 100,
        STALL_ALERT == 10_000,
{
    let e = every as int;
    if k > 0 && n == k * every {
        vstd::arithmetic::div_mod::lemma_mod_multiples_basic(k as int, e);
        assert(k * every > 0) by (nonlinear_arith)
            requires
                k > 0,
                every > 0,
        ;
    }
    if k * every < n < (k + 1) * every {
        let r = n - k * every;
        assert((k + 1) * every == k * every + every) by (nonlinear_arith);
        assert(n as int == k as int * e + r);
        vstd::arithmetic::div_mod::lemma_fundamental_div_mod_converse(
            n as int,
            e,
            k as int,
            r,
        );
    }
}

/// The share of a ring that is in use is the number nearest to it, and none where there
/// is no ring; and the ring is reported just where more than half of it is in use.
pub proof fn lemma_fill(stats: IngesterStats, z: Binary64)
    requires
        0 < stats.ring_capacity < 0x10_0000_0000_0000,
        stats.ring_depth <= stats.ring_capacity,
        z.finite(),
    ensures
        ({
            let fill = fill_of(stats);
            let (depth, capacity) = (stats.ring_depth as int, stats.ring_capacity as int);
            &&& fill.finite()
            &&& whole::apart(fill.value() * capacity, depth * whole::unit()) <= whole::apart(
                z.value() * capacity,
                depth * whole::unit(),
            )
            &&& (Binary64 { bits: FILL_ALERT }).less(fill) <==> 2 * depth > capacity
        }),
{
    let n = stats.ring_depth as nat;
    let c = stats.ring_capacity as nat;
    whole::lemma_whole(n);
    whole::lemma_whole(c);
    let a = Binary64::of_whole(n);
    let b = Binary64::of_whole(c);
    let fill = a.quotient(b);
    let u = whole::unit();
    let d = b.units();
    let e = pow2(UNIT_DIGITS as nat);
    laws::lemma_one();
    laws::lemma_units_of_finite(b);
    // a share is at most one
    assert(a.units() * e <= e * d) by (nonlinear_arith)
        requires
            a.units() == n * u,
            d == c * u,
            e == u,
            n <= c,
            u > 0,
    ;
    rounding::lemma_nearest_at_most((a.units() * e) as nat, d, binary64::ONE as int);
    rounding::lemma_nearest_exists((a.units() * e) as nat, d);
    laws::lemma_units_of_finite(fill);
    whole::lemma_quotient_is_nearest(a, b, z);
    let (x, y) = (fill.value(), z.value());
    let (p, q) = (c as int, n as int);
    assert(whole::apart(x * p, q * u) * u == whole::apart(x * (p * u), (q * u) * u)
        && whole::apart(y * p, q * u) * u == whole::apart(y * (p * u), (q * u) * u)) by {
        lemma_apart_times(x, p, q, u);
        lemma_apart_times(y, p, q, u);
    }
    assert(whole::apart(x * p, q * u) <= whole::apart(y * p, q * u)) by (nonlinear_arith)
        requires
            whole::apart(x * p, q * u) * u <= whole::apart(y * p, q * u) * u,
            u > 0,
    ;
    // a half, and the number after it
    let half = rounding::magnitude(FILL_ALERT as int) as int;
    let above = rounding::magnitude(FILL_ALERT + 1) as int;
    let step = pow2(1021) as int;
    rounding::lemma_magnitude_parts(1021, rounding::BINADE as nat);
    rounding::lemma_magnitude_parts(1021, (rounding::BINADE + 1) as nat);
    lemma_pow2_adds(53, 1021);
    lemma2_to64_rest();
    assert(u == 0x20_0000_0000_0000 * step);
    assert(half == 0x10_0000_0000_0000 * step);
    assert(above == 0x10_0000_0000_0001 * step);
    assert(2 * half == u && above == half + step) by (nonlinear_arith)
        requires
            u == 0x20_0000_0000_0000 * step,
            half == 0x10_0000_0000_0000 * step,
            above == 0x10_0000_0000_0001 * step,
    ;
    lemma_pow2_pos(1021);
    if 2 * n <= c {
        assert(n * u * e <= half * (c * u)) by (nonlinear_arith)
            requires
                2 * n <= c,
                e == u,
                2 * half == u,
                u > 0,
        ;
        rounding::lemma_nearest_at_most((a.units() * e) as nat, d, FILL_ALERT as int);
    } else {
        assert(above * (c * u) <= n * u * e) by (nonlinear_arith)
            requires
                2 * n >= c + 1,
                e == u,
                2 * half == u,
                above == half + step,
                u == 0x20_0000_0000_0000 * step,
                c < 0x10_0000_0000_0000,
                step > 0,
        ;
        rounding::lemma_nearest_at_least((a.units() * e) as nat, d, FILL_ALERT + 1);
    }
    if fill.pattern() > FILL_ALERT {
        rounding::lemma_magnitude_increases(FILL_ALERT as int, fill.pattern());
    } else if fill.pattern() < FILL_ALERT {
        rounding::lemma_magnitude_increases(fill.pattern(), FILL_ALERT as int);
    }
}

proof fn lemma_apart_times(x: int, p: int, q: int, u: int)
    requires
        u > 0,
    ensures
        whole::apart(x * p, q * u) * u == whole::apart(x * (p * u), (q * u) * u),
{
    assert(x * (p * u) == (x * p) * u) by (nonlinear_arith);
    let (s, t) = (x * p, q * u);
    assert((s >= t ==> s * u >= t * u && (s - t) * u == s * u - t * u) && (s < t ==> s * u < t * u
        && (t - s) * u == t * u - s * u)) by (nonlinear_arith)
        requires
            u > 0,
    ;
}

/// A text ends with another.
pub open spec fn ends_with(s: Seq<char>, end: Seq<char>) -> bool {
    s.len() >= end.len() && s.skip(s.len() - end.len()) == end
}

/// The names of the counters say that they are totals, and no others.
pub proof fn lemma_totals_are_named_so(m: Metric)
    ensures
        ends_with(m.label(), "_total"@) <==> m.counts(),
{
    reveal_strlit("_total");
    reveal_strlit("candlestore_appends_total");
    reveal_strlit("candlestore_symbols_active");
    reveal_strlit("candlestore_evictions_total");
    reveal_strlit("candlestore_parquet_spill_bytes_total");
    reveal_strlit("candlestore_parquet_spill_errors_total");
    reveal_strlit("candlestore_appends_rejected_total");
    reveal_strlit("candlestore_invalid_candles_total");
    reveal_strlit("candlestore_out_of_order_total");
    reveal_strlit("candlestore_ingest_popped_total");
    reveal_strlit("candlestore_ingest_ring_depth");
    reveal_strlit("candlestore_ingest_ring_fill_ratio");
    reveal_strlit("candlestore_signals_total");
    reveal_strlit("candlestore_executor_signals_total");
    reveal_strlit("candlestore_executor_position");
    reveal_strlit("candlestore_feed_candles_pushed_total");
    reveal_strlit("candlestore_feed_push_full_total");
    reveal_strlit("candlestore_feed_ring_capacity");
    let s = m.label();
    let end = "_total"@;
    if m.counts() {
        assert(s.skip(s.len() - end.len()) =~= end);
    } else {
        assert(s.skip(s.len() - end.len())[end.len() - 1] == s[s.len() - 1]);
        assert(s[s.len() - 1] != 'l');
    }
}

} // verus!
