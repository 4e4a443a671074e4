use candlestore::simulator::{
    interval_for, next_price, next_ts, pace, Progress, Simulation, FIRST_SEED,
};
use candlestore::Binary64;

fn d(x: f64) -> Binary64 {
    Binary64::from_bits(x.to_bits())
}

fn f(x: Binary64) -> f64 {
    f64::from_bits(x.to_bits())
}

fn machine_price(prev: f64, seed: &mut u64) -> f64 {
    *seed = seed
        .wrapping_mul(6_364_136_223_846_793_005)
        .wrapping_add(1_442_695_040_888_963_407);
    let u = (*seed >> 32) as u32 as f64;
    let change = u / u32::MAX as f64 * 0.003 - 0.0015;
    (prev * (1.0 + change)).max(1.0)
}

#[test]
fn timestamps_never_go_back() {
    assert_eq!(next_ts(10, 5), 10);
    assert_eq!(next_ts(5, 5), 6);
    assert_eq!(next_ts(-7, 5), 6);
    assert_eq!(next_ts(0, i64::MAX), i64::MAX);
}

#[test]
fn prices_agree_with_the_machine() {
    let (mut a, mut b) = (FIRST_SEED, FIRST_SEED);
    let (mut p, mut q) = (d(50_000.0), 50_000.0f64);
    for _ in 0..5_000 {
        p = next_price(p, &mut a);
        q = machine_price(q, &mut b);
        assert_eq!(a, b);
        assert_eq!(p.to_bits(), q.to_bits());
    }
}

#[test]
fn prices_stay_above_one() {
    let mut seed = 1;
    assert_eq!(f(next_price(d(0.25), &mut seed)), 1.0);
    assert_eq!(f(next_price(d(f64::NAN), &mut seed)), 1.0);
    assert_eq!(f(next_price(d(-5.0), &mut seed)), 1.0);
}

#[test]
fn ticks_agree_with_the_machine() {
    let mut sim = Simulation::new();
    let mut seed = 0xDEAD_BEEF_1234_5678u64;
    let mut price = 50_000.0f64;
    for i in 1..2_000i64 {
        let c = sim.tick(i, i).candle;
        let open = price;
        let close = machine_price(price, &mut seed);
        let r1 = (seed >> 32) as u32 as f64 / u32::MAX as f64;
        let r2 = (seed & 0xFFFF_FFFF) as f64 / u32::MAX as f64;
        price = close;
        assert_eq!(c.ts, i);
        assert_eq!(f(c.open), open);
        assert_eq!(f(c.close), close);
        assert_eq!(f(c.high), open.max(close) * (1.0 + r1 * 0.001));
        assert_eq!(f(c.low), open.min(close) * (1.0 - r2 * 0.001));
        assert_eq!(f(c.volume), 0.5 + r1 * 2.0);
        assert!(f(c.low) <= open.min(close) && open.max(close) <= f(c.high));
        assert!(c.is_valid());
    }
    assert_eq!(sim.corrections, 0);
}

#[test]
fn corrections_are_reported_now_and_then() {
    let mut sim = Simulation::new();
    assert!(!sim.tick(1_000, 1_000).report_correction);
    let mut reports = 0;
    for i in 0..250 {
        let t = sim.tick(500, 500);
        assert_eq!(t.candle.ts, 1_001 + i);
        if t.report_correction {
            reports += 1;
        }
    }
    assert_eq!(sim.corrections, 250);
    assert_eq!(reports, 3);
}

#[test]
fn schedule_starts_afresh_when_far_behind() {
    let interval = interval_for(10_000);
    assert_eq!(interval, 100_000);
    let p = pace(50, 100_050, interval);
    assert_eq!((p.sleep, p.behind, p.next_due), (100_000, None, 200_050));
    let p = pace(100_060, 100_050, interval);
    assert_eq!((p.sleep, p.behind, p.next_due), (0, None, 200_050));
    let p = pace(100_050 + 100 * interval, 100_050, interval);
    assert_eq!((p.sleep, p.behind, p.next_due), (0, None, 200_050));
    let now = 100_051 + 100 * interval;
    let p = pace(now, 100_050, interval);
    assert_eq!((p.sleep, p.behind, p.next_due), (0, Some(100), now + interval));
}

#[test]
fn progress_is_reported_every_five_seconds() {
    let mut p = Progress::new(1_000);
    let (mut published, mut reported) = (0, 0);
    for _ in 0..10_240 {
        let (publish, report) = p.pushed();
        published += publish as u32;
        reported += report as u32;
    }
    assert_eq!((p.count, published, reported), (10_240, 10, 2));
}
