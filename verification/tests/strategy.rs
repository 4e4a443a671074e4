use candlestore::strategy::{crossing, sma, Executor, ExecutorAction, Strategy, StrategyAction};
use candlestore::{Binary64, Candle, CandleStore, Side, Signal};

fn d(x: f64) -> Binary64 {
    Binary64::from_bits(x.to_bits())
}

fn f(x: Binary64) -> f64 {
    f64::from_bits(x.to_bits())
}

fn candle(ts: i64, close: f64) -> Candle {
    Candle { ts, open: d(close), high: d(close), low: d(close), close: d(close), volume: d(1.0) }
}

#[test]
fn means_agree_with_the_machine() {
    let closes = [50_000.1, 49_999.7, 50_003.3, 0.1, 0.2, 0.3];
    let candles: Vec<Candle> = closes.iter().map(|c| candle(0, *c)).collect();
    for period in 1..=6usize {
        let expected = closes[6 - period..].iter().sum::<f64>() / period as f64;
        assert_eq!(f(sma(&candles, period).unwrap()), expected);
    }
    assert!(sma(&candles, 7).is_none());
    assert!(sma(&candles, 0).unwrap().is_nan());
}

#[test]
fn crossings_have_a_side() {
    assert_eq!(crossing(d(1.0), d(2.0), d(3.0), d(2.0)), Some(Side::Buy));
    assert_eq!(crossing(d(2.0), d(2.0), d(3.0), d(2.0)), Some(Side::Buy));
    assert_eq!(crossing(d(3.0), d(2.0), d(1.0), d(2.0)), Some(Side::Sell));
    assert_eq!(crossing(d(3.0), d(2.0), d(3.0), d(2.0)), None);
    assert_eq!(crossing(d(1.0), d(2.0), d(2.0), d(2.0)), None);
    assert_eq!(crossing(d(f64::NAN), d(2.0), d(3.0), d(2.0)), None);
}

#[test]
fn strategy_signals_the_crossing() {
    let mut store = CandleStore::new(2);
    let mut s = Strategy::new("BTC", 1, 2, d(0.1));
    let mut sides = Vec::new();
    for (i, close) in [10.0, 10.0, 10.0, 9.0, 12.0, 13.0, 8.0].iter().enumerate() {
        store.append("BTC", candle(i as i64, *close), Ok(()));
        match s.on_change(&store, false, 77) {
            StrategyAction::Send { signal, report } => {
                assert!(report, "the first signals are all reported");
                assert_eq!(signal.ts, 77);
                assert_eq!(signal.symbol_str(), "BTC");
                assert_eq!((f(signal.qty), f(signal.price), signal.strategy), (0.1, 0.0, 1));
                sides.push((i, signal.side()));
            }
            StrategyAction::Wait => {}
            StrategyAction::Exit => panic!("nothing was stopped"),
        }
    }
    assert_eq!(sides, vec![(3, Side::Sell), (4, Side::Buy), (6, Side::Sell)]);
    assert!(matches!(s.on_change(&store, true, 0), StrategyAction::Exit));
}

#[test]
fn later_signals_are_reported_in_fifties() {
    let mut store = CandleStore::new(2);
    let mut s = Strategy::new("BTC", 1, 2, d(0.1));
    let mut reported = Vec::new();
    let mut n = 0;
    for i in 0..110i64 {
        store.append("BTC", candle(i, if i % 2 == 0 { 1.0 } else { 2.0 }), Ok(()));
        if let StrategyAction::Send { report, .. } = s.on_change(&store, false, i) {
            n += 1;
            if report {
                reported.push(n);
            }
        }
    }
    assert_eq!(reported, vec![1, 2, 3, 4, 5, 50, 100]);
}

#[test]
fn executor_adds_up_its_signals() {
    let mut e = Executor::new();
    let buy = Signal::new(0, "BTC", Side::Buy, d(0.5), d(0.0), 1);
    let sell = Signal::new(0, "BTC", Side::Sell, d(2.0), d(0.0), 1);
    assert_eq!(e.step(Some(buy), false), ExecutorAction::Executed);
    assert_eq!(e.step(None, false), ExecutorAction::Again);
    assert_eq!(e.step(Some(sell), true), ExecutorAction::Executed);
    assert_eq!(e.step(None, true), ExecutorAction::Exit);
    assert_eq!((f(e.position), e.total), (-1.5, 2));
}
