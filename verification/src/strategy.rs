//! The crossing of two moving averages as a strategy, and an executor that follows
//! its signals.

use vstd::prelude::*;
use crate::binary64::{whole, SIGN};
use crate::ring_buffer;
use crate::signal::{Side, Signal};
use crate::store::CandleStore;
use crate::Binary64;
use crate::Candle;

verus! {

/// The strategy's number in its signals.
pub const STRATEGY_ID: u32 = 1;

/// Every so many signals one is reported.
pub const REPORT_EVERY: u64 = 50;

/// The first signals are all reported.
pub const REPORT_FIRST: u64 = 5;

/// The closing prices of some candles, added up in turn from negative zero.
pub open spec fn closes_total(candles: Seq<Candle>) -> Binary64
    decreases candles.len(),
{
    if candles.len() == 0 {
        Binary64 { bits: SIGN }
    } else {
        closes_total(candles.drop_last()).sum(candles.last().close)
    }
}

/// The mean of the last closing prices; nothing where there are too few.
pub open spec fn mean_of_last(candles: Seq<Candle>, period: nat) -> Option<Binary64> {
    if candles.len() < period {
        None
    } else {
        Some(
            closes_total(candles.skip(candles.len() - period)).quotient(
                Binary64::of_whole(period),
            ),
        )
    }
}

/// The mean of the last closing prices.
pub fn sma(candles: &Vec<Candle>, period: usize) -> (r: Option<Binary64>)
    ensures
        r == mean_of_last(candles@, period as nat),
{
    if candles.len() < period {
        return None;
    }
    let start = candles.len() - period;
    let ghost last = candles@.skip(start as int);
    let mut sum = Binary64::from_bits(SIGN);
    let mut i: usize = start;
    assert(last.take(0) =~= Seq::<Candle>::empty());
    while i < candles.len()
        invariant
            start <= i <= candles@.len(),
            last == candles@.skip(start as int),
            sum == closes_total(last.take(i - start)),
        decreases candles@.len() - i,
    {
        sum = sum.plus(candles[i].close);
        assert(last.take(i - start + 1).drop_last() =~= last.take(i - start));
        assert(last.take(i - start + 1).last() == candles@[i as int]);
        i = i + 1;
    }
    assert(last.take(i - start) =~= last);
    Some(sum.over(Binary64::from_u64(period as u64)))
}

/// The short mean crosses the long one: from below or equal to above is a time to
/// buy, from above or equal to below a time to sell.
pub open spec fn crossing_of(
    prev_short: Binary64,
    prev_long: Binary64,
    short: Binary64,
    long: Binary64,
) -> Option<Side> {
    if prev_short.at_most(prev_long) && long.less(short) {
        Some(Side::Buy)
    } else if prev_long.at_most(prev_short) && short.less(long) {
        Some(Side::Sell)
    } else {
        None
    }
}

/// Whether the short mean crosses the long one, and which way.
pub fn crossing(
    prev_short: Binary64,
    prev_long: Binary64,
    short: Binary64,
    long: Binary64,
) -> (r: Option<Side>)
    ensures
        r == crossing_of(prev_short, prev_long, short, long),
{
    if prev_short.le(prev_long) && long.lt(short) {
        Some(Side::Buy)
    } else if prev_long.le(prev_short) && short.lt(long) {
        Some(Side::Sell)
    } else {
        None
    }
}

/// What the strategy remembers.
#[derive(Debug, Clone, Copy)]
pub struct Means {
    pub short: Option<Binary64>,
    pub long: Option<Binary64>,
}

/// The means of some candles.
pub open spec fn means_of(candles: Seq<Candle>, short_p: nat, long_p: nat) -> Means {
    Means { short: mean_of_last(candles, short_p), long: mean_of_last(candles, long_p) }
}

/// The crossing between two pairs of means, where all of them are known.
pub open spec fn crossed(before: Means, after: Means) -> Option<Side> {
    match (before.short, before.long, after.short, after.long) {
        (Some(ps), Some(pl), Some(cs), Some(cl)) => crossing_of(ps, pl, cs, cl),
        _ => None,
    }
}

/// What the strategy does after a change of the store.
#[derive(Debug, Clone, Copy)]
pub enum StrategyAction {
    /// Stop.
    Exit,
    /// Wait for the next change.
    Wait,
    /// Send a signal; report it where `report` is set.
    Send { signal: Signal, report: bool },
}

/// The strategy.
pub struct Strategy {
    symbol: String,
    short_p: usize,
    long_p: usize,
    qty: Binary64,
    means: Means,
    signals: u64,
}

impl Strategy {
    pub closed spec fn symbol(&self) -> Seq<char> {
        self.symbol@
    }

    pub closed spec fn short_p(&self) -> usize {
        self.short_p
    }

    pub closed spec fn long_p(&self) -> usize {
        self.long_p
    }

    pub closed spec fn qty(&self) -> Binary64 {
        self.qty
    }

    /// The means at the last look.
    pub closed spec fn means(&self) -> Means {
        self.means
    }

    /// How many signals were sent.
    pub closed spec fn sent(&self) -> u64 {
        self.signals
    }

    /// A strategy that has seen nothing yet.
    pub fn new(symbol: &str, short_p: usize, long_p: usize, qty: Binary64) -> (r: Strategy)
        ensures
            r.symbol() == symbol@,
            r.short_p() == short_p,
            r.long_p() == long_p,
            r.qty() == qty,
            r.means() == (Means { short: None, long: None }),
            r.sent() == 0,
    {
        Strategy {
            symbol: symbol.to_owned(),
            short_p,
            long_p,
            qty,
            means: Means { short: None, long: None },
            signals: 0,
        }
    }

    /// Look at the store after a change, at the time `ts`. Nothing is decided on
    /// fewer candles than the long period and one more.
    pub fn on_change(&mut self, store: &CandleStore, shutdown: bool, ts: i64) -> (r:
        StrategyAction)
        requires
            store.wf(),
            old(self).long_p() < usize::MAX,
            old(self).sent() < u64::MAX,
        ensures
            final(self).symbol() == old(self).symbol(),
            final(self).short_p() == old(self).short_p(),
            final(self).long_p() == old(self).long_p(),
            final(self).qty() == old(self).qty(),
            ({
                let all = store.view().candles(old(self).symbol());
                let least = old(self).long_p() as nat + 1;
                let candles = ring_buffer::last_of(all, least);
                let means = means_of(
                    candles,
                    old(self).short_p() as nat,
                    old(self).long_p() as nat,
                );
                if shutdown {
                    &&& r is Exit
                    &&& final(self).means() == old(self).means()
                    &&& final(self).sent() == old(self).sent()
                } else if candles.len() < least {
                    &&& r is Wait
                    &&& final(self).means() == old(self).means()
                    &&& final(self).sent() == old(self).sent()
                } else {
                    &&& final(self).means() == means
                    &&& match crossed(old(self).means(), means) {
                        None => r is Wait && final(self).sent() == old(self).sent(),
                        Some(side) => {
                            let n = (old(self).sent() + 1) as u64;
                            &&& final(self).sent() == n
                            &&& r matches StrategyAction::Send { signal, report }
                            &&& signal.ts == ts
                            &&& signal.side == crate::signal::side_byte(side)
                            &&& signal.qty == old(self).qty()
                            &&& signal.price == (Binary64 { bits: 0 })
                            &&& signal.strategy == STRATEGY_ID
                            &&& is_signal_of(signal, old(self).symbol())
                            &&& report == (n % REPORT_EVERY == 0 || n <= REPORT_FIRST)
                            &&& report <==> n <= 5 || n % 50 == 0
                            &&& signal.side == 0 <==> side is Buy
                            &&& signal.strategy == 1
                        },
                    }
                }
            }),
    {
        if shutdown {
            return StrategyAction::Exit;
        }
        let least = self.long_p + 1;
        let candles = store.last_n(self.symbol.as_str(), least);
        if candles.len() < least {
            return StrategyAction::Wait;
        }
        let before = self.means;
        let short = sma(&candles, self.short_p);
        let long = sma(&candles, self.long_p);
        self.means = Means { short, long };
        let side = match (before.short, before.long, short, long) {
            (Some(ps), Some(pl), Some(cs), Some(cl)) => crossing(ps, pl, cs, cl),
            _ => None,
        };
        match side {
            Some(side) => {
                let signal = Signal::new(
                    ts,
                    self.symbol.as_str(),
                    side,
                    self.qty,
                    Binary64::from_bits(0),
                    STRATEGY_ID,
                );
                self.signals = self.signals + 1;
                let report = self.signals % REPORT_EVERY == 0 || self.signals <= REPORT_FIRST;
                StrategyAction::Send { signal, report }
            },
            None => StrategyAction::Wait,
        }
    }
}

/// The signal bears the symbol, cut off where it does not fit.
pub open spec fn is_signal_of(signal: Signal, symbol: Seq<char>) -> bool {
    let bytes = vstd::utf8::encode_utf8(symbol);
    signal.symbol@ == crate::signal::padded(
        if bytes.len() > crate::signal::MAX_SIGNAL_SYMBOL_LEN {
            bytes.take(crate::signal::MAX_SIGNAL_SYMBOL_LEN as int)
        } else {
            bytes
        },
    )
}

/// What the executor does after a look at its ring.
#[derive(Debug, Clone, Copy, PartialEq, Eq, Structural)]
pub enum ExecutorAction {
    /// A signal was executed.
    Executed,
    /// Look again.
    Again,
    /// Stop.
    Exit,
}

/// The executor: it adds up what it is told to buy and to sell.
#[derive(Debug, Clone, Copy)]
pub struct Executor {
    pub position: Binary64,
    pub total: u64,
}

impl Executor {
    /// An executor that has done nothing yet.
    pub fn new() -> (r: Executor)
        ensures
            r == (Executor { position: Binary64 { bits: 0 }, total: 0 }),
    {
        Executor { position: Binary64::from_bits(0), total: 0 }
    }

    /// Execute a signal, if there is one. What is still in the ring at a shutdown
    /// is executed first.
    pub fn step(&mut self, found: Option<Signal>, shutdown: bool) -> (r: ExecutorAction)
        requires
            old(self).total < u64::MAX,
        ensures
            match found {
                Some(signal) => {
                    &&& r is Executed
                    &&& final(self).total == old(self).total + 1
                    &&& final(self).position == old(self).position.sum(
                        if signal.side == 0 {
                            signal.qty
                        } else {
                            signal.qty.opposite()
                        },
                    )
                },
                None => {
                    &&& *final(self) == *old(self)
                    &&& r == if shutdown {
                        ExecutorAction::Exit
                    } else {
                        ExecutorAction::Again
                    }
                },
            },
    {
        match found {
            Some(signal) => {
                self.total = self.total + 1;
                let delta = match signal.side() {
                    Side::Buy => signal.qty,
                    Side::Sell => signal.qty.negated(),
                };
                self.position = self.position.plus(delta);
                ExecutorAction::Executed
            },
            None => if shutdown {
                ExecutorAction::Exit
            } else {
                ExecutorAction::Again
            },
        }
    }
}

/// The values of the closing prices of some candles, added up without rounding.
pub open spec fn closes_value(candles: Seq<Candle>) -> int
    decreases candles.len(),
{
    if candles.len() == 0 {
        0
    } else {
        closes_value(candles.drop_last()) + candles.last().close.value()
    }
}

/// The mean of the last candles goes by their closing prices and by nothing else: not by
/// their other prices, and not by the candles before them.
pub proof fn lemma_mean_goes_by_closes(a: Seq<Candle>, b: Seq<Candle>, period: nat)
    requires
        period <= a.len(),
        period <= b.len(),
        forall|i: int|
            0 <= i < period ==> (#[trigger] a[a.len() - period + i]).close == b[b.len() - period
                + i].close,
    ensures
        mean_of_last(a, period) == mean_of_last(b, period),
        mean_of_last(a, period) is Some,
{
    let x = a.skip(a.len() - period);
    let y = b.skip(b.len() - period);
    assert forall|i: int| 0 <= i < x.len() implies (#[trigger] x[i]).close == y[i].close by {
        assert(x[i] == a[a.len() - period + i]);
    }
    lemma_total_goes_by_closes(x, y);
}

proof fn lemma_total_goes_by_closes(x: Seq<Candle>, y: Seq<Candle>)
    requires
        x.len() == y.len(),
        forall|i: int| 0 <= i < x.len() ==> (#[trigger] x[i]).close == y[i].close,
    ensures
        closes_total(x) == closes_total(y),
    decreases x.len(),
{
    if x.len() > 0 {
        let n = x.len() - 1;
        assert(x[n].close == y[n].close);
        assert forall|i: int| 0 <= i < n implies (#[trigger] x.drop_last()[i]).close
            == y.drop_last()[i].close by {
            assert(x[i].close == y[i].close);
        }
        lemma_total_goes_by_closes(x.drop_last(), y.drop_last());
    }
}

/// The mean times the number of candles is the sum of the last closing prices, as long
/// as nothing is rounded: neither one of the sums on the way nor the mean itself. There
/// is a mean just where there are enough candles.
pub proof fn lemma_mean_of_closes(candles: Seq<Candle>, period: nat, mean: int)
    requires
        0 < period < whole::EXACT,
        period <= candles.len(),
        forall|i: int|
            candles.len() - period <= i < candles.len() ==> (
            #[trigger] candles[i]).close.finite(),
        forall|k: int|
            0 <= k <= period ==> whole::representable(
                #[trigger] closes_value(
                    candles.subrange(candles.len() - period, candles.len() - period + k),
                ),
            ),
        whole::representable(mean),
        mean * period == closes_value(
            candles.subrange(candles.len() - period, candles.len() as int),
        ),
    ensures
        mean_of_last(candles, period) matches Some(m) && m.finite() && m.value() == mean,
        forall|few: Seq<Candle>|
            few.len() < period ==> #[trigger] mean_of_last(few, period) is None,
{
    let last = candles.skip(candles.len() - period);
    assert forall|k: int| 0 <= k <= last.len() implies whole::representable(
        closes_value(#[trigger] last.take(k)),
    ) by {
        assert(last.take(k) =~= candles.subrange(
            candles.len() - period,
            candles.len() - period + k,
        ));
    }
    assert forall|i: int| 0 <= i < last.len() implies (#[trigger] last[i]).close.finite() by {
        assert(last[i] == candles[candles.len() - period + i]);
    }
    lemma_total_of_closes(last);
    assert(last =~= candles.subrange(candles.len() - period, candles.len() as int));
    whole::lemma_whole(period);
    let total = closes_total(last);
    let n = Binary64::of_whole(period);
    assert(mean * n.value() == total.value() * whole::unit()) by (nonlinear_arith)
        requires
            n.value() == period * whole::unit(),
            total.value() == mean * period,
    ;
    whole::lemma_exact_quotient(total, n, mean);
}

proof fn lemma_total_of_closes(s: Seq<Candle>)
    requires
        forall|i: int| 0 <= i < s.len() ==> (#[trigger] s[i]).close.finite(),
        forall|k: int|
            0 <= k <= s.len() ==> whole::representable(closes_value(#[trigger] s.take(k))),
    ensures
        closes_total(s).finite(),
        closes_total(s).value() == closes_value(s),
    decreases s.len(),
{
    if s.len() == 0 {
        assert((Binary64 { bits: SIGN }).pattern() == 0);
    } else {
        let front = s.drop_last();
        assert forall|i: int| 0 <= i < front.len() implies (#[trigger] front[i]).close.finite() by {
            assert(front[i] == s[i]);
        }
        assert forall|k: int| 0 <= k <= front.len() implies whole::representable(
            closes_value(#[trigger] front.take(k)),
        ) by {
            assert(front.take(k) =~= s.take(k));
        }
        lemma_total_of_closes(front);
        assert(s.take(s.len() as int) =~= s);
        assert(s[s.len() - 1].close.finite());
        whole::lemma_exact_sum(closes_total(front), s.last().close);
    }
}

/// The short mean crosses the long one upward just where it was not above it and now is,
/// and downward just where it was not below it and now is.
pub proof fn lemma_crossing_goes_by_values(
    prev_short: Binary64,
    prev_long: Binary64,
    short: Binary64,
    long: Binary64,
)
    requires
        prev_short.finite(),
        prev_long.finite(),
        short.finite(),
        long.finite(),
    ensures
        crossing_of(prev_short, prev_long, short, long) == Some(Side::Buy) <==> (
        prev_short.value() <= prev_long.value() && short.value() > long.value()),
        crossing_of(prev_short, prev_long, short, long) == Some(Side::Sell) <==> (
        prev_short.value() >= prev_long.value() && short.value() < long.value()),
{
}

/// Without four means there is no crossing: not before there were two looks at enough
/// candles.
pub proof fn lemma_crossing_needs_all_means(before: Means, after: Means)
    requires
        before.short is None || before.long is None || after.short is None || after.long is None,
    ensures
        crossed(before, after) is None,
{
}

/// The crossing between two looks at the candles is that of the means of the short and
/// the long period at the one and at the other.
pub proof fn lemma_crossing_of_means(
    earlier: Seq<Candle>,
    later: Seq<Candle>,
    short_p: nat,
    long_p: nat,
)
    requires
        short_p <= earlier.len(),
        long_p <= earlier.len(),
        short_p <= later.len(),
        long_p <= later.len(),
    ensures
        crossed(means_of(earlier, short_p, long_p), means_of(later, short_p, long_p))
            == crossing_of(
            mean_of_last(earlier, short_p)->Some_0,
            mean_of_last(earlier, long_p)->Some_0,
            mean_of_last(later, short_p)->Some_0,
            mean_of_last(later, long_p)->Some_0,
        ),
{
}

/// Nothing crosses while the means stay as they are.
pub proof fn lemma_no_crossing_at_rest(short: Binary64, long: Binary64)
    ensures
        crossing_of(short, long, short, long) is None,
{
}

/// A crossing turns round where the two means are exchanged.
pub proof fn lemma_crossing_is_symmetric(
    prev_short: Binary64,
    prev_long: Binary64,
    short: Binary64,
    long: Binary64,
)
    ensures
        crossing_of(prev_short, prev_long, short, long) is Some <==> crossing_of(
            prev_long,
            prev_short,
            long,
            short,
        ) is Some,
        crossing_of(prev_short, prev_long, short, long) == Some(Side::Buy) <==> crossing_of(
            prev_long,
            prev_short,
            long,
            short,
        ) == Some(Side::Sell),
{
}

/// A signal bears as much of its symbol as fits: the first bytes of it, up to 23, and
/// nothing else.
pub proof fn lemma_signal_bears_the_symbol(signal: Signal, symbol: Seq<char>, i: int)
    requires
        is_signal_of(signal, symbol),
        0 <= i < 24,
    ensures
        ({
            let bytes = vstd::utf8::encode_utf8(symbol);
            signal.symbol@[i] == if i < bytes.len() && i < 23 {
                bytes[i]
            } else {
                0
            }
        }),
{
}

} // verus!
