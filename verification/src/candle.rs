//! The OHLCV candle.

use vstd::prelude::*;
use crate::Binary64;

verus! {

/// Open, high, low, close and volume of one interval.
#[derive(Debug, Clone, Copy, PartialEq)]
pub struct Candle {
    /// Unix timestamp in nanoseconds.
    pub ts: i64,
    /// Open price.
    pub open: Binary64,
    /// High price.
    pub high: Binary64,
    /// Low price.
    pub low: Binary64,
    /// Close price.
    pub close: Binary64,
    /// Volume traded.
    pub volume: Binary64,
}

/// The number of bytes of a candle: six fields of eight bytes.
pub const CANDLE_BYTES: usize = 48;

impl Candle {
    /// Every number is finite and the timestamp is not negative.
    pub open spec fn valid(self) -> bool {
        &&& self.ts >= 0
        &&& self.open.finite()
        &&& self.high.finite()
        &&& self.low.finite()
        &&& self.close.finite()
        &&& self.volume.finite()
    }

    /// Whether all numbers are finite and the timestamp is not negative.
    ///
    /// A ring stores whatever it is given: the check belongs where candles come
    /// in, because one bad number spoils everything that is computed from it.
    pub fn is_valid(&self) -> (r: bool)
        ensures
            r == self.valid(),
    {
        self.ts >= 0 && self.open.is_finite() && self.high.is_finite() && self.low.is_finite()
            && self.close.is_finite() && self.volume.is_finite()
    }

    /// The candle of zeros.
    pub open spec fn zeros() -> Candle {
        let zero = Binary64 { bits: 0 };
        Candle { ts: 0, open: zero, high: zero, low: zero, close: zero, volume: zero }
    }
}

impl Default for Candle {
    fn default() -> (r: Candle)
        ensures
            r == Candle::zeros(),
    {
        let zero = Binary64::from_bits(0);
        Candle { ts: 0, open: zero, high: zero, low: zero, close: zero, volume: zero }
    }
}

/// One bad number spoils a candle, whichever it is, and so does a negative timestamp;
/// nothing else does.
pub proof fn lemma_one_bad_number_spoils(c: Candle)
    ensures
        c.ts < 0 ==> !c.valid(),
        c.open.nan() || c.open.infinite() ==> !c.valid(),
        c.high.nan() || c.high.infinite() ==> !c.valid(),
        c.low.nan() || c.low.infinite() ==> !c.valid(),
        c.close.nan() || c.close.infinite() ==> !c.valid(),
        c.volume.nan() || c.volume.infinite() ==> !c.valid(),
        c.ts >= 0 && c.open.finite() && c.high.finite() && c.low.finite() && c.close.finite()
            && c.volume.finite() ==> c.valid(),
{
}

} // verus!
