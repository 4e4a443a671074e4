//! Trading signals, as they go from the strategy to the executor.

use vstd::prelude::*;
use vstd::slice::*;
use vstd::string::*;
use vstd::utf8::*;
use crate::Binary64;

verus! {

/// The longest symbol, in bytes, that a signal can hold. The last byte of the
/// buffer stays zero, for readers that look for a terminator.
pub const MAX_SIGNAL_SYMBOL_LEN: usize = 23;

/// The bytes of the buffer.
pub const SYMBOL_BYTES: usize = 24;

/// Why a signal cannot be made.
#[derive(Debug, Clone, Copy, PartialEq)]
pub enum SignalError {
    /// The symbol does not fit. Cutting it off would give another symbol.
    SymbolTooLong { len: usize, max: usize },
    /// The quantity or the price is infinite or not a number.
    NonFiniteField { qty: Binary64, price: Binary64 },
}

/// Order side.
#[derive(Debug, Clone, Copy, PartialEq, Eq, Structural)]
pub enum Side {
    Buy,
    Sell,
}

/// A side as a byte.
pub open spec fn side_byte(side: Side) -> u8 {
    match side {
        Side::Buy => 0,
        Side::Sell => 1,
    }
}

/// Trading signal: 64 bytes.
#[derive(Debug, Clone, Copy)]
pub struct Signal {
    /// When the strategy gave the signal, in Unix nanoseconds.
    pub ts: i64,
    /// The symbol, followed by zeros.
    pub symbol: [u8; 24],
    /// 0 for a purchase, anything else for a sale.
    pub side: u8,
    pub pad: [u8; 7],
    /// Quantity to trade.
    pub qty: Binary64,
    /// Limit price; zero for a market order.
    pub price: Binary64,
    /// The strategy that gave the signal.
    pub strategy: u32,
    pub pad2: [u8; 4],
}

/// Some bytes, filled up with zeros.
pub open spec fn padded(bytes: Seq<u8>) -> Seq<u8> {
    Seq::new(
        SYMBOL_BYTES as nat,
        |i: int|
            if i < bytes.len() {
                bytes[i]
            } else {
                0u8
            },
    )
}

/// The position of the first zero from `start` on, or the end.
pub open spec fn terminator(bytes: Seq<u8>, start: int) -> int
    decreases bytes.len() - start,
{
    if start >= bytes.len() {
        bytes.len() as int
    } else if bytes[start] == 0 {
        start
    } else {
        terminator(bytes, start + 1)
    }
}

/// The text before the first zero: nothing where that is not UTF-8.
pub open spec fn text_before_zero(bytes: Seq<u8>) -> Seq<char> {
    let prefix = bytes.take(terminator(bytes, 0));
    if valid_utf8(prefix) {
        decode_utf8(prefix)
    } else {
        Seq::empty()
    }
}

/// Calls `std::str::from_utf8`, which takes bytes that are UTF-8 as text, and no
/// others.
#[verifier::external_body]
pub(crate) fn utf8_text(bytes: &[u8]) -> (r: Option<&str>)
    ensures
        r is Some <==> valid_utf8(bytes@),
        r matches Some(s) ==> s@ == decode_utf8(bytes@),
{
    std::str::from_utf8(bytes).ok()
}

/// The first bytes of a symbol, filled up with zeros.
fn pack(bytes: &[u8], len: usize) -> (r: [u8; 24])
    requires
        len <= bytes@.len(),
        len <= MAX_SIGNAL_SYMBOL_LEN,
    ensures
        r@ == padded(bytes@.take(len as int)),
{
    let mut r: [u8; 24] = [0;24];
    let mut i: usize = 0;
    assert(r@ =~= padded(bytes@.take(0)));
    while i < len
        invariant
            i <= len <= bytes@.len(),
            len <= MAX_SIGNAL_SYMBOL_LEN,
            r@ == padded(bytes@.take(i as int)),
        decreases len - i,
    {
        r[i] = bytes[i];
        assert(r@ =~= padded(bytes@.take(i + 1)));
        i = i + 1;
    }
    r
}

impl Signal {
    /// The signal of these values, with these bytes for a symbol.
    pub open spec fn holds(
        self,
        ts: i64,
        symbol: Seq<u8>,
        side: Side,
        qty: Binary64,
        price: Binary64,
        strategy: u32,
    ) -> bool {
        &&& self.ts == ts
        &&& self.symbol@ == padded(symbol)
        &&& self.side == side_byte(side)
        &&& self.qty == qty
        &&& self.price == price
        &&& self.strategy == strategy
    }

    /// A signal, unless the symbol does not fit or a number is not finite.
    pub fn try_new(
        ts: i64,
        symbol: &str,
        side: Side,
        qty: Binary64,
        price: Binary64,
        strategy: u32,
    ) -> (r: Result<Signal, SignalError>)
        ensures
            ({
                let bytes = encode_utf8(symbol@);
                if bytes.len() > MAX_SIGNAL_SYMBOL_LEN {
                    r matches Err(SignalError::SymbolTooLong { len, max }) && len == bytes.len()
                        && max == MAX_SIGNAL_SYMBOL_LEN
                } else if !qty.finite() || !price.finite() {
                    r == Err::<Signal, SignalError>(SignalError::NonFiniteField { qty, price })
                } else {
                    r matches Ok(s) && s.holds(ts, bytes, side, qty, price, strategy)
                }
            }),
    {
        let bytes = symbol.as_bytes();
        if bytes.len() > MAX_SIGNAL_SYMBOL_LEN {
            return Err(
                SignalError::SymbolTooLong { len: bytes.len(), max: MAX_SIGNAL_SYMBOL_LEN },
            );
        }
        if !qty.is_finite() || !price.is_finite() {
            return Err(SignalError::NonFiniteField { qty, price });
        }
        Ok(Signal::new(ts, symbol, side, qty, price, strategy))
    }

    /// A signal. A symbol that does not fit is cut off.
    pub fn new(
        ts: i64,
        symbol: &str,
        side: Side,
        qty: Binary64,
        price: Binary64,
        strategy: u32,
    ) -> (r: Signal)
        ensures
            ({
                let bytes = encode_utf8(symbol@);
                let kept = if bytes.len() > MAX_SIGNAL_SYMBOL_LEN {
                    bytes.take(MAX_SIGNAL_SYMBOL_LEN as int)
                } else {
                    bytes
                };
                r.holds(ts, kept, side, qty, price, strategy)
            }),
    {
        let bytes = symbol.as_bytes();
        let len = if bytes.len() > MAX_SIGNAL_SYMBOL_LEN {
            MAX_SIGNAL_SYMBOL_LEN
        } else {
            bytes.len()
        };
        let packed = pack(bytes, len);
        proof {
            if len == bytes@.len() {
                assert(bytes@.take(len as int) =~= bytes@);
            }
        }
        Signal {
            ts,
            symbol: packed,
            side: match side {
                Side::Buy => 0,
                Side::Sell => 1,
            },
            pad: [0;7],
            qty,
            price,
            strategy,
            pad2: [0;4],
        }
    }

    /// The symbol.
    pub fn symbol_str(&self) -> (r: &str)
        ensures
            r@ == text_before_zero(self.symbol@),
    {
        let mut end: usize = 0;
        while end < 24 && self.symbol[end] != 0
            invariant
                end <= 24,
                terminator(self.symbol@, end as int) == terminator(self.symbol@, 0),
            decreases 24 - end,
        {
            end = end + 1;
        }
        let prefix = slice_subrange(self.symbol.as_slice(), 0, end);
        assert(prefix@ =~= self.symbol@.take(terminator(self.symbol@, 0)));
        match utf8_text(prefix) {
            Some(s) => s,
            None => {
                proof {
                    reveal_strlit("");
                }
                assert(""@ =~= Seq::<char>::empty());
                ""
            },
        }
    }

    /// The side.
    pub fn side(&self) -> (r: Side)
        ensures
            r == if self.side == 0 {
                Side::Buy
            } else {
                Side::Sell
            },
    {
        if self.side == 0 {
            Side::Buy
        } else {
            Side::Sell
        }
    }
}

impl Default for Signal {
    fn default() -> (r: Signal)
        ensures
            r.holds(
                0,
                Seq::empty(),
                Side::Buy,
                Binary64 { bits: 0 },
                Binary64 { bits: 0 },
                0,
            ),
    {
        let r = Signal {
            ts: 0,
            symbol: [0;24],
            side: 0,
            pad: [0;7],
            qty: Binary64::from_bits(0),
            price: Binary64::from_bits(0),
            strategy: 0,
            pad2: [0;4],
        };
        assert(r.symbol@ =~= padded(Seq::empty()));
        r
    }
}

proof fn lemma_terminator(bytes: Seq<u8>, start: int)
    requires
        0 <= start <= bytes.len() <= MAX_SIGNAL_SYMBOL_LEN,
        forall|i: int| 0 <= i < bytes.len() ==> bytes[i] != 0,
    ensures
        terminator(padded(bytes), start) == bytes.len(),
    decreases bytes.len() - start,
{
    if start < bytes.len() {
        lemma_terminator(bytes, start + 1);
    }
}

/// A symbol that fits and has no zero in it is read back from the signal as it
/// was.
pub proof fn lemma_symbol_read_back(symbol: Seq<char>)
    requires
        encode_utf8(symbol).len() <= MAX_SIGNAL_SYMBOL_LEN,
        !encode_utf8(symbol).contains(0u8),
    ensures
        text_before_zero(padded(encode_utf8(symbol))) == symbol,
{
    let bytes = encode_utf8(symbol);
    assert forall|i: int| 0 <= i < bytes.len() implies bytes[i] != 0 by {
        if bytes[i] == 0 {
            assert(bytes.contains(0u8));
        }
    }
    lemma_terminator(bytes, 0);
    assert(padded(bytes).take(bytes.len() as int) =~= bytes);
    encode_utf8_valid_utf8(symbol);
    encode_utf8_decode_utf8(symbol);
}

/// The side is read back from the signal as it was.
pub proof fn lemma_side_read_back(
    s: Signal,
    ts: i64,
    symbol: Seq<u8>,
    side: Side,
    qty: Binary64,
    price: Binary64,
    strategy: u32,
)
    requires
        s.holds(ts, symbol, side, qty, price, strategy),
    ensures
        (if s.side == 0 {
            Side::Buy
        } else {
            Side::Sell
        }) == side,
{
}

/// A signal has the time, the quantity, the price and the strategy that it was made of,
/// and in its buffer the symbol's bytes and then nothing but zeros.
pub proof fn lemma_signal_has_what_it_was_made_of(
    s: Signal,
    ts: i64,
    symbol: Seq<u8>,
    side: Side,
    qty: Binary64,
    price: Binary64,
    strategy: u32,
)
    requires
        s.holds(ts, symbol, side, qty, price, strategy),
        symbol.len() <= MAX_SIGNAL_SYMBOL_LEN,
    ensures
        s.ts == ts,
        s.qty == qty,
        s.price == price,
        s.strategy == strategy,
        s.side == 0 <==> side is Buy,
        forall|i: int| 0 <= i < symbol.len() ==> #[trigger] s.symbol@[i] == symbol[i],
        forall|i: int| symbol.len() <= i < s.symbol@.len() ==> #[trigger] s.symbol@[i] == 0,
{
}

/// Only what is before the first zero is read, whatever comes behind it, and nothing
/// where that is no text.
pub proof fn lemma_read_up_to_the_first_zero(bytes: Seq<u8>, end: int)
    requires
        0 <= end <= bytes.len(),
        forall|i: int| 0 <= i < end ==> #[trigger] bytes[i] != 0,
        end < bytes.len() ==> bytes[end] == 0,
    ensures
        valid_utf8(bytes.take(end)) ==> encode_utf8(text_before_zero(bytes)) == bytes.take(end),
        !valid_utf8(bytes.take(end)) ==> text_before_zero(bytes).len() == 0,
{
    lemma_terminator_is(bytes, 0, end);
    if valid_utf8(bytes.take(end)) {
        decode_utf8_encode_utf8(bytes.take(end));
    }
}

proof fn lemma_terminator_is(bytes: Seq<u8>, start: int, end: int)
    requires
        0 <= start <= end <= bytes.len(),
        forall|i: int| start <= i < end ==> #[trigger] bytes[i] != 0,
        end < bytes.len() ==> bytes[end] == 0,
    ensures
        terminator(bytes, start) == end,
    decreases end - start,
{
    if start < end {
        lemma_terminator_is(bytes, start + 1, end);
    }
}

} // verus!
