//! What the C interface does with its arguments. A null pointer is `None`, a C
//! string is its bytes without the zero at the end, and -1 stands for an error.

use vstd::prelude::*;
use vstd::utf8::*;
use crate::candle::Candle;
use crate::hw::HardwareProfile;
use crate::ring_buffer;
use crate::signal::utf8_text;
use crate::store;
use crate::store::{CandleStore, StoreView};

verus! {

/// A store that the C interface made: it has no cold storage, its rings have slots,
/// and its symbols can be counted with 32 bits.
pub open spec fn made_here(s: StoreView) -> bool {
    &&& s.data_dir is None
    &&& s.ring_capacity > 0
    &&& 0 < s.max_symbols <= i32::MAX
}

/// The symbol that a C string names.
pub open spec fn named(symbol: Option<&[u8]>) -> Option<Seq<char>> {
    match symbol {
        Some(bytes) => if valid_utf8(bytes@) {
            Some(decode_utf8(bytes@))
        } else {
            None
        },
        None => None,
    }
}

/// A store for so many symbols; nothing unless that is a positive number.
pub fn candlestore_new(max_symbols: i32) -> (r: Option<CandleStore>)
    ensures
        r is Some <==> max_symbols > 0,
        r matches Some(s) ==> s.wf() && made_here(s.view()) && s.view() == StoreView::empty(
            max_symbols as usize,
            store::DEFAULT_RING_CAPACITY,
        ),
{
    if max_symbols <= 0 {
        return None;
    }
    Some(CandleStore::new(max_symbols as usize))
}

/// A store for so many symbols whose rings fit the hardware; nothing unless that is
/// a positive number.
pub fn candlestore_new_hardware(max_symbols: i32, hw: &HardwareProfile) -> (r: Option<CandleStore>)
    ensures
        r is Some <==> max_symbols > 0,
        r matches Some(s) ==> s.wf() && made_here(s.view()) && s.view() == StoreView::empty(
            max_symbols as usize,
            hw.capacity_for(max_symbols as usize) as usize,
        ),
{
    if max_symbols <= 0 {
        return None;
    }
    Some(CandleStore::from_hardware(max_symbols as usize, hw))
}

/// Append a candle: 0, also where the candle is refused, or -1 where there is no
/// store or no symbol.
pub fn candlestore_append(
    store: Option<&mut CandleStore>,
    symbol: Option<&[u8]>,
    candle: Candle,
) -> (r: i32)
    requires
        store matches Some(s) ==> s.wf() && made_here(s.view()),
    ensures
        r == if store is Some && named(symbol) is Some {
            0int
        } else {
            -1int
        },
        store matches Some(s) ==> match named(symbol) {
            Some(name) => {
                &&& final(s).wf()
                &&& final(s).view() == s.view().taken_in(s.victim(), name, candle, true)
                &&& s.view().full() ==> s.view().least_recent(s.victim())
            },
            None => *final(s) == *s,
        },
{
    let (Some(s), Some(bytes)) = (store, symbol) else {
        return -1;
    };
    match utf8_text(bytes) {
        Some(name) => {
            s.append(name, candle, Ok(()));
            0
        },
        None => -1,
    }
}

/// The first candles of a range, at most so many.
pub open spec fn clamped_range(
    s: StoreView,
    symbol: Seq<char>,
    from_ts: i64,
    to_ts: i64,
    max_len: i32,
) -> Seq<Candle> {
    let found = ring_buffer::range_of(s.candles(symbol), from_ts, to_ts);
    if found.len() <= max_len {
        found
    } else {
        found.take(max_len as int)
    }
}

/// Write the symbol's candles with `from_ts <= ts <= to_ts` to the front of a buffer
/// for `max_len` candles, as far as they fit in. How many were written, or -1 where
/// there is no store, no symbol or no buffer, or its length is negative.
pub fn candlestore_range(
    store: Option<&CandleStore>,
    symbol: Option<&[u8]>,
    from_ts: i64,
    to_ts: i64,
    out: Option<&mut Vec<Candle>>,
    max_len: i32,
) -> (r: i32)
    requires
        store matches Some(s) ==> s.wf() && made_here(s.view()),
        out matches Some(buffer) ==> buffer@.len() >= max_len,
    ensures
        out matches Some(buffer) ==> final(buffer)@ == if r >= 0 {
            clamped_range(store->0.view(), named(symbol)->0, from_ts, to_ts, max_len)
                + buffer@.skip(r as int)
        } else {
            buffer@
        },
        r >= 0 <==> store is Some && named(symbol) is Some && out is Some && max_len >= 0,
        r >= 0 ==> r == clamped_range(
            store->0.view(),
            named(symbol)->0,
            from_ts,
            to_ts,
            max_len,
        ).len(),
        r < 0 ==> r == -1,
        r >= 0 ==> ({
            let found = ring_buffer::range_of(
                store->0.view().candles(named(symbol)->0),
                from_ts,
                to_ts,
            );
            &&& r <= max_len
            &&& r <= found.len()
            &&& r == max_len || r == found.len()
            &&& out matches Some(buffer) ==> forall|i: int|
                0 <= i < r ==> #[trigger] final(buffer)@[i] == found[i]
        }),
{
    if max_len < 0 {
        return -1;
    }
    let (Some(s), Some(bytes), Some(buffer)) = (store, symbol, out) else {
        return -1;
    };
    let Some(name) = utf8_text(bytes) else {
        return -1;
    };
    let candles = s.range(name, from_ts, to_ts, Vec::new());
    let count = if candles.len() <= max_len as usize {
        candles.len()
    } else {
        max_len as usize
    };
    let ghost before = buffer@;
    let ghost first = clamped_range(s.view(), name@, from_ts, to_ts, max_len);
    let mut i: usize = 0;
    assert(buffer@ =~= first.take(0) + before.skip(0));
    while i < count
        invariant
            i <= count <= max_len <= before.len(),
            count == first.len(),
            count <= candles@.len(),
            buffer@ == first.take(i as int) + before.skip(i as int),
            forall|j: int| 0 <= j < count ==> first[j] == candles@[j],
        decreases count - i,
    {
        buffer.set(i, candles[i]);
        i = i + 1;
        assert(buffer@ =~= first.take(i as int) + before.skip(i as int));
    }
    assert(first.take(i as int) =~= first);
    count as i32
}

/// The number of symbols in the store, or -1 where there is none.
pub fn candlestore_symbol_count(store: Option<&CandleStore>) -> (r: i32)
    requires
        store matches Some(s) ==> s.wf() && made_here(s.view()),
    ensures
        r == match store {
            Some(s) => s.view().symbols.dom().len() as int,
            None => -1,
        },
{
    match store {
        Some(s) => {
            proof {
                s.lemma_bounded();
            }
            s.symbol_count() as i32
        },
        None => -1,
    }
}

/// The size of the last-level cache.
pub fn candlestore_l3_cache_bytes(hw: &HardwareProfile) -> (r: u64)
    ensures
        r == hw.l3_cache_bytes,
{
    hw.l3_cache_bytes as u64
}

/// The candles that are written are the first of the range, from its oldest on: what
/// comes before them in the ring is too early, none of them is too early or too late,
/// and only where the buffer is full can there be more of the range behind them.
pub proof fn lemma_range_is_written_from_its_start(
    s: StoreView,
    symbol: Seq<char>,
    from_ts: i64,
    to_ts: i64,
    max_len: i32,
) -> (start: int)
    requires
        max_len >= 0,
        ring_buffer::ascending(s.candles(symbol)),
    ensures
        ({
            let all = s.candles(symbol);
            let out = clamped_range(s, symbol, from_ts, to_ts, max_len);
            &&& out.len() <= max_len
            &&& 0 <= start <= start + out.len() <= all.len()
            &&& forall|i: int| 0 <= i < start ==> (#[trigger] all[i]).ts < from_ts
            &&& forall|i: int|
                0 <= i < out.len() ==> #[trigger] out[i] == all[start + i] && from_ts <= out[i].ts
                    <= to_ts
            &&& out.len() < max_len ==> forall|i: int|
                start + out.len() <= i < all.len() ==> (#[trigger] all[i]).ts > to_ts
        }),
{
    let all = s.candles(symbol);
    let found = ring_buffer::range_of(all, from_ts, to_ts);
    let start = ring_buffer::lemma_range_parts_the_ring(all, from_ts, to_ts);
    let out = clamped_range(s, symbol, from_ts, to_ts, max_len);
    assert forall|i: int| 0 <= i < out.len() implies #[trigger] out[i] == all[start + i] && from_ts
        <= out[i].ts <= to_ts by {
        assert(out[i] == found[i]);
    }
    start
}

/// A symbol is named by its UTF-8 bytes.
pub proof fn lemma_symbols_are_named(symbol: Seq<char>, bytes: &[u8])
    requires
        bytes@ == encode_utf8(symbol),
    ensures
        named(Some(bytes)) == Some(symbol),
        named(None) is None,
{
    encode_utf8_valid_utf8(symbol);
    encode_utf8_decode_utf8(symbol);
}

/// A store that was made here stays one, whatever is appended to it.
pub proof fn lemma_append_keeps_store_usable(
    s: StoreView,
    victim: Seq<char>,
    symbol: Seq<char>,
    candle: Candle,
)
    requires
        made_here(s),
    ensures
        made_here(s.taken_in(victim, symbol, candle, true)),
{
}

/// What is no UTF-8 names nothing, and every symbol is named by one text only.
pub proof fn lemma_named_by_utf8(bytes: &[u8])
    ensures
        named(Some(bytes)) is Some <==> valid_utf8(bytes@),
        named(Some(bytes)) matches Some(symbol) ==> encode_utf8(symbol) == bytes@,
{
    if valid_utf8(bytes@) {
        decode_utf8_encode_utf8(bytes@);
    }
}

} // verus!
