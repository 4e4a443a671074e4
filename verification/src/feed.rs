//! Candles from the exchange's stream.

use vstd::prelude::*;
use vstd::utf8::*;
use crate::text::push_text;
use crate::Binary64;
use crate::Candle;

verus! {

/// The seconds between the end of a stream and the next attempt.
pub const RECONNECT_DELAY_SECS: u64 = 5;

/// A text in lower case.
pub uninterp spec fn lower(s: Seq<char>) -> Seq<char>;

/// A text in upper case.
pub uninterp spec fn upper(s: Seq<char>) -> Seq<char>;

/// An ASCII character in lower case.
pub open spec fn ascii_lower(c: char) -> char {
    if 'A' <= c <= 'Z' {
        (c as u32 + 32) as char
    } else {
        c
    }
}

/// An ASCII character in upper case.
pub open spec fn ascii_upper(c: char) -> char {
    if 'a' <= c <= 'z' {
        (c as u32 - 32) as char
    } else {
        c
    }
}

/// Calls `str::to_lowercase`, which goes by the Unicode tables, and changes the
/// letters of a text of ASCII characters one by one.
#[verifier::external_body]
fn lowercase(s: &str) -> (r: String)
    ensures
        r@ == lower(s@),
        is_ascii_chars(s@) ==> r@ == s@.map_values(|c: char| ascii_lower(c)),
{
    s.to_lowercase()
}

/// Calls `str::to_uppercase`, which goes by the Unicode tables, and changes the
/// letters of a text of ASCII characters one by one.
#[verifier::external_body]
fn uppercase(s: &str) -> (r: String)
    ensures
        r@ == upper(s@),
        is_ascii_chars(s@) ==> r@ == s@.map_values(|c: char| ascii_upper(c)),
{
    s.to_uppercase()
}

/// Why a feed does not run.
#[derive(Debug)]
pub enum FeedError {
    /// The connection failed, with this message.
    Ws(String),
    /// A message could not be read, with this message.
    Json(String),
    /// There is nothing to subscribe to.
    NoSubscriptions,
}

/// One symbol and the interval of its candles, such as "BTCUSDT" and "1m".
#[derive(Debug)]
pub struct Subscription {
    pub symbol: String,
    pub interval: String,
}

/// A symbol in lower case: letter by letter where it is of ASCII characters.
pub open spec fn lower_symbol(symbol: Seq<char>) -> Seq<char> {
    if is_ascii_chars(symbol) {
        symbol.map_values(|c: char| ascii_lower(c))
    } else {
        lower(symbol)
    }
}

/// A symbol in upper case: letter by letter where it is of ASCII characters.
pub open spec fn upper_symbol(symbol: Seq<char>) -> Seq<char> {
    if is_ascii_chars(symbol) {
        symbol.map_values(|c: char| ascii_upper(c))
    } else {
        upper(symbol)
    }
}

/// The key of a symbol and an interval in the store.
pub open spec fn key_of(symbol: Seq<char>, interval: Seq<char>) -> Seq<char> {
    upper_symbol(symbol).push(':') + interval
}

/// The key of a symbol in upper case and an interval in the store.
pub fn store_key_of(upper_symbol: &str, interval: &str) -> (r: String)
    ensures
        r@ == upper_symbol@.push(':') + interval@,
{
    let mut r = upper_symbol.to_owned();
    r.push(':');
    push_text(&mut r, interval);
    r
}

/// The name of the stream of a symbol in lower case and an interval.
pub fn stream_name_of(lower_symbol: &str, interval: &str) -> (r: String)
    ensures
        r@ == lower_symbol@ + "@kline_"@ + interval@,
{
    let mut r = lower_symbol.to_owned();
    push_text(&mut r, "@kline_");
    push_text(&mut r, interval);
    r
}

impl Subscription {
    pub fn new(symbol: &str, interval: &str) -> (r: Subscription)
        ensures
            r.symbol@ == symbol@,
            r.interval@ == interval@,
    {
        Subscription { symbol: symbol.to_owned(), interval: interval.to_owned() }
    }

    /// The name of the stream.
    pub open spec fn stream(self) -> Seq<char> {
        lower_symbol(self.symbol@) + "@kline_"@ + self.interval@
    }

    /// The name of the stream, as the exchange has it.
    pub fn stream_name(&self) -> (r: String)
        ensures
            r@ == self.stream(),
    {
        let symbol = lowercase(self.symbol.as_str());
        stream_name_of(symbol.as_str(), self.interval.as_str())
    }

    /// The key in the store, such as "BTCUSDT:1m".
    pub fn store_key(&self) -> (r: String)
        ensures
            r@ == key_of(self.symbol@, self.interval@),
    {
        let symbol = uppercase(self.symbol.as_str());
        store_key_of(symbol.as_str(), self.interval.as_str())
    }
}

/// Some texts with a separator between them.
pub open spec fn with_separator(texts: Seq<Seq<char>>, separator: char) -> Seq<char>
    decreases texts.len(),
{
    if texts.len() == 0 {
        Seq::empty()
    } else if texts.len() == 1 {
        texts[0]
    } else {
        with_separator(texts.drop_last(), separator).push(separator) + texts.last()
    }
}

/// The names of the streams.
pub open spec fn streams(subs: Seq<Subscription>) -> Seq<Seq<char>> {
    subs.map_values(|s: Subscription| s.stream())
}

/// The address of the streams of some subscriptions; an error where there are none.
pub fn stream_url(subs: &Vec<Subscription>) -> (r: Result<String, FeedError>)
    ensures
        subs@.len() == 0 ==> r matches Err(FeedError::NoSubscriptions),
        subs@.len() > 0 ==> r is Ok,
        r matches Ok(url) ==> url@ == "wss://stream.binance.com:9443/stream?streams="@
            + with_separator(streams(subs@), '/'),
{
    if subs.len() == 0 {
        return Err(FeedError::NoSubscriptions);
    }
    let ghost names = streams(subs@);
    let mut joined = subs[0].stream_name();
    let mut i: usize = 1;
    assert(names.take(1).len() == 1);
    while i < subs.len()
        invariant
            1 <= i <= subs@.len(),
            names == streams(subs@),
            joined@ == with_separator(names.take(i as int), '/'),
        decreases subs@.len() - i,
    {
        let name = subs[i].stream_name();
        joined.push('/');
        push_text(&mut joined, name.as_str());
        assert(names.take(i + 1).drop_last() =~= names.take(i as int));
        assert(names.take(i + 1).last() == name@);
        i = i + 1;
    }
    assert(names.take(i as int) =~= names);
    let mut url = "wss://stream.binance.com:9443/stream?streams=".to_owned();
    push_text(&mut url, joined.as_str());
    Ok(url)
}

/// What comes of a stream that has ended.
#[derive(Debug, Clone, Copy, PartialEq, Eq, Structural)]
pub enum StreamEnd {
    /// The server closed it.
    Closed,
    /// It failed.
    Failed,
}

/// The seconds to wait before the next attempt: a stream that was closed is opened
/// again just like one that failed, and there is no last attempt.
pub fn reconnect_after(end: StreamEnd) -> (r: u64)
    ensures
        r == RECONNECT_DELAY_SECS,
        r == 5,
{
    match end {
        StreamEnd::Closed => RECONNECT_DELAY_SECS,
        StreamEnd::Failed => RECONNECT_DELAY_SECS,
    }
}

/// One message of a stream: a candle, which may still change, with its numbers as
/// far as they could be read.
#[derive(Debug)]
pub struct KlineData {
    pub ts: i64,
    pub open: Option<Binary64>,
    pub high: Option<Binary64>,
    pub low: Option<Binary64>,
    pub close: Option<Binary64>,
    pub volume: Option<Binary64>,
    pub is_closed: bool,
    pub symbol: String,
    pub interval: String,
}

impl KlineData {
    /// The candle, where all numbers could be read.
    pub open spec fn candle(self) -> Option<Candle> {
        match (self.open, self.high, self.low, self.close, self.volume) {
            (Some(open), Some(high), Some(low), Some(close), Some(volume)) => Some(
                Candle { ts: self.ts, open, high, low, close, volume },
            ),
            _ => None,
        }
    }

    /// The candle, where all numbers could be read.
    pub fn to_candle(&self) -> (r: Option<Candle>)
        ensures
            r == self.candle(),
    {
        match (self.open, self.high, self.low, self.close, self.volume) {
            (Some(open), Some(high), Some(low), Some(close), Some(volume)) => Some(
                Candle { ts: self.ts, open, high, low, close, volume },
            ),
            _ => None,
        }
    }

    /// The key in the store.
    pub fn store_key(&self) -> (r: String)
        ensures
            r@ == key_of(self.symbol@, self.interval@),
    {
        let symbol = uppercase(self.symbol.as_str());
        store_key_of(symbol.as_str(), self.interval.as_str())
    }

    /// What is to be stored: the candle, once it is closed, and its key.
    pub fn to_store(&self) -> (r: Option<(String, Candle)>)
        ensures
            r is Some <==> self.is_closed && self.candle() is Some,
            r matches Some((key, candle)) ==> key@ == key_of(self.symbol@, self.interval@)
                && Some(candle) == self.candle(),
    {
        if !self.is_closed {
            return None;
        }
        match self.to_candle() {
            Some(candle) => Some((self.store_key(), candle)),
            None => None,
        }
    }
}

/// The case in which a symbol is written makes no difference to the key and to the
/// stream: a candle of a subscription's symbol is stored under the subscription's key.
pub proof fn lemma_case_makes_no_difference(a: Seq<char>, b: Seq<char>, interval: Seq<char>)
    requires
        is_ascii_chars(a),
        is_ascii_chars(b),
        a.map_values(|c: char| ascii_lower(c)) == b.map_values(|c: char| ascii_lower(c)),
    ensures
        key_of(a, interval) == key_of(b, interval),
        lower_symbol(a) == lower_symbol(b),
{
    let la = a.map_values(|c: char| ascii_lower(c));
    let lb = b.map_values(|c: char| ascii_lower(c));
    assert(la.len() == lb.len());
    assert forall|i: int| 0 <= i < a.len() implies ascii_upper(#[trigger] a[i]) == ascii_upper(
        b[i],
    ) by {
        assert(la[i] == lb[i]);
    }
    assert(upper_symbol(a) =~= upper_symbol(b));
}

/// A candle is stored just as the message has it, once it is closed and all of its
/// numbers could be read, and not before.
pub proof fn lemma_message_is_stored_as_it_is(m: KlineData)
    ensures
        m.candle() is Some <==> m.open is Some && m.high is Some && m.low is Some && m.close is Some
            && m.volume is Some,
        m.candle() matches Some(c) ==> c.ts == m.ts && Some(c.open) == m.open && Some(c.high)
            == m.high && Some(c.low) == m.low && Some(c.close) == m.close && Some(c.volume)
            == m.volume,
{
}

/// The key of a symbol is the symbol, a colon, and the interval; the name of its stream
/// is the symbol, what says that it is of candles, and the interval.
pub proof fn lemma_parts_of_names(s: Subscription)
    ensures
        ({
            let n = upper_symbol(s.symbol@).len() as int;
            let key = key_of(s.symbol@, s.interval@);
            &&& key.take(n) == upper_symbol(s.symbol@)
            &&& key[n] == ':'
            &&& key.skip(n + 1) == s.interval@
        }),
        ({
            let n = lower_symbol(s.symbol@).len() as int;
            let tag = "@kline_"@;
            &&& s.stream().take(n) == lower_symbol(s.symbol@)
            &&& s.stream().subrange(n, n + tag.len()) == tag
            &&& s.stream().skip(n + tag.len()) == s.interval@
        }),
{
    let u = upper_symbol(s.symbol@);
    let l = lower_symbol(s.symbol@);
    let tag = "@kline_"@;
    let key = key_of(s.symbol@, s.interval@);
    assert(key.take(u.len() as int) =~= u);
    assert(key.skip(u.len() as int + 1) =~= s.interval@);
    assert(s.stream().take(l.len() as int) =~= l);
    assert(s.stream().subrange(l.len() as int, (l.len() + tag.len()) as int) =~= tag);
    assert(s.stream().skip((l.len() + tag.len()) as int) =~= s.interval@);
}

/// The letters of a symbol of ASCII characters are all in upper case in its key, and all
/// in lower case in the name of its stream; what is no letter stays.
pub proof fn lemma_case_of_names(symbol: Seq<char>, i: int)
    requires
        is_ascii_chars(symbol),
        0 <= i < symbol.len(),
    ensures
        upper_symbol(symbol).len() == symbol.len(),
        lower_symbol(symbol).len() == symbol.len(),
        ({
            let c = symbol[i];
            let (u, l) = (upper_symbol(symbol)[i], lower_symbol(symbol)[i]);
            if 'a' <= c <= 'z' {
                l == c && u as int == c as int - 'a' as int + 'A' as int
            } else if 'A' <= c <= 'Z' {
                u == c && l as int == c as int - 'A' as int + 'a' as int
            } else {
                u == c && l == c
            }
        }),
{
}

/// One text after another, with the separator between each two: the first text, the
/// separator, and the others likewise.
pub proof fn lemma_separated(first: Seq<char>, others: Seq<Seq<char>>, separator: char)
    ensures
        with_separator(seq![first], separator) == first,
        others.len() > 0 ==> with_separator(seq![first] + others, separator) == first.push(
            separator,
        ) + with_separator(others, separator),
    decreases others.len(),
{
    let all = seq![first] + others;
    if others.len() == 1 {
        reveal_with_fuel(with_separator, 2);
        assert(all.drop_last() =~= seq![first]);
        assert(all.last() == others[0]);
    } else if others.len() > 1 {
        let front = others.drop_last();
        lemma_separated(first, front, separator);
        assert(all.drop_last() =~= seq![first] + front);
        assert(all.last() == others.last());
        assert(with_separator(all, separator) =~= first.push(separator) + with_separator(
            others,
            separator,
        ));
    }
}

/// The streams are those of the subscriptions, one for each and in their order.
pub proof fn lemma_streams_in_turn(subs: Seq<Subscription>, i: int)
    requires
        0 <= i < subs.len(),
    ensures
        streams(subs).len() == subs.len(),
        streams(subs)[i] == subs[i].stream(),
{
}

} // verus!
