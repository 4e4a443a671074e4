//! The names of cold files: one directory for each symbol, and in it one file for
//! each spill, named by the timestamps of its first and its last candle.

use vstd::prelude::*;
use crate::text;
use crate::text::{char_vec, parse_i64, push_chars, push_int, push_text};

verus! {

/// Whether a character beyond ASCII is a letter or a number in Unicode.
pub uninterp spec fn unicode_alphanumeric(c: char) -> bool;

/// Calls `char::is_alphanumeric`, which goes by the Unicode tables.
#[verifier::external_body]
fn is_unicode_alphanumeric(c: char) -> (r: bool)
    ensures
        r == unicode_alphanumeric(c),
{
    c.is_alphanumeric()
}

/// A letter, a number or a hyphen.
pub open spec fn is_safe(c: char) -> bool {
    if (c as u32) < 128 {
        'a' <= c <= 'z' || 'A' <= c <= 'Z' || '0' <= c <= '9' || c == '-'
    } else {
        unicode_alphanumeric(c)
    }
}

/// A symbol as the name of a directory: what is neither a letter nor a number nor
/// a hyphen becomes an underscore.
pub open spec fn escaped(symbol: Seq<char>) -> Seq<char> {
    symbol.map_values(
        |c: char|
            if is_safe(c) {
                c
            } else {
                '_'
            },
    )
}

/// A path with one more component. A component that starts with a slash replaces
/// the path.
pub open spec fn joined(path: Seq<char>, component: Seq<char>) -> Seq<char> {
    if component.len() > 0 && component[0] == '/' {
        component
    } else if path.len() == 0 || path.last() == '/' {
        path + component
    } else {
        path.push('/') + component
    }
}

/// The name of a cold file.
pub open spec fn file_name(ts_start: i64, ts_end: i64) -> Seq<char> {
    text::int_text(ts_start as int).push('_') + text::int_text(ts_end as int) + ".parquet"@
}

/// The directory of a symbol's cold files.
pub open spec fn directory(data_dir: Seq<char>, symbol: Seq<char>) -> Seq<char> {
    joined(data_dir, escaped(symbol))
}

/// Where the candles between two timestamps are stored.
pub open spec fn path_of(
    data_dir: Seq<char>,
    symbol: Seq<char>,
    ts_start: i64,
    ts_end: i64,
) -> Seq<char> {
    joined(directory(data_dir, symbol), file_name(ts_start, ts_end))
}

/// The last position of a character before `end`.
pub open spec fn last_before(s: Seq<char>, c: char, end: int) -> Option<int>
    decreases end,
{
    if end <= 0 {
        None
    } else if s[end - 1] == c {
        Some(end - 1)
    } else {
        last_before(s, c, end - 1)
    }
}

/// The first position of a character from `start` on.
pub open spec fn first_from(s: Seq<char>, c: char, start: int) -> Option<int>
    decreases s.len() - start,
{
    if start >= s.len() {
        None
    } else if s[start] == c {
        Some(start)
    } else {
        first_from(s, c, start + 1)
    }
}

/// A file name without its extension, which is what follows the last dot, unless
/// that is the first character.
pub open spec fn stem(name: Seq<char>) -> Seq<char> {
    match last_before(name, '.', name.len() as int) {
        Some(i) => if i > 0 {
            name.take(i)
        } else {
            name
        },
        None => name,
    }
}

/// The file has the extension of cold files.
pub open spec fn is_cold(name: Seq<char>) -> bool {
    last_before(name, '.', name.len() as int) matches Some(i) && i > 0 && name.skip(i)
        == ".parquet"@
}

/// The timestamps in a file name: two numbers with an underscore between them.
pub open spec fn ts_range(name: Seq<char>) -> Option<(int, int)> {
    let s = stem(name);
    match first_from(s, '_', 0) {
        Some(i) => match (
            text::number(s.take(i), true, i64::MIN as int, i64::MAX as int),
            text::number(s.skip(i + 1), true, i64::MIN as int, i64::MAX as int),
        ) {
            (Some(a), Some(b)) => Some((a, b)),
            _ => None,
        },
        None => None,
    }
}

/// A cold file that may hold something between the bounds: its name says so, or
/// says nothing.
pub open spec fn is_wanted(name: Seq<char>, from_ts: i64, to_ts: i64) -> bool {
    is_cold(name) && match ts_range(name) {
        Some((start, end)) => end >= from_ts && start <= to_ts,
        None => true,
    }
}

/// Whether a character may stay in the name of a directory.
fn may_stay(c: char) -> (r: bool)
    ensures
        r == is_safe(c),
{
    if (c as u32) < 128 {
        ('a' <= c && c <= 'z') || ('A' <= c && c <= 'Z') || ('0' <= c && c <= '9') || c == '-'
    } else {
        is_unicode_alphanumeric(c)
    }
}

/// A symbol as the name of a directory: "BTC/USDT:1m" becomes "BTC_USDT_1m".
pub fn escape_symbol(symbol: &str) -> (r: String)
    ensures
        r@ == escaped(symbol@),
{
    let chars = char_vec(symbol);
    let mut r = String::new();
    let mut i: usize = 0;
    while i < chars.len()
        invariant
            i <= chars@.len(),
            chars@ == symbol@,
            r@ == escaped(symbol@).take(i as int),
        decreases chars@.len() - i,
    {
        let c = if may_stay(chars[i]) {
            chars[i]
        } else {
            '_'
        };
        r.push(c);
        assert(escaped(symbol@).take(i + 1) =~= escaped(symbol@).take(i as int).push(c));
        i = i + 1;
    }
    assert(escaped(symbol@).take(i as int) =~= escaped(symbol@));
    r
}

/// A path with one more component.
fn join(path: &str, component: &str) -> (r: String)
    ensures
        r@ == joined(path@, component@),
{
    let front = char_vec(path);
    let back = char_vec(component);
    let mut r = String::new();
    if !(back.len() > 0 && back[0] == '/') {
        push_chars(&mut r, &front);
        assert(r@ =~= path@);
        if front.len() > 0 && front[front.len() - 1] != '/' {
            r.push('/');
        }
    }
    push_chars(&mut r, &back);
    assert(r@ =~= joined(path@, component@));
    r
}

/// The directory of a symbol's cold files.
pub fn cold_directory(data_dir: &str, symbol: &str) -> (r: String)
    ensures
        r@ == directory(data_dir@, symbol@),
{
    let escaped = escape_symbol(symbol);
    join(data_dir, escaped.as_str())
}

/// Where the candles between two timestamps are stored:
/// `{data_dir}/{escaped_symbol}/{ts_start}_{ts_end}.parquet`.
pub fn cold_file_path(data_dir: &str, symbol: &str, ts_start: i64, ts_end: i64) -> (r: String)
    ensures
        r@ == path_of(data_dir@, symbol@, ts_start, ts_end),
{
    let dir = cold_directory(data_dir, symbol);
    let mut name = String::new();
    push_int(&mut name, ts_start);
    name.push('_');
    push_int(&mut name, ts_end);
    push_text(&mut name, ".parquet");
    assert(name@ =~= file_name(ts_start, ts_end));
    join(dir.as_str(), name.as_str())
}

/// The last position of a character.
fn find_last(chars: &Vec<char>, c: char) -> (r: Option<usize>)
    ensures
        match r {
            Some(i) => last_before(chars@, c, chars@.len() as int) == Some(i as int) && i
                < chars@.len(),
            None => last_before(chars@, c, chars@.len() as int) is None,
        },
{
    let mut end = chars.len();
    while end > 0
        invariant
            end <= chars@.len(),
            last_before(chars@, c, end as int) == last_before(chars@, c, chars@.len() as int),
        decreases end,
    {
        if chars[end - 1] == c {
            return Some(end - 1);
        }
        end = end - 1;
    }
    None
}

/// The first position of a character before `end`.
fn find_first(chars: &Vec<char>, c: char, end: usize) -> (r: Option<usize>)
    requires
        end <= chars@.len(),
    ensures
        match r {
            Some(i) => first_from(chars@.take(end as int), c, 0) == Some(i as int) && i < end,
            None => first_from(chars@.take(end as int), c, 0) is None,
        },
{
    let mut i: usize = 0;
    while i < end
        invariant
            i <= end <= chars@.len(),
            first_from(chars@.take(end as int), c, i as int) == first_from(
                chars@.take(end as int),
                c,
                0,
            ),
        decreases end - i,
    {
        if chars[i] == c {
            return Some(i);
        }
        i = i + 1;
    }
    None
}

/// The timestamps in the name of a cold file.
pub fn parse_ts_range(name: &str) -> (r: Option<(i64, i64)>)
    ensures
        match r {
            Some((a, b)) => ts_range(name@) == Some((a as int, b as int)),
            None => ts_range(name@) is None,
        },
{
    let chars = char_vec(name);
    let end = match find_last(&chars, '.') {
        Some(i) => if i > 0 {
            i
        } else {
            chars.len()
        },
        None => chars.len(),
    };
    let ghost s = stem(name@);
    assert(chars@.take(end as int) =~= s);
    match find_first(&chars, '_', end) {
        Some(i) => {
            assert(chars@.subrange(0, i as int) =~= s.take(i as int));
            assert(chars@.subrange(i + 1, end as int) =~= s.skip(i + 1));
            match (parse_i64(&chars, 0, i), parse_i64(&chars, i + 1, end)) {
                (Some(a), Some(b)) => Some((a, b)),
                _ => None,
            }
        },
        None => None,
    }
}

/// Whether a file is a cold file that may hold something between the bounds.
pub fn wants_file(name: &str, from_ts: i64, to_ts: i64) -> (r: bool)
    ensures
        r == is_wanted(name@, from_ts, to_ts),
{
    let chars = char_vec(name);
    let extension = char_vec(".parquet");
    let len = chars.len();
    match find_last(&chars, '.') {
        Some(i) => {
            if i == 0 || len - i != extension.len() {
                assert(name@.skip(i as int).len() == chars@.len() - i);
                return false;
            }
            let mut k: usize = 0;
            while k < extension.len()
                invariant
                    k <= extension@.len(),
                    len == chars@.len(),
                    chars@.len() - i == extension@.len(),
                    i < chars@.len(),
                    chars@ == name@,
                    extension@ == ".parquet"@,
                    last_before(name@, '.', name@.len() as int) == Some(i as int),
                    forall|j: int| 0 <= j < k ==> chars@[i + j] == #[trigger] extension@[j],
                decreases extension@.len() - k,
            {
                if chars[i + k] != extension[k] {
                    assert(name@.skip(i as int)[k as int] != extension@[k as int]);
                    return false;
                }
                k = k + 1;
            }
            assert(name@.skip(i as int) =~= ".parquet"@);
        },
        None => {
            return false;
        },
    }
    match parse_ts_range(name) {
        Some((start, end)) => end >= from_ts && start <= to_ts,
        None => true,
    }
}

/// A symbol's directory name has as many characters as the symbol and nothing in it
/// that would lead out of the data directory.
pub proof fn lemma_escaped_is_safe(symbol: Seq<char>)
    ensures
        escaped(symbol).len() == symbol.len(),
        !escaped(symbol).contains('/'),
        !escaped(symbol).contains('.'),
        forall|i: int| 0 <= i < symbol.len() && is_safe(symbol[i]) ==> #[trigger] escaped(symbol)[i]
            == symbol[i],
{
    if escaped(symbol).contains('/') {
        let i = choose|i: int| 0 <= i < escaped(symbol).len() && escaped(symbol)[i] == '/';
    }
    if escaped(symbol).contains('.') {
        let i = choose|i: int| 0 <= i < escaped(symbol).len() && escaped(symbol)[i] == '.';
    }
}

/// Symbols of safe characters have directories of their own.
pub proof fn lemma_safe_symbols_stay_apart(a: Seq<char>, b: Seq<char>)
    requires
        forall|i: int| 0 <= i < a.len() ==> is_safe(#[trigger] a[i]),
        forall|i: int| 0 <= i < b.len() ==> is_safe(#[trigger] b[i]),
        escaped(a) == escaped(b),
    ensures
        a == b,
{
    assert(escaped(a) =~= a);
    assert(escaped(b) =~= b);
}

proof fn lemma_int_text_plain(n: int, i: int)
    requires
        0 <= i < text::int_text(n).len(),
    ensures
        text::int_text(n)[i] == '-' || text::is_digit(text::int_text(n)[i]),
{
    if n < 0 {
        text::lemma_digits((-n) as nat);
    } else {
        text::lemma_digits(n as nat);
    }
}

proof fn lemma_last_before(s: Seq<char>, c: char, end: int, at: int)
    requires
        0 <= at < end <= s.len(),
        s[at] == c,
        forall|i: int| at < i < end ==> s[i] != c,
    ensures
        last_before(s, c, end) == Some(at),
    decreases end,
{
    if at < end - 1 {
        lemma_last_before(s, c, end - 1, at);
    }
}

proof fn lemma_first_from(s: Seq<char>, c: char, start: int, at: int)
    requires
        0 <= start <= at < s.len(),
        s[at] == c,
        forall|i: int| start <= i < at ==> s[i] != c,
    ensures
        first_from(s, c, start) == Some(at),
    decreases at - start,
{
    if start < at {
        lemma_first_from(s, c, start + 1, at);
    }
}

/// The timestamps that are written in the name of a cold file are read back from
/// it, so that a query between bounds looks at the file exactly if its range
/// overlaps with them.
pub proof fn lemma_file_name_read_back(ts_start: i64, ts_end: i64, from_ts: i64, to_ts: i64)
    ensures
        is_cold(file_name(ts_start, ts_end)),
        ts_range(file_name(ts_start, ts_end)) == Some((ts_start as int, ts_end as int)),
        is_wanted(file_name(ts_start, ts_end), from_ts, to_ts) <==> ts_end >= from_ts && ts_start
            <= to_ts,
{
    let a = text::int_text(ts_start as int);
    let b = text::int_text(ts_end as int);
    let name = file_name(ts_start, ts_end);
    reveal_strlit(".parquet");
    let dot = a.len() + 1 + b.len();
    let ext = ".parquet"@;
    assert(ext.len() == 8 && ext[0] == '.');
    assert(name[dot as int] == '.');
    assert forall|i: int| dot < i < name.len() implies name[i] != '.' by {
        assert(name[i] == ext[i - dot]);
    }
    lemma_last_before(name, '.', name.len() as int, dot as int);
    assert(name.skip(dot as int) =~= ext);
    let s = stem(name);
    assert(s =~= a.push('_') + b);
    assert forall|i: int| 0 <= i < a.len() implies s[i] != '_' by {
        lemma_int_text_plain(ts_start as int, i);
    }
    lemma_first_from(s, '_', 0, a.len() as int);
    assert(s.take(a.len() as int) =~= a);
    assert(s.skip(a.len() as int + 1) =~= b);
    text::lemma_number_of_text(ts_start as int, i64::MIN as int, i64::MAX as int);
    text::lemma_number_of_text(ts_end as int, i64::MIN as int, i64::MAX as int);
}

/// Of the ASCII characters in a symbol, letters, digits and hyphens stay as they are in
/// the name of its directory, and everything else becomes an underscore. Beyond ASCII
/// what is a letter or a number stays.
pub proof fn lemma_what_stays_in_a_name(symbol: Seq<char>, i: int)
    requires
        0 <= i < symbol.len(),
    ensures
        escaped(symbol).len() == symbol.len(),
        ({
            let (c, e) = (symbol[i], escaped(symbol)[i]);
            if (c as u32) < 128 {
                if 'a' <= c <= 'z' || 'A' <= c <= 'Z' || '0' <= c <= '9' || c == '-' {
                    e == c
                } else {
                    e == '_'
                }
            } else {
                unicode_alphanumeric(c) && e == c || !unicode_alphanumeric(c) && e == '_'
            }
        }),
{
}

/// The files of a symbol are in a directory of its name within the data directory, with
/// just one slash between.
pub proof fn lemma_path(data_dir: Seq<char>, symbol: Seq<char>, ts_start: i64, ts_end: i64)
    requires
        data_dir.len() > 0,
        symbol.len() > 0,
    ensures
        ({
            let base = if data_dir[data_dir.len() - 1] == '/' {
                data_dir
            } else {
                data_dir + seq!['/']
            };
            let name = text::int_text(ts_start as int) + seq!['_'] + text::int_text(ts_end as int)
                + ".parquet"@;
            &&& directory(data_dir, symbol) == base + escaped(symbol)
            &&& path_of(data_dir, symbol, ts_start, ts_end) == base + escaped(symbol) + seq!['/']
                + name
        }),
{
    lemma_escaped_is_safe(symbol);
    let e = escaped(symbol);
    assert(e[0] != '/') by {
        if e[0] == '/' {
            assert(e.contains('/'));
        }
    }
    assert(e[e.len() - 1] != '/') by {
        if e[e.len() - 1] == '/' {
            assert(e.contains('/'));
        }
    }
    let base = if data_dir[data_dir.len() - 1] == '/' {
        data_dir
    } else {
        data_dir + seq!['/']
    };
    assert(directory(data_dir, symbol) =~= base + e);
    let name = text::int_text(ts_start as int) + seq!['_'] + text::int_text(ts_end as int)
        + ".parquet"@;
    assert(file_name(ts_start, ts_end) =~= name);
    text::lemma_written_plainly(ts_start as int);
    assert(name[0] == text::int_text(ts_start as int)[0]);
    if ts_start >= 0 {
        text::lemma_digits(ts_start as nat);
    }
    assert(name[0] != '/');
    let dir = directory(data_dir, symbol);
    assert(dir[dir.len() - 1] == e[e.len() - 1]);
    assert(path_of(data_dir, symbol, ts_start, ts_end) =~= base + e + seq!['/'] + name);
}

proof fn lemma_last_before_is_last(s: Seq<char>, c: char, end: int)
    requires
        0 <= end <= s.len(),
    ensures
        match last_before(s, c, end) {
            Some(i) => 0 <= i < end && s[i] == c && forall|j: int| i < j < end ==> s[j] != c,
            None => forall|j: int| 0 <= j < end ==> s[j] != c,
        },
    decreases end,
{
    if end > 0 && s[end - 1] != c {
        lemma_last_before_is_last(s, c, end - 1);
    }
}

proof fn lemma_first_from_is_first(s: Seq<char>, c: char, start: int)
    requires
        0 <= start <= s.len(),
    ensures
        match first_from(s, c, start) {
            Some(i) => start <= i < s.len() && s[i] == c && forall|j: int|
                start <= j < i ==> s[j] != c,
            None => forall|j: int| start <= j < s.len() ==> s[j] != c,
        },
    decreases s.len() - start,
{
    if start < s.len() && s[start] != c {
        lemma_first_from_is_first(s, c, start + 1);
    }
}

/// A cold file is one whose name has something before its extension; no other file is
/// ever looked at.
pub proof fn lemma_cold_by_extension(name: Seq<char>, from_ts: i64, to_ts: i64)
    ensures
        is_cold(name) <==> name.len() > ".parquet"@.len() && name.skip(
            name.len() - ".parquet"@.len(),
        ) == ".parquet"@,
        !is_cold(name) ==> !is_wanted(name, from_ts, to_ts),
{
    reveal_strlit(".parquet");
    let ext = ".parquet"@;
    let n = name.len() as int;
    lemma_last_before_is_last(name, '.', n);
    if n > 8 && name.skip(n - 8) == ext {
        assert(name[n - 8] == ext[0]);
        assert forall|j: int| n - 8 < j < n implies name[j] != '.' by {
            assert(name[j] == ext[j - (n - 8)]);
        }
        lemma_last_before(name, '.', n, n - 8);
    }
    if is_cold(name) {
        let i = last_before(name, '.', n)->Some_0;
        assert(name.skip(i).len() == n - i);
    }
}

/// A cold file whose name does not say which candles are in it is always looked at; so
/// is one without an underscore in its name, and one with something else than numbers to
/// either side of it.
pub proof fn lemma_unnamed_is_looked_at(name: Seq<char>, from_ts: i64, to_ts: i64)
    requires
        is_cold(name),
    ensures
        ts_range(name) is None ==> is_wanted(name, from_ts, to_ts),
        !name.contains('_') ==> ts_range(name) is None,
        ts_range(name) matches Some((a, b)) ==> (is_wanted(name, from_ts, to_ts) <==> b >= from_ts
            && a <= to_ts),
{
    if !name.contains('_') {
        let s = stem(name);
        lemma_last_before_is_last(name, '.', name.len() as int);
        lemma_first_from_is_first(s, '_', 0);
        if first_from(s, '_', 0) is Some {
            let i = first_from(s, '_', 0)->Some_0;
            assert(name[i] == s[i]);
            assert(name.contains('_'));
        }
    }
}

} // verus!
