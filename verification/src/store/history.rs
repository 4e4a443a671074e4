//! What a store has taken in over time, and what a query gives back of it.

use vstd::prelude::*;
use super::merge;
use super::StoreView;
use crate::cold::file;
use crate::cold::names;
use crate::ring_buffer;
use crate::Candle;

verus! {

/// Some candles after others.
pub open spec fn joined(parts: Seq<Seq<Candle>>) -> Seq<Candle>
    decreases parts.len(),
{
    if parts.len() == 0 {
        Seq::empty()
    } else {
        joined(parts.drop_last()) + parts.last()
    }
}

/// An append: the candle and its symbol, what a full store evicts for it, and
/// whether that could be spilled.
pub struct Append {
    pub symbol: Seq<char>,
    pub candle: Candle,
    pub victim: Seq<char>,
    pub spilled: bool,
}

/// A store, with the candles that it has taken in of each symbol, those that it has
/// spilled, each spill by itself, and the number of appends that succeeded.
pub struct History {
    pub store: StoreView,
    pub taken: Map<Seq<char>, Seq<Candle>>,
    pub spilled: Map<Seq<char>, Seq<Seq<Candle>>>,
    pub accepted: nat,
}

impl History {
    /// A store to which nothing was appended yet.
    pub open spec fn new(store: StoreView) -> History {
        History { store, taken: Map::empty(), spilled: Map::empty(), accepted: 0 }
    }

    /// The candles of a symbol, in the order in which they were taken in.
    pub open spec fn taken_of(self, symbol: Seq<char>) -> Seq<Candle> {
        if self.taken.contains_key(symbol) {
            self.taken[symbol]
        } else {
            Seq::empty()
        }
    }

    /// The spills of a symbol, in turn.
    pub open spec fn spills_of(self, symbol: Seq<char>) -> Seq<Seq<Candle>> {
        if self.spilled.contains_key(symbol) {
            self.spilled[symbol]
        } else {
            Seq::empty()
        }
    }

    /// The append succeeds.
    pub open spec fn admits(self, a: Append) -> bool {
        self.store.admission(a.victim, a.symbol, a.candle, a.spilled) is Stored
    }

    /// The append takes the place of another symbol.
    pub open spec fn evicts(self, a: Append) -> bool {
        self.admits(a) && !self.store.symbols.contains_key(a.symbol) && self.store.full()
    }

    /// What there is after an append.
    pub open spec fn after(self, a: Append) -> History {
        if self.admits(a) {
            History {
                store: self.store.appended(a.victim, a.symbol, a.candle, a.spilled),
                taken: self.taken.insert(a.symbol, self.taken_of(a.symbol).push(a.candle)),
                spilled: if self.evicts(a) && self.store.spills(a.victim) {
                    self.spilled.insert(
                        a.victim,
                        self.spills_of(a.victim).push(self.store.candles(a.victim)),
                    )
                } else {
                    self.spilled
                },
                accepted: self.accepted + 1,
            }
        } else {
            History {
                store: self.store.appended(a.victim, a.symbol, a.candle, a.spilled),
                ..self
            }
        }
    }

    /// What there is after some appends, one after the other.
    pub open spec fn run(self, appends: Seq<Append>) -> History
        decreases appends.len(),
    {
        if appends.len() == 0 {
            self
        } else {
            self.run(appends.drop_last()).after(appends.last())
        }
    }

    /// The append loses nothing of a symbol: it pushes nothing out of the symbol's ring,
    /// and where it evicts the symbol, that is spilled.
    pub open spec fn loses_nothing(self, symbol: Seq<char>, a: Append) -> bool {
        &&& self.admits(a) && a.symbol == symbol && self.store.symbols.contains_key(symbol)
            ==> self.store.candles(symbol).len() < self.store.ring_capacity
        &&& self.evicts(a) && a.victim == symbol && self.store.symbols.contains_key(symbol)
            ==> self.store.spills(symbol)
    }

    /// What was taken in of a symbol is what was spilled of it, and after that what is
    /// in its ring.
    pub open spec fn is_whole(self, symbol: Seq<char>) -> bool {
        self.taken_of(symbol) == joined(self.spills_of(symbol)) + self.store.candles(symbol)
    }
}

/// Nothing is lost at first.
pub proof fn lemma_new_history_is_whole(
    max_symbols: usize,
    ring_capacity: usize,
    data_dir: Option<Seq<char>>,
    symbol: Seq<char>,
)
    ensures
        History::new(
            StoreView { data_dir, ..StoreView::empty(max_symbols, ring_capacity) },
        ).is_whole(symbol),
{
    assert(joined(Seq::empty()) + Seq::<Candle>::empty() =~= Seq::<Candle>::empty());
}

/// An append that pushes nothing out of a symbol's ring, and spills the symbol where it
/// evicts it, loses no candle of the symbol, whatever becomes of the others.
pub proof fn lemma_append_loses_nothing(h: History, symbol: Seq<char>, a: Append)
    requires
        h.is_whole(symbol),
        h.loses_nothing(symbol, a),
    ensures
        h.after(a).is_whole(symbol),
{
    let after = h.after(a);
    if h.admits(a) {
        if h.evicts(a) && symbol == a.victim && h.store.symbols.contains_key(symbol) {
            let parts = h.spills_of(symbol).push(h.store.candles(symbol));
            assert(after.spills_of(symbol) == parts);
            assert(parts.drop_last() =~= h.spills_of(symbol));
            assert(parts.last() == h.store.candles(symbol));
            assert(joined(parts) =~= h.taken_of(symbol));
            assert(a.symbol != symbol);
            assert(after.store.candles(symbol) =~= Seq::<Candle>::empty());
            assert(joined(parts) + Seq::<Candle>::empty() =~= joined(parts));
        } else if symbol == a.symbol {
            assert(after.spills_of(symbol) == h.spills_of(symbol));
            assert(after.store.candles(symbol) =~= h.store.candles(symbol).push(a.candle));
            assert(h.taken_of(symbol).push(a.candle) =~= joined(h.spills_of(symbol))
                + h.store.candles(symbol).push(a.candle));
        } else {
            assert(after.spills_of(symbol) == h.spills_of(symbol));
            assert(after.store.candles(symbol) == h.store.candles(symbol));
        }
    } else {
        assert(after.store.candles(symbol) == h.store.candles(symbol));
    }
}

/// No run of appends that each lose nothing of a symbol loses a candle of it, whatever
/// symbols the run evicts and takes in again, and whatever it loses of others.
pub proof fn lemma_run_loses_nothing(h: History, symbol: Seq<char>, appends: Seq<Append>)
    requires
        h.is_whole(symbol),
        forall|i: int|
            0 <= i < appends.len() ==> h.run(appends.take(i)).loses_nothing(
                symbol,
                #[trigger] appends[i],
            ),
    ensures
        h.run(appends).is_whole(symbol),
    decreases appends.len(),
{
    if appends.len() > 0 {
        let front = appends.drop_last();
        assert forall|i: int| 0 <= i < front.len() implies h.run(front.take(i)).loses_nothing(
            symbol,
            #[trigger] front[i],
        ) by {
            assert(front.take(i) =~= appends.take(i));
            assert(front[i] == appends[i]);
        }
        lemma_run_loses_nothing(h, symbol, front);
        assert(appends.take(appends.len() - 1) =~= front);
        assert(h.run(front).loses_nothing(symbol, appends[appends.len() - 1]));
        lemma_append_loses_nothing(h.run(front), symbol, appends.last());
    }
}

/// However the appends of several threads take turns, the version counts those that
/// succeeded, and a symbol of which nothing was spilled has as many candles in its
/// ring as appends to it succeeded.
pub proof fn lemma_every_append_is_counted(
    max_symbols: usize,
    ring_capacity: usize,
    data_dir: Option<Seq<char>>,
    appends: Seq<Append>,
    symbol: Seq<char>,
)
    requires
        appends.len() <= u64::MAX,
    ensures
        ({
            let empty = StoreView {
                data_dir,
                ..StoreView::empty(max_symbols, ring_capacity)
            };
            let h = History::new(empty).run(appends);
            &&& h.store.version == h.accepted
            &&& h.accepted <= appends.len()
            &&& (forall|i: int|
                0 <= i < appends.len() ==> History::new(empty).run(appends.take(i)).loses_nothing(
                    symbol,
                    #[trigger] appends[i],
                )) && h.spills_of(symbol).len() == 0 ==> h.store.candles(symbol) == h.taken_of(
                symbol,
            )
        }),
    decreases appends.len(),
{
    let empty = StoreView { data_dir, ..StoreView::empty(max_symbols, ring_capacity) };
    let start = History::new(empty);
    let h = start.run(appends);
    if appends.len() > 0 {
        lemma_every_append_is_counted(
            max_symbols,
            ring_capacity,
            data_dir,
            appends.drop_last(),
            symbol,
        );
    }
    if forall|i: int|
        0 <= i < appends.len() ==> start.run(appends.take(i)).loses_nothing(
            symbol,
            #[trigger] appends[i],
        ) {
        lemma_new_history_is_whole(max_symbols, ring_capacity, data_dir, symbol);
        lemma_run_loses_nothing(start, symbol, appends);
        if h.spills_of(symbol).len() == 0 {
            assert(h.taken_of(symbol) =~= h.store.candles(symbol));
        }
    }
}

/// A candle of several sequences after each other is one of one of them, and the
/// other way round.
proof fn lemma_joined_members(parts: Seq<Seq<Candle>>, c: Candle)
    ensures
        joined(parts).contains(c) <==> exists|k: int|
            0 <= k < parts.len() && (#[trigger] parts[k]).contains(c),
    decreases parts.len(),
{
    if parts.len() > 0 {
        let front = parts.drop_last();
        lemma_joined_members(front, c);
        let all = joined(parts);
        let before = joined(front);
        let last = parts[parts.len() - 1];
        if all.contains(c) {
            let i = choose|i: int| 0 <= i < all.len() && all[i] == c;
            if i < before.len() {
                assert(before[i] == c);
                let k = choose|k: int| 0 <= k < front.len() && (#[trigger] front[k]).contains(c);
                assert(parts[k].contains(c));
            } else {
                assert(last[i - before.len()] == c);
                assert(parts[parts.len() - 1].contains(c));
            }
        }
        if exists|k: int| 0 <= k < parts.len() && (#[trigger] parts[k]).contains(c) {
            let k = choose|k: int| 0 <= k < parts.len() && (#[trigger] parts[k]).contains(c);
            if k < front.len() {
                assert(front[k].contains(c));
                let i = choose|i: int| 0 <= i < before.len() && before[i] == c;
                assert(all[i] == c);
            } else {
                let i = choose|i: int| 0 <= i < last.len() && last[i] == c;
                assert(all[before.len() + i] == c);
            }
        }
    }
}

/// One of several sequences stands together in all of them after each other, behind
/// those before it.
proof fn lemma_joined_part(parts: Seq<Seq<Candle>>, k: int) -> (at: int)
    requires
        0 <= k < parts.len(),
    ensures
        at == joined(parts.take(k)).len(),
        at + parts[k].len() <= joined(parts).len(),
        parts[k] == joined(parts).subrange(at, at + parts[k].len()),
    decreases parts.len(),
{
    let front = parts.drop_last();
    if k < front.len() {
        let at = lemma_joined_part(front, k);
        assert(front.take(k) =~= parts.take(k));
        assert(front[k] == parts[k]);
        assert(parts[k] =~= joined(parts).subrange(at, at + parts[k].len()));
        at
    } else {
        let at = joined(front).len() as int;
        assert(parts.take(k) =~= front);
        assert(parts[k] =~= joined(parts).subrange(at, at + parts[k].len()));
        at
    }
}

/// Where the timestamps go up from each of several sequences to the next, no candle is
/// in two of them.
proof fn lemma_in_one_part(parts: Seq<Seq<Candle>>, k: int, l: int, c: Candle)
    requires
        merge::increasing(joined(parts)),
        0 <= k < parts.len(),
        0 <= l < parts.len(),
        parts[k].contains(c),
        parts[l].contains(c),
    ensures
        k == l,
{
    let (low, high) = if k <= l {
        (k, l)
    } else {
        (l, k)
    };
    if low < high {
        let before = parts.take(high);
        let a = lemma_joined_part(parts, low);
        let b = lemma_joined_part(parts, high);
        let inner = lemma_joined_part(before, low);
        assert(before.take(low) =~= parts.take(low));
        assert(before[low] == parts[low]);
        assert(a + parts[low].len() <= b);
        let i = choose|i: int| 0 <= i < parts[low].len() && parts[low][i] == c;
        let j = choose|j: int| 0 <= j < parts[high].len() && parts[high][j] == c;
        assert(joined(parts)[a + i] == c);
        assert(joined(parts)[b + j] == c);
    }
}

/// The candles between two bounds are those of the sequence that lie between them,
/// and their timestamps go up where the sequence's do.
proof fn lemma_within(s: Seq<Candle>, from_ts: i64, to_ts: i64)
    ensures
        forall|c: Candle| #[trigger]
            ring_buffer::within(s, from_ts, to_ts).contains(c) <==> s.contains(c) && from_ts
                <= c.ts <= to_ts,
        merge::increasing(s) ==> merge::increasing(ring_buffer::within(s, from_ts, to_ts)),
    decreases s.len(),
{
    reveal(Seq::filter);
    let kept = ring_buffer::within(s, from_ts, to_ts);
    if s.len() > 0 {
        let front = s.drop_last();
        let last = s.last();
        let before = ring_buffer::within(front, from_ts, to_ts);
        lemma_within(front, from_ts, to_ts);
        assert(s =~= front.push(last));
        assert(kept == if from_ts <= last.ts <= to_ts {
            before.push(last)
        } else {
            before
        });
        assert forall|c: Candle| #[trigger] kept.contains(c) <==> s.contains(c) && from_ts <= c.ts
            <= to_ts by {
            lemma_member_of_push(front, last, c);
            lemma_member_of_push(before, last, c);
            assert(before.contains(c) <==> front.contains(c) && from_ts <= c.ts <= to_ts);
        }
        if merge::increasing(s) {
            assert(merge::increasing(front)) by {
                assert forall|i: int, j: int|
                    #![trigger front[i], front[j]]
                    0 <= i < j < front.len() implies front[i].ts < front[j].ts by {
                    assert(s[i].ts < s[j].ts);
                }
            }
            assert forall|i: int| 0 <= i < before.len() implies (#[trigger] before[i]).ts
                < last.ts by {
                assert(before.contains(before[i]));
                let k = choose|k: int| 0 <= k < front.len() && front[k] == before[i];
                assert(s[k].ts < s[s.len() - 1].ts);
            }
        }
    } else {
        assert forall|c: Candle| !#[trigger] kept.contains(c) by {}
    }
}

proof fn lemma_member_of_push(s: Seq<Candle>, last: Candle, c: Candle)
    ensures
        s.push(last).contains(c) <==> s.contains(c) || last == c,
{
    let all = s.push(last);
    if s.contains(c) {
        let i = choose|i: int| 0 <= i < s.len() && s[i] == c;
        assert(all[i] == c);
    }
    assert(all[s.len() as int] == last);
    if all.contains(c) {
        let i = choose|i: int| 0 <= i < all.len() && all[i] == c;
        if i < s.len() {
            assert(s[i] == c);
        }
    }
}

/// Two sequences with the same candles, whose timestamps go up, are the same.
proof fn lemma_same_candles(x: Seq<Candle>, y: Seq<Candle>)
    requires
        merge::increasing(x),
        merge::increasing(y),
        forall|c: Candle| #[trigger] x.contains(c) <==> y.contains(c),
    ensures
        x == y,
    decreases x.len(),
{
    if x.len() == 0 {
        if y.len() > 0 {
            assert(y.contains(y[0]));
            assert(x.contains(y[0]));
        }
        assert(x =~= y);
    } else {
        let m = x.len() - 1;
        assert(x.contains(x[m]));
        assert(y.contains(x[m]));
        let n = y.len() - 1;
        assert(y.contains(y[n]));
        assert(x.contains(y[n]));
        let i = choose|i: int| 0 <= i < y.len() && y[i] == x[m];
        let j = choose|j: int| 0 <= j < x.len() && x[j] == y[n];
        assert(y[i].ts <= y[n].ts);
        assert(x[j].ts <= x[m].ts);
        assert(i == n);
        let fx = x.drop_last();
        let fy = y.drop_last();
        assert(x =~= fx.push(x[m]));
        assert(y =~= fy.push(x[m]));
        assert forall|c: Candle| #[trigger] fx.contains(c) <==> fy.contains(c) by {
            lemma_member_of_push(fx, x[m], c);
            lemma_member_of_push(fy, x[m], c);
            assert(x.contains(c) <==> y.contains(c));
            if fx.contains(c) {
                let k = choose|k: int| 0 <= k < fx.len() && fx[k] == c;
                assert(x[k].ts < x[m].ts);
            }
            if fy.contains(c) {
                let k = choose|k: int| 0 <= k < fy.len() && fy[k] == c;
                assert(y[k].ts < y[n].ts);
            }
        }
        assert forall|a: int, b: int|
            #![trigger fx[a], fx[b]]
            0 <= a < b < fx.len() implies fx[a].ts < fx[b].ts by {
            assert(x[a].ts < x[b].ts);
        }
        assert forall|a: int, b: int|
            #![trigger fy[a], fy[b]]
            0 <= a < b < fy.len() implies fy[a].ts < fy[b].ts by {
            assert(y[a].ts < y[b].ts);
        }
        lemma_same_candles(fx, fy);
    }
}

/// What a query finds in some files is in one of them.
proof fn lemma_found_is_in_a_file(files: Seq<Seq<u8>>, from_ts: i64, to_ts: i64, c: Candle)
    requires
        file::found_in(files, from_ts, to_ts).contains(c),
    ensures
        from_ts <= c.ts <= to_ts,
        exists|i: int|
            0 <= i < files.len() && file::contents(#[trigger] files[i]) is Candles
                && file::contents(files[i])->Candles_0.contains(c),
    decreases files.len(),
{
    if files.len() > 0 {
        let front = files.drop_last();
        let before = file::found_in(front, from_ts, to_ts);
        let all = file::found_in(files, from_ts, to_ts);
        let last = files[files.len() - 1];
        let at = choose|at: int| 0 <= at < all.len() && all[at] == c;
        if at < before.len() {
            assert(before[at] == c);
            lemma_found_is_in_a_file(front, from_ts, to_ts, c);
            let i = choose|i: int|
                0 <= i < front.len() && file::contents(#[trigger] front[i]) is Candles
                    && file::contents(front[i])->Candles_0.contains(c);
            assert(files[i] == front[i]);
        } else {
            let candles = file::contents(last)->Candles_0;
            lemma_within(candles, from_ts, to_ts);
            assert(ring_buffer::within(candles, from_ts, to_ts)[at - before.len()] == c);
            assert(ring_buffer::within(candles, from_ts, to_ts).contains(c));
            assert(file::contents(files[files.len() - 1]) is Candles);
        }
    }
}

/// The files are those of a symbol's spills whose names say that they have to be
/// looked at, and perhaps some of its others, each once: `whose` says of each which
/// spill it is the file of.
pub open spec fn looked_at(
    files: Seq<Seq<u8>>,
    whose: Seq<int>,
    spills: Seq<Seq<Candle>>,
    from_ts: i64,
    to_ts: i64,
) -> bool {
    &&& are_files(files, whose, spills)
    &&& forall|k: int|
        0 <= k < spills.len() && (#[trigger] spills[k]).len() > 0 && names::is_wanted(
            names::file_name(spills[k][0].ts, spills[k].last().ts),
            from_ts,
            to_ts,
        ) ==> whose.contains(k)
}

/// The files are those of some spills, no spill's twice.
pub open spec fn are_files(
    files: Seq<Seq<u8>>,
    whose: Seq<int>,
    spills: Seq<Seq<Candle>>,
) -> bool {
    &&& files.len() == whose.len()
    &&& whose.no_duplicates()
    &&& forall|i: int|
        #![trigger files[i]]
        #![trigger whose[i]]
        0 <= i < files.len() ==> 0 <= whose[i] < spills.len() && file::holds(
            files[i],
            spills[whose[i]],
        )
}

/// What a query finds in the files of some spills, no candle of which comes twice, has
/// no candle twice either.
proof fn lemma_found_once(
    files: Seq<Seq<u8>>,
    whose: Seq<int>,
    spills: Seq<Seq<Candle>>,
    from_ts: i64,
    to_ts: i64,
    c: Candle,
)
    requires
        are_files(files, whose, spills),
        merge::increasing(joined(spills)),
    ensures
        file::found_in(files, from_ts, to_ts).to_multiset().count(c) <= 1,
    decreases files.len(),
{
    let found = file::found_in(files, from_ts, to_ts);
    if files.len() == 0 {
        found.to_multiset_ensures();
        assert(!found.contains(c));
    } else {
        let n = files.len() - 1;
        let front = files.drop_last();
        let before = file::found_in(front, from_ts, to_ts);
        let part = spills[whose[n]];
        let kept = ring_buffer::within(part, from_ts, to_ts);
        assert(file::holds(files[n], part));
        assert forall|i: int| 0 <= i < front.len() implies 0 <= #[trigger] whose.drop_last()[i]
            < spills.len() && file::holds(front[i], spills[whose.drop_last()[i]]) by {
            assert(files[i] == front[i]);
        }
        lemma_found_once(front, whose.drop_last(), spills, from_ts, to_ts, c);
        file::lemma_written_is_read_back(files[n], part);
        assert(found =~= before + kept);
        vstd::seq_lib::lemma_multiset_commutative(before, kept);
        before.to_multiset_ensures();
        kept.to_multiset_ensures();
        let at = lemma_joined_part(spills, whose[n]);
        assert(merge::increasing(part)) by {
            assert forall|i: int, j: int|
                #![trigger part[i], part[j]]
                0 <= i < j < part.len() implies part[i].ts < part[j].ts by {
                assert(joined(spills)[at + i].ts < joined(spills)[at + j].ts);
            }
        }
        lemma_within(part, from_ts, to_ts);
        assert(kept.no_duplicates());
        kept.lemma_multiset_has_no_duplicates();
        if kept.to_multiset().count(c) > 0 {
            assert(kept.contains(c));
            assert(part.contains(c));
            if before.contains(c) {
                lemma_found_is_in_a_file(front, from_ts, to_ts, c);
                let i = choose|i: int|
                    0 <= i < front.len() && file::contents(#[trigger] front[i]) is Candles
                        && file::contents(front[i])->Candles_0.contains(c);
                assert(files[i] == front[i]);
                file::lemma_written_is_read_back(files[i], spills[whose[i]]);
                lemma_in_one_part(spills, whose[i], whose[n], c);
                assert(whose[i] != whose[n]);
            }
        }
    }
}

/// As long as nothing of a symbol was lost and its timestamps went up, a query gives
/// back the symbol's whole history between its bounds: every candle that was ever
/// taken in, each once and in order, however often the symbol was evicted and taken
/// in again, and whatever became of other symbols. `files` are what the query looked
/// at, `whose` is which spill each of them is the file of, and `cold` is what it found.
pub proof fn lemma_whole_history_is_answered(
    h: History,
    dir: Seq<char>,
    symbol: Seq<char>,
    files: Seq<Seq<u8>>,
    whose: Seq<int>,
    cold: Seq<Candle>,
    from_ts: i64,
    to_ts: i64,
)
    requires
        h.is_whole(symbol),
        merge::increasing(h.taken_of(symbol)),
        looked_at(files, whose, h.spills_of(symbol), from_ts, to_ts),
        ring_buffer::ascending(cold),
        cold.to_multiset() == file::found_in(files, from_ts, to_ts).to_multiset(),
    ensures
        super::range_answer(
            Some(dir),
            cold,
            ring_buffer::range_of(h.store.candles(symbol), from_ts, to_ts),
        ) == ring_buffer::within(h.taken_of(symbol), from_ts, to_ts),
{
    let all = h.taken_of(symbol);
    let spills = h.spills_of(symbol);
    let ring = h.store.candles(symbol);
    let hot = ring_buffer::range_of(ring, from_ts, to_ts);
    let found = file::found_in(files, from_ts, to_ts);
    let out = super::range_answer(Some(dir), cold, hot);
    let want = ring_buffer::within(all, from_ts, to_ts);
    let from = joined(spills).len();
    assert(all == joined(spills) + ring);
    assert forall|i: int| 0 <= i < ring.len() implies #[trigger] ring[i] == all[from + i] by {}
    assert(ring_buffer::ascending(ring)) by {
        assert forall|i: int, j: int| 0 <= i <= j < ring.len() implies ring[i].ts
            <= ring[j].ts by {
            assert(all[from + i].ts <= all[from + j].ts);
        }
    }
    ring_buffer::lemma_range_is_filter(ring, from_ts, to_ts);
    lemma_within(ring, from_ts, to_ts);
    assert(merge::increasing(ring)) by {
        assert forall|i: int, j: int|
            #![trigger ring[i], ring[j]]
            0 <= i < j < ring.len() implies ring[i].ts < ring[j].ts by {
            assert(all[from + i].ts < all[from + j].ts);
        }
    }
    assert(ring_buffer::ascending(hot)) by {
        assert forall|i: int, j: int| 0 <= i <= j < hot.len() implies hot[i].ts <= hot[j].ts by {
            if i < j {
                assert(hot[i].ts < hot[j].ts);
            }
        }
    }
    merge::lemma_merged(cold, hot);
    lemma_within(all, from_ts, to_ts);
    cold.to_multiset_ensures();
    found.to_multiset_ensures();
    // Everything that went into the merge is in the history, between the bounds.
    assert forall|c: Candle| cold.contains(c) || hot.contains(c) implies all.contains(c) && from_ts
        <= c.ts <= to_ts by {
        if cold.contains(c) {
            assert(cold.to_multiset().count(c) > 0);
            assert(found.contains(c));
            lemma_found_is_in_a_file(files, from_ts, to_ts, c);
            let i = choose|i: int|
                0 <= i < files.len() && file::contents(#[trigger] files[i]) is Candles
                    && file::contents(files[i])->Candles_0.contains(c);
            let k = whose[i];
            file::lemma_written_is_read_back(files[i], spills[k]);
            assert(spills[k].contains(c));
            lemma_joined_members(spills, c);
            let at = choose|at: int| 0 <= at < joined(spills).len() && joined(spills)[at] == c;
            assert(all[at] == c);
        } else {
            let at = choose|at: int| 0 <= at < ring.len() && ring[at] == c;
            assert(all[from + at] == c);
        }
    }
    // Of the history between the bounds, everything went into the merge.
    assert forall|c: Candle| all.contains(c) && from_ts <= c.ts <= to_ts implies cold.contains(c)
        || hot.contains(c) by {
        let at = choose|at: int| 0 <= at < all.len() && all[at] == c;
        if at >= from {
            assert(ring[at - from] == c);
            assert(ring.contains(c));
        } else {
            assert(joined(spills)[at] == c);
            assert(joined(spills).contains(c));
            lemma_joined_members(spills, c);
            let k = choose|k: int| 0 <= k < spills.len() && (#[trigger] spills[k]).contains(c);
            let part = spills[k];
            let start = lemma_joined_part(spills, k);
            let i = choose|i: int| 0 <= i < part.len() && part[i] == c;
            assert(part[i] == all[start + i]);
            assert(part[0] == all[start]);
            assert(part[part.len() - 1] == all[start + part.len() - 1]);
            assert(part[0].ts <= c.ts <= part.last().ts);
            names::lemma_file_name_read_back(part[0].ts, part.last().ts, from_ts, to_ts);
            let f = choose|f: int| 0 <= f < whose.len() && whose[f] == k;
            assert(file::holds(files[f], spills[k]));
            file::lemma_no_spilled_candle_is_missed(files, f, part, c, from_ts, to_ts);
            assert(found.to_multiset().count(c) > 0);
        }
    }
    // Neither side has a timestamp twice, so each can stand for itself.
    assert(merge::increasing(cold)) by {
        assert(merge::increasing(joined(spills))) by {
            assert forall|i: int, j: int|
                #![trigger joined(spills)[i], joined(spills)[j]]
                0 <= i < j < joined(spills).len() implies joined(spills)[i].ts < joined(
                spills,
            )[j].ts by {
                assert(all[i].ts < all[j].ts);
            }
        }
        assert forall|c: Candle| #[trigger] cold.to_multiset().contains(c) implies
            cold.to_multiset().count(c) == 1 by {
            lemma_found_once(files, whose, spills, from_ts, to_ts, c);
        }
        cold.lemma_multiset_has_no_duplicates_conv();
        assert forall|i: int, j: int|
            #![trigger cold[i], cold[j]]
            0 <= i < j < cold.len() implies cold[i].ts < cold[j].ts by {
            assert(cold.contains(cold[i]) && cold.contains(cold[j]));
            let m = choose|m: int| 0 <= m < all.len() && all[m] == cold[i];
            let n = choose|n: int| 0 <= n < all.len() && all[n] == cold[j];
            assert(cold[i] != cold[j]);
            assert(m != n);
            assert(cold[i].ts <= cold[j].ts);
        }
    }
    if cold.len() > 0 && hot.len() > 0 {
        assert forall|c: Candle| #[trigger] out.contains(c) <==> want.contains(c) by {
            if out.contains(c) {
                merge::lemma_merged_members(cold, hot, c);
            }
            if want.contains(c) {
                let s = if cold.contains(c) {
                    cold
                } else {
                    hot
                };
                let i = choose|i: int| 0 <= i < s.len() && s[i] == c;
                assert(s[i].ts == c.ts);
                assert(merge::has_ts(s, c.ts));
                assert(merge::has_ts(out, c.ts));
                let k = choose|k: int| 0 <= k < out.len() && (#[trigger] out[k]).ts == c.ts;
                assert(out.contains(out[k]));
                merge::lemma_merged_members(cold, hot, out[k]);
                assert(all.contains(out[k]));
                let m = choose|m: int| 0 <= m < all.len() && all[m] == out[k];
                let n = choose|n: int| 0 <= n < all.len() && all[n] == c;
                assert(m == n);
            }
        }
    } else {
        assert forall|c: Candle| #[trigger] out.contains(c) <==> want.contains(c) by {}
    }
    lemma_same_candles(out, want);
}

} // verus!
