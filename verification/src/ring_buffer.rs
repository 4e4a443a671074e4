//! A fixed-capacity ring of candles, oldest first.

use vstd::prelude::*;
use crate::Candle;

verus! {

/// Outcome of [`RingBuffer::push`]. The candle is stored either way.
#[derive(Debug, Clone, Copy, PartialEq, Eq, Structural)]
#[must_use]
pub enum PushOutcome {
    /// The timestamp is not before that of the previous candle.
    InOrder,
    /// The timestamp is before that of the previous candle, and range queries
    /// may not find the candle.
    OutOfOrder { prev_ts: i64, this_ts: i64 },
}

/// Timestamps never go backwards.
pub open spec fn ascending(s: Seq<Candle>) -> bool {
    forall|i: int, j: int| 0 <= i <= j < s.len() ==> s[i].ts <= s[j].ts
}

/// A timestamp before the threshold, or at it where that counts too.
pub open spec fn precedes(ts: i64, threshold: i64, inclusive: bool) -> bool {
    ts < threshold || (inclusive && ts == threshold)
}

/// Where bisection of the positions `lo .. hi` ends. On ascending timestamps that
/// is the first position that does not precede the threshold.
pub open spec fn bisect(s: Seq<Candle>, lo: int, hi: int, threshold: i64, inclusive: bool) -> int
    decreases hi - lo,
{
    if lo >= hi {
        lo
    } else {
        let mid = lo + (hi - lo) / 2;
        if precedes(s[mid].ts, threshold, inclusive) {
            bisect(s, mid + 1, hi, threshold, inclusive)
        } else {
            bisect(s, lo, mid, threshold, inclusive)
        }
    }
}

/// What a range query finds: the candles between the two ends of the bisections.
pub open spec fn range_of(s: Seq<Candle>, from_ts: i64, to_ts: i64) -> Seq<Candle> {
    if from_ts > to_ts {
        Seq::empty()
    } else {
        s.subrange(
            bisect(s, 0, s.len() as int, from_ts, false),
            bisect(s, 0, s.len() as int, to_ts, true),
        )
    }
}

/// The candles with `from_ts <= ts <= to_ts`.
pub open spec fn within(s: Seq<Candle>, from_ts: i64, to_ts: i64) -> Seq<Candle> {
    s.filter(|c: Candle| from_ts <= c.ts <= to_ts)
}

/// The last `n` candles, or all of them.
pub open spec fn last_of(s: Seq<Candle>, n: nat) -> Seq<Candle> {
    if n >= s.len() {
        s
    } else {
        s.skip(s.len() - n)
    }
}

/// What is in a ring of the given capacity after one more candle.
pub open spec fn pushed(s: Seq<Candle>, capacity: nat, c: Candle) -> Seq<Candle> {
    if s.len() < capacity {
        s.push(c)
    } else {
        s.drop_first().push(c)
    }
}

/// Whether a candle comes before the newest one.
pub open spec fn push_outcome(s: Seq<Candle>, c: Candle) -> PushOutcome {
    if s.len() > 0 && c.ts < s.last().ts {
        PushOutcome::OutOfOrder { prev_ts: s.last().ts, this_ts: c.ts }
    } else {
        PushOutcome::InOrder
    }
}

/// Fixed-capacity ring buffer for candles.
///
/// The oldest candle is overwritten when the ring is full. Range queries
/// assume ascending timestamps; a push that breaks the order is stored, and
/// reported by its [`PushOutcome`].
pub struct RingBuffer {
    buf: Vec<Candle>,
    head: usize,
    len: usize,
    last_ts: Option<i64>,
}

impl RingBuffer {
    /// The next write position wraps at the capacity, and until the ring is full
    /// everything before it is in use.
    pub closed spec fn wf(&self) -> bool {
        &&& self.len <= self.buf.len()
        &&& self.buf.len() > 0 ==> self.head < self.buf.len()
        &&& self.len < self.buf.len() ==> self.head == self.len
        &&& self.last_ts == if self.len == 0 {
            None::<i64>
        } else {
            Some(self.view().last().ts)
        }
    }

    /// The number of candles that fit.
    pub closed spec fn cap(&self) -> nat {
        self.buf@.len()
    }

    spec fn physical(&self, i: int) -> int {
        let start = if self.len < self.buf.len() {
            0int
        } else {
            self.head as int
        };
        if start + i >= self.buf.len() {
            start + i - self.buf.len()
        } else {
            start + i
        }
    }

    /// The candles in the ring, oldest first.
    pub closed spec fn view(&self) -> Seq<Candle> {
        Seq::new(self.len as nat, |i: int| self.buf@[self.physical(i)])
    }

    /// Create an empty ring with the given fixed capacity.
    pub fn new(capacity: usize) -> (r: RingBuffer)
        ensures
            r.wf(),
            r.cap() == capacity,
            r.view() == Seq::<Candle>::empty(),
    {
        let mut buf: Vec<Candle> = Vec::with_capacity(capacity);
        let mut i: usize = 0;
        while i < capacity
            invariant
                i <= capacity,
                buf.len() == i,
            decreases capacity - i,
        {
            buf.push(Candle::default());
            i = i + 1;
        }
        let r = RingBuffer { buf, head: 0, len: 0, last_ts: None };
        assert(r.view() =~= Seq::<Candle>::empty());
        r
    }

    /// Push a candle. Reports [`PushOutcome::OutOfOrder`] if its timestamp is
    /// before that of the previous one.
    pub fn push(&mut self, c: Candle) -> (outcome: PushOutcome)
        requires
            old(self).wf(),
            old(self).cap() > 0,
        ensures
            final(self).wf(),
            final(self).cap() == old(self).cap(),
            final(self).view() == pushed(old(self).view(), old(self).cap(), c),
            outcome == push_outcome(old(self).view(), c),
    {
        let outcome = match self.last_ts {
            Some(prev) => if c.ts < prev {
                PushOutcome::OutOfOrder { prev_ts: prev, this_ts: c.ts }
            } else {
                PushOutcome::InOrder
            },
            None => PushOutcome::InOrder,
        };
        let cap = self.buf.len();
        self.buf.set(self.head, c);
        self.head = if self.head + 1 < cap {
            self.head + 1
        } else {
            0
        };
        if self.len < cap {
            self.len = self.len + 1;
        }
        self.last_ts = Some(c.ts);
        proof {
            let before = old(self).view();
            let after = pushed(before, old(self).cap(), c);
            assert(self.view() =~= after) by {
                assert forall|i: int| 0 <= i < after.len() implies self.view()[i] == after[i] by {
                    if before.len() < old(self).cap() {
                        if i < before.len() {
                            assert(before[i] == old(self).buf@[old(self).physical(i)]);
                        }
                    } else {
                        if i < before.len() - 1 {
                            assert(before[i + 1] == old(self).buf@[old(self).physical(i + 1)]);
                        }
                    }
                }
            }
            assert(self.view().last() == c);
        }
        outcome
    }

    /// Position in the buffer of the `i`-th oldest candle.
    fn physical_idx(&self, i: usize) -> (r: usize)
        requires
            self.wf(),
            i < self.view().len(),
        ensures
            r == self.physical(i as int),
            r < self.buf.len(),
    {
        let cap = self.buf.len();
        let start = if self.len < cap {
            0
        } else {
            self.head
        };
        if i >= cap - start {
            i - (cap - start)
        } else {
            start + i
        }
    }

    /// Timestamp of the `i`-th oldest candle.
    fn ts_at(&self, i: usize) -> (r: i64)
        requires
            self.wf(),
            i < self.view().len(),
        ensures
            r == self.view()[i as int].ts,
    {
        self.buf[self.physical_idx(i)].ts
    }

    /// The first position whose timestamp is at or after the threshold.
    fn lower_bound_idx(&self, threshold: i64) -> (r: usize)
        requires
            self.wf(),
        ensures
            r == bisect(self.view(), 0, self.view().len() as int, threshold, false),
            r <= self.view().len(),
    {
        let mut lo: usize = 0;
        let mut hi: usize = self.len;
        while lo < hi
            invariant
                self.wf(),
                lo <= hi <= self.view().len(),
                bisect(self.view(), lo as int, hi as int, threshold, false) == bisect(
                    self.view(),
                    0,
                    self.view().len() as int,
                    threshold,
                    false,
                ),
            decreases hi - lo,
        {
            let mid = lo + (hi - lo) / 2;
            if self.ts_at(mid) < threshold {
                lo = mid + 1;
            } else {
                hi = mid;
            }
        }
        lo
    }

    /// The first position whose timestamp is after the threshold.
    fn upper_bound_idx(&self, threshold: i64) -> (r: usize)
        requires
            self.wf(),
        ensures
            r == bisect(self.view(), 0, self.view().len() as int, threshold, true),
            r <= self.view().len(),
    {
        let mut lo: usize = 0;
        let mut hi: usize = self.len;
        while lo < hi
            invariant
                self.wf(),
                lo <= hi <= self.view().len(),
                bisect(self.view(), lo as int, hi as int, threshold, true) == bisect(
                    self.view(),
                    0,
                    self.view().len() as int,
                    threshold,
                    true,
                ),
            decreases hi - lo,
        {
            let mid = lo + (hi - lo) / 2;
            if self.ts_at(mid) <= threshold {
                lo = mid + 1;
            } else {
                hi = mid;
            }
        }
        lo
    }

    /// Copy the positions `lo .. hi`.
    fn copy_logical_range(&self, lo: usize, hi: usize) -> (r: Vec<Candle>)
        requires
            self.wf(),
            lo <= hi <= self.view().len(),
        ensures
            r@ == self.view().subrange(lo as int, hi as int),
    {
        let mut out: Vec<Candle> = Vec::with_capacity(hi - lo);
        let mut i: usize = lo;
        while i < hi
            invariant
                self.wf(),
                lo <= i <= hi <= self.view().len(),
                out@ == self.view().subrange(lo as int, i as int),
            decreases hi - i,
        {
            out.push(self.buf[self.physical_idx(i)]);
            i = i + 1;
        }
        out
    }

    /// The entire contents, oldest first.
    pub fn to_vec(&self) -> (r: Vec<Candle>)
        requires
            self.wf(),
        ensures
            r@ == self.view(),
    {
        self.copy_logical_range(0, self.len)
    }

    /// The candles with `from_ts <= ts <= to_ts`, found by bisection. Candles
    /// that were pushed out of order may be missed.
    pub fn range(&self, from_ts: i64, to_ts: i64) -> (r: Vec<Candle>)
        requires
            self.wf(),
        ensures
            r@ == range_of(self.view(), from_ts, to_ts),
            ascending(self.view()) ==> r@ == within(self.view(), from_ts, to_ts),
    {
        proof {
            lemma_bisect_bounds(self.view(), 0, self.view().len() as int, from_ts, to_ts);
            if ascending(self.view()) {
                lemma_range_is_filter(self.view(), from_ts, to_ts);
            }
        }
        if self.len == 0 || from_ts > to_ts {
            let r: Vec<Candle> = Vec::new();
            assert(r@ =~= range_of(self.view(), from_ts, to_ts));
            return r;
        }
        let lo = self.lower_bound_idx(from_ts);
        let hi = self.upper_bound_idx(to_ts);
        self.copy_logical_range(lo, hi)
    }

    /// The last `n` candles, or all of them if there are fewer.
    pub fn last_n(&self, n: usize) -> (r: Vec<Candle>)
        requires
            self.wf(),
        ensures
            r@ == last_of(self.view(), n as nat),
    {
        let take = if n < self.len {
            n
        } else {
            self.len
        };
        self.copy_logical_range(self.len - take, self.len)
    }

    pub fn len(&self) -> (r: usize)
        requires
            self.wf(),
        ensures
            r == self.view().len(),
            r <= self.cap(),
    {
        self.len
    }

    pub fn capacity(&self) -> (r: usize)
        ensures
            r == self.cap(),
    {
        self.buf.len()
    }

    pub fn is_empty(&self) -> (r: bool)
        requires
            self.wf(),
        ensures
            r == (self.view().len() == 0),
    {
        self.len == 0
    }

    /// Oldest timestamp in the ring, if any.
    pub fn oldest_ts(&self) -> (r: Option<i64>)
        requires
            self.wf(),
        ensures
            r == if self.view().len() == 0 {
                None::<i64>
            } else {
                Some(self.view()[0].ts)
            },
    {
        if self.len == 0 {
            None
        } else {
            Some(self.ts_at(0))
        }
    }
}

/// Bisection stays within its bounds, and the end for a later threshold is not
/// before the end for an earlier one, in whatever order the timestamps are.
pub proof fn lemma_bisect_bounds(s: Seq<Candle>, lo: int, hi: int, from_ts: i64, to_ts: i64)
    requires
        0 <= lo <= hi <= s.len(),
    ensures
        lo <= bisect(s, lo, hi, from_ts, false) <= hi,
        lo <= bisect(s, lo, hi, to_ts, true) <= hi,
        from_ts <= to_ts ==> bisect(s, lo, hi, from_ts, false) <= bisect(s, lo, hi, to_ts, true),
    decreases hi - lo,
{
    if lo < hi {
        let mid = lo + (hi - lo) / 2;
        lemma_bisect_bounds(s, mid + 1, hi, from_ts, to_ts);
        lemma_bisect_bounds(s, lo, mid, from_ts, to_ts);
    }
}

/// On ascending timestamps bisection parts what precedes the threshold from
/// what does not.
pub proof fn lemma_bisect_parts(s: Seq<Candle>, lo: int, hi: int, threshold: i64, inclusive: bool)
    requires
        ascending(s),
        0 <= lo <= hi <= s.len(),
    ensures
        ({
            let end = bisect(s, lo, hi, threshold, inclusive);
            &&& lo <= end <= hi
            &&& forall|i: int| lo <= i < end ==> precedes(s[i].ts, threshold, inclusive)
            &&& forall|i: int| end <= i < hi ==> !precedes(s[i].ts, threshold, inclusive)
        }),
    decreases hi - lo,
{
    if lo < hi {
        let mid = lo + (hi - lo) / 2;
        if precedes(s[mid].ts, threshold, inclusive) {
            lemma_bisect_parts(s, mid + 1, hi, threshold, inclusive);
            assert forall|i: int| lo <= i <= mid implies precedes(
                s[i].ts,
                threshold,
                inclusive,
            ) by {
                assert(s[i].ts <= s[mid].ts);
            }
        } else {
            lemma_bisect_parts(s, lo, mid, threshold, inclusive);
            assert forall|i: int| mid <= i < hi implies !precedes(
                s[i].ts,
                threshold,
                inclusive,
            ) by {
                assert(s[mid].ts <= s[i].ts);
            }
        }
    }
}

proof fn lemma_filter_none(s: Seq<Candle>, keep: spec_fn(Candle) -> bool)
    requires
        forall|i: int| 0 <= i < s.len() ==> !keep(#[trigger] s[i]),
    ensures
        s.filter(keep) == Seq::<Candle>::empty(),
    decreases s.len(),
{
    reveal(Seq::filter);
    if s.len() > 0 {
        assert(!keep(s[s.len() - 1]));
        lemma_filter_none(s.drop_last(), keep);
    }
}

proof fn lemma_filter_all(s: Seq<Candle>, keep: spec_fn(Candle) -> bool)
    requires
        forall|i: int| 0 <= i < s.len() ==> keep(#[trigger] s[i]),
    ensures
        s.filter(keep) == s,
    decreases s.len(),
{
    reveal(Seq::filter);
    if s.len() > 0 {
        assert(keep(s[s.len() - 1]));
        lemma_filter_all(s.drop_last(), keep);
        assert(s.drop_last().push(s.last()) =~= s);
    }
}

/// On ascending timestamps a range query finds exactly the candles between its
/// bounds.
pub proof fn lemma_range_is_filter(s: Seq<Candle>, from_ts: i64, to_ts: i64)
    requires
        ascending(s),
    ensures
        range_of(s, from_ts, to_ts) == within(s, from_ts, to_ts),
{
    let keep = |c: Candle| from_ts <= c.ts <= to_ts;
    if from_ts > to_ts {
        lemma_filter_none(s, keep);
    } else {
        let lo = bisect(s, 0, s.len() as int, from_ts, false);
        let hi = bisect(s, 0, s.len() as int, to_ts, true);
        lemma_bisect_parts(s, 0, s.len() as int, from_ts, false);
        lemma_bisect_parts(s, 0, s.len() as int, to_ts, true);
        lemma_bisect_bounds(s, 0, s.len() as int, from_ts, to_ts);
        let a = s.take(lo);
        let b = s.subrange(lo, hi);
        let c = s.skip(hi);
        assert(s =~= a + b + c);
        Seq::filter_distributes_over_add(a + b, c, keep);
        Seq::filter_distributes_over_add(a, b, keep);
        lemma_filter_none(a, keep);
        lemma_filter_none(c, keep);
        lemma_filter_all(b, keep);
        assert(Seq::<Candle>::empty() + b + Seq::<Candle>::empty() =~= b);
    }
}

/// A push in order keeps the timestamps ascending, whatever is overwritten.
pub proof fn lemma_push_keeps_order(s: Seq<Candle>, capacity: nat, c: Candle)
    requires
        capacity > 0,
        ascending(s),
        push_outcome(s, c) == PushOutcome::InOrder,
    ensures
        ascending(pushed(s, capacity, c)),
{
    let after = pushed(s, capacity, c);
    let dropped: int = if s.len() < capacity { 0 } else { 1 };
    assert forall|i: int, j: int| 0 <= i <= j < after.len() implies after[i].ts <= after[j].ts by {
        if j < after.len() - 1 {
            assert(s[i + dropped].ts <= s[j + dropped].ts);
        } else if i < after.len() - 1 {
            assert(s[i + dropped].ts <= s.last().ts);
        }
    }
}

/// A ring of at least one slot holds the newest candle last, and never more
/// candles than it has slots.
pub proof fn lemma_push_bounded(s: Seq<Candle>, capacity: nat, c: Candle)
    requires
        capacity > 0,
        s.len() <= capacity,
    ensures
        pushed(s, capacity, c).len() <= capacity,
        pushed(s, capacity, c).last() == c,
        last_of(pushed(s, capacity, c), 1) == seq![c],
{
    assert(last_of(pushed(s, capacity, c), 1) =~= seq![c]);
}

/// On ascending timestamps a range query finds a run of neighbours: before it is what is
/// too early, in it what is between the bounds, and behind it what is too late.
pub proof fn lemma_range_parts_the_ring(s: Seq<Candle>, from_ts: i64, to_ts: i64) -> (start: int)
    requires
        ascending(s),
    ensures
        0 <= start,
        start + range_of(s, from_ts, to_ts).len() <= s.len(),
        forall|i: int| 0 <= i < start ==> (#[trigger] s[i]).ts < from_ts,
        forall|i: int|
            0 <= i < range_of(s, from_ts, to_ts).len() ==> {
                let c = #[trigger] range_of(s, from_ts, to_ts)[i];
                c == s[start + i] && from_ts <= c.ts <= to_ts
            },
        forall|i: int|
            start + range_of(s, from_ts, to_ts).len() <= i < s.len() ==> (
            #[trigger] s[i]).ts > to_ts,
{
    let lo = bisect(s, 0, s.len() as int, from_ts, false);
    lemma_bisect_parts(s, 0, s.len() as int, from_ts, false);
    lemma_bisect_parts(s, 0, s.len() as int, to_ts, true);
    lemma_bisect_bounds(s, 0, s.len() as int, from_ts, to_ts);
    lo
}

/// A push to a ring with room keeps everything; one to a full ring loses the oldest
/// candle and no other. The new candle comes last, and the others stay in their order.
pub proof fn lemma_push_loses_the_oldest(s: Seq<Candle>, capacity: nat, c: Candle)
    requires
        capacity > 0,
        s.len() <= capacity,
    ensures
        ({
            let after = pushed(s, capacity, c);
            let lost = if s.len() < capacity {
                0int
            } else {
                1int
            };
            &&& after.len() == s.len() - lost + 1
            &&& after[after.len() - 1] == c
            &&& forall|i: int| 0 <= i < s.len() - lost ==> #[trigger] after[i] == s[i + lost]
        }),
{
}

/// A push is reported as out of order just where its timestamp is before that of the
/// newest candle, and then with the two timestamps; so in a ring with room the
/// timestamps still ascend just where it is not reported.
pub proof fn lemma_disorder_is_reported(s: Seq<Candle>, capacity: nat, c: Candle)
    requires
        s.len() > 0,
    ensures
        c.ts < s[s.len() - 1].ts ==> push_outcome(s, c) == (PushOutcome::OutOfOrder {
            prev_ts: s[s.len() - 1].ts,
            this_ts: c.ts,
        }),
        c.ts >= s[s.len() - 1].ts ==> push_outcome(s, c) == PushOutcome::InOrder,
        ascending(s) && s.len() < capacity ==> (push_outcome(s, c) == PushOutcome::InOrder <==>
        ascending(pushed(s, capacity, c))),
{
    let n = s.len() as int;
    let after = pushed(s, capacity, c);
    if ascending(s) && s.len() < capacity {
        if c.ts >= s[n - 1].ts {
            lemma_push_keeps_order(s, capacity, c);
        } else {
            assert(after[n - 1].ts > after[n].ts);
        }
    }
}

/// The last candles are the newest, as many as asked for or as there are, in their order.
pub proof fn lemma_last_are_the_newest(s: Seq<Candle>, n: nat)
    ensures
        last_of(s, n).len() == if n < s.len() {
            n
        } else {
            s.len()
        },
        forall|i: int|
            0 <= i < last_of(s, n).len() ==> #[trigger] last_of(s, n)[i] == s[s.len() - last_of(
                s,
                n,
            ).len() + i],
{
}

/// What is between the bounds is picked candle by candle, and stays in its order: from
/// the candles of two parts it is what is picked from the one and then from the other.
pub proof fn lemma_within(a: Seq<Candle>, b: Seq<Candle>, c: Candle, from_ts: i64, to_ts: i64)
    ensures
        within(a + b, from_ts, to_ts) == within(a, from_ts, to_ts) + within(b, from_ts, to_ts),
        within(seq![c], from_ts, to_ts) == if from_ts <= c.ts && c.ts <= to_ts {
            seq![c]
        } else {
            Seq::empty()
        },
        within(Seq::empty(), from_ts, to_ts) == Seq::<Candle>::empty(),
{
    let keep = |x: Candle| from_ts <= x.ts <= to_ts;
    Seq::filter_distributes_over_add(a, b, keep);
    reveal(Seq::filter);
    let one = seq![c];
    assert(one.drop_last() =~= Seq::<Candle>::empty());
    if keep(c) {
        lemma_filter_all(one, keep);
    } else {
        lemma_filter_none(one, keep);
    }
    lemma_filter_none(Seq::empty(), keep);
}

} // verus!
