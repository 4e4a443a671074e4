//! Merging of cold and hot candles.

use vstd::prelude::*;
use crate::ring_buffer;
use crate::Candle;

verus! {

/// Two sequences interleaved by timestamp. Of two candles with one timestamp, one
/// from each side, the first sequence's is kept.
pub open spec fn interleaved(a: Seq<Candle>, b: Seq<Candle>) -> Seq<Candle>
    decreases a.len() + b.len(),
{
    if a.len() == 0 {
        b
    } else if b.len() == 0 {
        a
    } else if a[0].ts < b[0].ts {
        seq![a[0]] + interleaved(a.drop_first(), b)
    } else if a[0].ts > b[0].ts {
        seq![b[0]] + interleaved(a, b.drop_first())
    } else {
        seq![a[0]] + interleaved(a.drop_first(), b.drop_first())
    }
}

/// Of candles that follow each other with one timestamp, only the first.
pub open spec fn deduped(s: Seq<Candle>) -> Seq<Candle>
    decreases s.len(),
{
    if s.len() == 0 {
        s
    } else {
        let before = deduped(s.drop_last());
        if before.len() > 0 && before.last().ts == s.last().ts {
            before
        } else {
            before.push(s.last())
        }
    }
}

/// Two sequences merged by timestamp, with one candle for each timestamp.
pub open spec fn merged(a: Seq<Candle>, b: Seq<Candle>) -> Seq<Candle> {
    deduped(interleaved(a, b))
}

/// The timestamps go up, and none comes twice.
pub open spec fn increasing(s: Seq<Candle>) -> bool {
    forall|i: int, j: int|
        #![trigger s[i], s[j]]
        0 <= i < j < s.len() ==> s[i].ts < s[j].ts
}

/// Some candle has the timestamp.
pub open spec fn has_ts(s: Seq<Candle>, ts: i64) -> bool {
    exists|k: int| 0 <= k < s.len() && (#[trigger] s[k]).ts == ts
}

/// The candle is the first with its timestamp.
pub open spec fn first_at(s: Seq<Candle>, c: Candle) -> bool {
    exists|k: int|
        0 <= k < s.len() && #[trigger] s[k] == c && forall|j: int|
            0 <= j < k ==> (#[trigger] s[j]).ts != c.ts
}

/// The timestamps of two sequences, each once and in order. The first candle of the
/// first sequence that has the timestamp stands for it, or else the first of the
/// second.
pub open spec fn is_merge(a: Seq<Candle>, b: Seq<Candle>, out: Seq<Candle>) -> bool {
    &&& increasing(out)
    &&& forall|ts: i64| #[trigger] has_ts(out, ts) <==> has_ts(a, ts) || has_ts(b, ts)
    &&& forall|i: int|
        0 <= i < out.len() ==> first_at(a, #[trigger] out[i]) || (!has_ts(a, out[i].ts)
            && first_at(b, out[i]))
}

/// Merges two sequences by timestamp into one with each timestamp once; of candles
/// with the same timestamp the first sequence's is kept.
pub fn merge_by_ts(a: Vec<Candle>, b: Vec<Candle>) -> (out: Vec<Candle>)
    ensures
        out@ == merged(a@, b@),
        ring_buffer::ascending(a@) && ring_buffer::ascending(b@) ==> is_merge(a@, b@, out@),
{
    let all = interleave(a, b);
    let mut out: Vec<Candle> = Vec::new();
    let mut i: usize = 0;
    assert(all@.take(0) =~= Seq::<Candle>::empty());
    while i < all.len()
        invariant
            i <= all@.len(),
            out@ == deduped(all@.take(i as int)),
        decreases all@.len() - i,
    {
        let c = all[i];
        assert(all@.take(i + 1).drop_last() =~= all@.take(i as int));
        if out.len() == 0 || out[out.len() - 1].ts != c.ts {
            out.push(c);
        }
        i = i + 1;
    }
    assert(all@.take(i as int) =~= all@);
    proof {
        if ring_buffer::ascending(a@) && ring_buffer::ascending(b@) {
            lemma_merged(a@, b@);
        }
    }
    out
}

/// Interleaves two sequences by timestamp.
fn interleave(a: Vec<Candle>, b: Vec<Candle>) -> (out: Vec<Candle>)
    ensures
        out@ == interleaved(a@, b@),
{
    let mut out: Vec<Candle> = Vec::new();
    let mut ai: usize = 0;
    let mut bi: usize = 0;
    assert(a@.skip(0) =~= a@);
    assert(b@.skip(0) =~= b@);
    assert(out@ + interleaved(a@, b@) =~= interleaved(a@, b@));
    while ai < a.len() && bi < b.len()
        invariant
            ai <= a.len(),
            bi <= b.len(),
            out@ + interleaved(a@.skip(ai as int), b@.skip(bi as int)) == interleaved(a@, b@),
        decreases a.len() - ai + b.len() - bi,
    {
        let ghost before = out@;
        let ghost ra = a@.skip(ai as int);
        let ghost rb = b@.skip(bi as int);
        assert(ra.drop_first() =~= a@.skip(ai + 1));
        assert(rb.drop_first() =~= b@.skip(bi + 1));
        let x = a[ai];
        let y = b[bi];
        if x.ts < y.ts {
            out.push(x);
            ai = ai + 1;
            assert(before + (seq![x] + interleaved(ra.drop_first(), rb)) =~= out@ + interleaved(
                ra.drop_first(),
                rb,
            ));
        } else if x.ts > y.ts {
            out.push(y);
            bi = bi + 1;
            assert(before + (seq![y] + interleaved(ra, rb.drop_first())) =~= out@ + interleaved(
                ra,
                rb.drop_first(),
            ));
        } else {
            out.push(x);
            ai = ai + 1;
            bi = bi + 1;
            assert(before + (seq![x] + interleaved(ra.drop_first(), rb.drop_first())) =~= out@ + interleaved(
                ra.drop_first(),
                rb.drop_first(),
            ));
        }
    }
    let ghost rest = if ai < a.len() {
        a@.skip(ai as int)
    } else {
        b@.skip(bi as int)
    };
    assert(out@ + rest == interleaved(a@, b@)) by {
        if ai < a.len() {
            assert(b@.skip(bi as int) =~= Seq::<Candle>::empty());
        } else {
            assert(a@.skip(ai as int) =~= Seq::<Candle>::empty());
        }
    }
    while ai < a.len()
        invariant
            ai <= a.len(),
            bi <= b.len(),
            ai < a.len() ==> bi == b.len(),
            out@ + (if ai < a.len() {
                a@.skip(ai as int)
            } else {
                b@.skip(bi as int)
            }) == interleaved(a@, b@),
        decreases a.len() - ai,
    {
        let ghost before = out@;
        out.push(a[ai]);
        assert(before + a@.skip(ai as int) =~= out@ + a@.skip(ai + 1));
        ai = ai + 1;
        if ai >= a.len() {
            assert(a@.skip(ai as int) =~= Seq::<Candle>::empty());
            assert(b@.skip(bi as int) =~= Seq::<Candle>::empty());
        }
    }
    while bi < b.len()
        invariant
            bi <= b.len(),
            out@ + b@.skip(bi as int) == interleaved(a@, b@),
        decreases b.len() - bi,
    {
        let ghost before = out@;
        out.push(b[bi]);
        assert(before + b@.skip(bi as int) =~= out@ + b@.skip(bi + 1));
        bi = bi + 1;
    }
    assert(out@ + b@.skip(bi as int) =~= out@);
    out
}

/// Interleaving makes up nothing.
proof fn lemma_interleaved_members(a: Seq<Candle>, b: Seq<Candle>, c: Candle)
    ensures
        interleaved(a, b).contains(c) ==> a.contains(c) || b.contains(c),
    decreases a.len() + b.len(),
{
    if a.len() > 0 && b.len() > 0 && interleaved(a, b).contains(c) {
        let (head, ra, rb) = if a[0].ts < b[0].ts {
            (a[0], a.drop_first(), b)
        } else if a[0].ts > b[0].ts {
            (b[0], a, b.drop_first())
        } else {
            (a[0], a.drop_first(), b.drop_first())
        };
        lemma_interleaved_members(ra, rb, c);
        let rest = interleaved(ra, rb);
        let i = choose|i: int| 0 <= i < interleaved(a, b).len() && interleaved(a, b)[i] == c;
        if i == 0 {
            assert(a.contains(a[0]) && b.contains(b[0]));
        } else {
            assert(rest[i - 1] == c);
            lemma_member_of_rest(a, ra, c);
            lemma_member_of_rest(b, rb, c);
        }
    }
}

proof fn lemma_member_of_rest(s: Seq<Candle>, rest: Seq<Candle>, c: Candle)
    requires
        rest == s || (s.len() > 0 && rest == s.drop_first()),
    ensures
        rest.contains(c) ==> s.contains(c),
{
    if rest.contains(c) && rest != s {
        let i = choose|i: int| 0 <= i < rest.len() && rest[i] == c;
        assert(s[i + 1] == c);
    }
}

/// Interleaving keeps the timestamps ascending.
proof fn lemma_interleaved_ascending(a: Seq<Candle>, b: Seq<Candle>)
    requires
        ring_buffer::ascending(a),
        ring_buffer::ascending(b),
    ensures
        ring_buffer::ascending(interleaved(a, b)),
    decreases a.len() + b.len(),
{
    if a.len() > 0 && b.len() > 0 {
        let (head, ra, rb) = if a[0].ts < b[0].ts {
            (a[0], a.drop_first(), b)
        } else if a[0].ts > b[0].ts {
            (b[0], a, b.drop_first())
        } else {
            (a[0], a.drop_first(), b.drop_first())
        };
        lemma_interleaved_ascending(ra, rb);
        let rest = interleaved(ra, rb);
        assert(interleaved(a, b) == seq![head] + rest);
        assert forall|i: int| 0 <= i < rest.len() implies head.ts <= #[trigger] rest[i].ts by {
            let c = rest[i];
            lemma_interleaved_members(ra, rb, c);
            if ra.contains(c) {
                lemma_member_of_rest(a, ra, c);
                let k = choose|k: int| 0 <= k < a.len() && a[k] == c;
                assert(a[0].ts <= a[k].ts);
            } else {
                lemma_member_of_rest(b, rb, c);
                let k = choose|k: int| 0 <= k < b.len() && b[k] == c;
                assert(b[0].ts <= b[k].ts);
            }
        }
    }
}

/// The two heads of what is left to interleave: the candle that comes next, and
/// what is then left.
spec fn next_of(a: Seq<Candle>, b: Seq<Candle>) -> (Candle, Seq<Candle>, Seq<Candle>) {
    if a[0].ts < b[0].ts {
        (a[0], a.drop_first(), b)
    } else if a[0].ts > b[0].ts {
        (b[0], a, b.drop_first())
    } else {
        (a[0], a.drop_first(), b.drop_first())
    }
}

/// A timestamp of what follows is one of the whole.
proof fn lemma_ts_of_rest(s: Seq<Candle>, ts: i64)
    requires
        s.len() > 0,
    ensures
        has_ts(s, ts) <==> s[0].ts == ts || has_ts(s.drop_first(), ts),
{
    let rest = s.drop_first();
    if has_ts(s, ts) {
        let k = choose|k: int| 0 <= k < s.len() && (#[trigger] s[k]).ts == ts;
        if k > 0 {
            assert(rest[k - 1].ts == ts);
        }
    }
    if s[0].ts == ts {
        assert(has_ts(s, ts));
    }
    if has_ts(rest, ts) {
        let k = choose|k: int| 0 <= k < rest.len() && (#[trigger] rest[k]).ts == ts;
        assert(s[k + 1].ts == ts);
    }
}

/// What comes first in the rest of a sequence, with another timestamp than the head,
/// comes first in the whole, and the other way round.
proof fn lemma_first_of_rest(s: Seq<Candle>, c: Candle)
    requires
        s.len() > 0,
        s[0].ts != c.ts,
    ensures
        first_at(s, c) <==> first_at(s.drop_first(), c),
{
    let rest = s.drop_first();
    if first_at(rest, c) {
        let k = choose|k: int|
            0 <= k < rest.len() && #[trigger] rest[k] == c && forall|j: int|
                0 <= j < k ==> (#[trigger] rest[j]).ts != c.ts;
        assert(s[k + 1] == c);
        assert forall|j: int| 0 <= j < k + 1 implies (#[trigger] s[j]).ts != c.ts by {
            if j > 0 {
                assert(s[j] == rest[j - 1]);
            }
        }
    }
    if first_at(s, c) {
        let k = choose|k: int|
            0 <= k < s.len() && #[trigger] s[k] == c && forall|j: int|
                0 <= j < k ==> (#[trigger] s[j]).ts != c.ts;
        assert(rest[k - 1] == c);
        assert forall|j: int| 0 <= j < k - 1 implies (#[trigger] rest[j]).ts != c.ts by {
            assert(rest[j] == s[j + 1]);
        }
    }
}

/// Interleaving keeps the timestamps of both sequences.
proof fn lemma_interleaved_ts(a: Seq<Candle>, b: Seq<Candle>, ts: i64)
    ensures
        has_ts(interleaved(a, b), ts) <==> has_ts(a, ts) || has_ts(b, ts),
    decreases a.len() + b.len(),
{
    if a.len() > 0 && b.len() > 0 {
        let (head, ra, rb) = next_of(a, b);
        lemma_interleaved_ts(ra, rb, ts);
        lemma_ts_of_rest(a, ts);
        lemma_ts_of_rest(b, ts);
        let all = interleaved(a, b);
        assert(all =~= seq![head] + interleaved(ra, rb));
        assert(all.drop_first() =~= interleaved(ra, rb));
        lemma_ts_of_rest(all, ts);
    }
}

/// The first candle with a timestamp among the interleaved ones is the first
/// sequence's first, or else the second's.
proof fn lemma_interleaved_first(a: Seq<Candle>, b: Seq<Candle>, c: Candle)
    requires
        ring_buffer::ascending(a),
        first_at(interleaved(a, b), c),
    ensures
        first_at(a, c) || (!has_ts(a, c.ts) && first_at(b, c)),
    decreases a.len() + b.len(),
{
    if a.len() > 0 && b.len() > 0 {
        let (head, ra, rb) = next_of(a, b);
        let all = interleaved(a, b);
        assert(all =~= seq![head] + interleaved(ra, rb));
        assert(all.drop_first() =~= interleaved(ra, rb));
        if c.ts == head.ts {
            assert(all[0].ts == c.ts);
            assert(c == head);
            if a[0].ts <= b[0].ts {
                assert(a[0] == c);
            } else {
                assert(b[0] == c);
            }
        } else {
            lemma_first_of_rest(all, c);
            lemma_interleaved_first(ra, rb, c);
            lemma_ts_of_rest(a, c.ts);
            if a[0].ts <= b[0].ts {
                lemma_first_of_rest(a, c);
            }
            if b[0].ts <= a[0].ts {
                lemma_first_of_rest(b, c);
            }
        }
    }
}

/// A timestamp of a sequence and one candle more.
proof fn lemma_ts_of_push(s: Seq<Candle>, c: Candle, ts: i64)
    ensures
        has_ts(s.push(c), ts) <==> has_ts(s, ts) || c.ts == ts,
{
    let all = s.push(c);
    if has_ts(s, ts) {
        let k = choose|k: int| 0 <= k < s.len() && (#[trigger] s[k]).ts == ts;
        assert(all[k].ts == ts);
    }
    if c.ts == ts {
        assert(all[s.len() as int].ts == ts);
    }
    if has_ts(all, ts) {
        let k = choose|k: int| 0 <= k < all.len() && (#[trigger] all[k]).ts == ts;
        if k < s.len() {
            assert(s[k].ts == ts);
        }
    }
}

/// Leaving out what has the timestamp of its neighbour loses no timestamp.
proof fn lemma_deduped_ts(s: Seq<Candle>, ts: i64)
    ensures
        has_ts(deduped(s), ts) <==> has_ts(s, ts),
    decreases s.len(),
{
    if s.len() > 0 {
        let front = s.drop_last();
        let before = deduped(front);
        lemma_deduped_ts(front, ts);
        assert(s =~= front.push(s.last()));
        lemma_ts_of_push(front, s.last(), ts);
        lemma_ts_of_push(before, s.last(), ts);
        if before.len() > 0 && before.last().ts == s.last().ts && s.last().ts == ts {
            assert(before[before.len() - 1].ts == ts);
        }
    }
}

/// What is left of ascending candles is the first of each timestamp, in order.
proof fn lemma_deduped(s: Seq<Candle>)
    requires
        ring_buffer::ascending(s),
    ensures
        increasing(deduped(s)),
        forall|i: int| 0 <= i < deduped(s).len() ==> first_at(s, #[trigger] deduped(s)[i]),
    decreases s.len(),
{
    if s.len() > 0 {
        let front = s.drop_last();
        let before = deduped(front);
        let out = deduped(s);
        let last = s.last();
        lemma_deduped(front);
        assert forall|i: int| 0 <= i < before.len() implies first_at(s, #[trigger] before[i])
            && before[i].ts <= last.ts by {
            let c = before[i];
            let k = choose|k: int|
                0 <= k < front.len() && #[trigger] front[k] == c && forall|j: int|
                    0 <= j < k ==> (#[trigger] front[j]).ts != c.ts;
            assert(s[k] == c);
            assert forall|j: int| 0 <= j < k implies (#[trigger] s[j]).ts != c.ts by {
                assert(front[j] == s[j]);
            }
            assert(s[k].ts <= s[s.len() - 1].ts);
        }
        if !(before.len() > 0 && before.last().ts == last.ts) {
            assert forall|i: int| 0 <= i < before.len() implies (#[trigger] before[i]).ts
                < last.ts by {
                assert(before[i].ts <= before[before.len() - 1].ts);
            }
            assert(!has_ts(before, last.ts));
            lemma_deduped_ts(front, last.ts);
            assert(s[s.len() - 1] == last);
            assert forall|j: int| 0 <= j < s.len() - 1 implies (#[trigger] s[j]).ts
                != last.ts by {
                assert(front[j] == s[j]);
            }
            assert(first_at(s, last));
        }
    }
}

/// Merging two ascending sequences gives one with each of their timestamps once, in
/// order, and the first sequence's candle where both have it.
pub proof fn lemma_merged(a: Seq<Candle>, b: Seq<Candle>)
    requires
        ring_buffer::ascending(a),
        ring_buffer::ascending(b),
    ensures
        is_merge(a, b, merged(a, b)),
{
    let all = interleaved(a, b);
    let out = merged(a, b);
    lemma_interleaved_ascending(a, b);
    lemma_deduped(all);
    assert forall|ts: i64| #[trigger] has_ts(out, ts) <==> has_ts(a, ts) || has_ts(b, ts) by {
        lemma_deduped_ts(all, ts);
        lemma_interleaved_ts(a, b, ts);
    }
    assert forall|i: int| 0 <= i < out.len() implies first_at(a, #[trigger] out[i]) || (!has_ts(
        a,
        out[i].ts,
    ) && first_at(b, out[i])) by {
        lemma_interleaved_first(a, b, out[i]);
    }
}

/// A merge has all timestamps of both sequences and no others, in order or not.
pub proof fn lemma_merged_ts(a: Seq<Candle>, b: Seq<Candle>, ts: i64)
    ensures
        has_ts(merged(a, b), ts) <==> has_ts(a, ts) || has_ts(b, ts),
{
    lemma_deduped_ts(interleaved(a, b), ts);
    lemma_interleaved_ts(a, b, ts);
}

/// A merge makes up nothing.
pub proof fn lemma_merged_members(a: Seq<Candle>, b: Seq<Candle>, c: Candle)
    requires
        merged(a, b).contains(c),
    ensures
        a.contains(c) || b.contains(c),
{
    lemma_deduped_members(interleaved(a, b), c);
    lemma_interleaved_members(a, b, c);
}

proof fn lemma_deduped_members(s: Seq<Candle>, c: Candle)
    requires
        deduped(s).contains(c),
    ensures
        s.contains(c),
    decreases s.len(),
{
    if s.len() > 0 {
        let front = s.drop_last();
        let out = deduped(s);
        let i = choose|i: int| 0 <= i < out.len() && out[i] == c;
        if i < deduped(front).len() {
            assert(deduped(front)[i] == c);
            lemma_deduped_members(front, c);
            let k = choose|k: int| 0 <= k < front.len() && front[k] == c;
            assert(s[k] == c);
        } else {
            assert(s[s.len() - 1] == c);
        }
    }
}

} // verus!
