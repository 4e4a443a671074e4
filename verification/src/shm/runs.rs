//! What an ingester and a waiting producer do over time.

use vstd::prelude::*;
use super::segment::{step_after, PushStep};
use crate::store::history::Append;
use crate::store::StoreView;
use crate::Candle;

verus! {

/// An ingester: whether it runs, how many candles it has moved and where it is pinned;
/// with what waits in its ring, and its store.
pub struct IngestView {
    pub running: bool,
    pub moved: u64,
    pub core: Option<usize>,
    pub waiting: Seq<Candle>,
    pub store: StoreView,
}

/// What happens while an ingester is there.
pub enum IngestEvent {
    /// The producer has written a candle.
    Written(Candle),
    /// The ingester has its turn: what a full store evicts, and whether that could be
    /// spilled.
    Turn { victim: Seq<char>, spilled: bool },
    /// The ingester is stopped.
    Stop,
}

impl IngestView {
    /// What a turn moves, if anything.
    pub open spec fn moves(self, symbol: Seq<char>, e: IngestEvent) -> Option<Append> {
        match e {
            IngestEvent::Turn { victim, spilled } => if self.running && self.waiting.len() > 0 {
                Some(Append { symbol, candle: self.waiting[0], victim, spilled })
            } else {
                None
            },
            _ => None,
        }
    }

    /// What there is after an event.
    pub open spec fn after(self, symbol: Seq<char>, e: IngestEvent) -> IngestView {
        match e {
            IngestEvent::Written(candle) => IngestView {
                waiting: self.waiting.push(candle),
                ..self
            },
            IngestEvent::Turn { .. } => match self.moves(symbol, e) {
                Some(a) => IngestView {
                    moved: self.moved.wrapping_add(1),
                    waiting: self.waiting.drop_first(),
                    store: self.store.taken_in(a.victim, a.symbol, a.candle, a.spilled),
                    ..self
                },
                None => self,
            },
            IngestEvent::Stop => IngestView { running: false, ..self },
        }
    }

    /// What there is after some events, one after the other.
    pub open spec fn run(self, symbol: Seq<char>, events: Seq<IngestEvent>) -> IngestView
        decreases events.len(),
    {
        if events.len() == 0 {
            self
        } else {
            self.run(symbol, events.drop_last()).after(symbol, events.last())
        }
    }

    /// What some events move, in turn.
    pub open spec fn moved_by(self, symbol: Seq<char>, events: Seq<IngestEvent>) -> Seq<Append>
        decreases events.len(),
    {
        if events.len() == 0 {
            Seq::empty()
        } else {
            let before = self.moved_by(symbol, events.drop_last());
            match self.run(symbol, events.drop_last()).moves(symbol, events.last()) {
                Some(a) => before.push(a),
                None => before,
            }
        }
    }
}

/// What the producer writes in some events, in turn.
pub open spec fn written(events: Seq<IngestEvent>) -> Seq<Candle>
    decreases events.len(),
{
    if events.len() == 0 {
        Seq::empty()
    } else {
        let before = written(events.drop_last());
        match events.last() {
            IngestEvent::Written(candle) => before.push(candle),
            _ => before,
        }
    }
}

/// The store after some candles were handed to it, one after the other.
pub open spec fn all_taken_in(store: StoreView, appends: Seq<Append>) -> StoreView
    decreases appends.len(),
{
    if appends.len() == 0 {
        store
    } else {
        let a = appends.last();
        all_taken_in(store, appends.drop_last()).taken_in(
            a.victim,
            a.symbol,
            a.candle,
            a.spilled,
        )
    }
}

/// The candles of some appends.
pub open spec fn candles_of(appends: Seq<Append>) -> Seq<Candle> {
    appends.map_values(|a: Append| a.candle)
}

/// Whatever order the producer's writes, the ingester's turns and a stop come in, each
/// candle that leaves the ring is handed to the store once, under the ingester's symbol
/// and in the order of the ring; the others still wait in the ring, behind each other;
/// and the counter counts those that left. The ingester stays where it is pinned.
pub proof fn lemma_each_candle_is_moved_once(
    s: IngestView,
    symbol: Seq<char>,
    events: Seq<IngestEvent>,
)
    ensures
        ({
            let moved = s.moved_by(symbol, events);
            let out = s.run(symbol, events);
            &&& candles_of(moved) + out.waiting == s.waiting + written(events)
            &&& forall|i: int| 0 <= i < moved.len() ==> (#[trigger] moved[i]).symbol == symbol
            &&& out.store == all_taken_in(s.store, moved)
            &&& s.moved + events.len() <= u64::MAX ==> out.moved == s.moved + moved.len()
            &&& moved.len() <= events.len()
            &&& out.core == s.core
        }),
    decreases events.len(),
{
    let moved = s.moved_by(symbol, events);
    let out = s.run(symbol, events);
    if events.len() == 0 {
        assert(candles_of(moved) + out.waiting =~= s.waiting + written(events));
    } else {
        let front = events.drop_last();
        let e = events.last();
        let before = s.run(symbol, front);
        let moved_before = s.moved_by(symbol, front);
        lemma_each_candle_is_moved_once(s, symbol, front);
        match before.moves(symbol, e) {
            Some(a) => {
                assert(moved.drop_last() =~= moved_before);
                assert(moved.last() == a);
                assert(candles_of(moved) =~= candles_of(moved_before).push(a.candle));
                assert(candles_of(moved) + out.waiting =~= candles_of(moved_before)
                    + before.waiting);
            },
            None => {
                if let IngestEvent::Written(candle) = e {
                    assert(candles_of(moved) + out.waiting =~= (candles_of(moved_before)
                        + before.waiting).push(candle));
                    assert(s.waiting + written(events) =~= (s.waiting + written(front)).push(
                        candle,
                    ));
                }
            },
        }
    }
}

/// Once it is stopped, an ingester moves nothing: what it has not moved by then stays in
/// the ring.
pub proof fn lemma_nothing_moves_after_a_stop(
    s: IngestView,
    symbol: Seq<char>,
    before: Seq<IngestEvent>,
    after: Seq<IngestEvent>,
)
    ensures
        ({
            let events = before.push(IngestEvent::Stop) + after;
            let then = s.run(symbol, before);
            let out = s.run(symbol, events);
            &&& s.moved_by(symbol, events) == s.moved_by(symbol, before)
            &&& !out.running
            &&& out.moved == then.moved
            &&& out.store == then.store
            &&& out.waiting == then.waiting + written(after)
        }),
    decreases after.len(),
{
    let events = before.push(IngestEvent::Stop) + after;
    if after.len() == 0 {
        assert(events =~= before.push(IngestEvent::Stop));
        assert(events.drop_last() =~= before);
        let then = s.run(symbol, before);
        assert(then.waiting + written(after) =~= then.waiting);
    } else {
        let front = after.drop_last();
        lemma_nothing_moves_after_a_stop(s, symbol, before, front);
        assert(events.drop_last() =~= before.push(IngestEvent::Stop) + front);
        assert(events.last() == after.last());
        let then = s.run(symbol, before);
        if let IngestEvent::Written(candle) = after.last() {
            assert((then.waiting + written(front)).push(candle) =~= then.waiting + written(
                after,
            ));
        }
    }
}

/// An attempt to write: what is in the ring at that time, and whether the wait has been
/// called off by then.
pub struct Attempt {
    pub ring: Seq<Candle>,
    pub cancelled: bool,
}

/// A producer with a candle to write: what to do next, whether it has found the ring
/// full, how often it has counted a full ring, and what its last attempt left in the
/// ring.
pub struct WaitView {
    pub step: PushStep,
    pub waiting: bool,
    pub stalls: u64,
    pub ring: Seq<Candle>,
}

impl WaitView {
    /// What there is before the first attempt.
    pub open spec fn new(stalls: u64, ring: Seq<Candle>) -> WaitView {
        WaitView { step: PushStep::Again, waiting: false, stalls, ring }
    }

    /// What there is after an attempt, which is made only while there is to be one.
    pub open spec fn after(self, capacity: nat, candle: Candle, a: Attempt) -> WaitView {
        let pushed = a.ring.len() < capacity;
        if self.step is Again {
            WaitView {
                step: step_after(self.waiting, pushed, a.cancelled),
                waiting: self.waiting || !pushed,
                stalls: if !pushed && !self.waiting {
                    self.stalls.wrapping_add(1)
                } else {
                    self.stalls
                },
                ring: if pushed {
                    a.ring.push(candle)
                } else {
                    a.ring
                },
            }
        } else {
            self
        }
    }

    /// What there is after some attempts, one after the other.
    pub open spec fn run(self, capacity: nat, candle: Candle, attempts: Seq<Attempt>) -> WaitView
        decreases attempts.len(),
    {
        if attempts.len() == 0 {
            self
        } else {
            self.run(capacity, candle, attempts.drop_last()).after(
                capacity,
                candle,
                attempts.last(),
            )
        }
    }
}

/// The attempt ends the wait: there is room, or it is not the first and the wait has
/// been called off.
pub open spec fn ends(capacity: nat, attempts: Seq<Attempt>, k: int) -> bool {
    attempts[k].ring.len() < capacity || (k > 0 && attempts[k].cancelled)
}

/// The attempt is the first that ends the wait.
pub open spec fn ends_first(capacity: nat, attempts: Seq<Attempt>, k: int) -> bool {
    &&& 0 <= k < attempts.len()
    &&& ends(capacity, attempts, k)
    &&& forall|j: int| 0 <= j < k ==> !#[trigger] ends(capacity, attempts, j)
}

/// However the ring empties and fills while a producer waits, and whenever the wait is
/// called off: the candle is written by the first attempt that finds room, once and as
/// the newest of the ring, unless an attempt before it failed with the wait called off,
/// and then it is not written at all. A first attempt never gives up. The wait is
/// counted once, if the first attempt failed.
pub proof fn lemma_waiting_to_write(
    stalls: u64,
    ring: Seq<Candle>,
    capacity: nat,
    candle: Candle,
    attempts: Seq<Attempt>,
)
    ensures
        ({
            let out = WaitView::new(stalls, ring).run(capacity, candle, attempts);
            &&& out.step is Again <==> forall|k: int|
                0 <= k < attempts.len() ==> !#[trigger] ends(capacity, attempts, k)
            &&& forall|k: int| #[trigger]
                ends_first(capacity, attempts, k) ==> if attempts[k].ring.len() < capacity {
                    out.step is Pushed && out.ring == attempts[k].ring.push(candle)
                } else {
                    out.step is GivenUp && out.ring == attempts[k].ring
                }
            &&& out.step is Again && attempts.len() > 0 ==> out.ring == attempts.last().ring
            &&& out.stalls == if attempts.len() > 0 && attempts[0].ring.len() >= capacity {
                stalls.wrapping_add(1)
            } else {
                stalls
            }
            &&& out.waiting == (attempts.len() > 0 && attempts[0].ring.len() >= capacity)
        }),
    decreases attempts.len(),
{
    let start = WaitView::new(stalls, ring);
    let out = start.run(capacity, candle, attempts);
    if attempts.len() > 0 {
        let front = attempts.drop_last();
        let n = attempts.len() - 1;
        let before = start.run(capacity, candle, front);
        lemma_waiting_to_write(stalls, ring, capacity, candle, front);
        assert forall|j: int| 0 <= j < n implies #[trigger] ends(capacity, attempts, j) == ends(
            capacity,
            front,
            j,
        ) by {
            assert(attempts[j] == front[j]);
        }
        if before.step is Again {
            assert forall|j: int| 0 <= j < n implies !#[trigger] ends(capacity, attempts, j) by {
                assert(!ends(capacity, front, j));
            }
            assert(out.step is Again <==> !ends(capacity, attempts, n));
            assert forall|k: int| #[trigger] ends_first(capacity, attempts, k) implies k == n by {
                if k < n {
                    assert(!ends(capacity, attempts, k));
                }
            }
        } else {
            let e = choose|e: int| 0 <= e < front.len() && #[trigger] ends(capacity, front, e);
            assert(ends(capacity, attempts, e));
            assert forall|k: int| #[trigger] ends_first(capacity, attempts, k) implies ends_first(
                capacity,
                front,
                k,
            ) by {
                if k == n {
                    assert(!ends(capacity, attempts, e));
                }
                assert forall|j: int| 0 <= j < k implies !#[trigger] ends(
                    capacity,
                    front,
                    j,
                ) by {
                    assert(!ends(capacity, attempts, j));
                }
                assert(ends(capacity, attempts, k) == ends(capacity, front, k));
            }
        }
    }
}

} // verus!
