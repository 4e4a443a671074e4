//! The ids of paper orders: none is given twice, and an order that was dropped is
//! never heard of again.

use vstd::prelude::*;
use super::event::TradeEvent;
use super::order::Order;
use super::paper;
use super::paper::PaperView;
use super::price;
use crate::Candle;

verus! {

/// A call of an engine.
pub enum Call {
    /// An order is submitted.
    Submit(Order),
    /// A candle is closed.
    Close { symbol: Seq<char>, candle: Candle },
}

/// The engine after a call.
pub open spec fn after(v: PaperView, call: Call) -> PaperView {
    match call {
        Call::Submit(order) => PaperView {
            pending: if price::validity(order) is Ok {
                v.pending.push(Order { id: v.next_id, ..order })
            } else {
                v.pending
            },
            next_id: v.next_id.wrapping_add(1),
            ..v
        },
        Call::Close { symbol, candle } => PaperView {
            portfolio: paper::with_fills(
                v.portfolio,
                paper::all_events(v.pending, symbol, candle),
            ),
            pending: paper::still_pending(v.pending, symbol, candle),
            next_id: v.next_id,
        },
    }
}

/// The engine after some calls, one after the other.
pub open spec fn run(v: PaperView, calls: Seq<Call>) -> PaperView
    decreases calls.len(),
{
    if calls.len() == 0 {
        v
    } else {
        after(run(v, calls.drop_last()), calls.last())
    }
}

/// Some pending order has the id.
pub open spec fn is_pending(orders: Seq<Order>, id: u64) -> bool {
    exists|i: int| 0 <= i < orders.len() && (#[trigger] orders[i]).id == id
}

/// The id was given, and no pending order has it.
pub open spec fn is_spent(v: PaperView, id: u64) -> bool {
    id < v.next_id && !is_pending(v.pending, id)
}

/// The order that an event is about.
pub open spec fn subject(event: TradeEvent) -> u64 {
    match event {
        TradeEvent::Fill(fill) => fill.order_id,
        TradeEvent::Cancel { order_id, .. } => order_id,
    }
}

/// Orders keep their ids, and none is added to those that wait.
proof fn lemma_pending_keep_ids(orders: Seq<Order>, symbol: Seq<char>, candle: Candle, id: u64)
    requires
        is_pending(paper::still_pending(orders, symbol, candle), id),
    ensures
        is_pending(orders, id),
    decreases orders.len(),
{
    if orders.len() > 0 {
        let front = orders.drop_last();
        let kept = paper::still_pending(orders, symbol, candle);
        let before = paper::still_pending(front, symbol, candle);
        let i = choose|i: int| 0 <= i < kept.len() && (#[trigger] kept[i]).id == id;
        if i < before.len() {
            assert(before[i].id == id);
            lemma_pending_keep_ids(front, symbol, candle, id);
            let k = choose|k: int| 0 <= k < front.len() && (#[trigger] front[k]).id == id;
            assert(orders[k].id == id);
        } else {
            assert(orders[orders.len() - 1].id == id);
        }
    }
}

/// Events are about orders that were pending.
proof fn lemma_events_are_of_pending(
    orders: Seq<Order>,
    symbol: Seq<char>,
    candle: Candle,
    event: TradeEvent,
)
    requires
        paper::all_events(orders, symbol, candle).contains(event),
    ensures
        is_pending(orders, subject(event)),
    decreases orders.len(),
{
    let all = paper::all_events(orders, symbol, candle);
    let i = choose|i: int| 0 <= i < all.len() && all[i] == event;
    if orders.len() > 0 {
        let front = orders.drop_last();
        let before = paper::all_events(front, symbol, candle);
        if i < before.len() {
            assert(before[i] == event);
            lemma_events_are_of_pending(front, symbol, candle, event);
            let k = choose|k: int| 0 <= k < front.len() && (#[trigger] front[k]).id == subject(
                event,
            );
            assert(orders[k].id == subject(event));
        } else {
            let own = paper::stepped(orders.last(), symbol, candle).events;
            assert(own[i - before.len()] == event);
            assert(orders[orders.len() - 1].id == subject(event));
        }
    }
}

/// An id that is spent stays so, whatever the engine is called for, until the ids
/// are used up.
pub proof fn lemma_spent_id_stays_spent(v: PaperView, call: Call, id: u64)
    requires
        is_spent(v, id),
        v.next_id < u64::MAX,
    ensures
        is_spent(after(v, call), id),
{
    let w = after(v, call);
    if is_pending(w.pending, id) {
        match call {
            Call::Submit(order) => {
                let i = choose|i: int|
                    0 <= i < w.pending.len() && (#[trigger] w.pending[i]).id == id;
                if i < v.pending.len() {
                    assert(v.pending[i].id == id);
                }
            },
            Call::Close { symbol, candle } => {
                lemma_pending_keep_ids(v.pending, symbol, candle, id);
            },
        }
    }
}

/// No candle brings an event of an id that is spent.
pub proof fn lemma_spent_id_has_no_events(
    v: PaperView,
    id: u64,
    symbol: Seq<char>,
    candle: Candle,
    event: TradeEvent,
)
    requires
        is_spent(v, id),
        paper::all_events(v.pending, symbol, candle).contains(event),
    ensures
        subject(event) != id,
{
    lemma_events_are_of_pending(v.pending, symbol, candle, event);
}

/// The next id only goes up.
proof fn lemma_next_id_goes_up(v: PaperView, calls: Seq<Call>)
    requires
        v.next_id + calls.len() <= u64::MAX,
    ensures
        v.next_id <= run(v, calls).next_id <= v.next_id + calls.len(),
    decreases calls.len(),
{
    if calls.len() > 0 {
        lemma_next_id_goes_up(v, calls.drop_last());
    }
}

/// A call after some others.
proof fn lemma_run_splits(v: PaperView, calls: Seq<Call>, k: int)
    requires
        0 <= k <= calls.len(),
    ensures
        run(v, calls) == run(run(v, calls.take(k)), calls.skip(k)),
    decreases calls.len(),
{
    if k == calls.len() {
        assert(calls.take(k) =~= calls);
        assert(calls.skip(k) =~= Seq::<Call>::empty());
    } else {
        let front = calls.drop_last();
        lemma_run_splits(v, front, k);
        assert(front.take(k) =~= calls.take(k));
        assert(calls.skip(k).drop_last() =~= front.skip(k));
        assert(calls.skip(k).last() == calls.last());
    }
}

/// No two orders that are submitted get the same id, be they valid or not: the later
/// one's is higher.
pub proof fn lemma_ids_never_repeat(v: PaperView, calls: Seq<Call>, i: int, j: int)
    requires
        v.next_id + calls.len() <= u64::MAX,
        0 <= i < j < calls.len(),
        calls[i] is Submit,
        calls[j] is Submit,
    ensures
        run(v, calls.take(i)).next_id < run(v, calls.take(j)).next_id,
{
    let at = run(v, calls.take(i));
    let later = calls.take(j);
    lemma_next_id_goes_up(v, calls.take(i));
    lemma_run_splits(v, later, i + 1);
    assert(later.take(i + 1).drop_last() =~= calls.take(i));
    assert(later.take(i + 1).last() == calls[i]);
    assert(run(v, later.take(i + 1)) == after(at, calls[i]));
    lemma_next_id_goes_up(after(at, calls[i]), later.skip(i + 1));
}

/// An order that is not valid is dropped for good: whatever the engine is called for
/// afterwards, no candle brings an event of the id that was given for it.
pub proof fn lemma_dropped_order_has_no_events(
    v: PaperView,
    order: Order,
    calls: Seq<Call>,
    symbol: Seq<char>,
    candle: Candle,
    event: TradeEvent,
)
    requires
        price::validity(order) is Err,
        ids_were_given(v),
        v.next_id + calls.len() < u64::MAX,
        paper::all_events(
            run(after(v, Call::Submit(order)), calls).pending,
            symbol,
            candle,
        ).contains(event),
    ensures
        subject(event) != v.next_id,
{
    let w = after(v, Call::Submit(order));
    lemma_run_keeps_spent(w, calls, v.next_id);
    lemma_spent_id_has_no_events(run(w, calls), v.next_id, symbol, candle, event);
}

proof fn lemma_run_keeps_spent(v: PaperView, calls: Seq<Call>, id: u64)
    requires
        is_spent(v, id),
        v.next_id + calls.len() <= u64::MAX,
    ensures
        is_spent(run(v, calls), id),
    decreases calls.len(),
{
    if calls.len() > 0 {
        let front = calls.drop_last();
        lemma_run_keeps_spent(v, front, id);
        lemma_next_id_goes_up(v, front);
        lemma_spent_id_stays_spent(run(v, front), calls.last(), id);
    }
}

/// Every pending order has an id that was given already, so that the next id is free.
pub open spec fn ids_were_given(v: PaperView) -> bool {
    forall|i: int| 0 <= i < v.pending.len() ==> (#[trigger] v.pending[i]).id < v.next_id
}

/// The next id stays free, whatever the engine is called for.
pub proof fn lemma_next_id_is_free(v: PaperView, call: Call)
    requires
        ids_were_given(v),
        v.next_id < u64::MAX,
    ensures
        !is_pending(v.pending, v.next_id),
        ids_were_given(after(v, call)),
{
    let w = after(v, call);
    assert forall|i: int| 0 <= i < w.pending.len() implies (#[trigger] w.pending[i]).id
        < w.next_id by {
        match call {
            Call::Submit(order) => {
                if i < v.pending.len() {
                    assert(v.pending[i].id < v.next_id);
                }
            },
            Call::Close { symbol, candle } => {
                let id = w.pending[i].id;
                assert(is_pending(w.pending, id));
                lemma_pending_keep_ids(v.pending, symbol, candle, id);
            },
        }
    }
}

} // verus!
