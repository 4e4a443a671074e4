//! The hand-over of items between a producer and a consumer that run at the same
//! time.
//!
//! Each side sees the other's cursor as it was at some time before, never older
//! than what it saw last. Whatever it sees, the producer writes no slot that holds
//! an item that is still to be read, and the consumer reads the items in the order
//! in which they were sent, each once.

use vstd::prelude::*;
use super::cursor;

verus! {

/// The state of a ring between two threads or processes. Items are counted
/// without wrapping.
pub struct Exchange<T> {
    /// Everything that was sent so far; its length is the producer's cursor.
    pub sent: Seq<T>,
    /// The consumer's cursor: how many items were received.
    pub tail: int,
    /// The consumer's cursor as the producer last saw it.
    pub seen_tail: int,
    /// The producer's cursor as the consumer last saw it.
    pub seen_head: int,
    /// The slots.
    pub slots: Seq<T>,
}

impl<T> Exchange<T> {
    pub open spec fn head(self) -> int {
        self.sent.len() as int
    }

    /// What both sides rely on: what they saw of each other lies behind, the
    /// producer is never more than the capacity ahead, and what is still to be
    /// read is in its slots.
    pub open spec fn inv(self, capacity: usize) -> bool {
        &&& capacity > 0
        &&& self.slots.len() == capacity
        &&& 0 <= self.seen_tail <= self.tail <= self.seen_head <= self.head()
        &&& self.head() <= self.seen_tail + capacity
        &&& forall|n: int|
            self.tail <= n < self.head() ==> #[trigger] self.sent[n] == self.slots[cursor::place(
                n,
                capacity,
            )]
    }

    /// An empty ring.
    pub open spec fn start(slots: Seq<T>) -> Exchange<T> {
        Exchange { sent: Seq::empty(), tail: 0, seen_tail: 0, seen_head: 0, slots }
    }

    /// The producer looks at the consumer's cursor.
    pub open spec fn producer_looks(self, tail: int) -> Exchange<T> {
        Exchange { seen_tail: tail, ..self }
    }

    /// The consumer looks at the producer's cursor.
    pub open spec fn consumer_looks(self, head: int) -> Exchange<T> {
        Exchange { seen_head: head, ..self }
    }

    /// The producer has room, as far as it can see.
    pub open spec fn can_send(self, capacity: usize) -> bool {
        self.head() - self.seen_tail < capacity
    }

    /// The producer writes a slot and moves its cursor.
    pub open spec fn send(self, item: T, capacity: usize) -> Exchange<T> {
        Exchange {
            sent: self.sent.push(item),
            slots: self.slots.update(cursor::place(self.head(), capacity), item),
            ..self
        }
    }

    /// The consumer has an item, as far as it can see.
    pub open spec fn can_receive(self) -> bool {
        self.tail != self.seen_head
    }

    /// What the consumer reads.
    pub open spec fn received(self, capacity: usize) -> T {
        self.slots[cursor::place(self.tail, capacity)]
    }

    /// The consumer moves its cursor.
    pub open spec fn receive(self) -> Exchange<T> {
        Exchange { tail: self.tail + 1, ..self }
    }
}

/// A ring that starts empty is in order.
pub proof fn lemma_start<T>(slots: Seq<T>, capacity: usize)
    requires
        capacity > 0,
        slots.len() == capacity,
    ensures
        Exchange::start(slots).inv(capacity),
{
}

/// Looking at the other side's cursor, as it is or as it was since the last look,
/// keeps the ring in order.
pub proof fn lemma_looks_are_safe<T>(x: Exchange<T>, capacity: usize, tail: int, head: int)
    requires
        x.inv(capacity),
        x.seen_tail <= tail <= x.tail,
        x.seen_head <= head <= x.head(),
    ensures
        x.producer_looks(tail).inv(capacity),
        x.consumer_looks(head).inv(capacity),
{
}

/// A producer that sees room writes a slot that holds nothing still to be read,
/// and keeps the ring in order.
pub proof fn lemma_send_is_safe<T>(x: Exchange<T>, capacity: usize, item: T)
    requires
        x.inv(capacity),
        x.can_send(capacity),
    ensures
        x.send(item, capacity).inv(capacity),
        forall|n: int|
            x.tail <= n < x.head() ==> #[trigger] cursor::place(n, capacity) != cursor::place(
                x.head(),
                capacity,
            ),
        x.send(item, capacity).sent == x.sent.push(item),
{
    let after = x.send(item, capacity);
    assert forall|n: int| x.tail <= n < x.head() implies #[trigger] cursor::place(n, capacity)
        != cursor::place(x.head(), capacity) by {
        cursor::lemma_places_differ(n, x.head(), capacity);
    }
    vstd::arithmetic::div_mod::lemma_mod_bound(x.head(), capacity as int);
    assert forall|n: int| after.tail <= n < after.head() implies #[trigger] after.sent[n]
        == after.slots[cursor::place(n, capacity)] by {
        if n < x.head() {
            assert(x.sent[n] == x.slots[cursor::place(n, capacity)]);
            vstd::arithmetic::div_mod::lemma_mod_bound(n, capacity as int);
        }
    }
}

/// A consumer that sees an item reads the next one that was sent, and keeps the
/// ring in order: no item is lost, changed, repeated or overtaken.
pub proof fn lemma_receive_is_safe<T>(x: Exchange<T>, capacity: usize)
    requires
        x.inv(capacity),
        x.can_receive(),
    ensures
        x.tail < x.head(),
        x.received(capacity) == x.sent[x.tail],
        x.receive().inv(capacity),
{
}

/// What the producer decides from wrapped cursors is what the exchange allows, and
/// the slot is the one that the exchange names.
pub proof fn lemma_claim_follows_exchange<T>(
    x: Exchange<T>,
    capacity: usize,
    head: u64,
    tail: u64,
)
    requires
        x.inv(capacity),
        cursor::power_of_two(capacity as int),
        capacity <= u64::MAX,
        head == x.head() % cursor::word(),
        tail == x.seen_tail % cursor::word(),
    ensures
        cursor::claimed(head, tail, capacity) == if x.can_send(capacity) {
            Some(cursor::place(x.head(), capacity))
        } else {
            None
        },
{
    cursor::lemma_depth(x.head(), x.seen_tail, head, tail);
    cursor::lemma_wrapped_slot(x.head(), head, capacity);
}

/// What the consumer decides from wrapped cursors is what the exchange allows, and
/// the slot is the one that the exchange names.
pub proof fn lemma_fetch_follows_exchange<T>(
    x: Exchange<T>,
    capacity: usize,
    head: u64,
    tail: u64,
)
    requires
        x.inv(capacity),
        cursor::power_of_two(capacity as int),
        capacity <= u64::MAX,
        head == x.seen_head % cursor::word(),
        tail == x.tail % cursor::word(),
    ensures
        cursor::fetched(head, tail, capacity) == if x.can_receive() {
            Some(cursor::place(x.tail, capacity))
        } else {
            None
        },
{
    cursor::lemma_depth(x.seen_head, x.tail, head, tail);
    cursor::lemma_wrapped_slot(x.tail, tail, capacity);
}

/// Whoever looks on reads the number of items that were still to be read at the time
/// when the producer's cursor was read, which is never more than the capacity. `x`,
/// `y` and `z` are the ring when each of the three cursors is read, and between the
/// first and the last of them the consumer takes less items than a word counts.
pub proof fn lemma_depth_seen_is_the_depth<T>(
    x: Exchange<T>,
    y: Exchange<T>,
    z: Exchange<T>,
    capacity: usize,
    tail: u64,
    head: u64,
    tail_again: u64,
)
    requires
        y.inv(capacity),
        0 <= x.tail <= y.tail <= z.tail < x.tail + cursor::word(),
        tail == x.tail % cursor::word(),
        head == y.head() % cursor::word(),
        tail_again == z.tail % cursor::word(),
        tail == tail_again,
    ensures
        head.wrapping_sub(tail) == y.head() - y.tail,
        0 <= y.head() - y.tail <= capacity,
{
    cursor::lemma_depth(z.tail, x.tail, tail_again, tail);
    cursor::lemma_depth(y.head(), y.tail, head, tail);
}

} // verus!
