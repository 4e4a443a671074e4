//! A ring in the memory of one process.

use std::marker::PhantomData;

use vstd::prelude::*;
use super::cursor;
use super::cursor::{advance, claim, depth, fetch};

verus! {

/// The memory of a ring: its slots and the two cursors.
pub struct RingMemory<T> {
    slots: Vec<T>,
    capacity: usize,
    head: u64,
    tail: u64,
}

impl<T> RingMemory<T> {
    /// The number of slots.
    pub closed spec fn cap(&self) -> usize {
        self.capacity
    }

    /// How many items are still to be read.
    spec fn count(&self) -> nat {
        self.head.wrapping_sub(self.tail) as nat
    }

    /// The capacity is a power of two, and the cursors are no further apart.
    pub closed spec fn wf(&self) -> bool {
        &&& cursor::power_of_two(self.capacity as int)
        &&& self.slots@.len() == self.capacity
        &&& self.count() <= self.capacity
    }

    /// The items that are still to be read, in the order in which they were
    /// written.
    pub closed spec fn view(&self) -> Seq<T> {
        Seq::new(
            self.count(),
            |i: int| self.slots@[cursor::place(self.tail + i, self.capacity)],
        )
    }

    /// What holds of every ring.
    pub proof fn lemma_wf(&self)
        requires
            self.wf(),
        ensures
            self.view().len() <= self.cap(),
            cursor::power_of_two(self.cap() as int),
    {
    }
}

impl<T: Copy> RingMemory<T> {
    /// A ring of empty slots, all holding the given value.
    pub fn filled(capacity: usize, empty: T) -> (r: RingMemory<T>)
        requires
            cursor::power_of_two(capacity as int),
        ensures
            r.wf(),
            r.cap() == capacity,
            r.view() == Seq::<T>::empty(),
    {
        let mut slots: Vec<T> = Vec::with_capacity(capacity);
        let mut i: usize = 0;
        while i < capacity
            invariant
                i <= capacity,
                slots@.len() == i,
            decreases capacity - i,
        {
            slots.push(empty);
            i = i + 1;
        }
        let r = RingMemory { slots, capacity, head: 0, tail: 0 };
        assert(r.view() =~= Seq::<T>::empty());
        r
    }

    /// The number of items that are still to be read.
    pub fn depth(&self) -> (r: u64)
        requires
            self.wf(),
        ensures
            r == self.view().len(),
    {
        depth(self.head, self.tail)
    }

    /// Write an item, unless the ring is full.
    pub(crate) fn write(&mut self, item: T) -> (r: bool)
        requires
            old(self).wf(),
        ensures
            final(self).wf(),
            final(self).cap() == old(self).cap(),
            r == (old(self).view().len() < old(self).cap()),
            final(self).view() == if r {
                old(self).view().push(item)
            } else {
                old(self).view()
            },
    {
        let ghost before = self.view();
        let ghost was = *self;
        match claim(self.head, self.tail, self.capacity) {
            None => false,
            Some(slot) => {
                self.slots.set(slot, item);
                self.head = advance(self.head);
                proof {
                    let cap = self.capacity;
                    let n = was.count();
                    cursor::lemma_capacity_divides_word(cap);
                    let total = was.tail + n;
                    assert(was.head == total % cursor::word()) by {
                        lemma_head(was.head, was.tail);
                    }
                    cursor::lemma_wrapped_slot(total, was.head, cap);
                    assert(self.count() == n + 1);
                    assert forall|i: int| 0 <= i < n implies #[trigger] self.view()[i]
                        == before[i] by {
                        cursor::lemma_places_differ(was.tail + i, total, cap);
                        vstd::arithmetic::div_mod::lemma_mod_bound(was.tail + i, cap as int);
                    }
                    assert(self.view() =~= before.push(item));
                }
                true
            },
        }
    }

    /// Read the oldest item, unless the ring is empty.
    pub(crate) fn read(&mut self) -> (r: Option<T>)
        requires
            old(self).wf(),
        ensures
            final(self).wf(),
            final(self).cap() == old(self).cap(),
            match r {
                Some(item) => {
                    &&& old(self).view().len() > 0
                    &&& item == old(self).view()[0]
                    &&& final(self).view() == old(self).view().drop_first()
                },
                None => old(self).view().len() == 0 && final(self).view() == old(self).view(),
            },
    {
        let ghost before = self.view();
        let ghost was = *self;
        match fetch(self.head, self.tail, self.capacity) {
            None => None,
            Some(slot) => {
                let item = self.slots[slot];
                self.tail = advance(self.tail);
                proof {
                    let cap = self.capacity;
                    cursor::lemma_capacity_divides_word(cap);
                    assert(before[0] == item);
                    assert(self.count() == was.count() - 1);
                    assert forall|i: int| 0 <= i < self.count() implies #[trigger] self.view()[i]
                        == before[i + 1] by {
                        if was.tail == u64::MAX {
                            let n = was.tail + (i + 1);
                            assert(i < cursor::word());
                            cursor::lemma_wrapped_slot(n, i as u64, cap);
                            cursor::lemma_wrapped_slot(i, i as u64, cap);
                        }
                    }
                    assert(self.view() =~= before.drop_first());
                }
                Some(item)
            },
        }
    }
}

/// The head is as far beyond the tail as their difference says.
proof fn lemma_head(head: u64, tail: u64)
    ensures
        head == (tail + head.wrapping_sub(tail)) % cursor::word(),
{
    let sum = tail + head.wrapping_sub(tail);
    vstd::arithmetic::div_mod::lemma_fundamental_div_mod(sum, cursor::word());
}

/// The producer's end of a ring.
pub struct SpscWriter<T> {
    capacity: usize,
    items: PhantomData<T>,
}

/// The consumer's end of a ring.
pub struct SpscReader<T> {
    capacity: usize,
    items: PhantomData<T>,
}

/// Makes rings.
pub struct SpscRing;

impl SpscRing {
    /// The two ends of a new ring, and its memory. The capacity must be a power
    /// of two.
    pub fn new<T: Copy + Default>(capacity: usize) -> (r: (
        SpscWriter<T>,
        SpscReader<T>,
        RingMemory<T>,
    ))
        requires
            cursor::power_of_two(capacity as int),
        ensures
            r.0.cap() == capacity,
            r.1.cap() == capacity,
            r.2.cap() == capacity,
            r.2.wf(),
            r.2.view() == Seq::<T>::empty(),
    {
        let memory = RingMemory::filled(capacity, T::default());
        (
            SpscWriter { capacity, items: PhantomData },
            SpscReader { capacity, items: PhantomData },
            memory,
        )
    }
}

impl<T> SpscWriter<T> {
    /// The capacity of the ring.
    pub closed spec fn cap(&self) -> usize {
        self.capacity
    }
}

impl<T> SpscReader<T> {
    /// The capacity of the ring.
    pub closed spec fn cap(&self) -> usize {
        self.capacity
    }
}

impl<T: Copy> SpscWriter<T> {
    /// Write an item to a ring that has room for it.
    pub fn push(&self, memory: &mut RingMemory<T>, item: T)
        requires
            old(memory).wf(),
            self.cap() == old(memory).cap(),
            old(memory).view().len() < old(memory).cap(),
        ensures
            final(memory).wf(),
            final(memory).cap() == old(memory).cap(),
            final(memory).view() == old(memory).view().push(item),
    {
        let written = self.try_push(memory, item);
    }

    /// Write an item, unless the ring is full.
    pub fn try_push(&self, memory: &mut RingMemory<T>, item: T) -> (r: bool)
        requires
            old(memory).wf(),
            self.cap() == old(memory).cap(),
        ensures
            final(memory).wf(),
            final(memory).cap() == old(memory).cap(),
            r == (old(memory).view().len() < old(memory).cap()),
            final(memory).view() == if r {
                old(memory).view().push(item)
            } else {
                old(memory).view()
            },
    {
        memory.write(item)
    }
}

impl<T: Copy> SpscReader<T> {
    /// Read the oldest item of a ring that has one.
    pub fn pop(&self, memory: &mut RingMemory<T>) -> (r: T)
        requires
            old(memory).wf(),
            self.cap() == old(memory).cap(),
            old(memory).view().len() > 0,
        ensures
            final(memory).wf(),
            final(memory).cap() == old(memory).cap(),
            r == old(memory).view()[0],
            final(memory).view() == old(memory).view().drop_first(),
    {
        let found = self.try_pop(memory);
        found.unwrap()
    }

    /// Read the oldest item, unless the ring is empty.
    pub fn try_pop(&self, memory: &mut RingMemory<T>) -> (r: Option<T>)
        requires
            old(memory).wf(),
            self.cap() == old(memory).cap(),
        ensures
            final(memory).wf(),
            final(memory).cap() == old(memory).cap(),
            match r {
                Some(item) => {
                    &&& old(memory).view().len() > 0
                    &&& item == old(memory).view()[0]
                    &&& final(memory).view() == old(memory).view().drop_first()
                },
                None => old(memory).view().len() == 0 && final(memory).view() == old(memory).view(),
            },
    {
        memory.read()
    }
}

} // verus!
