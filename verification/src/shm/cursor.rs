//! The cursors of a ring with one producer and one consumer.
//!
//! Each side owns one 64-bit cursor, which counts what it has passed on and wraps.
//! A cursor's slot is its remainder by the capacity, which is a power of two, so
//! that the slots go on in turn where the cursor wraps.

use vstd::prelude::*;
use vstd::arithmetic::div_mod::*;
use vstd::arithmetic::power2::*;
use vstd::bits::*;

verus! {

/// Two to the power of 64, where cursors wrap.
pub open spec fn word() -> int {
    0x1_0000_0000_0000_0000
}

pub open spec fn power_of_two(n: int) -> bool {
    exists|k: nat| n == #[trigger] pow2(k)
}

/// The slot of a cursor.
pub open spec fn slot_of(cursor: u64, capacity: usize) -> int {
    cursor as int % capacity as int
}

/// The slot of the so-many-th item.
pub open spec fn place(n: int, capacity: usize) -> int {
    n % capacity as int
}

/// The slot that the producer may write, unless the ring is full.
pub open spec fn claimed(head: u64, tail: u64, capacity: usize) -> Option<int> {
    if head.wrapping_sub(tail) >= capacity {
        None
    } else {
        Some(slot_of(head, capacity))
    }
}

/// The slot that the consumer may read, unless the ring is empty.
pub open spec fn fetched(head: u64, tail: u64, capacity: usize) -> Option<int> {
    if head == tail {
        None
    } else {
        Some(slot_of(tail, capacity))
    }
}

proof fn lemma_exponent(capacity: usize) -> (k: nat)
    requires
        power_of_two(capacity as int),
    ensures
        capacity == pow2(k),
        k < 64,
{
    let k = choose|k: nat| capacity == #[trigger] pow2(k);
    if k >= 64 {
        lemma2_to64();
        if k > 64 {
            lemma_pow2_strictly_increases(64, k);
        }
    }
    k
}

/// A power of two that fits divides the word.
pub proof fn lemma_capacity_divides_word(capacity: usize)
    requires
        power_of_two(capacity as int),
    ensures
        capacity > 0,
        word() % capacity as int == 0,
{
    let k = lemma_exponent(capacity);
    lemma2_to64();
    lemma_pow2_pos(k);
    lemma_pow2_adds(k, (64 - k) as nat);
    let rest = pow2((64 - k) as nat);
    assert(word() == rest * capacity) by (nonlinear_arith)
        requires
            word() == pow2(k) * rest,
            capacity == pow2(k),
    ;
    lemma_mod_multiples_basic(rest as int, capacity as int);
}

/// A cursor that has wrapped has the slot of the item that it counts.
pub proof fn lemma_wrapped_slot(n: int, cursor: u64, capacity: usize)
    requires
        power_of_two(capacity as int),
        n >= 0,
        cursor == n % word(),
    ensures
        slot_of(cursor, capacity) == place(n, capacity),
        0 <= place(n, capacity) < capacity,
{
    lemma_capacity_divides_word(capacity);
    let w = word() / capacity as int;
    let cap = capacity as int;
    lemma_fundamental_div_mod(word(), cap);
    lemma_fundamental_div_mod(n, word());
    let q = n / word();
    assert(n == cap * (w * q) + cursor) by (nonlinear_arith)
        requires
            n == word() * q + cursor,
            word() == cap * w,
    ;
    lemma_mod_multiples_vanish(w * q, cursor as int, cap);
}

/// Items that are less than the capacity apart have different slots.
pub proof fn lemma_places_differ(i: int, j: int, capacity: usize)
    requires
        capacity > 0,
        i < j < i + capacity,
    ensures
        place(i, capacity) != place(j, capacity),
{
    let cap = capacity as int;
    if i % cap == j % cap {
        lemma_fundamental_div_mod(i, cap);
        lemma_fundamental_div_mod(j, cap);
        let d = j / cap - i / cap;
        assert(j - i == cap * d) by (nonlinear_arith)
            requires
                i == cap * (i / cap) + i % cap,
                j == cap * (j / cap) + j % cap,
                i % cap == j % cap,
                d == j / cap - i / cap,
        ;
        assert(d > 0 && d < 1) by (nonlinear_arith)
            requires
                0 < j - i < cap,
                j - i == cap * d,
        ;
    }
}

/// The slot of a cursor: its low bits.
fn slot(cursor: u64, capacity: usize) -> (r: usize)
    requires
        power_of_two(capacity as int),
    ensures
        r == slot_of(cursor, capacity),
        r < capacity,
{
    proof {
        lemma_capacity_divides_word(capacity);
        let k = lemma_exponent(capacity);
        lemma_u64_low_bits_mask_is_mod(cursor, k);
        lemma_mod_bound(cursor as int, capacity as int);
        assert(low_bits_mask(k) == capacity - 1);
    }
    (cursor & (capacity as u64 - 1)) as usize
}

/// The slot that the producer may write, given its own cursor and what it has seen
/// of the consumer's; nothing where the ring is full.
pub fn claim(head: u64, tail: u64, capacity: usize) -> (r: Option<usize>)
    requires
        power_of_two(capacity as int),
    ensures
        match r {
            Some(slot) => claimed(head, tail, capacity) == Some(slot as int) && slot < capacity,
            None => claimed(head, tail, capacity) is None,
        },
{
    if head.wrapping_sub(tail) >= capacity as u64 {
        None
    } else {
        Some(slot(head, capacity))
    }
}

/// The slot that the consumer may read, given its own cursor and what it has seen
/// of the producer's; nothing where the ring is empty.
pub fn fetch(head: u64, tail: u64, capacity: usize) -> (r: Option<usize>)
    requires
        power_of_two(capacity as int),
    ensures
        match r {
            Some(slot) => fetched(head, tail, capacity) == Some(slot as int) && slot < capacity,
            None => fetched(head, tail, capacity) is None,
        },
{
    if head == tail {
        None
    } else {
        Some(slot(tail, capacity))
    }
}

/// The cursor after one more item.
pub fn advance(cursor: u64) -> (r: u64)
    ensures
        r == cursor.wrapping_add(1),
{
    cursor.wrapping_add(1)
}

/// The number of items between the cursors.
pub fn depth(head: u64, tail: u64) -> (r: u64)
    ensures
        r == head.wrapping_sub(tail),
{
    head.wrapping_sub(tail)
}

/// The number of items between the cursors, for whoever looks on while both move: the
/// consumer's cursor is read, then the producer's, and then the consumer's again.
/// Nothing where the consumer's has moved meanwhile.
pub fn depth_seen(tail: u64, head: u64, tail_again: u64, capacity: usize) -> (r: Option<u64>)
    ensures
        r is Some <==> tail == tail_again,
        r matches Some(n) ==> n <= capacity,
        r matches Some(n) ==> n == if head.wrapping_sub(tail) <= capacity {
            head.wrapping_sub(tail)
        } else {
            capacity as u64
        },
{
    if tail != tail_again {
        return None;
    }
    let n = depth(head, tail);
    if n <= capacity as u64 {
        Some(n)
    } else {
        Some(capacity as u64)
    }
}

/// Advancing a wrapped cursor counts one more item.
pub proof fn lemma_advance(n: int, cursor: u64)
    requires
        n >= 0,
        cursor == n % word(),
    ensures
        cursor.wrapping_add(1) == (n + 1) % word(),
{
    lemma_fundamental_div_mod(n, word());
    lemma_fundamental_div_mod(n + 1, word());
}

/// Cursors that are no further apart than a word tell how many items lie between
/// them.
pub proof fn lemma_depth(high: int, low: int, head: u64, tail: u64)
    requires
        0 <= low <= high < low + word(),
        head == high % word(),
        tail == low % word(),
    ensures
        head.wrapping_sub(tail) == high - low,
        head == tail <==> high == low,
{
    lemma_fundamental_div_mod(high, word());
    lemma_fundamental_div_mod(low, word());
}

} // verus!
