//! The layout of a shared segment: a header of three cache lines, then the slots.

use vstd::prelude::*;
use crate::candle::CANDLE_BYTES;

verus! {

/// What the producer writes to the header once the segment is set up.
pub const READY_MAGIC: u64 = 0x00CA_FECA_1D1E_5748;

/// The bytes of a cache line. Each cursor has one of its own, so that neither
/// side's writes slow down the other.
pub const CACHE_LINE: usize = 128;

/// Where the producer's cursor is.
pub const HEAD_OFFSET: usize = 128;

/// Where the consumer's cursor is.
pub const TAIL_OFFSET: usize = 256;

/// Where the slots begin, behind the header.
pub const SLOTS_OFFSET: usize = 384;

/// The header of a segment.
#[derive(Debug, Clone, Copy)]
pub struct ShmHeader {
    pub ready: u64,
    pub capacity: u64,
    pub pad0: [u8; 112],
    pub head: u64,
    pub pad1: [u8; 120],
    pub tail: u64,
    pub pad2: [u8; 120],
}

impl ShmHeader {
    /// The header of a new segment, with nothing in it.
    pub fn initial(capacity: usize) -> (r: ShmHeader)
        ensures
            r.ready == READY_MAGIC,
            r.capacity == capacity,
            r.head == 0,
            r.tail == 0,
    {
        ShmHeader {
            ready: READY_MAGIC,
            capacity: capacity as u64,
            pad0: [0;112],
            head: 0,
            pad1: [0;120],
            tail: 0,
            pad2: [0;120],
        }
    }
}

/// The bytes of a segment with so many slots.
pub open spec fn segment_bytes(capacity: int) -> int {
    SLOTS_OFFSET + capacity * CANDLE_BYTES
}

/// The bytes of a segment with so many slots.
pub fn mapping_size(capacity: usize) -> (r: usize)
    requires
        segment_bytes(capacity as int) <= usize::MAX,
    ensures
        r == segment_bytes(capacity as int),
{
    SLOTS_OFFSET + capacity * CANDLE_BYTES
}

/// Where a slot begins.
pub open spec fn slot_at(slot: int) -> int {
    SLOTS_OFFSET + slot * CANDLE_BYTES
}

/// Where a slot begins.
pub fn slot_offset(slot: usize, capacity: usize) -> (r: usize)
    requires
        slot < capacity,
        segment_bytes(capacity as int) <= usize::MAX,
    ensures
        r == slot_at(slot as int),
        r + CANDLE_BYTES <= segment_bytes(capacity as int),
{
    SLOTS_OFFSET + slot * CANDLE_BYTES
}

/// Slots lie behind the header, within the segment, apart from each other, and on
/// eight-byte boundaries; the parts of the header lie on cache lines of their own.
pub proof fn lemma_layout(a: int, b: int, capacity: int)
    requires
        0 <= a < b < capacity,
    ensures
        SLOTS_OFFSET <= slot_at(a),
        slot_at(a) + CANDLE_BYTES <= slot_at(b),
        slot_at(b) + CANDLE_BYTES <= segment_bytes(capacity),
        slot_at(a) % 8 == 0,
        HEAD_OFFSET == CACHE_LINE,
        TAIL_OFFSET == 2 * CACHE_LINE,
        SLOTS_OFFSET == 3 * CACHE_LINE,
{
}

/// The slots follow each other without gaps, from the end of the header to the end of the
/// segment.
pub proof fn lemma_slots_fill_the_segment(slot: int, capacity: int)
    ensures
        slot_at(0) == SLOTS_OFFSET,
        slot_at(slot + 1) == slot_at(slot) + CANDLE_BYTES,
        slot_at(capacity) == segment_bytes(capacity),
{
}

} // verus!
