use candlestore::shm::layout::{
    mapping_size, slot_offset, HEAD_OFFSET, READY_MAGIC, SLOTS_OFFSET, TAIL_OFFSET,
};
use candlestore::shm::segment::{
    after_attempt, PushStep, ShmAction, ShmCreation, ShmError, ShmErrorKind, ShmEvent, ShmOpening,
};
use candlestore::shm::spsc::RingMemory;
use candlestore::shm::{cursor, ShmHeader};
use candlestore::{
    Binary64, Candle, CandleStore, ShmIngester, ShmRingReader, ShmRingWriter, SpscRing,
};

fn d(x: f64) -> Binary64 {
    Binary64::from_bits(x.to_bits())
}

fn candle(ts: i64) -> Candle {
    Candle { ts, open: d(1.0), high: d(2.0), low: d(0.5), close: d(1.5), volume: d(10.0) }
}

#[test]
fn spsc_try_push_pop_roundtrip() {
    let (w, r, mut m) = SpscRing::new::<Candle>(4);
    assert!(w.try_push(&mut m, candle(1)));
    assert!(w.try_push(&mut m, candle(2)));
    assert_eq!(r.try_pop(&mut m).unwrap().ts, 1);
    assert_eq!(r.try_pop(&mut m).unwrap().ts, 2);
    assert!(r.try_pop(&mut m).is_none());
}

#[test]
fn spsc_try_push_returns_false_when_full() {
    let (w, _r, mut m) = SpscRing::new::<Candle>(2);
    assert!(w.try_push(&mut m, candle(1)));
    assert!(w.try_push(&mut m, candle(2)));
    assert!(!w.try_push(&mut m, candle(3)));
}

#[test]
fn spsc_wraps_correctly() {
    let (w, r, mut m) = SpscRing::new::<Candle>(4);
    for i in 0..4i64 {
        assert!(w.try_push(&mut m, candle(i)));
    }
    for i in 0..4i64 {
        assert_eq!(r.try_pop(&mut m).unwrap().ts, i);
    }
    for i in 4..8i64 {
        assert!(w.try_push(&mut m, candle(i)));
    }
    for i in 4..8i64 {
        assert_eq!(r.try_pop(&mut m).unwrap().ts, i);
    }
}

#[test]
fn spsc_push_and_pop_take_turns() {
    let (w, r, mut m) = SpscRing::new::<Candle>(64);
    for i in 0..1_000i64 {
        w.push(&mut m, candle(i));
        assert_eq!(m.depth(), 1);
        assert_eq!(r.pop(&mut m).ts, i);
    }
    assert_eq!(m.depth(), 0);
}

#[test]
fn shm_header_size_and_offsets() {
    assert_eq!(std::mem::size_of::<ShmHeader>(), 384);
    assert_eq!(HEAD_OFFSET, 128);
    assert_eq!(TAIL_OFFSET, 256);
    assert_eq!(SLOTS_OFFSET, 384);
}

#[test]
fn header_starts_empty_and_ready() {
    let h = ShmHeader::initial(64);
    assert_eq!((h.ready, h.capacity, h.head, h.tail), (READY_MAGIC, 64, 0, 0));
}

#[test]
fn segments_hold_the_header_and_the_slots() {
    assert_eq!(mapping_size(4), 384 + 4 * 48);
    assert_eq!(slot_offset(0, 4), 384);
    assert_eq!(slot_offset(3, 4), 384 + 3 * 48);
}

#[test]
fn cursors_wrap_with_their_word() {
    let start = u64::MAX - 1;
    assert_eq!(cursor::claim(start, start, 4), Some((start % 4) as usize));
    assert_eq!(cursor::fetch(start, start, 4), None);
    let next = cursor::advance(cursor::advance(start));
    assert_eq!(next, 0);
    assert_eq!(cursor::depth(next, start), 2);
    assert_eq!(cursor::claim(next, start, 4), Some(0));
    assert_eq!(cursor::fetch(next, start, 4), Some((start % 4) as usize));
    assert_eq!(cursor::claim(start.wrapping_add(4), start, 4), None);
}

/// A system with at most one segment.
struct System {
    segment: Option<ShmHeader>,
    opened: i32,
    mapped: i32,
    looks: u32,
    fail_mapping: bool,
}

impl System {
    fn new() -> System {
        System { segment: None, opened: 0, mapped: 0, looks: 3, fail_mapping: false }
    }

    fn perform(&mut self, action: ShmAction) -> ShmEvent {
        match action {
            ShmAction::Unlink => {
                self.segment = None;
                ShmEvent::Done
            }
            ShmAction::Open { create, exclusive } => {
                if create && exclusive && self.segment.is_some() {
                    return ShmEvent::Failed(17);
                }
                if !create && self.segment.is_none() {
                    return ShmEvent::Failed(2);
                }
                if create && self.segment.is_none() {
                    let mut h = ShmHeader::initial(0);
                    h.ready = 0;
                    self.segment = Some(h);
                }
                self.opened += 1;
                ShmEvent::Done
            }
            ShmAction::Resize { .. } => ShmEvent::Done,
            ShmAction::MapSegment { .. } => {
                if self.fail_mapping {
                    return ShmEvent::Failed(12);
                }
                self.mapped += 1;
                ShmEvent::Done
            }
            ShmAction::Close => {
                self.opened -= 1;
                ShmEvent::Done
            }
            ShmAction::WriteHeader { header } => {
                self.segment = Some(header);
                ShmEvent::Done
            }
            ShmAction::ReadReady => {
                self.looks -= 1;
                ShmEvent::Ready { value: self.segment.unwrap().ready, expired: self.looks == 0 }
            }
            ShmAction::ReadCapacity => ShmEvent::Capacity(self.segment.unwrap().capacity),
            ShmAction::Unmap { .. } => {
                self.mapped -= 1;
                ShmEvent::Done
            }
            ShmAction::Finish => unreachable!(),
        }
    }

    fn run_creation(&mut self, mut c: ShmCreation) -> Result<ShmRingWriter, ShmError> {
        loop {
            if let Some(outcome) = c.finish() {
                return outcome;
            }
            let event = self.perform(c.action());
            c.advance(event);
        }
    }

    fn run_opening(&mut self, mut o: ShmOpening) -> Result<ShmRingReader, ShmError> {
        loop {
            if let Some(outcome) = o.finish() {
                return outcome;
            }
            let event = self.perform(o.action());
            o.advance(event);
        }
    }

    fn create(&mut self, capacity: usize) -> Result<ShmRingWriter, ShmError> {
        self.run_creation(ShmRingWriter::create("/ring", capacity)?)
    }

    fn create_force(&mut self, capacity: usize) -> Result<ShmRingWriter, ShmError> {
        self.run_creation(ShmRingWriter::create_force("/ring", capacity)?)
    }

    fn open(&mut self, capacity: usize) -> Result<ShmRingReader, ShmError> {
        self.run_opening(ShmRingReader::open("/ring", capacity)?)
    }
}

#[test]
fn shm_writer_reader_roundtrip() {
    let cap = 64usize;
    let n = 100usize;
    let mut system = System::new();
    let mut w = system.create(cap).expect("create shm writer");
    let r = system.open(cap).expect("open shm reader");
    let mut m = RingMemory::filled(cap, Candle::default());

    let mut received = Vec::new();
    for i in 0..n {
        w.push(&mut m, candle(i as i64));
        assert_eq!(r.depth(&m), 1);
        received.push(r.pop(&mut m));
    }
    assert_eq!(received.len(), n);
    for (i, c) in received.iter().enumerate() {
        assert_eq!(c.ts, i as i64);
    }
}

#[test]
fn shm_writer_create_rejects_duplicate_with_already_exists() {
    let mut system = System::new();
    let _w1 = system.create(64).expect("first create succeeds");
    match system.create(64) {
        Ok(_) => panic!("second create must fail"),
        Err(e) => {
            assert_eq!(e, ShmError::Os(17));
            assert_eq!(e.kind(), ShmErrorKind::AlreadyExists);
        }
    }
    assert_eq!(ShmError::Os(13).kind(), ShmErrorKind::System);
}

#[test]
fn shm_writer_create_force_overrides_existing_segment() {
    let mut system = System::new();
    let _w1 = system.create(64).expect("first create succeeds");
    let _w2 = system.create_force(64).expect("create_force succeeds");
}

#[test]
fn shm_reader_open_rejects_capacity_mismatch() {
    let mut system = System::new();
    let _w = system.create(64).expect("create with cap=64");
    match system.open(128) {
        Ok(_) => panic!("mismatched capacity must fail"),
        Err(e) => {
            assert_eq!(e, ShmError::CapacityMismatch { requested: 128, found: 64 });
            assert_eq!(e.kind(), ShmErrorKind::InvalidData);
            assert_eq!(
                e.message().unwrap(),
                "ShmRingReader capacity mismatch: reader requested 128, writer created segment \
                 with 64. The producer and consumer must agree on the ring size."
            );
        }
    }
    assert_eq!((system.opened, system.mapped), (0, 1));
}

#[test]
fn shm_writer_push_until_returns_false_on_cancel() {
    let cap = 4usize;
    let mut system = System::new();
    let mut writer = system.create(cap).expect("create");
    let mut m = RingMemory::filled(cap, Candle::default());
    for i in 0..cap {
        assert!(writer.try_push(&mut m, candle(i as i64)));
    }
    let pushed = writer.push_until(&mut m, candle(99), true);
    assert!(!pushed, "push_until must return false when cancel fires");
    let stats = writer.stats();
    assert_eq!(stats.push_full_events, 1, "exactly one stall expected");
    assert_eq!(stats.ring_capacity, 4);
}

#[test]
fn push_until_succeeds_where_there_is_room() {
    let mut system = System::new();
    let mut writer = system.create(2).expect("create");
    let mut m = RingMemory::filled(2, Candle::default());
    assert!(writer.push_until(&mut m, candle(1), false));
    assert!(writer.push_until(&mut m, candle(2), true));
    assert_eq!(writer.stats().push_full_events, 0);
}

#[test]
fn a_wait_is_counted_once() {
    assert_eq!(after_attempt(false, true, true), (PushStep::Pushed, false));
    assert_eq!(after_attempt(false, false, true), (PushStep::Again, true));
    assert_eq!(after_attempt(true, false, false), (PushStep::Again, false));
    assert_eq!(after_attempt(true, false, true), (PushStep::GivenUp, false));
}

#[test]
fn readers_give_up_on_a_producer_that_is_not_ready() {
    let mut system = System::new();
    let mut h = ShmHeader::initial(64);
    h.ready = 0;
    system.segment = Some(h);
    let e = system.open(64).err().unwrap();
    assert_eq!(e, ShmError::TimedOut);
    assert_eq!(e.kind(), ShmErrorKind::TimedOut);
    assert_eq!(e.message().unwrap(), "shm writer did not become ready within 5s");
    assert_eq!((system.opened, system.mapped), (0, 0));
}

#[test]
fn names_with_a_null_are_refused() {
    let e = ShmRingWriter::create("/a\0b", 4).err().unwrap();
    assert_eq!(e, ShmError::InvalidName);
    assert_eq!(e.kind(), ShmErrorKind::InvalidInput);
    assert!(e.message().is_none());
    assert!(ShmRingReader::open("/a\0b", 4).is_err());
}

#[test]
fn failures_leave_nothing_open() {
    let mut system = System::new();
    assert_eq!(system.open(64).err(), Some(ShmError::Os(2)));
    system.fail_mapping = true;
    assert_eq!(system.create(64).err(), Some(ShmError::Os(12)));
    assert_eq!((system.opened, system.mapped), (0, 0));
    assert!(system.segment.is_some(), "the name stays taken");
}

#[test]
fn ingester_moves_candles_into_the_store() {
    let mut system = System::new();
    let mut w = system.create(8).unwrap();
    let r = system.open(8).unwrap();
    let mut m = RingMemory::filled(8, Candle::default());
    let mut store = CandleStore::new(2);
    let mut ingester = ShmIngester::start_on_core(&r, "BTC", Some(3));
    assert_eq!(ingester.core_id(), Some(3));
    for i in 0..5 {
        w.push(&mut m, candle(i));
    }
    while r.depth(&m) > 0 {
        assert!(ingester.turn(&r, &mut m, &mut store, Ok(())));
    }
    assert!(ingester.turn(&r, &mut m, &mut store, Ok(())), "an empty ring is no reason to stop");
    assert_eq!(store.candle_count("BTC"), 5);
    w.push(&mut m, candle(5));
    let stats = ingester.stats(r.depth(&m));
    assert_eq!((stats.popped_total, stats.ring_depth, stats.ring_capacity), (5, 1, 8));
    ingester.stop_signal();
    assert!(!ingester.goes_on());
    assert!(!ingester.turn(&r, &mut m, &mut store, Ok(())));
    assert_eq!(store.candle_count("BTC"), 5);
    assert_eq!(r.capacity(), 8);
}

#[test]
fn whoever_looks_on_sees_no_more_than_the_ring_holds() {
    assert_eq!(cursor::depth_seen(3, 7, 3, 8), Some(4));
    assert_eq!(cursor::depth_seen(3, 7, 4, 8), None);
    assert_eq!(cursor::depth_seen(u64::MAX, 1, u64::MAX, 8), Some(2));
    assert_eq!(cursor::depth_seen(0, 20, 0, 8), Some(8));
}

#[test]
fn candles_leave_the_ring_once_and_in_order() {
    let mut system = System::new();
    let mut w = system.create(4).unwrap();
    let r = system.open(4).unwrap();
    let mut m = RingMemory::filled(4, Candle::default());
    let mut store = CandleStore::new(1);
    let mut ingester = ShmIngester::start(&r, "BTC");
    assert_eq!(ingester.core_id(), None);
    let mut next = 0;
    for burst in [1, 3, 2, 4] {
        for _ in 0..burst {
            w.push(&mut m, candle(next));
            next += 1;
        }
        for _ in 0..burst - 1 {
            ingester.turn(&r, &mut m, &mut store, Ok(()));
        }
        ingester.turn(&r, &mut m, &mut store, Ok(()));
    }
    let times: Vec<i64> = store.last_n("BTC", 99).iter().map(|c| c.ts).collect();
    assert_eq!(times, (0..next).collect::<Vec<_>>());
    assert_eq!(ingester.stats(0).popped_total, next as u64);
    w.push(&mut m, candle(next));
    ingester.stop();
    assert!(!ingester.turn(&r, &mut m, &mut store, Ok(())));
    w.push(&mut m, candle(next + 1));
    assert!(!ingester.turn(&r, &mut m, &mut store, Ok(())));
    assert_eq!(store.candle_count("BTC"), next as usize);
    assert_eq!(r.pop(&mut m).ts, next);
    assert_eq!(r.pop(&mut m).ts, next + 1);
}

#[test]
fn a_wait_is_counted_once_and_writes_once() {
    let mut system = System::new();
    let mut w = system.create(2).unwrap();
    let r = system.open(2).unwrap();
    let mut m = RingMemory::filled(2, Candle::default());
    w.push(&mut m, candle(1));
    w.push(&mut m, candle(2));
    let mut waiting = false;
    for attempt in 0..4 {
        if attempt == 3 {
            assert_eq!(r.pop(&mut m).ts, 1);
        }
        let pushed = w.try_push(&mut m, candle(3));
        let (step, stalled) = after_attempt(waiting, pushed, attempt == 3);
        if stalled {
            w.count_stall();
            waiting = true;
        }
        assert_eq!(step, if attempt == 3 { PushStep::Pushed } else { PushStep::Again });
    }
    assert_eq!(w.stats().push_full_events, 1);
    assert_eq!(r.pop(&mut m).ts, 2);
    assert_eq!(r.pop(&mut m).ts, 3);
    assert!(r.try_pop(&mut m).is_none());
}
