//! Moving candles from a ring to a store.

use vstd::prelude::*;
use super::runs::{IngestEvent, IngestView};
use super::segment::ShmRingReader;
use super::spsc::RingMemory;
use crate::cold::SpillError;
use crate::store::{CandleStore, StoreView};
use crate::Candle;

verus! {

/// The counters of an ingester.
#[derive(Debug, Clone, Copy)]
pub struct IngesterStats {
    /// Candles that were moved to the store.
    pub popped_total: u64,
    /// Candles that are waiting in the ring.
    pub ring_depth: u64,
    /// The number of slots of the ring.
    pub ring_capacity: u64,
}

/// Moves candles of one symbol from a ring to a store, until it is stopped.
pub struct ShmIngester {
    running: bool,
    popped: u64,
    symbol: String,
    capacity: usize,
    core: Option<usize>,
}

impl ShmIngester {
    pub closed spec fn is_running(&self) -> bool {
        self.running
    }

    /// How many candles were moved.
    pub closed spec fn moved(&self) -> u64 {
        self.popped
    }

    pub closed spec fn symbol(&self) -> Seq<char> {
        self.symbol@
    }

    pub closed spec fn cap(&self) -> usize {
        self.capacity
    }

    pub closed spec fn pinned_to(&self) -> Option<usize> {
        self.core
    }

    /// The ingester with what waits in its ring, and its store.
    pub open spec fn with(&self, waiting: Seq<Candle>, store: StoreView) -> IngestView {
        IngestView {
            running: self.is_running(),
            moved: self.moved(),
            core: self.pinned_to(),
            waiting,
            store,
        }
    }

    /// Start, on the given core if there is one.
    pub fn start_on_core(reader: &ShmRingReader, symbol: &str, core_id: Option<usize>) -> (r:
        ShmIngester)
        ensures
            r.is_running(),
            r.moved() == 0,
            r.symbol() == symbol@,
            r.cap() == reader.cap(),
            r.pinned_to() == core_id,
    {
        ShmIngester {
            running: true,
            popped: 0,
            symbol: symbol.to_owned(),
            capacity: reader.capacity(),
            core: core_id,
        }
    }

    /// Start, on whatever core.
    pub fn start(reader: &ShmRingReader, symbol: &str) -> (r: ShmIngester)
        ensures
            r.is_running(),
            r.moved() == 0,
            r.symbol() == symbol@,
            r.cap() == reader.cap(),
            r.pinned_to() is None,
    {
        ShmIngester::start_on_core(reader, symbol, None)
    }

    /// The core to run on, if there is one.
    pub fn core_id(&self) -> (r: Option<usize>)
        ensures
            r == self.pinned_to(),
    {
        self.core
    }

    /// Whether to go on.
    pub fn goes_on(&self) -> (r: bool)
        ensures
            r == self.is_running(),
    {
        self.running
    }

    /// Append one candle to the store and count it.
    pub fn ingest(
        &mut self,
        store: &mut CandleStore,
        candle: Candle,
        spill: Result<(), SpillError>,
    )
        requires
            old(store).wf(),
            old(store).view().takes(candle),
        ensures
            final(store).wf(),
            final(store).view() == old(store).view().taken_in(
                old(store).victim(),
                old(self).symbol(),
                candle,
                spill is Ok,
            ),
            final(self).moved() == old(self).moved().wrapping_add(1),
            final(self).is_running() == old(self).is_running(),
            final(self).symbol() == old(self).symbol(),
            final(self).cap() == old(self).cap(),
            final(self).pinned_to() == old(self).pinned_to(),
    {
        store.append(self.symbol.as_str(), candle, spill);
        self.popped = self.popped.wrapping_add(1);
    }

    /// One turn: move the oldest candle, if there is one, unless it is stopped.
    /// Says whether it is to go on.
    pub fn turn(
        &mut self,
        reader: &ShmRingReader,
        memory: &mut RingMemory<Candle>,
        store: &mut CandleStore,
        spill: Result<(), SpillError>,
    ) -> (r: bool)
        requires
            old(memory).wf(),
            reader.cap() == old(memory).cap(),
            old(store).wf(),
            old(memory).view().len() > 0 ==> old(store).view().takes(old(memory).view()[0]),
        ensures
            r == old(self).is_running(),
            final(self).is_running() == old(self).is_running(),
            final(self).symbol() == old(self).symbol(),
            final(self).cap() == old(self).cap(),
            final(self).pinned_to() == old(self).pinned_to(),
            final(memory).wf(),
            final(memory).cap() == old(memory).cap(),
            final(store).wf(),
            final(self).with(final(memory).view(), final(store).view()) == old(self).with(
                old(memory).view(),
                old(store).view(),
            ).after(
                old(self).symbol(),
                IngestEvent::Turn { victim: old(store).victim(), spilled: spill is Ok },
            ),
    {
        if !self.running {
            return false;
        }
        match reader.try_pop(memory) {
            Some(candle) => {
                self.ingest(store, candle, spill);
            },
            None => {},
        }
        true
    }

    /// Stop at the next turn.
    pub fn stop(&mut self)
        ensures
            !final(self).is_running(),
            final(self).moved() == old(self).moved(),
            final(self).symbol() == old(self).symbol(),
            final(self).cap() == old(self).cap(),
            final(self).pinned_to() == old(self).pinned_to(),
            forall|waiting: Seq<Candle>, store: StoreView| #[trigger]
                final(self).with(waiting, store) == old(self).with(waiting, store).after(
                    old(self).symbol(),
                    IngestEvent::Stop,
                ),
    {
        self.running = false;
    }

    /// Stop at the next turn; whoever stops it does not wait for that.
    pub fn stop_signal(&mut self)
        ensures
            !final(self).is_running(),
            final(self).moved() == old(self).moved(),
            final(self).symbol() == old(self).symbol(),
            final(self).cap() == old(self).cap(),
            final(self).pinned_to() == old(self).pinned_to(),
            forall|waiting: Seq<Candle>, store: StoreView| #[trigger]
                final(self).with(waiting, store) == old(self).with(waiting, store).after(
                    old(self).symbol(),
                    IngestEvent::Stop,
                ),
    {
        self.running = false;
    }

    /// The counters, where so many candles are waiting in the ring.
    pub fn stats(&self, ring_depth: u64) -> (r: IngesterStats)
        ensures
            r.popped_total == self.moved(),
            r.ring_depth == ring_depth,
            r.ring_capacity == self.cap(),
    {
        IngesterStats {
            popped_total: self.popped,
            ring_depth,
            ring_capacity: self.capacity as u64,
        }
    }
}

} // verus!
