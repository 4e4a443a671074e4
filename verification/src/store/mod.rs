//! The candle store: one hot ring for each of the symbols in use, with the least
//! recently used symbol evicted to cold storage when there are too many.

pub mod history;
pub mod index;
pub mod merge;

use vstd::prelude::*;
use crate::binary64::ONE;
use crate::candle::CANDLE_BYTES;
use crate::cold::file;
use crate::cold::SpillError;
use crate::hw::HardwareProfile;
use crate::ring_buffer;
use crate::ring_buffer::{PushOutcome, RingBuffer};
use crate::Binary64;
use crate::Candle;
use index::SymbolIndex;

verus! {

/// The ring capacity of a store that was made without one.
pub const DEFAULT_RING_CAPACITY: usize = 10_000;

/// Why a candle was not admitted. The data in the store is as it was.
#[derive(Debug)]
pub enum AppendError {
    /// The store is full and what it would have evicted could not be spilled.
    EvictionSpillFailed {
        /// The symbol that the store attempted to evict.
        evicted_symbol: String,
        /// The number of its candles, which all remain in the store.
        candles_lost: usize,
        /// The failure of the spill.
        source: SpillError,
    },
    /// The candle holds a number that is not finite, or a negative timestamp.
    InvalidCandle {
        /// The symbol that the candle was destined for.
        symbol: String,
    },
}

/// The lifetime counters of a store, for metrics.
#[derive(Debug, Clone, Copy)]
pub struct StoreSnapshot {
    /// Appends, which is the version.
    pub appends_total: u64,
    /// Symbols in the store now.
    pub symbol_count: usize,
    /// Configured cap on symbols.
    pub max_symbols: usize,
    /// Ring capacity of each symbol.
    pub ring_capacity: usize,
    /// Evictions.
    pub evictions_total: u64,
    /// Bytes spilled on eviction.
    pub parquet_spill_bytes_total: u64,
    /// Spills that failed.
    pub parquet_spill_errors_total: u64,
    /// Appends that were dropped because a spill failed.
    pub appends_rejected_total: u64,
    /// Candles that were rejected as invalid.
    pub invalid_candles_total: u64,
    /// Candles whose timestamp went backwards.
    pub out_of_order_total: u64,
}

/// What has to be written to cold storage before an append.
#[derive(Debug)]
pub struct SpillRequest {
    pub data_dir: String,
    pub symbol: String,
    pub candles: Vec<Candle>,
}

/// One symbol's candles, and when it was last appended to.
pub struct SymbolView {
    pub candles: Seq<Candle>,
    pub last_access: u64,
}

/// What a store holds.
#[verifier::ext_equal]
pub struct StoreView {
    pub symbols: Map<Seq<char>, SymbolView>,
    pub max_symbols: usize,
    pub ring_capacity: usize,
    pub data_dir: Option<Seq<char>>,
    pub version: u64,
    pub tick: u64,
    pub evictions: u64,
    pub parquet_spill_bytes: u64,
    pub parquet_spill_errors: u64,
    pub appends_rejected: u64,
    pub invalid_candles: u64,
    pub out_of_order: u64,
}

/// What becomes of a candle.
pub enum Admission {
    Stored,
    Invalid,
    SpillFailed,
}

impl StoreView {
    /// A store without symbols.
    pub open spec fn empty(max_symbols: usize, ring_capacity: usize) -> StoreView {
        StoreView {
            symbols: Map::empty(),
            max_symbols,
            ring_capacity,
            data_dir: None,
            version: 0,
            tick: 0,
            evictions: 0,
            parquet_spill_bytes: 0,
            parquet_spill_errors: 0,
            appends_rejected: 0,
            invalid_candles: 0,
            out_of_order: 0,
        }
    }

    /// A symbol's candles: none where the symbol is not in the store.
    pub open spec fn candles(self, symbol: Seq<char>) -> Seq<Candle> {
        if self.symbols.contains_key(symbol) {
            self.symbols[symbol].candles
        } else {
            Seq::empty()
        }
    }

    /// The store can deal with the candle: its rings have slots, or the candle is
    /// refused in any case.
    pub open spec fn takes(self, candle: Candle) -> bool {
        self.ring_capacity > 0 || !candle.valid()
    }

    /// A new symbol has to take the place of another.
    pub open spec fn full(self) -> bool {
        &&& self.symbols.dom().len() > 0
        &&& self.symbols.dom().len() >= self.max_symbols
    }

    /// No symbol was appended to longer ago.
    pub open spec fn least_recent(self, symbol: Seq<char>) -> bool {
        &&& self.symbols.contains_key(symbol)
        &&& forall|other: Seq<char>| #[trigger]
            self.symbols.contains_key(other) ==> self.symbols[symbol].last_access
                <= self.symbols[other].last_access
    }

    /// Evicting a symbol writes it to cold storage.
    pub open spec fn spills(self, symbol: Seq<char>) -> bool {
        self.data_dir is Some && self.candles(symbol).len() > 0
    }

    /// The store with the symbol given these candles at the current tick, which
    /// is then used up.
    pub open spec fn with_symbol(self, symbol: Seq<char>, candles: Seq<Candle>) -> StoreView {
        StoreView {
            symbols: self.symbols.insert(symbol, SymbolView { candles, last_access: self.tick }),
            version: self.version.wrapping_add(1),
            tick: self.tick.wrapping_add(1),
            ..self
        }
    }

    /// The store after a push to a symbol that it has.
    pub open spec fn pushed(self, symbol: Seq<char>, candle: Candle) -> StoreView {
        let before = self.symbols[symbol].candles;
        StoreView {
            out_of_order: if ring_buffer::push_outcome(before, candle) is OutOfOrder {
                self.out_of_order.wrapping_add(1)
            } else {
                self.out_of_order
            },
            ..self.with_symbol(
                symbol,
                ring_buffer::pushed(before, self.ring_capacity as nat, candle),
            )
        }
    }

    /// The store without an evicted symbol.
    pub open spec fn without(self, symbol: Seq<char>) -> StoreView {
        StoreView {
            symbols: self.symbols.remove(symbol),
            evictions: self.evictions.wrapping_add(1),
            parquet_spill_bytes: if self.spills(symbol) {
                self.parquet_spill_bytes.wrapping_add(bytes_of(self.candles(symbol).len()))
            } else {
                self.parquet_spill_bytes
            },
            ..self
        }
    }

    /// What becomes of a candle, where `victim` is what a full store would evict
    /// and `spilled` says whether the spill succeeded.
    pub open spec fn admission(
        self,
        victim: Seq<char>,
        symbol: Seq<char>,
        candle: Candle,
        spilled: bool,
    ) -> Admission {
        if !candle.valid() {
            Admission::Invalid
        } else if !self.symbols.contains_key(symbol) && self.full() && self.spills(victim)
            && !spilled {
            Admission::SpillFailed
        } else {
            Admission::Stored
        }
    }

    /// The store after an append.
    pub open spec fn appended(
        self,
        victim: Seq<char>,
        symbol: Seq<char>,
        candle: Candle,
        spilled: bool,
    ) -> StoreView {
        match self.admission(victim, symbol, candle, spilled) {
            Admission::Invalid => StoreView {
                invalid_candles: self.invalid_candles.wrapping_add(1),
                ..self
            },
            Admission::SpillFailed => StoreView {
                tick: self.tick.wrapping_add(1),
                parquet_spill_errors: self.parquet_spill_errors.wrapping_add(1),
                ..self
            },
            Admission::Stored => if self.symbols.contains_key(symbol) {
                self.pushed(symbol, candle)
            } else if self.full() {
                self.without(victim).with_symbol(symbol, seq![candle])
            } else {
                self.with_symbol(symbol, seq![candle])
            },
        }
    }

    /// The store after an append that is counted as rejected where the spill
    /// failed.
    pub open spec fn taken_in(
        self,
        victim: Seq<char>,
        symbol: Seq<char>,
        candle: Candle,
        spilled: bool,
    ) -> StoreView {
        let after = self.appended(victim, symbol, candle, spilled);
        if self.admission(victim, symbol, candle, spilled) is SpillFailed {
            StoreView { appends_rejected: self.appends_rejected.wrapping_add(1), ..after }
        } else {
            after
        }
    }

    /// What holds of every store: there is room for at least one symbol and never
    /// more than the cap beyond that, and each symbol has at least one candle and
    /// never more than fit in its ring.
    pub open spec fn bounded(self) -> bool {
        &&& self.symbols.dom().finite()
        &&& self.symbols.dom().len() <= 1 || self.symbols.dom().len() <= self.max_symbols
        &&& forall|symbol: Seq<char>| #[trigger]
            self.symbols.contains_key(symbol) ==> 0 < self.symbols[symbol].candles.len()
                <= self.ring_capacity
    }
}

/// The bytes of so many candles.
pub open spec fn bytes_of(candles: nat) -> u64 {
    (candles as u64).wrapping_mul(CANDLE_BYTES as u64)
}

/// What a range query answers from its cold and its hot candles. Where it has only the
/// ones or the others, it answers those as they are.
pub open spec fn range_answer(
    data_dir: Option<Seq<char>>,
    cold: Seq<Candle>,
    hot: Seq<Candle>,
) -> Seq<Candle> {
    if data_dir is None || cold.len() == 0 {
        hot
    } else if hot.len() == 0 {
        cold
    } else {
        merge::merged(cold, hot)
    }
}

struct Slot {
    symbol: String,
    ring: RingBuffer,
    last_access: u64,
}

/// The first of the slots that were used least recently.
spec fn oldest(slots: Seq<Slot>) -> int
    decreases slots.len(),
{
    if slots.len() <= 1 {
        0
    } else {
        let before = oldest(slots.drop_last());
        if slots.last().last_access < slots[before].last_access {
            slots.len() - 1
        } else {
            before
        }
    }
}

proof fn lemma_oldest(slots: Seq<Slot>)
    requires
        slots.len() > 0,
    ensures
        0 <= oldest(slots) < slots.len(),
        forall|i: int|
            0 <= i < slots.len() ==> slots[oldest(slots)].last_access <= (
            #[trigger] slots[i]).last_access,
    decreases slots.len(),
{
    if slots.len() > 1 {
        lemma_oldest(slots.drop_last());
        assert forall|i: int| 0 <= i < slots.len() implies slots[oldest(slots)].last_access <= (
        #[trigger] slots[i]).last_access by {
            if i < slots.len() - 1 {
                assert(slots.drop_last()[i] == slots[i]);
            }
        }
    }
}

/// Embeddable store of hot candles.
///
/// Each symbol has a ring of its own. A store that is full evicts the symbol
/// that was appended to least recently; where a data directory is set, that
/// symbol's candles are written to cold storage first, and stay in the store
/// when the write fails.
pub struct CandleStore {
    index: SymbolIndex,
    slots: Vec<Slot>,
    max_symbols: usize,
    ring_capacity: usize,
    data_dir: Option<String>,
    version: u64,
    tick: u64,
    evictions: u64,
    parquet_spill_bytes: u64,
    parquet_spill_errors: u64,
    appends_rejected: u64,
    invalid_candles: u64,
    out_of_order: u64,
}

spec fn table(index: SymbolIndex, slots: Seq<Slot>) -> Map<Seq<char>, SymbolView> {
    Map::new(
        |symbol: Seq<char>| index::index_contents(index).contains_key(symbol),
        |symbol: Seq<char>|
            {
                let slot = slots[index::index_contents(index)[symbol] as int];
                SymbolView { candles: slot.ring.view(), last_access: slot.last_access }
            },
    )
}

/// The index leads to each slot by its symbol, and nowhere else.
spec fn indexed(index: SymbolIndex, slots: Seq<Slot>) -> bool {
    &&& forall|i: int|
        0 <= i < slots.len() ==> index::index_contents(index).contains_key(
            (#[trigger] slots[i]).symbol@,
        ) && index::index_contents(index)[slots[i].symbol@] == i
    &&& forall|symbol: Seq<char>| #[trigger]
        index::index_contents(index).contains_key(symbol) ==> {
            let i = index::index_contents(index)[symbol] as int;
            0 <= i < slots.len() && slots[i].symbol@ == symbol
        }
}

spec fn rings_ok(slots: Seq<Slot>, ring_capacity: usize) -> bool {
    forall|i: int|
        0 <= i < slots.len() ==> {
            let ring = (#[trigger] slots[i]).ring;
            ring.wf() && ring.cap() == ring_capacity && 0 < ring.view().len() <= ring_capacity
        }
}

/// There are as many symbols as slots.
proof fn lemma_count(index: SymbolIndex, slots: Seq<Slot>)
    requires
        indexed(index, slots),
    ensures
        table(index, slots).dom().finite(),
        table(index, slots).dom().len() == slots.len(),
{
    let names = slots.map_values(|s: Slot| s.symbol@);
    assert(names.no_duplicates()) by {
        assert forall|i: int, j: int| 0 <= i < names.len() && 0 <= j < names.len() && i != j implies
        names[i] != names[j] by {
            assert(names[i] == slots[i].symbol@ && names[j] == slots[j].symbol@);
        }
    }
    names.unique_seq_to_set();
    let dom = table(index, slots).dom();
    assert forall|k: Seq<char>| dom.contains(k) <==> names.to_set().contains(k) by {
        if dom.contains(k) {
            let i = index::index_contents(index)[k] as int;
            assert(names[i] == k);
        }
        if names.to_set().contains(k) {
            let i = choose|i: int| 0 <= i < names.len() && names[i] == k;
            assert(slots[i].symbol@ == k);
        }
    }
    assert(dom =~= names.to_set());
}

impl CandleStore {
    /// The index and the slots belong together, and every ring is in order.
    pub closed spec fn wf(&self) -> bool {
        &&& indexed(self.index, self.slots@)
        &&& rings_ok(self.slots@, self.ring_capacity)
        &&& self.slots@.len() <= 1 || self.slots@.len() <= self.max_symbols
    }

    /// What the store holds.
    pub closed spec fn view(&self) -> StoreView {
        StoreView {
            symbols: table(self.index, self.slots@),
            max_symbols: self.max_symbols,
            ring_capacity: self.ring_capacity,
            data_dir: match self.data_dir {
                Some(dir) => Some(dir@),
                None => None,
            },
            version: self.version,
            tick: self.tick,
            evictions: self.evictions,
            parquet_spill_bytes: self.parquet_spill_bytes,
            parquet_spill_errors: self.parquet_spill_errors,
            appends_rejected: self.appends_rejected,
            invalid_candles: self.invalid_candles,
            out_of_order: self.out_of_order,
        }
    }

    /// The symbol that a full store evicts next. Which one it is of several that
    /// were used at the same tick is left open.
    pub closed spec fn victim(&self) -> Seq<char> {
        self.slots@[oldest(self.slots@)].symbol@
    }

    /// Every store keeps its bounds, and what it evicts next is a symbol that was
    /// used least recently.
    pub proof fn lemma_bounded(&self)
        requires
            self.wf(),
        ensures
            self.view().bounded(),
            self.view().symbols.dom().len() > 0 ==> self.view().least_recent(self.victim()),
    {
        lemma_count(self.index, self.slots@);
        if self.slots@.len() > 0 {
            lemma_oldest(self.slots@);
            let i = oldest(self.slots@);
            assert(self.slots@[i].symbol@ == self.victim());
        }
    }

    /// A store with the default ring capacity.
    pub fn new(max_symbols: usize) -> (r: CandleStore)
        ensures
            r.wf(),
            r.view() == StoreView::empty(max_symbols, DEFAULT_RING_CAPACITY),
            r.view().ring_capacity == 10_000,
    {
        CandleStore::with_capacity(max_symbols, DEFAULT_RING_CAPACITY)
    }

    /// A store whose rings fit the hardware.
    pub fn from_hardware(max_symbols: usize, hw: &HardwareProfile) -> (r: CandleStore)
        ensures
            r.wf(),
            r.view() == StoreView::empty(max_symbols, hw.capacity_for(max_symbols) as usize),
            r.view().ring_capacity == hw.capacity_for(max_symbols),
    {
        CandleStore::with_capacity(max_symbols, hw.ring_capacity_for(max_symbols))
    }

    /// A store whose rings fit the hardware, all of which may be used.
    pub fn from_hardware_dedicated(max_symbols: usize, hw: &HardwareProfile) -> (r: CandleStore)
        ensures
            r.wf(),
            ({
                let whole = HardwareProfile { resource_fraction: Binary64 { bits: ONE }, ..*hw };
                &&& r.view() == StoreView::empty(
                    max_symbols,
                    whole.capacity_for(max_symbols) as usize,
                )
                &&& r.view().ring_capacity == whole.capacity_for(max_symbols)
            }),
    {
        let mut whole = *hw;
        whole.resource_fraction = Binary64::from_bits(ONE);
        CandleStore::from_hardware(max_symbols, &whole)
    }

    /// A store of rings with the given capacity.
    pub fn with_capacity(max_symbols: usize, ring_capacity: usize) -> (r: CandleStore)
        ensures
            r.wf(),
            r.view() == StoreView::empty(max_symbols, ring_capacity),
    {
        let r = CandleStore {
            index: SymbolIndex::new(),
            slots: Vec::new(),
            max_symbols,
            ring_capacity,
            data_dir: None,
            version: 0,
            tick: 0,
            evictions: 0,
            parquet_spill_bytes: 0,
            parquet_spill_errors: 0,
            appends_rejected: 0,
            invalid_candles: 0,
            out_of_order: 0,
        };
        assert(r.view().symbols =~= Map::<Seq<char>, SymbolView>::empty());
        r
    }

    /// Turn on cold storage: evicted symbols are spilled to the directory.
    pub fn with_data_dir(self, dir: &str) -> (r: CandleStore)
        requires
            self.wf(),
        ensures
            r.wf(),
            r.view() == (StoreView { data_dir: Some(dir@), ..self.view() }),
    {
        let mut r = self;
        r.data_dir = Some(dir.to_owned());
        r
    }

    /// The slot of a symbol.
    fn find(&self, symbol: &str) -> (r: Option<usize>)
        requires
            self.wf(),
        ensures
            match r {
                Some(i) => {
                    &&& self.view().symbols.contains_key(symbol@)
                    &&& i < self.slots@.len()
                    &&& self.slots@[i as int].symbol@ == symbol@
                    &&& self.view().symbols[symbol@] == (SymbolView {
                        candles: self.slots@[i as int].ring.view(),
                        last_access: self.slots@[i as int].last_access,
                    })
                },
                None => !self.view().symbols.contains_key(symbol@),
            },
    {
        self.index.get(symbol)
    }

    /// The slot that is evicted next.
    fn find_victim(&self) -> (r: usize)
        requires
            self.wf(),
            self.slots@.len() > 0,
        ensures
            r == oldest(self.slots@),
            r < self.slots@.len(),
    {
        let mut best: usize = 0;
        let mut i: usize = 1;
        assert(self.slots@.take(1).len() == 1);
        while i < self.slots.len()
            invariant
                1 <= i <= self.slots@.len(),
                best < i,
                best == oldest(self.slots@.take(i as int)),
            decreases self.slots@.len() - i,
        {
            assert(self.slots@.take(i + 1).drop_last() =~= self.slots@.take(i as int));
            if self.slots[i].last_access < self.slots[best].last_access {
                best = i;
            }
            i = i + 1;
        }
        assert(self.slots@.take(i as int) =~= self.slots@);
        best
    }

    /// What has to be spilled before the candle can be appended: the whole of the
    /// symbol that makes room for it, if there is one and cold storage is on.
    pub fn spill_request(&self, symbol: &str, candle: &Candle) -> (r: Option<SpillRequest>)
        requires
            self.wf(),
        ensures
            r is Some <==> candle.valid() && !self.view().symbols.contains_key(symbol@)
                && self.view().full() && self.view().spills(self.victim()),
            r matches Some(request) ==> {
                &&& self.view().least_recent(self.victim())
                &&& request.symbol@ == self.victim()
                &&& request.candles@ == self.view().candles(self.victim())
                &&& self.view().data_dir == Some(request.data_dir@)
            },
    {
        proof {
            self.lemma_bounded();
            lemma_count(self.index, self.slots@);
        }
        if !candle.is_valid() || self.find(symbol).is_some() {
            return None;
        }
        if self.slots.len() == 0 || self.slots.len() < self.max_symbols {
            return None;
        }
        let i = self.find_victim();
        match &self.data_dir {
            Some(dir) => Some(
                SpillRequest {
                    data_dir: dir.clone(),
                    symbol: self.slots[i].symbol.clone(),
                    candles: self.slots[i].ring.to_vec(),
                },
            ),
            None => None,
        }
    }

    /// Take out a slot.
    fn evict(&mut self, i: usize)
        requires
            indexed(old(self).index, old(self).slots@),
            i < old(self).slots@.len(),
        ensures
            indexed(final(self).index, final(self).slots@),
            final(self).slots@.len() == old(self).slots@.len() - 1,
            table(final(self).index, final(self).slots@) == table(
                old(self).index,
                old(self).slots@,
            ).remove(old(self).slots@[i as int].symbol@),
            forall|j: int|
                0 <= j < final(self).slots@.len() ==> old(self).slots@.contains(
                    #[trigger] final(self).slots@[j],
                ),
            *final(self) == (CandleStore {
                index: final(self).index,
                slots: final(self).slots,
                ..*old(self)
            }),
    {
        let ghost slots = self.slots@;
        let ghost before = index::index_contents(self.index);
        let slot = self.slots.swap_remove(i);
        self.index.remove(slot.symbol.as_str());
        if i < self.slots.len() {
            let moved = self.slots[i].symbol.clone();
            self.index.insert(moved, i);
        }
        proof {
            let after = index::index_contents(self.index);
            let gone = slots[i as int].symbol@;
            assert forall|j: int| 0 <= j < self.slots@.len() implies {
                &&& after.contains_key((#[trigger] self.slots@[j]).symbol@)
                &&& after[self.slots@[j].symbol@] == j
                &&& slots.contains(self.slots@[j])
            } by {
                let from = if j == i {
                    slots.len() - 1
                } else {
                    j
                };
                assert(self.slots@[j] == slots[from]);
                assert(before[slots[from].symbol@] == from);
                assert(before[gone] == i);
            }
            assert forall|symbol: Seq<char>| #[trigger] after.contains_key(symbol) implies {
                let j = after[symbol] as int;
                &&& before.contains_key(symbol)
                &&& symbol != gone
                &&& 0 <= j < self.slots@.len()
                &&& self.slots@[j].symbol@ == symbol
                &&& self.slots@[j] == slots[before[symbol] as int]
            } by {
                assert(before[gone] == i);
                if i < self.slots@.len() {
                    assert(before[slots[slots.len() - 1].symbol@] == slots.len() - 1);
                }
            }
            assert forall|symbol: Seq<char>|
                before.contains_key(symbol) && symbol != gone implies #[trigger] after.contains_key(
                symbol,
            ) by {}
            assert(table(self.index, self.slots@) =~= table(old(self).index, slots).remove(gone));
        }
    }

    /// Put in a symbol that is not there, making room for it in a full store.
    /// `spill` is the outcome of the spill request.
    fn try_insert_new(&mut self, symbol: &str, candle: Candle, spill: Result<(), SpillError>) -> (r:
        Result<(), AppendError>)
        requires
            old(self).wf(),
            old(self).view().ring_capacity > 0,
            candle.valid(),
            !old(self).view().symbols.contains_key(symbol@),
        ensures
            final(self).wf(),
            final(self).view() == old(self).view().appended(
                old(self).victim(),
                symbol@,
                candle,
                spill is Ok,
            ),
            (r is Ok) <==> old(self).view().admission(
                old(self).victim(),
                symbol@,
                candle,
                spill is Ok,
            ) is Stored,
            r is Err ==> {
                &&& r->Err_0 matches AppendError::EvictionSpillFailed {
                    evicted_symbol,
                    candles_lost,
                    source,
                }
                &&& evicted_symbol@ == old(self).victim()
                &&& candles_lost == old(self).view().candles(old(self).victim()).len()
                &&& spill == Err::<(), SpillError>(source)
            },
    {
        let ghost before = self.view();
        let ghost victim = self.victim();
        proof {
            lemma_count(self.index, self.slots@);
            self.lemma_bounded();
        }
        let tick = self.tick;
        self.tick = tick.wrapping_add(1);
        if self.slots.len() > 0 && self.slots.len() >= self.max_symbols {
            let i = self.find_victim();
            if self.data_dir.is_some() {
                let len = self.slots[i].ring.len();
                match spill {
                    Ok(()) => {
                        let bytes = (len as u64).wrapping_mul(CANDLE_BYTES as u64);
                        self.parquet_spill_bytes = self.parquet_spill_bytes.wrapping_add(bytes);
                    },
                    Err(source) => {
                        self.parquet_spill_errors = self.parquet_spill_errors.wrapping_add(1);
                        return Err(
                            AppendError::EvictionSpillFailed {
                                evicted_symbol: self.slots[i].symbol.clone(),
                                candles_lost: len,
                                source,
                            },
                        );
                    },
                }
            }
            self.evict(i);
            self.evictions = self.evictions.wrapping_add(1);
        }
        proof {
            lemma_count(self.index, self.slots@);
        }
        let ghost middle = self.view();
        let ghost slots = self.slots@;
        let ghost known = index::index_contents(self.index);
        let mut ring = RingBuffer::new(self.ring_capacity);
        let _ = ring.push(candle);
        assert(ring.view() =~= seq![candle]);
        let at = self.slots.len();
        self.index.insert(symbol.to_owned(), at);
        self.slots.push(Slot { symbol: symbol.to_owned(), ring, last_access: tick });
        self.version = self.version.wrapping_add(1);
        proof {
            assert(!known.contains_key(symbol@)) by {
                assert(!middle.symbols.contains_key(symbol@));
            }
            assert forall|j: int| 0 <= j < self.slots@.len() implies {
                &&& index::index_contents(self.index).contains_key(
                    (#[trigger] self.slots@[j]).symbol@,
                )
                &&& index::index_contents(self.index)[self.slots@[j].symbol@] == j
            } by {
                if j < slots.len() {
                    assert(self.slots@[j] == slots[j]);
                    assert(known.contains_key(slots[j].symbol@));
                }
            }
            assert forall|other: Seq<char>| #[trigger]
                index::index_contents(self.index).contains_key(other) implies {
                let j = index::index_contents(self.index)[other] as int;
                0 <= j < self.slots@.len() && self.slots@[j].symbol@ == other
            } by {
                if other != symbol@ {
                    assert(known.contains_key(other));
                }
            }
            assert(indexed(self.index, self.slots@));
            assert(table(self.index, self.slots@) =~= middle.symbols.insert(
                symbol@,
                SymbolView { candles: seq![candle], last_access: tick },
            )) by {
                assert forall|other: Seq<char>|
                    #![auto]
                    known.contains_key(other) implies slots[known[other] as int]
                    == self.slots@[known[other] as int] by {}
            }
        }
        Ok(())
    }

    /// Append a candle to a symbol's ring.
    ///
    /// `spill` is the outcome of writing out what [`CandleStore::spill_request`]
    /// asked for; it counts only where something was asked for. An invalid candle
    /// and a failed spill are refused, and the candles in the store stay as they
    /// are. A candle whose timestamp goes backwards is stored and counted.
    pub fn try_append(&mut self, symbol: &str, candle: Candle, spill: Result<(), SpillError>) -> (r:
        Result<(), AppendError>)
        requires
            old(self).wf(),
            old(self).view().takes(candle),
        ensures
            final(self).wf(),
            final(self).view() == old(self).view().appended(
                old(self).victim(),
                symbol@,
                candle,
                spill is Ok,
            ),
            old(self).view().full() ==> old(self).view().least_recent(old(self).victim()),
            match old(self).view().admission(old(self).victim(), symbol@, candle, spill is Ok) {
                Admission::Stored => r is Ok,
                Admission::Invalid => r matches Err(AppendError::InvalidCandle { symbol: refused })
                    && refused@ == symbol@,
                Admission::SpillFailed => {
                    &&& r matches Err(
                        AppendError::EvictionSpillFailed { evicted_symbol, candles_lost, source },
                    )
                    &&& evicted_symbol@ == old(self).victim()
                    &&& candles_lost == old(self).view().candles(old(self).victim()).len()
                    &&& spill == Err::<(), SpillError>(source)
                },
            },
    {
        proof {
            self.lemma_bounded();
        }
        if !candle.is_valid() {
            self.invalid_candles = self.invalid_candles.wrapping_add(1);
            return Err(AppendError::InvalidCandle { symbol: symbol.to_owned() });
        }
        let found = self.find(symbol);
        if let Some(i) = found {
            let ghost slots = self.slots@;
            let ghost before = self.view();
            let tick = self.tick;
            self.tick = tick.wrapping_add(1);
            self.slots[i].last_access = tick;
            let outcome = self.slots[i].ring.push(candle);
            if let PushOutcome::OutOfOrder { .. } = outcome {
                self.out_of_order = self.out_of_order.wrapping_add(1);
            }
            self.version = self.version.wrapping_add(1);
            proof {
                assert(self.slots@ =~= slots.update(i as int, self.slots@[i as int]));
                assert forall|j: int| 0 <= j < self.slots@.len() implies (
                #[trigger] self.slots@[j]).symbol@ == slots[j].symbol@ by {}
                assert(indexed(self.index, self.slots@));
                assert(rings_ok(self.slots@, self.ring_capacity));
                assert(self.view().symbols =~= before.pushed(symbol@, candle).symbols);
            }
            return Ok(());
        }
        self.try_insert_new(symbol, candle, spill)
    }

    /// Append a candle and count it as rejected where a spill failed.
    pub fn append(&mut self, symbol: &str, candle: Candle, spill: Result<(), SpillError>)
        requires
            old(self).wf(),
            old(self).view().takes(candle),
        ensures
            final(self).wf(),
            old(self).view().full() ==> old(self).view().least_recent(old(self).victim()),
            final(self).view() == old(self).view().taken_in(
                old(self).victim(),
                symbol@,
                candle,
                spill is Ok,
            ),
    {
        let r = self.try_append(symbol, candle, spill);
        if let Err(AppendError::EvictionSpillFailed { .. }) = r {
            self.appends_rejected = self.appends_rejected.wrapping_add(1);
        }
    }

    /// The symbol's candles with `from_ts <= ts <= to_ts`: those in its ring,
    /// merged where cold storage is on with `cold`, which is what cold storage
    /// holds of them, if there are any of both.
    pub fn range(&self, symbol: &str, from_ts: i64, to_ts: i64, cold: Vec<Candle>) -> (r: Vec<
        Candle,
    >)
        requires
            self.wf(),
        ensures
            r@ == range_answer(
                self.view().data_dir,
                cold@,
                ring_buffer::range_of(self.view().candles(symbol@), from_ts, to_ts),
            ),
            ({
                let hot = ring_buffer::range_of(self.view().candles(symbol@), from_ts, to_ts);
                self.view().data_dir is Some && cold@.len() > 0 && hot.len() > 0
                    && ring_buffer::ascending(cold@) && ring_buffer::ascending(hot)
                    ==> merge::is_merge(cold@, hot, r@)
            }),
    {
        proof {
            lemma_range_of_nothing(from_ts, to_ts);
        }
        let found = self.find(symbol);
        let hot = if let Some(i) = found {
            self.slots[i].ring.range(from_ts, to_ts)
        } else {
            Vec::new()
        };
        assert(hot@ =~= ring_buffer::range_of(self.view().candles(symbol@), from_ts, to_ts));
        if self.data_dir.is_none() || cold.len() == 0 {
            return hot;
        }
        if hot.len() == 0 {
            return cold;
        }
        merge::merge_by_ts(cold, hot)
    }

    /// The last `n` candles of the symbol's ring, or all of them. Cold storage is
    /// not asked.
    pub fn last_n(&self, symbol: &str, n: usize) -> (r: Vec<Candle>)
        requires
            self.wf(),
        ensures
            r@ == ring_buffer::last_of(self.view().candles(symbol@), n as nat),
    {
        let found = self.find(symbol);
        if let Some(i) = found {
            self.slots[i].ring.last_n(n)
        } else {
            Vec::new()
        }
    }

    /// The number of symbols in the store.
    pub fn symbol_count(&self) -> (r: usize)
        requires
            self.wf(),
        ensures
            r == self.view().symbols.dom().len(),
    {
        proof {
            lemma_count(self.index, self.slots@);
        }
        self.slots.len()
    }

    /// The number of candles in the symbol's ring.
    pub fn candle_count(&self, symbol: &str) -> (r: usize)
        requires
            self.wf(),
        ensures
            r == self.view().candles(symbol@).len(),
    {
        let found = self.find(symbol);
        if let Some(i) = found {
            self.slots[i].ring.len()
        } else {
            0
        }
    }

    /// The append counter.
    pub fn version(&self) -> (r: u64)
        ensures
            r == self.view().version,
    {
        self.version
    }

    /// The version, if it has advanced past the one that was seen.
    pub fn changed_since(&self, last_seen: u64) -> (r: Option<u64>)
        ensures
            r == if self.view().version > last_seen {
                Some(self.view().version)
            } else {
                None
            },
    {
        if self.version > last_seen {
            Some(self.version)
        } else {
            None
        }
    }

    /// The version, once it has advanced past the one that was seen.
    pub fn wait_for_change(&self, last_seen: u64) -> (r: u64)
        requires
            self.view().version > last_seen,
        ensures
            r == self.view().version,
            r > last_seen,
    {
        self.version
    }

    /// Advance the version without an append, so that whoever waits for a change
    /// goes on.
    pub fn signal_waiters(&mut self)
        requires
            old(self).wf(),
        ensures
            final(self).wf(),
            final(self).view() == (StoreView {
                version: old(self).view().version.wrapping_add(1),
                ..old(self).view()
            }),
    {
        self.version = self.version.wrapping_add(1);
    }

    /// The counters.
    pub fn snapshot(&self) -> (r: StoreSnapshot)
        requires
            self.wf(),
        ensures
            r.appends_total == self.view().version,
            r.symbol_count == self.view().symbols.dom().len(),
            r.max_symbols == self.view().max_symbols,
            r.ring_capacity == self.view().ring_capacity,
            r.evictions_total == self.view().evictions,
            r.parquet_spill_bytes_total == self.view().parquet_spill_bytes,
            r.parquet_spill_errors_total == self.view().parquet_spill_errors,
            r.appends_rejected_total == self.view().appends_rejected,
            r.invalid_candles_total == self.view().invalid_candles,
            r.out_of_order_total == self.view().out_of_order,
    {
        StoreSnapshot {
            appends_total: self.version,
            symbol_count: self.symbol_count(),
            max_symbols: self.max_symbols,
            ring_capacity: self.ring_capacity,
            evictions_total: self.evictions,
            parquet_spill_bytes_total: self.parquet_spill_bytes,
            parquet_spill_errors_total: self.parquet_spill_errors,
            appends_rejected_total: self.appends_rejected,
            invalid_candles_total: self.invalid_candles,
            out_of_order_total: self.out_of_order,
        }
    }
}

impl Default for StoreSnapshot {
    fn default() -> (r: StoreSnapshot)
        ensures
            r == (StoreSnapshot {
                appends_total: 0,
                symbol_count: 0,
                max_symbols: 0,
                ring_capacity: 0,
                evictions_total: 0,
                parquet_spill_bytes_total: 0,
                parquet_spill_errors_total: 0,
                appends_rejected_total: 0,
                invalid_candles_total: 0,
                out_of_order_total: 0,
            }),
    {
        StoreSnapshot {
            appends_total: 0,
            symbol_count: 0,
            max_symbols: 0,
            ring_capacity: 0,
            evictions_total: 0,
            parquet_spill_bytes_total: 0,
            parquet_spill_errors_total: 0,
            appends_rejected_total: 0,
            invalid_candles_total: 0,
            out_of_order_total: 0,
        }
    }
}

proof fn lemma_range_of_nothing(from_ts: i64, to_ts: i64)
    ensures
        ring_buffer::range_of(Seq::empty(), from_ts, to_ts) == Seq::<Candle>::empty(),
{
    let nothing = ring_buffer::range_of(Seq::empty(), from_ts, to_ts);
    assert(nothing =~= Seq::<Candle>::empty());
}

/// A candle that is not admitted leaves every symbol as it was, and the version
/// too.
pub proof fn lemma_refused_append_keeps_data(
    s: StoreView,
    victim: Seq<char>,
    symbol: Seq<char>,
    candle: Candle,
    spilled: bool,
)
    requires
        !(s.admission(victim, symbol, candle, spilled) is Stored),
    ensures
        s.appended(victim, symbol, candle, spilled).symbols == s.symbols,
        s.appended(victim, symbol, candle, spilled).version == s.version,
        s.appended(victim, symbol, candle, spilled).evictions == s.evictions,
{
}

/// A candle that is admitted is the newest of its symbol, and the version goes up
/// by one.
pub proof fn lemma_admitted_append_is_newest(
    s: StoreView,
    victim: Seq<char>,
    symbol: Seq<char>,
    candle: Candle,
    spilled: bool,
)
    requires
        s.admission(victim, symbol, candle, spilled) is Stored,
    ensures
        s.appended(victim, symbol, candle, spilled).candles(symbol).len() > 0,
        s.appended(victim, symbol, candle, spilled).candles(symbol).last() == candle,
        s.appended(victim, symbol, candle, spilled).version == s.version.wrapping_add(1),
{
}

/// An append touches no other symbol than its own, but for the one that it
/// evicts, and it evicts only to make room for a symbol that is not there.
pub proof fn lemma_append_leaves_other_symbols(
    s: StoreView,
    victim: Seq<char>,
    symbol: Seq<char>,
    candle: Candle,
    spilled: bool,
    other: Seq<char>,
)
    requires
        other != symbol,
        other != victim || s.symbols.contains_key(symbol) || !s.full(),
    ensures
        s.appended(victim, symbol, candle, spilled).symbols.contains_key(other)
            == s.symbols.contains_key(other),
        s.appended(victim, symbol, candle, spilled).candles(other) == s.candles(other),
{
}

/// The lifetime counters and what else there is beside the symbols stay as they were,
/// but for those that are given.
pub open spec fn counters_are(
    after: StoreView,
    before: StoreView,
    version: u64,
    evictions: u64,
    spill_bytes: u64,
    spill_errors: u64,
    invalid: u64,
    out_of_order: u64,
) -> bool {
    &&& after.version == version
    &&& after.evictions == evictions
    &&& after.parquet_spill_bytes == spill_bytes
    &&& after.parquet_spill_errors == spill_errors
    &&& after.invalid_candles == invalid
    &&& after.out_of_order == out_of_order
    &&& after.max_symbols == before.max_symbols
    &&& after.ring_capacity == before.ring_capacity
    &&& after.data_dir == before.data_dir
}

/// A candle with a negative timestamp, or with any number that is not finite, is refused,
/// whatever its symbol: it is counted as invalid and changes nothing else. Any other
/// candle is not refused for what it is.
pub proof fn lemma_invalid_candle_is_refused(
    s: StoreView,
    victim: Seq<char>,
    symbol: Seq<char>,
    c: Candle,
    spilled: bool,
)
    ensures
        ({
            let after = s.appended(victim, symbol, c, spilled);
            let bad = c.ts < 0 || !c.open.finite() || !c.high.finite() || !c.low.finite()
                || !c.close.finite() || !c.volume.finite();
            &&& bad ==> after.symbols == s.symbols && after.tick == s.tick && counters_are(
                after,
                s,
                s.version,
                s.evictions,
                s.parquet_spill_bytes,
                s.parquet_spill_errors,
                s.invalid_candles.wrapping_add(1),
                s.out_of_order,
            )
            &&& !bad ==> after.invalid_candles == s.invalid_candles
            &&& bad ==> s.taken_in(victim, symbol, c, spilled) == after
        }),
{
}

/// A candle of a symbol that is there goes to its ring, behind the others, and pushes out
/// the oldest where the ring is full. No other symbol changes, and nothing is evicted; the
/// version goes up by one, and the candle is counted as out of order just where its
/// timestamp is before that of the newest.
pub proof fn lemma_append_to_known_symbol(
    s: StoreView,
    victim: Seq<char>,
    symbol: Seq<char>,
    c: Candle,
    spilled: bool,
)
    requires
        c.valid(),
        s.symbols.contains_key(symbol),
        0 < s.symbols[symbol].candles.len() <= s.ring_capacity,
    ensures
        ({
            let after = s.appended(victim, symbol, c, spilled);
            let old = s.symbols[symbol].candles;
            let new = after.symbols[symbol].candles;
            let lost = if old.len() < s.ring_capacity {
                0int
            } else {
                1int
            };
            &&& after.symbols.dom() == s.symbols.dom()
            &&& new.len() == old.len() - lost + 1
            &&& new[new.len() - 1] == c
            &&& forall|i: int| 0 <= i < old.len() - lost ==> #[trigger] new[i] == old[i + lost]
            &&& forall|other: Seq<char>|
                other != symbol && #[trigger] s.symbols.contains_key(other)
                    ==> after.symbols[other] == s.symbols[other]
            &&& after.symbols[symbol].last_access == s.tick
            &&& after.tick == s.tick.wrapping_add(1)
            &&& counters_are(
                after,
                s,
                s.version.wrapping_add(1),
                s.evictions,
                s.parquet_spill_bytes,
                s.parquet_spill_errors,
                s.invalid_candles,
                if c.ts < old[old.len() - 1].ts {
                    s.out_of_order.wrapping_add(1)
                } else {
                    s.out_of_order
                },
            )
        }),
{
    let after = s.appended(victim, symbol, c, spilled);
    ring_buffer::lemma_push_loses_the_oldest(
        s.symbols[symbol].candles,
        s.ring_capacity as nat,
        c,
    );
    assert(after.symbols.dom() =~= s.symbols.dom());
}

/// A candle of a new symbol starts a ring of its own. As long as there are fewer symbols
/// than the cap, or none at all, all others stay; after that one of them goes, with all
/// its candles, and is counted as evicted, with 48 bytes for each of its candles where it
/// was spilled. Where it could not be spilled, it stays instead and the candle does not
/// come in.
pub proof fn lemma_append_of_new_symbol(
    s: StoreView,
    victim: Seq<char>,
    symbol: Seq<char>,
    c: Candle,
    spilled: bool,
)
    requires
        c.valid(),
        !s.symbols.contains_key(symbol),
        s.symbols.contains_key(victim) ==> s.symbols[victim].candles.len() > 0,
        s.symbols.dom().finite(),
    ensures
        ({
            let after = s.appended(victim, symbol, c, spilled);
            let n = s.symbols.dom().len();
            let room = n == 0 || n < s.max_symbols;
            let cold = s.data_dir is Some && s.symbols.contains_key(victim);
            &&& after.tick == s.tick.wrapping_add(1)
            &&& room ==> {
                &&& after.symbols.dom() == s.symbols.dom().insert(symbol)
                &&& forall|other: Seq<char>| #[trigger]
                    s.symbols.contains_key(other) ==> after.symbols[other] == s.symbols[other]
                &&& counters_are(
                    after,
                    s,
                    s.version.wrapping_add(1),
                    s.evictions,
                    s.parquet_spill_bytes,
                    s.parquet_spill_errors,
                    s.invalid_candles,
                    s.out_of_order,
                )
            }
            &&& !room && (spilled || !cold) ==> {
                &&& after.symbols.dom() == s.symbols.dom().remove(victim).insert(symbol)
                &&& forall|other: Seq<char>|
                    other != victim && #[trigger] s.symbols.contains_key(other)
                        ==> after.symbols[other] == s.symbols[other]
                &&& counters_are(
                    after,
                    s,
                    s.version.wrapping_add(1),
                    s.evictions.wrapping_add(1),
                    if cold {
                        s.parquet_spill_bytes.wrapping_add(
                            (s.symbols[victim].candles.len() as u64).wrapping_mul(48),
                        )
                    } else {
                        s.parquet_spill_bytes
                    },
                    s.parquet_spill_errors,
                    s.invalid_candles,
                    s.out_of_order,
                )
            }
            &&& room || spilled || !cold ==> {
                &&& after.symbols[symbol].candles == seq![c]
                &&& after.symbols[symbol].last_access == s.tick
                &&& s.taken_in(victim, symbol, c, spilled).appends_rejected == s.appends_rejected
            }
            &&& !room && cold && !spilled ==> {
                &&& after.symbols == s.symbols
                &&& counters_are(
                    after,
                    s,
                    s.version,
                    s.evictions,
                    s.parquet_spill_bytes,
                    s.parquet_spill_errors.wrapping_add(1),
                    s.invalid_candles,
                    s.out_of_order,
                )
                &&& s.taken_in(victim, symbol, c, spilled).appends_rejected
                    == s.appends_rejected.wrapping_add(1)
            }
        }),
{
    let after = s.appended(victim, symbol, c, spilled);
    if s.symbols.dom().len() == 0 || s.symbols.dom().len() < s.max_symbols {
        assert(after.symbols.dom() =~= s.symbols.dom().insert(symbol));
    } else if spilled || !(s.data_dir is Some && s.symbols.contains_key(victim)) {
        assert(after.symbols.dom() =~= s.symbols.dom().remove(victim).insert(symbol));
    }
}

/// What a query answers: without cold storage what is in the ring, and with it whatever
/// there is on one side where the other has nothing. Where both have something, the
/// timestamps of both are answered, each once and in order, with the cold candle where
/// both have one.
pub proof fn lemma_what_is_answered(
    data_dir: Option<Seq<char>>,
    cold: Seq<Candle>,
    hot: Seq<Candle>,
    ts: i64,
)
    requires
        ring_buffer::ascending(cold),
        ring_buffer::ascending(hot),
    ensures
        ({
            let out = range_answer(data_dir, cold, hot);
            &&& data_dir is None ==> out == hot
            &&& data_dir is Some && cold.len() == 0 ==> out == hot
            &&& data_dir is Some && hot.len() == 0 ==> out == cold
            &&& data_dir is Some && cold.len() > 0 && hot.len() > 0 ==> {
                &&& forall|i: int, j: int|
                    #![trigger out[i], out[j]]
                    0 <= i < j < out.len() ==> out[i].ts < out[j].ts
                &&& (exists|k: int| 0 <= k < out.len() && (#[trigger] out[k]).ts == ts) <==> (exists|
                    k: int,
                |
                    0 <= k < cold.len() && (#[trigger] cold[k]).ts == ts) || (exists|k: int|
                    0 <= k < hot.len() && (#[trigger] hot[k]).ts == ts)
                &&& forall|i: int|
                    0 <= i < out.len() ==> cold.contains(#[trigger] out[i]) || (hot.contains(
                        out[i],
                    ) && forall|k: int|
                        0 <= k < cold.len() ==> (#[trigger] cold[k]).ts != out[i].ts)
            }
        }),
{
    let out = range_answer(data_dir, cold, hot);
    if data_dir is Some && cold.len() == 0 && hot.len() == 0 {
        assert(hot =~= cold);
    }
    if data_dir is Some && cold.len() > 0 && hot.len() > 0 {
        merge::lemma_merged(cold, hot);
        assert(merge::has_ts(out, ts) <==> merge::has_ts(cold, ts) || merge::has_ts(hot, ts));
        assert forall|i: int| 0 <= i < out.len() implies cold.contains(#[trigger] out[i]) || (
        hot.contains(out[i]) && forall|k: int|
            0 <= k < cold.len() ==> (#[trigger] cold[k]).ts != out[i].ts) by {
            if !merge::first_at(cold, out[i]) {
                assert(merge::first_at(hot, out[i]));
                assert(!merge::has_ts(cold, out[i].ts));
            }
        }
    }
}

/// No two symbols were last used at the same tick, and none at a tick to come.
pub open spec fn ticks_differ(s: StoreView) -> bool {
    &&& forall|a: Seq<char>| #[trigger]
        s.symbols.contains_key(a) ==> s.symbols[a].last_access < s.tick
    &&& forall|a: Seq<char>, b: Seq<char>|
        #![trigger s.symbols[a], s.symbols[b]]
        s.symbols.contains_key(a) && s.symbols.contains_key(b) && a != b
            ==> s.symbols[a].last_access != s.symbols[b].last_access
}

/// Until the tick counter is used up, appends keep the ticks apart.
pub proof fn lemma_append_keeps_ticks_apart(
    s: StoreView,
    victim: Seq<char>,
    symbol: Seq<char>,
    candle: Candle,
    spilled: bool,
)
    requires
        ticks_differ(s),
        s.tick < u64::MAX,
    ensures
        ticks_differ(s.appended(victim, symbol, candle, spilled)),
{
    let after = s.appended(victim, symbol, candle, spilled);
    assert forall|a: Seq<char>, b: Seq<char>|
        #![trigger after.symbols[a], after.symbols[b]]
        after.symbols.contains_key(a) && after.symbols.contains_key(b) && a
            != b implies after.symbols[a].last_access != after.symbols[b].last_access by {
        if a != symbol && b != symbol {
            assert(after.symbols[a] == s.symbols[a] && after.symbols[b] == s.symbols[b]);
        }
    }
}

/// As long as the ticks differ there is one least recently used symbol only.
pub proof fn lemma_least_recent_is_one(s: StoreView, a: Seq<char>, b: Seq<char>)
    requires
        ticks_differ(s),
        s.least_recent(a),
        s.least_recent(b),
    ensures
        a == b,
{
    if a != b {
        assert(s.symbols[a].last_access != s.symbols[b].last_access);
    }
}

/// The symbol that was appended to last is not the one that is evicted next, as
/// long as there is another and the ticks differ.
pub proof fn lemma_newest_symbol_stays(
    s: StoreView,
    victim: Seq<char>,
    symbol: Seq<char>,
    candle: Candle,
    spilled: bool,
    other: Seq<char>,
)
    requires
        ticks_differ(s),
        s.tick < u64::MAX,
        s.admission(victim, symbol, candle, spilled) is Stored,
        other != symbol,
        s.appended(victim, symbol, candle, spilled).symbols.contains_key(other),
    ensures
        !s.appended(victim, symbol, candle, spilled).least_recent(symbol),
{
    let after = s.appended(victim, symbol, candle, spilled);
    assert(s.symbols.contains_key(other));
    assert(after.symbols[other].last_access < after.symbols[symbol].last_access);
}

/// A store whose symbols all have room evicts nothing: neither an append to a symbol
/// that is there nor one to a new symbol of a store that is not full.
pub proof fn lemma_nothing_evicted_while_there_is_room(
    s: StoreView,
    victim: Seq<char>,
    symbol: Seq<char>,
    candle: Candle,
    spilled: bool,
)
    requires
        s.symbols.dom().finite(),
        s.symbols.dom().insert(symbol).len() <= s.max_symbols,
    ensures
        s.appended(victim, symbol, candle, spilled).evictions == s.evictions,
        s.symbols.dom().subset_of(s.appended(victim, symbol, candle, spilled).symbols.dom()),
        !(s.admission(victim, symbol, candle, spilled) is SpillFailed),
{
}

/// A candle that was taken in is found again by a query around its timestamp, as
/// long as the symbol's timestamps ascend.
pub proof fn lemma_appended_candle_is_answered(
    s: StoreView,
    victim: Seq<char>,
    symbol: Seq<char>,
    candle: Candle,
    spilled: bool,
    from_ts: i64,
    to_ts: i64,
)
    requires
        s.admission(victim, symbol, candle, spilled) is Stored,
        from_ts <= candle.ts <= to_ts,
        ring_buffer::ascending(s.appended(victim, symbol, candle, spilled).candles(symbol)),
    ensures
        ring_buffer::range_of(
            s.appended(victim, symbol, candle, spilled).candles(symbol),
            from_ts,
            to_ts,
        ).contains(candle),
{
    let candles = s.appended(victim, symbol, candle, spilled).candles(symbol);
    lemma_admitted_append_is_newest(s, victim, symbol, candle, spilled);
    ring_buffer::lemma_range_is_filter(candles, from_ts, to_ts);
    broadcast use vstd::seq_lib::group_filter_ensures;
    let keep = |c: Candle| from_ts <= c.ts <= to_ts;
    assert(keep(candles[candles.len() - 1]));
}

/// The timestamp of a candle that was evicted and spilled is in the answer to every
/// later query around it, whatever the symbol's ring holds by then, and so is the
/// candle itself where no other was spilled with its timestamp. `files` are what the
/// query looked at, and `cold` is what it found in them.
pub proof fn lemma_evicted_candle_is_answered(
    dir: Seq<char>,
    files: Seq<Seq<u8>>,
    k: int,
    spilled: Seq<Candle>,
    c: Candle,
    from_ts: i64,
    to_ts: i64,
    cold: Seq<Candle>,
    hot: Seq<Candle>,
)
    requires
        0 <= k < files.len(),
        file::holds(files[k], spilled),
        spilled.contains(c),
        from_ts <= c.ts <= to_ts,
        ring_buffer::ascending(cold),
        cold.to_multiset() == file::found_in(files, from_ts, to_ts).to_multiset(),
    ensures
        merge::has_ts(range_answer(Some(dir), cold, hot), c.ts),
        ring_buffer::ascending(hot) && (forall|other: Candle| #[trigger]
            cold.contains(other) && other.ts == c.ts ==> other == c) ==> range_answer(
            Some(dir),
            cold,
            hot,
        ).contains(c),
{
    file::lemma_no_spilled_candle_is_missed(files, k, spilled, c, from_ts, to_ts);
    file::found_in(files, from_ts, to_ts).to_multiset_ensures();
    cold.to_multiset_ensures();
    assert(cold.to_multiset().count(c) > 0);
    assert(cold.contains(c));
    let at = choose|i: int| 0 <= i < cold.len() && cold[i] == c;
    assert(cold[at].ts == c.ts);
    assert(merge::has_ts(cold, c.ts));
    merge::lemma_merged_ts(cold, hot, c.ts);
    if hot.len() > 0 && ring_buffer::ascending(hot) {
        merge::lemma_merged(cold, hot);
        let out = merge::merged(cold, hot);
        let i = choose|i: int| 0 <= i < out.len() && (#[trigger] out[i]).ts == c.ts;
        assert(merge::first_at(cold, out[i]));
        assert(cold.contains(out[i]));
    }
}

/// A new store has no symbols and has counted nothing.
pub proof fn lemma_new_store_is_empty(max_symbols: usize, ring_capacity: usize, symbol: Seq<char>)
    ensures
        ({
            let s = StoreView::empty(max_symbols, ring_capacity);
            &&& s.symbols.dom().len() == 0
            &&& s.candles(symbol).len() == 0
            &&& s.max_symbols == max_symbols
            &&& s.ring_capacity == ring_capacity
            &&& s.data_dir is None
            &&& s.appends_rejected == 0
            &&& counters_are(s, s, 0, 0, 0, 0, 0, 0)
            &&& ticks_differ(s)
        }),
{
}

} // verus!
