//! The table from symbols to slots, kept in a hash map of the `hashbrown` crate.

use vstd::prelude::*;

verus! {

/// Where each symbol is stored: a `hashbrown::HashMap` from symbols to slot
/// numbers. The map's allocator bound is private to its crate, so the map is held
/// here in a field that is hidden from the verifier.
#[verifier::external_body]
pub struct SymbolIndex {
    map: hashbrown::HashMap<String, usize>,
}

/// What a symbol index holds.
pub uninterp spec fn index_contents(index: SymbolIndex) -> Map<Seq<char>, usize>;

impl SymbolIndex {
    /// Calls `hashbrown::HashMap::new`, which makes a map without entries.
    #[verifier::external_body]
    pub(crate) fn new() -> (r: SymbolIndex)
        ensures
            index_contents(r).dom() == Set::<Seq<char>>::empty(),
    {
        SymbolIndex { map: hashbrown::HashMap::new() }
    }

    /// Calls `hashbrown::HashMap::get`, which finds the value of a key that is
    /// there and nothing for one that is not. Keys are equal when their characters
    /// are.
    #[verifier::external_body]
    pub(crate) fn get(&self, symbol: &str) -> (r: Option<usize>)
        ensures
            r == if index_contents(*self).contains_key(symbol@) {
                Some(index_contents(*self)[symbol@])
            } else {
                None
            },
    {
        self.map.get(symbol).copied()
    }

    /// Calls `hashbrown::HashMap::insert`, which gives the key the value, in place
    /// of any value that it had, and leaves the other keys as they were.
    #[verifier::external_body]
    pub(crate) fn insert(&mut self, symbol: String, slot: usize)
        ensures
            index_contents(*final(self)) == index_contents(*old(self)).insert(symbol@, slot),
    {
        self.map.insert(symbol, slot);
    }

    /// Calls `hashbrown::HashMap::remove`, which takes out the key, if it is
    /// there, and leaves the other keys as they were.
    #[verifier::external_body]
    pub(crate) fn remove(&mut self, symbol: &str)
        ensures
            index_contents(*final(self)) == index_contents(*old(self)).remove(symbol@),
    {
        self.map.remove(symbol);
    }
}

} // verus!
