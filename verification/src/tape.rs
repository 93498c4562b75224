//! The tape: unbounded in both directions, blank wherever nothing was
//! written.

use std::collections::HashMap;
use vstd::prelude::*;
use vstd::string::StringSliceAdditionalSpecFns;

verus! {

/// The symbol of a cell that was never written.
pub const BLANK: u8 = 0;

/// The cells that a text occupies when it is laid out from position 0.
pub open spec fn written(bytes: Seq<u8>) -> Map<i32, u8> {
    Map::new(|p: i32| 0 <= p < bytes.len(), |p: i32| bytes[p as int])
}

/// What a tape with the written cells `cells` shows at `pos`.
pub open spec fn symbol_at(cells: Map<i32, u8>, pos: i32) -> u8 {
    if cells.contains_key(pos) {
        cells[pos]
    } else {
        BLANK
    }
}

/// A sparse tape. Its view is the map from the positions written so far to
/// the symbols they hold.
#[derive(Debug, Clone, PartialEq, Eq)]
pub struct Tape {
    cells: HashMap<i32, u8>,
}

impl View for Tape {
    type V = Map<i32, u8>;

    closed spec fn view(&self) -> Map<i32, u8> {
        self.cells@
    }
}

impl Tape {
    /// A tape on which nothing is written.
    pub fn new() -> (tape: Self)
        ensures
            tape@ == Map::<i32, u8>::empty(),
    {
        Tape { cells: HashMap::new() }
    }

    /// A tape that holds the bytes of `text` from position 0 on.
    pub fn from(text: &str) -> (tape: Self)
        requires
            text.spec_bytes().len() <= i32::MAX,
        ensures
            tape@ == written(text.spec_bytes()),
    {
        broadcast use vstd::std_specs::hash::group_hash_axioms;

        let bytes = text.as_bytes();
        let mut cells: HashMap<i32, u8> = HashMap::new();
        let mut i: usize = 0;
        while i < bytes.len()
            invariant
                i <= bytes.len() <= i32::MAX,
                cells@ == written(bytes@.take(i as int)),
            decreases bytes.len() - i,
        {
            cells.insert(i as i32, bytes[i]);
            assert(cells@ =~= written(bytes@.take(i + 1)));
            i += 1;
        }
        assert(bytes@.take(i as int) =~= bytes@);
        Tape { cells }
    }

    /// The symbol at `pos`; blank if the cell was never written.
    pub fn get(&self, pos: i32) -> (sym: u8)
        ensures
            sym == symbol_at(self@, pos),
    {
        broadcast use vstd::std_specs::hash::group_hash_axioms;

        match self.cells.get(&pos) {
            Some(sym) => *sym,
            None => BLANK,
        }
    }

    /// Writes `sym` at `pos`. No cell is ever forgotten.
    pub fn set(&mut self, pos: i32, sym: u8)
        ensures
            final(self)@ == old(self)@.insert(pos, sym),
    {
        broadcast use vstd::std_specs::hash::group_hash_axioms;

        self.cells.insert(pos, sym);
    }
}

} // verus!
