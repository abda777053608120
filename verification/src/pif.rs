//! The Program Internal Form: the ordered sequence of recognized terminals.
//! A reserved lexeme enters as its catalogue code with no position; an
//! identifier or constant enters as the sentinel code `-1` with its symbol
//! table position.

use vstd::prelude::*;
use crate::symbol_table::SymbolTablePosition;

verus! {

/// One PIF entry. The position is present exactly when the code is the
/// sentinel `-1`.
#[derive(Debug, Clone, Copy)]
pub struct PIFEntry {
    pub token: isize,
    pub st_pos: Option<SymbolTablePosition>,
}

impl PIFEntry {
    /// The position stands there if and only if the code is the sentinel.
    pub open spec fn well_formed(&self) -> bool {
        (self.st_pos is Some) <==> self.token == -1
    }
}

#[derive(Debug)]
pub struct PIF {
    pif: Vec<PIFEntry>,
}

impl PIF {
    /// The entries, in source order.
    pub closed spec fn entries(&self) -> Seq<PIFEntry> {
        self.pif@
    }

    pub open spec fn well_formed(&self) -> bool {
        forall|i: int| 0 <= i < self.entries().len() ==> (#[trigger] self.entries()[i]).well_formed()
    }

    pub fn new() -> (r: Self)
        ensures
            r.entries() == Seq::<PIFEntry>::empty(),
            r.well_formed(),
    {
        Self { pif: Vec::new() }
    }

    pub fn add(&mut self, entry: PIFEntry)
        requires
            entry.well_formed(),
            old(self).well_formed(),
        ensures
            final(self).entries() == old(self).entries().push(entry),
            final(self).well_formed(),
    {
        self.pif.push(entry);
        proof {
            assert forall|i: int|
                0 <= i < self.entries().len() implies (#[trigger] self.entries()[i]).well_formed()
                by {
                if i < self.entries().len() - 1 {
                    assert(self.entries()[i] == old(self).entries()[i]);
                }
            }
        }
    }

    pub fn len(&self) -> (n: usize)
        ensures
            n == self.entries().len(),
    {
        self.pif.len()
    }

    pub fn get(&self, i: usize) -> (e: &PIFEntry)
        requires
            (i as int) < self.entries().len(),
        ensures
            *e == self.entries()[i as int],
    {
        &self.pif[i]
    }
}

} // verus!
