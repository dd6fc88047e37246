//! The periodic-table collaborator, at its interface boundary.
//!
//! The importer only resolves element symbols to atomic numbers (and back
//! for display); the table itself is data the caller supplies.

use vstd::prelude::*;
use crate::text::str_eq_chars;

verus! {

/// Symbol-to-atomic-number lookup table. Entries are searched in order;
/// the first match wins.
pub struct PeriodicTable {
    pub entries: Vec<(String, i32)>,
}

/// The number of the first entry whose symbol is `sym`.
pub open spec fn spec_lookup(entries: Seq<(String, i32)>, sym: Seq<char>) -> Option<i32>
    decreases entries.len(),
{
    if entries.len() == 0 {
        None
    } else if entries[0].0@ == sym {
        Some(entries[0].1)
    } else {
        spec_lookup(entries.drop_first(), sym)
    }
}

/// The symbol of the first entry whose number is `n`.
pub open spec fn spec_lookup_number(entries: Seq<(String, i32)>, n: i32) -> Option<Seq<char>>
    decreases entries.len(),
{
    if entries.len() == 0 {
        None
    } else if entries[0].1 == n {
        Some(entries[0].0@)
    } else {
        spec_lookup_number(entries.drop_first(), n)
    }
}

impl PeriodicTable {
    /// A table with no elements.
    pub fn new() -> (r: PeriodicTable)
        ensures
            r.entries@.len() == 0,
    {
        PeriodicTable { entries: Vec::new() }
    }

    /// Registers one element at the end of the table.
    pub fn push_element(&mut self, symbol: String, number: i32)
        ensures
            final(self).entries@ == old(self).entries@.push((symbol, number)),
    {
        self.entries.push((symbol, number));
    }

    /// Resolves an element symbol given as characters.
    pub fn lookup_chars(&self, sym: &[char]) -> (r: Option<i32>)
        ensures
            r == spec_lookup(self.entries@, sym@),
    {
        let n = self.entries.len();
        let mut i: usize = 0;
        proof {
            assert(self.entries@.skip(0) =~= self.entries@);
        }
        while i < n
            invariant
                i <= n,
                n == self.entries@.len(),
                spec_lookup(self.entries@, sym@) == spec_lookup(
                    self.entries@.skip(i as int),
                    sym@,
                ),
            decreases n - i,
        {
            let entry = &self.entries[i];
            proof {
                assert(self.entries@.skip(i as int)[0] == self.entries@[i as int]);
                assert(self.entries@.skip(i as int).drop_first() =~= self.entries@.skip(
                    i + 1 as int,
                ));
            }
            if str_eq_chars(entry.0.as_str(), sym) {
                return Some(entry.1);
            }
            i += 1;
        }
        None
    }

    /// Resolves an element symbol, as the importer's parsers use it.
    pub fn symbol_to_atomic_number(&self, symbol: &str) -> (r: Option<i32>)
        ensures
            r == spec_lookup(self.entries@, symbol@),
    {
        let cs = crate::text::to_chars(symbol);
        self.lookup_chars(cs.as_slice())
    }

    /// The symbol registered for an atomic number, for display.
    pub fn atomic_number_to_symbol(&self, n: i32) -> (r: Option<String>)
        ensures
            r is Some <==> spec_lookup_number(self.entries@, n) is Some,
            r is Some ==> r->0@ == spec_lookup_number(self.entries@, n)->0,
    {
        let len = self.entries.len();
        let mut i: usize = 0;
        proof {
            assert(self.entries@.skip(0) =~= self.entries@);
        }
        while i < len
            invariant
                i <= len,
                len == self.entries@.len(),
                spec_lookup_number(self.entries@, n) == spec_lookup_number(
                    self.entries@.skip(i as int),
                    n,
                ),
            decreases len - i,
        {
            let entry = &self.entries[i];
            proof {
                assert(self.entries@.skip(i as int)[0] == self.entries@[i as int]);
                assert(self.entries@.skip(i as int).drop_first() =~= self.entries@.skip(
                    i + 1 as int,
                ));
            }
            if entry.1 == n {
                return Some(entry.0.clone());
            }
            i += 1;
        }
        None
    }
}

} // verus!
