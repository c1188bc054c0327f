//! The boundary index: an ordered map from address to a small record, making
//! coalescing on `free` a pair of logarithmic point lookups.
//!
//! Each free region `[s, s + l)` leaves two records: `(l, true)` at its start
//! `s`, and `(l, false)` at its end `s + l`. A record `(l, false)` at address
//! `a` therefore says "a free region of length `l` ends exactly here", and a
//! record `(l, true)` at `a` says "a free region of length `l` starts exactly
//! here".

use vstd::prelude::*;

use crate::btree::{bound_entries, bound_map_get, bound_map_insert, bound_map_new, bound_map_remove};

verus! {

pub(crate) struct BoundaryIndex {
    pub(crate) map: btree_slab::BTreeMap<u64, (u64, bool)>,
}

impl BoundaryIndex {
    /// The records, by address: the length of the adjacent free region, and
    /// whether that region starts (`true`) or ends (`false`) at the address.
    pub(crate) open spec fn entries(self) -> Map<u64, (u64, bool)> {
        bound_entries(self.map)
    }

    pub(crate) fn new() -> (b: BoundaryIndex)
        ensures
            b.entries() == Map::<u64, (u64, bool)>::empty(),
    {
        let b = BoundaryIndex { map: bound_map_new() };
        proof {
            assert(b.entries() =~= Map::<u64, (u64, bool)>::empty());
        }
        b
    }

    /// The length of the free region ending exactly at `offset`, if any.
    pub(crate) fn left_adjacent_free(&self, offset: u64) -> (r: Option<u64>)
        ensures
            r == (if self.entries().contains_key(offset) && !self.entries()[offset].1 {
                Some(self.entries()[offset].0)
            } else {
                Option::<u64>::None
            }),
    {
        match bound_map_get(&self.map, offset) {
            Some(rec) => if !rec.1 {
                Some(rec.0)
            } else {
                None
            },
            None => None,
        }
    }

    /// The length of the free region starting exactly at `end`, if any.
    pub(crate) fn right_adjacent_free(&self, end: u64) -> (r: Option<u64>)
        ensures
            r == (if self.entries().contains_key(end) && self.entries()[end].1 {
                Some(self.entries()[end].0)
            } else {
                Option::<u64>::None
            }),
    {
        match bound_map_get(&self.map, end) {
            Some(rec) => if rec.1 {
                Some(rec.0)
            } else {
                None
            },
            None => None,
        }
    }

    /// Records that a free region of length `len` starts at `addr`: a start
    /// record at `addr` and an end record at `addr + len`.
    pub(crate) fn set_free_start(&mut self, addr: u64, len: u64)
        requires
            addr + len <= u64::MAX,
        ensures
            final(self).entries() == old(self).entries().insert(addr, (len, true)).insert(
                (addr + len) as u64,
                (len, false),
            ),
    {
        bound_map_insert(&mut self.map, addr, (len, true));
        bound_map_insert(&mut self.map, addr + len, (len, false));
    }

    /// Clears the two records of the free region starting at `addr`.
    pub(crate) fn clear(&mut self, addr: u64)
        requires
            old(self).entries().contains_key(addr),
            old(self).entries()[addr].1,
            addr + old(self).entries()[addr].0 <= u64::MAX,
        ensures
            final(self).entries() == old(self).entries().remove(addr).remove(
                (addr + old(self).entries()[addr].0) as u64,
            ),
    {
        match bound_map_get(&self.map, addr) {
            Some(rec) => {
                bound_map_remove(&mut self.map, addr);
                bound_map_remove(&mut self.map, addr + rec.0);
            },
            None => {},
        }
    }
}

} // verus!
