//! The mathematical model of the free map: the set of free regions as a map
//! from start offset to length, and the transitions that `allocate` and
//! `free` perform on that map.

use vstd::prelude::*;

use crate::AllocationStrategy;

verus! {

/// A map of free regions, each spanning `[o, o + r[o])`, is well formed for
/// a managed range `[0, total)` when every region is non-empty and lies
/// inside the range, and no two regions overlap or touch. The latter is the
/// maximality invariant: adjacent free regions are always merged, so the
/// address just before a free region's start and the address at its end are
/// never free themselves.
pub open spec fn regions_wf(r: Map<u64, u64>, total: u64) -> bool {
    &&& forall|o: u64| #[trigger] r.contains_key(o) ==> 0 < r[o] && o + r[o] <= total
    &&& forall|o1: u64, o2: u64|
        #![trigger r.contains_key(o1), r.contains_key(o2)]
        r.contains_key(o1) && r.contains_key(o2) && o1 != o2 ==> o1 + r[o1] < o2 || o2 + r[o2]
            < o1
}

/// The set of addresses that lie in some free region.
pub open spec fn free_addrs(r: Map<u64, u64>) -> Set<int> {
    Set::new(|a: int| exists|o: u64| #[trigger] r.contains_key(o) && o <= a < o + r[o])
}

/// Some free region can satisfy a request of `len` units.
pub open spec fn can_fit(r: Map<u64, u64>, len: u64) -> bool {
    exists|o: u64| #[trigger] r.contains_key(o) && len <= r[o]
}

/// What each strategy promises of the length of the region it chose for a
/// request of `len` units: the smallest sufficient length for FirstFit and
/// BestFit, the largest length present for WorstFit.
pub open spec fn chosen_len_ok(
    strategy: AllocationStrategy,
    r: Map<u64, u64>,
    len: u64,
    chosen: u64,
) -> bool {
    match strategy {
        AllocationStrategy::FirstFit | AllocationStrategy::BestFit => forall|o: u64|
            #[trigger] r.contains_key(o) && len <= r[o] ==> chosen <= r[o],
        AllocationStrategy::WorstFit => forall|o: u64| #[trigger] r.contains_key(o) ==> r[o]
            <= chosen,
    }
}

/// The range `[off, off + len)` touches no free region: it is entirely
/// allocated space.
pub open spec fn disjoint_from_free(r: Map<u64, u64>, off: u64, len: u64) -> bool {
    forall|o: u64| #[trigger] r.contains_key(o) ==> o + r[o] <= off || off + len <= o
}

/// The free regions after allocating `[off, off + len)` out of the free
/// region starting at `off`: that region is taken out, and on a non-exact
/// fit the residual `[off + len, off + r[off])` becomes a free region of its
/// own.
pub open spec fn alloc_after(r: Map<u64, u64>, off: u64, len: u64) -> Map<u64, u64> {
    if r[off] == len {
        r.remove(off)
    } else {
        r.remove(off).insert((off + len) as u64, (r[off] - len) as u64)
    }
}

/// A free region ends exactly at `a`.
pub open spec fn has_region_ending_at(r: Map<u64, u64>, a: u64) -> bool {
    exists|s: u64| #[trigger] r.contains_key(s) && s + r[s] == a
}

/// The start of the free region ending exactly at `a`; meaningful only where
/// `has_region_ending_at` holds, and unique under `regions_wf`.
pub open spec fn region_ending_at(r: Map<u64, u64>, a: u64) -> u64 {
    choose|s: u64| #[trigger] r.contains_key(s) && s + r[s] == a
}

/// The free regions after giving `[off, off + len)` back: the range is
/// merged with the free region ending at `off` and with the one starting at
/// `off + len`, where those exist, and the single merged region replaces
/// them.
pub open spec fn free_after(r: Map<u64, u64>, off: u64, len: u64) -> Map<u64, u64> {
    if len == 0 {
        r
    } else {
        let end = (off + len) as u64;
        let start = if has_region_ending_at(r, off) {
            region_ending_at(r, off)
        } else {
            off
        };
        let stop = if r.contains_key(end) {
            end + r[end]
        } else {
            end as int
        };
        let r1 = if has_region_ending_at(r, off) {
            r.remove(start)
        } else {
            r
        };
        let r2 = if r.contains_key(end) {
            r1.remove(end)
        } else {
            r1
        };
        r2.insert(start, (stop - start) as u64)
    }
}

} // verus!
