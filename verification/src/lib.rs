//! Free-space bookkeeping for a linear address range.
//!
//! A [`FreeMap`] tracks which sub-ranges of `[0, total_len)` are free and
//! which are allocated, without owning the underlying storage. `allocate`
//! finds a free region under a configurable fit strategy; `free` gives a
//! range back and eagerly merges it with any adjacent free region, so that
//! the set of free regions is always maximal: no two free regions touch.

use vstd::prelude::*;

mod boundary;
mod btree;
pub mod laws;
pub mod model;
mod size_index;

use crate::boundary::BoundaryIndex;
use crate::model::{
    alloc_after, can_fit, chosen_len_ok, disjoint_from_free, free_after, has_region_ending_at,
    region_ending_at, regions_wf,
};
use crate::size_index::SizeIndex;

verus! {

/// No free region of sufficient size exists.
#[derive(Debug, PartialEq, Eq)]
pub struct AllocationFailed;

/// Policy choosing which free region satisfies an allocation request.
#[derive(Clone, Copy, PartialEq, Eq, Debug)]
pub enum AllocationStrategy {
    /// Takes the smallest sufficient size bucket; minimises allocation time.
    FirstFit,

    /// Always takes the largest free region; keeps leftover fragments large,
    /// which minimises external fragmentation.
    WorstFit,

    /// Takes the smallest sufficient size bucket, preferring an exact match;
    /// minimises memory waste.
    BestFit,
}

/// An allocated region, granted by [`FreeMap::allocate`].
#[derive(Clone, Copy, Debug)]
pub struct Allocation {
    /// Offset of the allocated region.
    pub offset: u64,

    /// Size of the allocated region.
    pub len: u64,
}

/// Decodes an index stored with `usize::MAX` as the "no index" sentinel.
pub fn index(i: usize) -> (r: Option<usize>)
    ensures
        r == (if i == usize::MAX { Option::<usize>::None } else { Option::Some(i) }),
{
    if i == usize::MAX {
        None
    } else {
        Some(i)
    }
}

/// Tracks the free sub-ranges of one linear address range `[0, total_len)`.
///
/// The size-keyed index serves `allocate`; the boundary index lets `free`
/// find the free regions adjacent to the range being freed with point
/// lookups, so that it can merge them eagerly.
pub struct FreeMap {
    /// Configured allocation strategy.
    strategy: AllocationStrategy,

    /// Length of the managed range.
    total: u64,

    /// Maps a region length to the start offsets of the free regions of
    /// exactly that length.
    sizes: SizeIndex,

    /// Maps an address to the length of the free region starting or ending
    /// exactly there.
    bounds: BoundaryIndex,
}

impl FreeMap {
    /// The free regions: each start offset with the length of the free
    /// region starting there.
    pub closed spec fn regions(self) -> Map<u64, u64> {
        Map::new(
            |s: u64| self.bounds.entries().contains_key(s) && self.bounds.entries()[s].1,
            |s: u64| self.bounds.entries()[s].0,
        )
    }

    /// The length of the managed range.
    pub closed spec fn total_len(self) -> u64 {
        self.total
    }

    /// The configured allocation strategy.
    pub closed spec fn strategy(self) -> AllocationStrategy {
        self.strategy
    }

    /// Every boundary record describes a free region: a start record at `a`
    /// has its end record at `a + l`, an end record at `a` has its start
    /// record at `a - l`.
    spec fn bounds_wf(self) -> bool {
        let e = self.bounds.entries();
        forall|a: u64| #[trigger]
            e.contains_key(a) ==> {
                if e[a].1 {
                    &&& 0 < e[a].0
                    &&& a + e[a].0 <= self.total
                    &&& e.contains_key((a + e[a].0) as u64)
                    &&& e[(a + e[a].0) as u64] == (e[a].0, false)
                } else {
                    &&& 0 < e[a].0
                    &&& e[a].0 <= a
                    &&& e.contains_key((a - e[a].0) as u64)
                    &&& e[(a - e[a].0) as u64] == (e[a].0, true)
                }
            }
    }

    /// The size-keyed index holds exactly the free regions: an offset sits
    /// in the bucket for `l` if and only if a free region of length `l`
    /// starts there.
    spec fn sizes_wf(self) -> bool {
        &&& self.sizes.wf()
        &&& forall|l: u64, off: u64| #[trigger]
            self.sizes.bucket_has(l, off) ==> self.regions().contains_key(off)
                && self.regions()[off] == l
        &&& forall|off: u64| #[trigger]
            self.regions().contains_key(off) ==> self.sizes.bucket_has(self.regions()[off], off)
    }

    /// The joint invariant of the two indices: the free regions are well
    /// formed (inside the range, pairwise disjoint and never adjacent), and
    /// both indices record exactly those regions.
    pub closed spec fn inv(self) -> bool {
        &&& regions_wf(self.regions(), self.total)
        &&& self.bounds_wf()
        &&& self.sizes_wf()
    }

    /// The invariant gives the well-formedness of the free regions over the
    /// public model, so the laws of [`crate::laws`] apply to any map that
    /// holds it.
    pub proof fn lemma_inv_regions_wf(&self)
        requires
            self.inv(),
        ensures
            regions_wf(self.regions(), self.total_len()),
    {
    }

    /// Takes the free region `[start, start + rlen)` out of both indices.
    fn detach(&mut self, start: u64, rlen: u64)
        requires
            old(self).inv(),
            old(self).regions().contains_key(start),
            old(self).regions()[start] == rlen,
        ensures
            final(self).inv(),
            final(self).total == old(self).total,
            final(self).strategy == old(self).strategy,
            final(self).regions() == old(self).regions().remove(start),
    {
        let ghost r0 = old(self).regions();
        let ghost e0 = old(self).bounds.entries();
        let ghost rend = (start + rlen) as u64;
        proof {
            assert(old(self).sizes.bucket_has(rlen, start));
            assert(e0.contains_key(start) && e0[start] == (rlen, true));
            // the end record of this region
            assert(e0.contains_key(rend) && e0[rend] == (rlen, false));
        }
        self.sizes.remove_one(rlen, start);
        self.bounds.clear(start);
        proof {
            let e1 = self.bounds.entries();
            let r1 = self.regions();
            assert(e1 == e0.remove(start).remove(rend));

            // no other region starts or ends at `start` or at `rend`
            assert forall|o: u64| #[trigger] r0.contains_key(o) && o != start implies o != rend
                && o + r0[o] != start && o + r0[o] != rend by {
                assert(r0.contains_key(start));
                if o == rend {
                    assert(e0[rend].1);
                }
            }

            assert(r1 =~= r0.remove(start)) by {
                assert forall|s: u64| #![auto] r1.contains_key(s) implies r0.remove(
                    start,
                ).contains_key(s) by {
                    assert(e0.contains_key(s) && e0[s].1);
                }
                assert forall|s: u64| #![auto] r0.remove(start).contains_key(s) implies r1
                    .contains_key(s) && r1[s] == r0[s] by {
                    assert(r0.contains_key(s));
                    assert(s != start);
                    assert(s != rend);
                }
            }

            // the boundary records that stay keep their partner records
            assert forall|a: u64| #[trigger] e1.contains_key(a) implies {
                if e1[a].1 {
                    &&& 0 < e1[a].0
                    &&& a + e1[a].0 <= self.total
                    &&& e1.contains_key((a + e1[a].0) as u64)
                    &&& e1[(a + e1[a].0) as u64] == (e1[a].0, false)
                } else {
                    &&& 0 < e1[a].0
                    &&& e1[a].0 <= a
                    &&& e1.contains_key((a - e1[a].0) as u64)
                    &&& e1[(a - e1[a].0) as u64] == (e1[a].0, true)
                }
            } by {
                assert(e0.contains_key(a) && e0[a] == e1[a]);
                if e1[a].1 {
                    let p = (a + e0[a].0) as u64;
                    assert(r0.contains_key(a) && r0[a] == e0[a].0);
                    assert(a != start);
                    assert(p != start && p != rend);
                } else {
                    let p = (a - e0[a].0) as u64;
                    assert(e0.contains_key(p) && e0[p] == (e0[a].0, true));
                    assert(r0.contains_key(p) && r0[p] == e0[a].0);
                    assert(p != start) by {
                        if p == start {
                            assert(a == rend);
                        }
                    }
                    assert(p != rend);
                    assert(p + e0[p].0 == a);
                }
            }

            // the size index matches the remaining regions
            assert forall|l: u64, off: u64| #[trigger] self.sizes.bucket_has(l, off) implies r1
                .contains_key(off) && r1[off] == l by {
                if l == rlen && old(self).sizes.buckets()[rlen].len() == 1 {
                    assert(!self.sizes.buckets().contains_key(rlen));
                } else {
                    assert(old(self).sizes.bucket_has(l, off));
                    if l == rlen {
                        assert(off != start);
                    } else {
                        assert(r0[off] == l);
                        assert(off != start);
                    }
                }
            }
            assert forall|off: u64| #[trigger] r1.contains_key(off) implies self.sizes.bucket_has(
                r1[off],
                off,
            ) by {
                assert(r0.contains_key(off) && off != start);
                assert(old(self).sizes.bucket_has(r0[off], off));
                if r0[off] == rlen {
                    let oldb = old(self).sizes.buckets()[rlen];
                    let i = choose|i: int| 0 <= i < oldb.len() && oldb[i] == off;
                    let j = choose|j: int| 0 <= j < oldb.len() && oldb[j] == start;
                    assert(oldb[i] != oldb[j]);
                    assert(oldb.len() > 1);
                }
            }
        }
    }

    /// Records the free region `[start, start + rlen)` in both indices. The
    /// region must be strictly separated from every current free region.
    fn attach(&mut self, start: u64, rlen: u64)
        requires
            old(self).inv(),
            0 < rlen,
            start + rlen <= old(self).total,
            forall|o: u64| #[trigger]
                old(self).regions().contains_key(o) ==> o + old(self).regions()[o] < start || start
                    + rlen < o,
        ensures
            final(self).inv(),
            final(self).total == old(self).total,
            final(self).strategy == old(self).strategy,
            final(self).regions() == old(self).regions().insert(start, rlen),
    {
        let ghost r0 = old(self).regions();
        let ghost e0 = old(self).bounds.entries();
        let ghost rend = (start + rlen) as u64;
        proof {
            assert(!e0.contains_key(start)) by {
                if e0.contains_key(start) {
                    if e0[start].1 {
                        assert(r0.contains_key(start));
                    } else {
                        let l = e0[start].0;
                        let p = (start - l) as u64;
                        assert(e0.contains_key(p) && e0[p] == (l, true));
                        assert(r0.contains_key(p) && r0[p] == l);
                        assert(p + r0[p] == start);
                    }
                }
            }
            assert(!e0.contains_key(rend)) by {
                if e0.contains_key(rend) {
                    if e0[rend].1 {
                        assert(r0.contains_key(rend));
                    } else {
                        let l = e0[rend].0;
                        let p = (rend - l) as u64;
                        assert(e0.contains_key(p) && e0[p] == (l, true));
                        assert(r0.contains_key(p) && r0[p] == l);
                        assert(p + r0[p] == rend);
                    }
                }
            }
            assert(!old(self).sizes.bucket_has(rlen, start)) by {
                if old(self).sizes.bucket_has(rlen, start) {
                    assert(r0.contains_key(start));
                }
            }
        }
        self.sizes.insert_one(rlen, start);
        self.bounds.set_free_start(start, rlen);
        proof {
            let e1 = self.bounds.entries();
            let r1 = self.regions();
            assert(e1 == e0.insert(start, (rlen, true)).insert(rend, (rlen, false)));

            assert(r1 =~= r0.insert(start, rlen)) by {
                assert forall|s: u64| #![auto] r1.contains_key(s) implies r0.insert(
                    start,
                    rlen,
                ).contains_key(s) && r1[s] == r0.insert(start, rlen)[s] by {
                    if s != start && s != rend {
                        assert(e0.contains_key(s) && e0[s].1);
                    }
                }
                assert forall|s: u64| #![auto] r0.insert(start, rlen).contains_key(s) implies r1
                    .contains_key(s) by {
                    if s != start {
                        assert(r0.contains_key(s));
                        assert(e0.contains_key(s) && e0[s].1);
                        assert(s != rend);
                    }
                }
            }

            assert(regions_wf(r1, self.total)) by {
                assert forall|o: u64| #[trigger] r1.contains_key(o) implies 0 < r1[o] && o + r1[o]
                    <= self.total by {
                    if o != start {
                        assert(r0.contains_key(o));
                    }
                }
                assert forall|o1: u64, o2: u64|
                    r1.contains_key(o1) && r1.contains_key(o2) && o1 != o2 implies o1 + r1[o1] < o2
                    || o2 + r1[o2] < o1 by {
                    if o1 != start && o2 != start {
                        assert(r0.contains_key(o1) && r0.contains_key(o2));
                    } else if o1 == start {
                        assert(r0.contains_key(o2));
                    } else {
                        assert(r0.contains_key(o1));
                    }
                }
            }

            assert forall|a: u64| #[trigger] e1.contains_key(a) implies {
                if e1[a].1 {
                    &&& 0 < e1[a].0
                    &&& a + e1[a].0 <= self.total
                    &&& e1.contains_key((a + e1[a].0) as u64)
                    &&& e1[(a + e1[a].0) as u64] == (e1[a].0, false)
                } else {
                    &&& 0 < e1[a].0
                    &&& e1[a].0 <= a
                    &&& e1.contains_key((a - e1[a].0) as u64)
                    &&& e1[(a - e1[a].0) as u64] == (e1[a].0, true)
                }
            } by {
                if a == start {
                    assert(e1[a] == (rlen, true));
                    assert(e1.contains_key(rend) && e1[rend] == (rlen, false));
                } else if a == rend {
                    assert(e1[a] == (rlen, false));
                    assert((a - e1[a].0) as u64 == start);
                } else {
                    assert(e0.contains_key(a) && e0[a] == e1[a]);
                    if e0[a].1 {
                        let p = (a + e0[a].0) as u64;
                        assert(e0.contains_key(p));
                        assert(p != start && p != rend);
                    } else {
                        let p = (a - e0[a].0) as u64;
                        assert(e0.contains_key(p));
                        assert(p != start && p != rend);
                    }
                }
            }

            let ghost oldb = if old(self).sizes.buckets().contains_key(rlen) {
                old(self).sizes.buckets()[rlen]
            } else {
                Seq::<u64>::empty()
            };
            let ghost newb = oldb.push(start);
            assert(self.sizes.buckets() == old(self).sizes.buckets().insert(rlen, newb));
            assert forall|x: u64| #![auto] newb.contains(x) <==> (oldb.contains(x) || x == start) by {
                if newb.contains(x) {
                    let j = choose|j: int| 0 <= j < newb.len() && newb[j] == x;
                    if j < oldb.len() {
                        assert(oldb[j] == x);
                    }
                }
                if oldb.contains(x) {
                    let j = choose|j: int| 0 <= j < oldb.len() && oldb[j] == x;
                    assert(newb[j] == x);
                }
                assert(newb[newb.len() - 1] == start);
            }

            assert forall|l: u64, off: u64| #[trigger] self.sizes.bucket_has(l, off) implies r1
                .contains_key(off) && r1[off] == l by {
                if l == rlen {
                    if off != start {
                        assert(oldb.contains(off));
                        assert(old(self).sizes.bucket_has(rlen, off));
                        assert(r0.contains_key(off));
                    }
                } else {
                    assert(old(self).sizes.bucket_has(l, off));
                    assert(r0.contains_key(off) && r0[off] == l);
                    assert(off != start);
                }
            }
            assert forall|off: u64| #[trigger] r1.contains_key(off) implies self.sizes.bucket_has(
                r1[off],
                off,
            ) by {
                if off == start {
                    assert(newb.contains(start));
                } else {
                    assert(r0.contains_key(off));
                    assert(old(self).sizes.bucket_has(r0[off], off));
                    if r0[off] == rlen {
                        assert(newb.contains(off));
                    }
                }
            }
        }
    }

    /// Creates a free map for the range `[0, total_len)`, entirely free: it
    /// starts with the one region `[0, total_len)` (with none at all when
    /// the range is empty).
    pub fn new(total_len: u64, strategy: AllocationStrategy) -> (fm: FreeMap)
        ensures
            fm.inv(),
            fm.total_len() == total_len,
            fm.strategy() == strategy,
            fm.regions() == (if total_len == 0 {
                Map::<u64, u64>::empty()
            } else {
                map![0u64 => total_len]
            }),
    {
        let mut fm = FreeMap {
            strategy,
            total: total_len,
            sizes: SizeIndex::new(),
            bounds: BoundaryIndex::new(),
        };
        proof {
            assert(fm.regions() =~= Map::<u64, u64>::empty());
        }
        if total_len > 0 {
            fm.attach(0, total_len);
            proof {
                assert(fm.regions() =~= map![0u64 => total_len]);
            }
        }
        fm
    }

    /// Allocates a range of `len` units.
    ///
    /// On success the returned range `[offset, offset + len)` was the start
    /// of a free region chosen by the configured strategy; it leaves the
    /// free partition, and any residual of the chosen region becomes a free
    /// region of its own. `AllocationFailed` comes exactly when no free
    /// region of sufficient size exists, and then nothing changes. A request
    /// of zero units trivially succeeds at the start of the range, touching
    /// nothing.
    pub fn allocate(&mut self, len: u64) -> (r: Result<Allocation, AllocationFailed>)
        requires
            old(self).inv(),
        ensures
            final(self).inv(),
            final(self).total_len() == old(self).total_len(),
            final(self).strategy() == old(self).strategy(),
            len == 0 ==> (r matches Ok(a) && a.offset == 0 && a.len == 0 && *final(self) == *old(
                self,
            )),
            len > 0 ==> match r {
                Ok(a) => {
                    &&& a.len == len
                    &&& old(self).regions().contains_key(a.offset)
                    &&& len <= old(self).regions()[a.offset]
                    &&& chosen_len_ok(
                        old(self).strategy(),
                        old(self).regions(),
                        len,
                        old(self).regions()[a.offset],
                    )
                    &&& final(self).regions() == alloc_after(old(self).regions(), a.offset, len)
                },
                Err(_) => !can_fit(old(self).regions(), len) && *final(self) == *old(self),
            },
            len > 0 && can_fit(old(self).regions(), len) ==> r is Ok,
    {
        if len == 0 {
            return Ok(Allocation { offset: 0, len: 0 });
        }
        let ghost r0 = old(self).regions();
        match self.sizes.find_free_region(len, self.strategy) {
            None => {
                proof {
                    if can_fit(r0, len) {
                        let o = choose|o: u64| #[trigger] r0.contains_key(o) && len <= r0[o];
                        assert(self.sizes.bucket_has(r0[o], o));
                        assert(self.sizes.buckets().contains_key(r0[o]));
                    }
                }
                Err(AllocationFailed)
            },
            Some((off, rlen)) => {
                proof {
                    assert(self.sizes.bucket_has(rlen, off));
                    assert(r0.contains_key(off) && r0[off] == rlen);
                    assert forall|o: u64| #[trigger] r0.contains_key(o) implies self.sizes.buckets()
                        .dom().contains(r0[o]) by {
                        assert(self.sizes.bucket_has(r0[o], o));
                    }
                    assert(chosen_len_ok(self.strategy, r0, len, rlen));
                }
                self.detach(off, rlen);
                if rlen > len {
                    let new_off = off + len;
                    let new_len = rlen - len;
                    proof {
                        assert forall|o: u64| #[trigger]
                            self.regions().contains_key(o) implies o + self.regions()[o] < new_off
                            || new_off + new_len < o by {
                            assert(r0.contains_key(o) && o != off);
                            assert(r0.contains_key(off));
                        }
                    }
                    self.attach(new_off, new_len);
                }
                Ok(Allocation { offset: off, len })
            },
        }
    }

    /// Gives the range `[offset, offset + len)` back to the free partition.
    ///
    /// The range must currently be fully allocated: it lies inside the
    /// managed range and touches no free region. The range is merged with
    /// the free region ending at `offset` and with the one starting at
    /// `offset + len`, where those exist, so that the free regions stay
    /// maximal. Freeing zero units touches nothing.
    pub fn free(&mut self, offset: u64, len: u64)
        requires
            old(self).inv(),
            offset + len <= old(self).total_len(),
            disjoint_from_free(old(self).regions(), offset, len),
        ensures
            final(self).inv(),
            final(self).total_len() == old(self).total_len(),
            final(self).strategy() == old(self).strategy(),
            final(self).regions() == free_after(old(self).regions(), offset, len),
    {
        if len == 0 {
            return;
        }
        let ghost r0 = old(self).regions();
        let ghost e0 = old(self).bounds.entries();
        let end = offset + len;
        let left = self.bounds.left_adjacent_free(offset);
        let right = self.bounds.right_adjacent_free(end);

        proof {
            // the left lookup found the region ending at `offset`, if any
            if left is Some {
                let l = e0[offset].0;
                assert(e0.contains_key((offset - l) as u64) && e0[(offset - l) as u64] == (
                    l,
                    true,
                ));
                assert(r0.contains_key((offset - l) as u64) && r0[(offset - l) as u64] == l);
                assert(has_region_ending_at(r0, offset));
            } else {
                if has_region_ending_at(r0, offset) {
                    let s = choose|s: u64| #[trigger] r0.contains_key(s) && s + r0[s] == offset;
                    assert(e0.contains_key(s) && e0[s] == (r0[s], true));
                    assert(e0.contains_key(offset) && e0[offset] == (r0[s], false));
                }
            }
            // the right lookup found the region starting at `end`, if any
            if right is None && r0.contains_key(end) {
                assert(e0.contains_key(end) && e0[end].1);
            }
        }

        let mut start = offset;
        match left {
            Some(ll) => {
                let ls = offset - ll;
                proof {
                    assert(r0.contains_key(ls) && r0[ls] == ll);
                    // the region ending at `offset` is unique
                    assert(region_ending_at(r0, offset) == ls) by {
                        let s = region_ending_at(r0, offset);
                        assert(r0.contains_key(s) && s + r0[s] == offset);
                        if s != ls {
                            assert(r0.contains_key(ls));
                        }
                    }
                }
                self.detach(ls, ll);
                start = ls;
            },
            None => {},
        }
        match right {
            Some(rl) => {
                proof {
                    assert(r0.contains_key(end) && r0[end] == rl);
                    if left is Some {
                        assert(end != (offset - e0[offset].0) as u64);
                    }
                }
                self.detach(end, rl);
            },
            None => {},
        }
        let stop = match right {
            Some(rl) => end + rl,
            None => end,
        };
        let mlen = stop - start;
        proof {
            let r2 = self.regions();
            assert forall|o: u64| #[trigger] r2.contains_key(o) implies o + r2[o] < start || start
                + mlen < o by {
                assert(r0.contains_key(o));
                assert(o + r0[o] <= offset || end <= o);
                if o + r0[o] <= offset {
                    if left is Some {
                        let ls = (offset - e0[offset].0) as u64;
                        assert(o != ls && r0.contains_key(ls));
                        assert(o + r0[o] < ls || ls + r0[ls] < o);
                    } else {
                        if o + r0[o] == offset {
                            assert(has_region_ending_at(r0, offset));
                        }
                    }
                } else {
                    if right is Some {
                        assert(o != end && r0.contains_key(end));
                        assert(o + r0[o] < end || end + r0[end] < o);
                    } else {
                        assert(o != end);
                    }
                }
            }
        }
        self.attach(start, mlen);
        proof {
            assert(self.regions() =~= free_after(r0, offset, len));
        }
    }
}

} // verus!
