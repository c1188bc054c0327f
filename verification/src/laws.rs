//! The laws of the free map, proved over the model: how `allocate` and
//! `free` move addresses between the free and the allocated partition, that
//! the two calls cancel, that no two free regions are ever adjacent, and
//! that freeing everything coalesces back into one region.

use vstd::prelude::*;
use vstd::set_lib::set_int_range;

use crate::model::{
    alloc_after, disjoint_from_free, free_addrs, free_after, has_region_ending_at,
    region_ending_at, regions_wf,
};

verus! {

/// No two free regions overlap, and none touches another: for all free
/// regions `[a, b)` and `[c, d)`, `b != c` and `d != a` — one of them ends
/// strictly before the other starts.
pub proof fn lemma_maximality(r: Map<u64, u64>, total: u64, s1: u64, s2: u64)
    requires
        regions_wf(r, total),
        r.contains_key(s1),
        r.contains_key(s2),
        s1 != s2,
    ensures
        s1 + r[s1] != s2 && s2 + r[s2] != s1,
        s1 + r[s1] < s2 || s2 + r[s2] < s1,
{
}

/// Free addresses never leave the managed range: together with
/// `lemma_allocate_partitions` and `lemma_free_partitions`, the free
/// partition is exactly the managed range minus the allocated ranges.
pub proof fn lemma_free_addrs_in_range(r: Map<u64, u64>, total: u64)
    requires
        regions_wf(r, total),
    ensures
        free_addrs(r).subset_of(set_int_range(0, total as int)),
{
    assert forall|a: int| free_addrs(r).contains(a) implies 0 <= a < total by {
        let o = choose|o: u64| #[trigger] r.contains_key(o) && o <= a < o + r[o];
    }
}

/// Allocation carves exactly the granted range out of the free partition:
/// the range was free before, and the free addresses afterwards are the
/// free addresses before minus the range — no more, no less.
pub proof fn lemma_allocate_partitions(r: Map<u64, u64>, total: u64, off: u64, len: u64)
    requires
        regions_wf(r, total),
        r.contains_key(off),
        0 < len <= r[off],
    ensures
        regions_wf(alloc_after(r, off, len), total),
        set_int_range(off as int, off + len).subset_of(free_addrs(r)),
        free_addrs(alloc_after(r, off, len)) =~= free_addrs(r).difference(
            set_int_range(off as int, off + len),
        ),
{
    let a1 = alloc_after(r, off, len);
    let rest = (off + len) as u64;

    assert(!r.contains_key(rest)) by {
        if r.contains_key(rest) {
            assert(off + r[off] < rest || rest + r[rest] < off);
        }
    }

    assert(regions_wf(a1, total)) by {
        assert forall|o: u64| #[trigger] a1.contains_key(o) implies 0 < a1[o] && o + a1[o]
            <= total by {
            if o != rest {
                assert(r.contains_key(o));
            }
        }
        assert forall|o1: u64, o2: u64|
            a1.contains_key(o1) && a1.contains_key(o2) && o1 != o2 implies o1 + a1[o1] < o2 || o2
            + a1[o2] < o1 by {
            if o1 != rest && o2 != rest {
                assert(r.contains_key(o1) && r.contains_key(o2));
            } else if o1 == rest {
                assert(r.contains_key(o2) && r.contains_key(off) && o2 != off);
                assert(o2 + r[o2] < off || off + r[off] < o2);
            } else {
                assert(r.contains_key(o1) && r.contains_key(off) && o1 != off);
                assert(o1 + r[o1] < off || off + r[off] < o1);
            }
        }
    }

    assert forall|a: int| set_int_range(off as int, off + len).contains(a) implies free_addrs(
        r,
    ).contains(a) by {
        assert(r.contains_key(off) && off <= a < off + r[off]);
    }

    assert forall|a: int| #![auto] free_addrs(a1).contains(a) implies free_addrs(r).contains(a)
        && !set_int_range(off as int, off + len).contains(a) by {
        let o = choose|o: u64| #[trigger] a1.contains_key(o) && o <= a < o + a1[o];
        if o == rest {
            assert(r.contains_key(off) && off <= a < off + r[off]);
        } else {
            assert(r.contains_key(o) && o <= a < o + r[o]);
            if o != off {
                assert(o + r[o] < off || off + r[off] < o);
            }
        }
    }

    assert forall|a: int| #![auto]
        free_addrs(r).contains(a) && !set_int_range(off as int, off + len).contains(a) implies
        free_addrs(a1).contains(a) by {
        let o = choose|o: u64| #[trigger] r.contains_key(o) && o <= a < o + r[o];
        if o == off {
            assert(a >= off + len);
            assert(len < r[off]);
            assert(a1.contains_key(rest) && rest <= a < rest + a1[rest]);
        } else {
            assert(a1.contains_key(o) && o <= a < o + a1[o]);
        }
    }
}

/// Giving a fully-allocated range back adds exactly that range to the free
/// partition, and the free regions stay well formed (in particular maximal:
/// the merge leaves no two adjacent free regions).
pub proof fn lemma_free_partitions(r: Map<u64, u64>, total: u64, off: u64, len: u64)
    requires
        regions_wf(r, total),
        0 < len,
        off + len <= total,
        disjoint_from_free(r, off, len),
    ensures
        regions_wf(free_after(r, off, len), total),
        free_addrs(r).disjoint(set_int_range(off as int, off + len)),
        free_addrs(free_after(r, off, len)) =~= free_addrs(r).union(
            set_int_range(off as int, off + len),
        ),
{
    let f1 = free_after(r, off, len);
    let end = (off + len) as u64;
    let has_left = has_region_ending_at(r, off);
    let ls = region_ending_at(r, off);
    let start = if has_left {
        ls
    } else {
        off
    };
    let stop = if r.contains_key(end) {
        end + r[end]
    } else {
        end as int
    };
    if has_left {
        assert(r.contains_key(ls) && ls + r[ls] == off);
    }
    assert(!r.contains_key(off)) by {
        if r.contains_key(off) {
            assert(off + r[off] <= off || off + len <= off);
        }
    }
    assert(f1 == (if r.contains_key(end) {
        (if has_left {
            r.remove(ls)
        } else {
            r
        }).remove(end)
    } else {
        (if has_left {
            r.remove(ls)
        } else {
            r
        })
    }).insert(start, (stop - start) as u64));

    assert(free_addrs(r).disjoint(set_int_range(off as int, off + len))) by {
        assert forall|a: int| free_addrs(r).contains(a) implies !set_int_range(
            off as int,
            off + len,
        ).contains(a) by {
            let o = choose|o: u64| #[trigger] r.contains_key(o) && o <= a < o + r[o];
            assert(o + r[o] <= off || off + len <= o);
        }
    }

    // every surviving old region is strictly separated from the merged one
    assert forall|o: u64| #[trigger]
        r.contains_key(o) && o != start && !(o == end && r.contains_key(end)) implies o + r[o]
        < start || stop < o by {
        assert(o + r[o] <= off || off + len <= o);
        if o + r[o] <= off {
            if has_left {
                if o != ls {
                    assert(o + r[o] < ls || ls + r[ls] < o);
                }
            } else {
                if o + r[o] == off {
                    assert(has_region_ending_at(r, off));
                }
            }
        } else {
            if r.contains_key(end) {
                assert(o + r[o] < end || end + r[end] < o);
            }
        }
    }

    assert(regions_wf(f1, total)) by {
        assert forall|o: u64| #[trigger] f1.contains_key(o) implies 0 < f1[o] && o + f1[o]
            <= total by {
            if o != start {
                assert(r.contains_key(o));
            }
        }
        assert forall|o1: u64, o2: u64|
            f1.contains_key(o1) && f1.contains_key(o2) && o1 != o2 implies o1 + f1[o1] < o2 || o2
            + f1[o2] < o1 by {
            if o1 != start && o2 != start {
                assert(r.contains_key(o1) && r.contains_key(o2));
            }
        }
    }

    assert forall|a: int| #![auto] free_addrs(f1).contains(a) implies free_addrs(r).contains(a)
        || set_int_range(off as int, off + len).contains(a) by {
        let o = choose|o: u64| #[trigger] f1.contains_key(o) && o <= a < o + f1[o];
        if o == start {
            if a < off {
                assert(has_left);
                assert(r.contains_key(ls) && ls <= a < ls + r[ls]);
            } else if a >= off + len {
                assert(r.contains_key(end) && end <= a < end + r[end]);
            }
        } else {
            assert(r.contains_key(o) && o <= a < o + r[o]);
        }
    }

    assert forall|a: int| #![auto]
        free_addrs(r).contains(a) || set_int_range(off as int, off + len).contains(a) implies
        free_addrs(f1).contains(a) by {
        assert(f1.contains_key(start) && start + f1[start] == stop);
        if free_addrs(r).contains(a) {
            let o = choose|o: u64| #[trigger] r.contains_key(o) && o <= a < o + r[o];
            if has_left && o == ls {
                assert(start <= a < stop);
            } else if o == end && r.contains_key(end) {
                assert(start <= a < stop);
            } else {
                assert(f1.contains_key(o) && o <= a < o + f1[o]);
            }
        } else {
            assert(start <= a < stop);
        }
    }
}

/// Allocation followed by freeing the same range restores the free regions
/// exactly: the residual of the chosen region (if any) is merged back, and
/// the region reappears under its old start and length.
pub proof fn lemma_round_trip(r: Map<u64, u64>, total: u64, off: u64, len: u64)
    requires
        regions_wf(r, total),
        r.contains_key(off),
        0 < len <= r[off],
    ensures
        free_after(alloc_after(r, off, len), off, len) =~= r,
{
    let a1 = alloc_after(r, off, len);
    let end = (off + len) as u64;
    let rest = (off + r[off]) as u64;

    assert(!r.contains_key(end) || end == off) by {
        if r.contains_key(end) && end != off {
            assert(off + r[off] < end || end + r[end] < off);
        }
    }
    assert(!r.contains_key(rest)) by {
        if r.contains_key(rest) {
            assert(off + r[off] < rest || rest + r[rest] < off);
        }
    }

    // nothing in the post-allocation map ends at `off`
    assert(!has_region_ending_at(a1, off)) by {
        if has_region_ending_at(a1, off) {
            let s = choose|s: u64| #[trigger] a1.contains_key(s) && s + a1[s] == off;
            if r[off] == len {
                assert(r.contains_key(s) && s != off);
                assert(s + r[s] < off || off + r[off] < s);
            } else {
                if s == end {
                    assert(s + a1[s] == off + r[off]);
                } else {
                    assert(r.contains_key(s) && s != off);
                    assert(s + r[s] < off || off + r[off] < s);
                }
            }
        }
    }

    if r[off] == len {
        assert(!a1.contains_key(end));
        assert(free_after(a1, off, len) =~= r);
    } else {
        assert(a1.contains_key(end) && a1[end] == r[off] - len);
        assert(free_after(a1, off, len) == a1.remove(end).insert(off, (end + a1[end] - off) as u64));
        assert(free_after(a1, off, len) =~= r);
    }
}

/// When every address of a non-empty managed range is free, the free
/// regions have coalesced into the single region `[0, total)`: freeing the
/// whole range back, in whatever order it was cut up, leaves one region.
pub proof fn lemma_exhaustion(r: Map<u64, u64>, total: u64)
    requires
        regions_wf(r, total),
        0 < total,
        set_int_range(0, total as int).subset_of(free_addrs(r)),
    ensures
        r =~= map![0u64 => total],
{
    assert(free_addrs(r).contains(0));
    let o0 = choose|o: u64| #[trigger] r.contains_key(o) && o <= 0 < o + r[o];
    assert(o0 == 0);
    assert(r.contains_key(0u64));
    let l0 = r[0u64];
    assert(l0 == total) by {
        if l0 < total {
            assert(free_addrs(r).contains(l0 as int));
            let o = choose|o: u64| #[trigger] r.contains_key(o) && o <= l0 < o + r[o];
            assert(o != 0);
            assert(0 + l0 < o || o + r[o] < 0);
        }
    }
    assert forall|s: u64| #[trigger] r.contains_key(s) implies s == 0 by {
        if s != 0 {
            assert(0 + total < s || s + r[s] < 0);
            assert(s + r[s] <= total);
        }
    }
}

} // verus!
