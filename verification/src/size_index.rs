//! The size-keyed free index: an ordered map from region length to the
//! bucket of start offsets of the free regions having exactly that length.
//! It answers the three fit-strategy queries and supports removal and
//! insertion of single `(length, offset)` pairs.
//!
//! The buckets live in the external B-tree map; the bucket keys are kept
//! beside it in a sorted vector of their own, so that the strategy searches
//! (least sufficient key, greatest key) are verified binary searches over
//! that vector rather than trusted range queries.

use vstd::prelude::*;

use crate::AllocationStrategy;
use crate::btree::{size_entries, size_map_get, size_map_insert, size_map_new, size_map_remove};

verus! {

/// A bucket is well formed when it is non-empty and holds no offset twice.
pub(crate) open spec fn bucket_wf(b: Seq<u64>) -> bool {
    &&& b.len() > 0
    &&& forall|i: int, j: int| 0 <= i < j < b.len() ==> b[i] != b[j]
}

/// Strictly ascending: sorted, with no key twice.
pub(crate) open spec fn keys_sorted(s: Seq<u64>) -> bool {
    forall|i: int, j: int| 0 <= i < j < s.len() ==> s[i] < s[j]
}

/// What each strategy promises of the bucket key it chose, among the keys
/// present, for a request of `min_len` units.
pub(crate) open spec fn key_choice_ok(
    strategy: AllocationStrategy,
    keys: Set<u64>,
    min_len: u64,
    chosen: u64,
) -> bool {
    match strategy {
        AllocationStrategy::FirstFit | AllocationStrategy::BestFit => forall|x: u64|
            #[trigger] keys.contains(x) && min_len <= x ==> chosen <= x,
        AllocationStrategy::WorstFit => forall|x: u64| #[trigger] keys.contains(x) ==> x <= chosen,
    }
}

/// The index of `x` in `v`.
fn find_index(v: &Vec<u64>, x: u64) -> (i: usize)
    requires
        v@.contains(x),
    ensures
        i < v@.len() && v@[i as int] == x,
{
    let mut i: usize = 0;
    while i < v.len()
        invariant
            i <= v@.len(),
            v@.contains(x),
            forall|j: int| 0 <= j < i ==> v@[j] != x,
        decreases v@.len() - i,
    {
        if v[i] == x {
            return i;
        }
        i += 1;
    }
    proof {
        let j = choose|j: int| 0 <= j < v@.len() && v@[j] == x;
        assert(v@[j] != x);
    }
    i
}

/// Binary search for the least index whose key is at least `min_len`;
/// `v.len()` when every key is smaller.
fn lower_bound(v: &Vec<u64>, min_len: u64) -> (i: usize)
    requires
        keys_sorted(v@),
    ensures
        i <= v@.len(),
        forall|j: int| 0 <= j < i ==> v@[j] < min_len,
        forall|j: int| i <= j < v@.len() ==> min_len <= v@[j],
{
    let mut lo: usize = 0;
    let mut hi: usize = v.len();
    while lo < hi
        invariant
            lo <= hi <= v@.len(),
            keys_sorted(v@),
            forall|j: int| 0 <= j < lo ==> v@[j] < min_len,
            forall|j: int| hi <= j < v@.len() ==> min_len <= v@[j],
        decreases hi - lo,
    {
        let mid = lo + (hi - lo) / 2;
        if v[mid] < min_len {
            proof {
                assert forall|j: int| 0 <= j < mid + 1 implies v@[j] < min_len by {
                    if j < mid {
                        assert(v@[j] < v@[mid as int]);
                    }
                }
            }
            lo = mid + 1;
        } else {
            proof {
                assert forall|j: int| mid <= j < v@.len() implies min_len <= v@[j] by {
                    if mid < j {
                        assert(v@[mid as int] < v@[j]);
                    }
                }
            }
            hi = mid;
        }
    }
    lo
}

pub(crate) struct SizeIndex {
    /// The buckets: for each region length present, the start offsets of the
    /// free regions of exactly that length.
    pub(crate) map: btree_slab::BTreeMap<u64, Vec<u64>>,

    /// The bucket keys, strictly ascending.
    pub(crate) keys: Vec<u64>,
}

impl SizeIndex {
    /// The buckets, by region length: the start offsets of the free regions
    /// of exactly that length.
    pub(crate) open spec fn buckets(self) -> Map<u64, Seq<u64>> {
        size_entries(self.map)
    }

    /// Every bucket present is well formed, and the key vector holds exactly
    /// the bucket keys, strictly ascending.
    pub(crate) open spec fn wf(self) -> bool {
        &&& forall|l: u64| #[trigger] self.buckets().contains_key(l) ==> bucket_wf(
            self.buckets()[l],
        )
        &&& keys_sorted(self.keys@)
        &&& forall|i: int| 0 <= i < self.keys@.len() ==> self.buckets().contains_key(
            #[trigger] self.keys@[i],
        )
        &&& forall|k: u64| #[trigger] self.buckets().contains_key(k) ==> self.keys@.contains(k)
    }

    /// The bucket for length `l` holds the offset `off`.
    pub(crate) open spec fn bucket_has(self, l: u64, off: u64) -> bool {
        self.buckets().contains_key(l) && self.buckets()[l].contains(off)
    }

    pub(crate) fn new() -> (s: SizeIndex)
        ensures
            s.wf(),
            s.buckets() == Map::<u64, Seq<u64>>::empty(),
    {
        let s = SizeIndex { map: size_map_new(), keys: Vec::new() };
        proof {
            assert(s.buckets() =~= Map::<u64, Seq<u64>>::empty());
        }
        s
    }

    /// Returns some offset of the bucket for the present key `k`, with the
    /// key itself.
    fn take_from_bucket(&self, k: u64) -> (r: (u64, u64))
        requires
            self.wf(),
            self.buckets().contains_key(k),
        ensures
            r.1 == k,
            self.bucket_has(k, r.0),
    {
        match size_map_get(&self.map, k) {
            Some(b) => {
                assert(bucket_wf(self.buckets()[k]));
                let off = b[b.len() - 1];
                assert(self.buckets()[k].contains(off)) by {
                    assert(self.buckets()[k][b@.len() - 1] == off);
                }
                (off, k)
            },
            None => {
                // the key vector only holds present keys
                (0, k)
            },
        }
    }

    /// Locates a free region of length at least `min_len` under the given
    /// strategy, returning its start offset and its exact length.
    pub(crate) fn find_free_region(&self, min_len: u64, strategy: AllocationStrategy) -> (r: Option<
        (u64, u64),
    >)
        requires
            self.wf(),
        ensures
            r matches Some(p) ==> self.bucket_has(p.1, p.0) && min_len <= p.1 && key_choice_ok(
                strategy,
                self.buckets().dom(),
                min_len,
                p.1,
            ),
            r is None ==> forall|x: u64| #[trigger]
                self.buckets().contains_key(x) ==> x < min_len,
    {
        match strategy {
            AllocationStrategy::FirstFit | AllocationStrategy::BestFit => {
                let i = lower_bound(&self.keys, min_len);
                if i == self.keys.len() {
                    proof {
                        assert forall|x: u64| #[trigger]
                            self.buckets().contains_key(x) implies x < min_len by {
                            let j = choose|j: int|
                                0 <= j < self.keys@.len() && self.keys@[j] == x;
                        }
                    }
                    None
                } else {
                    let k = self.keys[i];
                    proof {
                        // `k` is the least sufficient bucket key
                        assert forall|x: u64| #[trigger]
                            self.buckets().dom().contains(x) && min_len <= x implies k <= x by {
                            let j = choose|j: int|
                                0 <= j < self.keys@.len() && self.keys@[j] == x;
                            if j < i {
                                assert(self.keys@[j] < min_len);
                            } else if i < j {
                                assert(self.keys@[i as int] < self.keys@[j]);
                            }
                        }
                    }
                    Some(self.take_from_bucket(k))
                }
            },
            AllocationStrategy::WorstFit => {
                if self.keys.len() == 0 {
                    proof {
                        assert forall|x: u64| #[trigger]
                            self.buckets().contains_key(x) implies x < min_len by {
                            let j = choose|j: int|
                                0 <= j < self.keys@.len() && self.keys@[j] == x;
                        }
                    }
                    None
                } else {
                    let k = self.keys[self.keys.len() - 1];
                    proof {
                        // `k` is the greatest bucket key
                        assert forall|x: u64| #[trigger]
                            self.buckets().dom().contains(x) implies x <= k by {
                            let j = choose|j: int|
                                0 <= j < self.keys@.len() && self.keys@[j] == x;
                            if j < self.keys@.len() - 1 {
                                assert(self.keys@[j] < self.keys@[self.keys@.len() - 1]);
                            }
                        }
                    }
                    if k >= min_len {
                        Some(self.take_from_bucket(k))
                    } else {
                        None
                    }
                }
            },
        }
    }

    /// Drops the offset `off` from the bucket for length `len`, deleting the
    /// bucket (and its key) when it becomes empty.
    pub(crate) fn remove_one(&mut self, len: u64, off: u64)
        requires
            old(self).wf(),
            old(self).bucket_has(len, off),
        ensures
            final(self).wf(),
            forall|l: u64|
                #![trigger final(self).buckets().contains_key(l)]
                #![trigger old(self).buckets().contains_key(l)]
                final(self).buckets().contains_key(l) <==> (old(self).buckets().contains_key(l)
                    && !(l == len && old(self).buckets()[len].len() == 1)),
            forall|l: u64| #![auto]
                l != len && old(self).buckets().contains_key(l) ==> final(self).buckets()[l] == old(
                    self,
                ).buckets()[l],
            old(self).buckets()[len].len() > 1 ==> forall|x: u64| #![auto]
                final(self).buckets()[len].contains(x) <==> (old(self).buckets()[len].contains(x)
                    && x != off),
    {
        let ghost oldb = old(self).buckets()[len];
        let ghost oldk = old(self).keys@;
        match size_map_get(&self.map, len) {
            Some(mut b) => {
                let i = find_index(&b, off);
                b.remove(i);
                proof {
                    oldb.remove_ensures(i as int);
                    assert(b@ == oldb.remove(i as int));
                    assert forall|x: u64| b@.contains(x) <==> (oldb.contains(x) && x != off) by {
                        if b@.contains(x) {
                            let j = choose|j: int| 0 <= j < b@.len() && b@[j] == x;
                            if j < i {
                                assert(oldb[j] == x);
                                assert(oldb[j] != oldb[i as int]);
                            } else {
                                assert(oldb[j + 1] == x);
                                assert(oldb[i as int] != oldb[j + 1]);
                            }
                            assert(oldb.contains(x) && x != off);
                        }
                        if oldb.contains(x) && x != off {
                            let j = choose|j: int| 0 <= j < oldb.len() && oldb[j] == x;
                            assert(j != i);
                            if j < i {
                                assert(b@[j] == x);
                            } else {
                                assert(b@[j - 1] == x);
                            }
                            assert(b@.contains(x));
                        }
                    }
                    assert forall|p: int, q: int| 0 <= p < q < b@.len() implies b@[p] != b@[q] by {
                        let pp: int = if p < i {
                            p
                        } else {
                            p + 1
                        };
                        let qq: int = if q < i {
                            q
                        } else {
                            q + 1
                        };
                        assert(b@[p] == oldb[pp] && b@[q] == oldb[qq]);
                        assert(oldb[pp] != oldb[qq]);
                    }
                }
                if b.len() == 0 {
                    size_map_remove(&mut self.map, len);
                    proof {
                        assert(oldb.len() == 1);
                    }
                    // take the emptied bucket's key out of the key vector
                    let ki = find_index(&self.keys, len);
                    self.keys.remove(ki);
                    proof {
                        oldk.remove_ensures(ki as int);
                        let newk = self.keys@;
                        assert(newk == oldk.remove(ki as int));
                        assert forall|p: int, q: int|
                            0 <= p < q < newk.len() implies newk[p] < newk[q] by {
                            let pp: int = if p < ki {
                                p
                            } else {
                                p + 1
                            };
                            let qq: int = if q < ki {
                                q
                            } else {
                                q + 1
                            };
                            assert(newk[p] == oldk[pp] && newk[q] == oldk[qq]);
                            assert(oldk[pp] < oldk[qq]);
                        }
                        assert forall|x: u64| newk.contains(x) <==> (oldk.contains(x) && x
                            != len) by {
                            if newk.contains(x) {
                                let j = choose|j: int| 0 <= j < newk.len() && newk[j] == x;
                                if j < ki {
                                    assert(oldk[j] == x);
                                    assert(oldk[j] < oldk[ki as int]);
                                } else {
                                    assert(oldk[j + 1] == x);
                                    assert(oldk[ki as int] < oldk[j + 1]);
                                }
                                assert(oldk.contains(x) && x != len);
                            }
                            if oldk.contains(x) && x != len {
                                let j = choose|j: int| 0 <= j < oldk.len() && oldk[j] == x;
                                assert(j != ki);
                                if j < ki {
                                    assert(newk[j] == x);
                                } else {
                                    assert(newk[j - 1] == x);
                                }
                                assert(newk.contains(x));
                            }
                        }
                        assert forall|j: int|
                            0 <= j < newk.len() implies self.buckets().contains_key(
                            #[trigger] newk[j],
                        ) by {
                            assert(newk.contains(newk[j]));
                        }
                    }
                } else {
                    size_map_insert(&mut self.map, len, b);
                    proof {
                        assert forall|j: int|
                            0 <= j < self.keys@.len() implies self.buckets().contains_key(
                            #[trigger] self.keys@[j],
                        ) by {
                            assert(old(self).buckets().contains_key(self.keys@[j]));
                        }
                    }
                }
            },
            None => {},
        }
    }

    /// Adds the offset `off` to the bucket for length `len`, creating the
    /// bucket (and its key) when absent.
    pub(crate) fn insert_one(&mut self, len: u64, off: u64)
        requires
            old(self).wf(),
            !old(self).bucket_has(len, off),
        ensures
            final(self).wf(),
            final(self).buckets() == old(self).buckets().insert(
                len,
                (if old(self).buckets().contains_key(len) {
                    old(self).buckets()[len]
                } else {
                    Seq::<u64>::empty()
                }).push(off),
            ),
    {
        let ghost oldk = old(self).keys@;
        match size_map_get(&self.map, len) {
            Some(mut b) => {
                b.push(off);
                size_map_insert(&mut self.map, len, b);
                proof {
                    assert forall|j: int|
                        0 <= j < self.keys@.len() implies self.buckets().contains_key(
                        #[trigger] self.keys@[j],
                    ) by {
                        assert(old(self).buckets().contains_key(self.keys@[j]));
                    }
                }
            },
            None => {
                let ki = lower_bound(&self.keys, len);
                proof {
                    // `len` is not among the keys yet
                    assert forall|j: int| 0 <= j < oldk.len() implies oldk[j] != len by {
                        assert(old(self).buckets().contains_key(oldk[j]));
                    }
                }
                self.keys.insert(ki, len);
                let mut b: Vec<u64> = Vec::new();
                b.push(off);
                size_map_insert(&mut self.map, len, b);
                proof {
                    oldk.insert_ensures(ki as int, len);
                    let newk = self.keys@;
                    assert(newk == oldk.insert(ki as int, len));
                    assert forall|p: int, q: int| 0 <= p < q < newk.len() implies newk[p]
                        < newk[q] by {
                        if p < ki && q == ki {
                            assert(newk[p] == oldk[p] && oldk[p] < len);
                        } else if p == ki && q > ki {
                            assert(newk[q] == oldk[q - 1] && len <= oldk[q - 1] && oldk[q - 1]
                                != len);
                        } else if p < ki && q > ki {
                            assert(newk[p] == oldk[p] && newk[q] == oldk[q - 1]);
                            assert(oldk[p] < len && len <= oldk[q - 1]);
                        } else if q < ki {
                            assert(newk[p] == oldk[p] && newk[q] == oldk[q]);
                        } else {
                            assert(p > ki);
                            assert(newk[p] == oldk[p - 1] && newk[q] == oldk[q - 1]);
                        }
                    }
                    assert forall|x: u64| newk.contains(x) <==> (oldk.contains(x) || x == len) by {
                        if newk.contains(x) {
                            let j = choose|j: int| 0 <= j < newk.len() && newk[j] == x;
                            if j < ki {
                                assert(oldk[j] == x);
                            } else if j > ki {
                                assert(oldk[j - 1] == x);
                            }
                        }
                        if oldk.contains(x) {
                            let j = choose|j: int| 0 <= j < oldk.len() && oldk[j] == x;
                            if j < ki {
                                assert(newk[j] == x);
                            } else {
                                assert(newk[j + 1] == x);
                            }
                            assert(newk.contains(x));
                        }
                        assert(newk[ki as int] == len);
                    }
                    assert forall|j: int|
                        0 <= j < newk.len() implies self.buckets().contains_key(
                        #[trigger] newk[j],
                    ) by {
                        assert(newk.contains(newk[j]));
                        if newk[j] != len {
                            assert(old(self).buckets().contains_key(newk[j]));
                        }
                    }
                }
            },
        }
    }
}

} // verus!
