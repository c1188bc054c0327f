use free_map::{AllocationStrategy, FreeMap, index};

#[test]
fn new_map_is_one_free_region() {
    let mut fm = FreeMap::new(100, AllocationStrategy::FirstFit);
    let a = fm.allocate(100).unwrap();
    assert_eq!(a.offset, 0);
    assert_eq!(a.len, 100);
    assert!(fm.allocate(1).is_err());
}

#[test]
fn round_trip_restores_availability() {
    let mut fm = FreeMap::new(100, AllocationStrategy::FirstFit);
    let a = fm.allocate(40).unwrap();
    assert_eq!(a.offset, 0);
    fm.free(a.offset, 40);
    let b = fm.allocate(40).unwrap();
    assert_eq!(b.offset, 0);
    let c = fm.allocate(60).unwrap();
    assert_eq!(c.offset, 40);
    assert!(fm.allocate(1).is_err());
}

#[test]
fn zero_length_requests_are_no_ops() {
    let mut fm = FreeMap::new(10, AllocationStrategy::BestFit);
    let a = fm.allocate(0).unwrap();
    assert_eq!(a.offset, 0);
    assert_eq!(a.len, 0);
    fm.free(0, 0);
    let b = fm.allocate(10).unwrap();
    assert_eq!(b.offset, 0);
}

#[test]
fn empty_map_has_nothing_to_allocate() {
    let mut fm = FreeMap::new(0, AllocationStrategy::WorstFit);
    assert!(fm.allocate(1).is_err());
    let a = fm.allocate(0).unwrap();
    assert_eq!(a.offset, 0);
}

#[test]
fn allocation_failed_when_no_region_fits() {
    let mut fm = FreeMap::new(10, AllocationStrategy::FirstFit);
    assert!(fm.allocate(11).is_err());
    let a = fm.allocate(10).unwrap();
    assert_eq!(a.offset, 0);
    assert!(fm.allocate(1).is_err());
}

/// Carve `[0, 100)` into allocated `[0, 10) + [30, 60)` and free
/// `{[10, 30), [60, 100)}`.
fn fragmented(strategy: AllocationStrategy) -> FreeMap {
    let mut fm = FreeMap::new(100, strategy);
    assert_eq!(fm.allocate(10).unwrap().offset, 0);
    assert_eq!(fm.allocate(20).unwrap().offset, 10);
    assert_eq!(fm.allocate(30).unwrap().offset, 30);
    assert_eq!(fm.allocate(40).unwrap().offset, 60);
    fm.free(10, 20);
    fm.free(60, 40);
    fm
}

#[test]
fn first_fit_picks_smallest_sufficient_region() {
    let mut fm = fragmented(AllocationStrategy::FirstFit);
    // free regions: [10, 30) of length 20 and [60, 100) of length 40
    let a = fm.allocate(15).unwrap();
    assert_eq!(a.offset, 10);
    // residual [25, 30) of length 5 stays available
    let b = fm.allocate(5).unwrap();
    assert_eq!(b.offset, 25);
}

#[test]
fn best_fit_prefers_exact_match() {
    let mut fm = fragmented(AllocationStrategy::BestFit);
    let a = fm.allocate(40).unwrap();
    assert_eq!(a.offset, 60);
    let b = fm.allocate(20).unwrap();
    assert_eq!(b.offset, 10);
    assert!(fm.allocate(1).is_err());
}

#[test]
fn worst_fit_always_takes_the_largest() {
    let mut fm = fragmented(AllocationStrategy::WorstFit);
    let a = fm.allocate(15).unwrap();
    assert_eq!(a.offset, 60);
    // the largest region is now [75, 100) of length 25
    let b = fm.allocate(15).unwrap();
    assert_eq!(b.offset, 75);
    // [10, 30) of length 20 is now the largest; 25 no longer fits anywhere
    assert!(fm.allocate(25).is_err());
    let c = fm.allocate(20).unwrap();
    assert_eq!(c.offset, 10);
}

#[test]
fn worst_fit_fails_only_if_largest_too_small() {
    let mut fm = fragmented(AllocationStrategy::WorstFit);
    // largest free region has length 40
    assert!(fm.allocate(41).is_err());
    assert_eq!(fm.allocate(40).unwrap().offset, 60);
}

#[test]
fn free_merges_with_left_neighbor() {
    let mut fm = FreeMap::new(30, AllocationStrategy::FirstFit);
    assert_eq!(fm.allocate(10).unwrap().offset, 0);
    assert_eq!(fm.allocate(10).unwrap().offset, 10);
    assert_eq!(fm.allocate(10).unwrap().offset, 20);
    fm.free(0, 10);
    fm.free(10, 10);
    // [0, 10) and [10, 20) have merged into [0, 20)
    let a = fm.allocate(20).unwrap();
    assert_eq!(a.offset, 0);
}

#[test]
fn free_merges_with_right_neighbor() {
    let mut fm = FreeMap::new(30, AllocationStrategy::FirstFit);
    assert_eq!(fm.allocate(10).unwrap().offset, 0);
    assert_eq!(fm.allocate(10).unwrap().offset, 10);
    assert_eq!(fm.allocate(10).unwrap().offset, 20);
    fm.free(10, 10);
    fm.free(0, 10);
    // [0, 10) and [10, 20) have merged into [0, 20)
    let a = fm.allocate(20).unwrap();
    assert_eq!(a.offset, 0);
}

#[test]
fn free_merges_with_both_neighbors() {
    let mut fm = FreeMap::new(30, AllocationStrategy::FirstFit);
    assert_eq!(fm.allocate(10).unwrap().offset, 0);
    assert_eq!(fm.allocate(10).unwrap().offset, 10);
    assert_eq!(fm.allocate(10).unwrap().offset, 20);
    fm.free(0, 10);
    fm.free(20, 10);
    fm.free(10, 10);
    let a = fm.allocate(30).unwrap();
    assert_eq!(a.offset, 0);
}

#[test]
fn exhaustion_unit_by_unit_coalesces_back() {
    let mut fm = FreeMap::new(10, AllocationStrategy::FirstFit);
    for i in 0..10u64 {
        let a = fm.allocate(1).unwrap();
        assert_eq!(a.offset, i);
    }
    assert!(fm.allocate(1).is_err());
    // free it all back in a scattered order
    for &o in &[4u64, 0, 9, 2, 7, 5, 1, 8, 3, 6] {
        fm.free(o, 1);
    }
    // exactly one free region [0, 10) remains
    let a = fm.allocate(10).unwrap();
    assert_eq!(a.offset, 0);
}

#[test]
fn exhaustion_one_block() {
    let mut fm = FreeMap::new(75, AllocationStrategy::WorstFit);
    let a = fm.allocate(75).unwrap();
    assert_eq!(a.offset, 0);
    assert!(fm.allocate(1).is_err());
    fm.free(0, 75);
    let b = fm.allocate(75).unwrap();
    assert_eq!(b.offset, 0);
}

#[test]
fn best_fit_reuse_scenario() {
    let mut fm = FreeMap::new(100, AllocationStrategy::BestFit);
    assert_eq!(fm.allocate(30).unwrap().offset, 0);
    assert_eq!(fm.allocate(50).unwrap().offset, 30);
    fm.free(0, 30);
    // free regions: [0, 30) and [80, 100); the exact match wins for BestFit
    let a = fm.allocate(20).unwrap();
    assert_eq!(a.offset, 80);
    fm.free(80, 20);
    // free regions again [0, 30) and [80, 100): allocated is exactly [30, 80)
    assert_eq!(fm.allocate(30).unwrap().offset, 0);
    assert_eq!(fm.allocate(20).unwrap().offset, 80);
    assert!(fm.allocate(1).is_err());
}

#[test]
fn equal_length_regions_share_a_bucket() {
    let mut fm = FreeMap::new(50, AllocationStrategy::FirstFit);
    for i in 0..5u64 {
        assert_eq!(fm.allocate(10).unwrap().offset, i * 10);
    }
    fm.free(10, 10);
    fm.free(30, 10);
    // two free regions of length 10: [10, 20) and [30, 40); either may come
    // first, but both must come out before the map is exhausted
    let a = fm.allocate(10).unwrap();
    assert!(a.offset == 10 || a.offset == 30);
    let b = fm.allocate(10).unwrap();
    assert!(b.offset == 10 || b.offset == 30);
    assert_ne!(a.offset, b.offset);
    assert!(fm.allocate(1).is_err());
}

/// Nine free regions of distinct lengths 10, 20, ..., 90, each pair parted
/// by a one-unit allocation, so the size index holds nine bucket keys (a
/// multi-level B-tree). Returns the start offset of each region, by length.
fn nine_distinct_free_sizes(strategy: AllocationStrategy) -> (FreeMap, Vec<(u64, u64)>) {
    let mut fm = FreeMap::new(459, strategy);
    let mut regions: Vec<(u64, u64)> = Vec::new();
    for i in 1..=9u64 {
        let a = fm.allocate(i * 10).unwrap();
        regions.push((a.offset, i * 10));
        fm.allocate(1).unwrap();
    }
    assert!(fm.allocate(1).is_err());
    for &(o, l) in &regions {
        fm.free(o, l);
    }
    (fm, regions)
}

#[test]
fn first_fit_across_a_deep_size_index() {
    let (mut fm, regions) = nine_distinct_free_sizes(AllocationStrategy::FirstFit);
    // 45 falls between the bucket keys 40 and 50
    let a = fm.allocate(45).unwrap();
    assert_eq!(a.offset, regions[4].0);
    // the length-50 region is spent down to 5; the next fit is the 60 one
    let b = fm.allocate(45).unwrap();
    assert_eq!(b.offset, regions[5].0);
    // an exact key still hits its own bucket
    let c = fm.allocate(40).unwrap();
    assert_eq!(c.offset, regions[3].0);
}

#[test]
fn best_fit_across_a_deep_size_index() {
    let (mut fm, regions) = nine_distinct_free_sizes(AllocationStrategy::BestFit);
    let a = fm.allocate(70).unwrap();
    assert_eq!(a.offset, regions[6].0);
    let b = fm.allocate(65).unwrap();
    assert_eq!(b.offset, regions[7].0);
    assert!(fm.allocate(91).is_err());
}

#[test]
fn worst_fit_across_a_deep_size_index() {
    let (mut fm, regions) = nine_distinct_free_sizes(AllocationStrategy::WorstFit);
    let a = fm.allocate(5).unwrap();
    assert_eq!(a.offset, regions[8].0);
    // the residual of the 90 region, of length 85, is still the largest
    let b = fm.allocate(80).unwrap();
    assert_eq!(b.offset, regions[8].0 + 5);
    // now the length-80 region is the largest
    assert!(fm.allocate(81).is_err());
    let c = fm.allocate(80).unwrap();
    assert_eq!(c.offset, regions[7].0);
}

#[test]
fn index_decodes_the_sentinel() {
    assert_eq!(index(usize::MAX), None);
    assert_eq!(index(0), Some(0));
    assert_eq!(index(7), Some(7));
}
