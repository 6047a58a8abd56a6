use merged_list_allocator::{ListNodeInfo, MergedListAllocator, MIN_BLOCK_SIZE};

fn region(addr: usize, size: usize) -> ListNodeInfo {
    ListNodeInfo { addr, size }
}

fn total(regions: &[ListNodeInfo]) -> usize {
    regions.iter().map(|r| r.size).sum()
}

/// Ascending, valid, and neither overlapping nor touching.
fn assert_ordered(regions: &[ListNodeInfo]) {
    for r in regions {
        assert!(r.size >= MIN_BLOCK_SIZE);
    }
    for pair in regions.windows(2) {
        assert!(pair[0].addr + pair[0].size < pair[1].addr);
    }
}

#[test]
fn min_size_is_two_headers() {
    assert_eq!(MergedListAllocator::min_size(), 32);
    assert_eq!(MergedListAllocator::min_size(), MIN_BLOCK_SIZE);
}

#[test]
fn empty_heap_has_no_free_region() {
    let mut heap = MergedListAllocator::empty();
    assert_eq!(heap.free_regions(), vec![]);
    assert_eq!(heap.allocate_first_fit(32, 8), Err(()));
    assert_eq!(heap.free_regions(), vec![]);
}

#[test]
fn empty_heap_takes_a_region() {
    let mut heap = MergedListAllocator::empty();
    assert!(heap.can_deallocate(4096, 4096));
    heap.deallocate(4096, 4096);
    assert_eq!(heap.free_regions(), vec![region(4096, 4096)]);
    assert_eq!(heap.allocate_first_fit(64, 8), Ok(4096));
}

#[test]
fn new_heap_is_one_region() {
    let heap = MergedListAllocator::new(0, 300);
    assert_eq!(heap.free_regions(), vec![region(0, 300)]);
    let heap = MergedListAllocator::new(0x1000, 0x4000);
    assert_eq!(heap.free_regions(), vec![region(0x1000, 0x4000)]);
}

#[test]
fn new_heap_starts_at_a_header_aligned_address() {
    // The five bytes below the first aligned address are lost; the region
    // ends where the heap ends.
    let heap = MergedListAllocator::new(3, 300);
    assert_eq!(heap.free_regions(), vec![region(8, 295)]);
    let heap = MergedListAllocator::new(9, 39);
    assert_eq!(heap.free_regions(), vec![region(16, 32)]);
}

#[test]
fn allocate_returns_start_of_first_fit() {
    let mut heap = MergedListAllocator::new(0, 300);
    assert_eq!(heap.allocate_first_fit(64, 8), Ok(0));
    assert_eq!(heap.free_regions(), vec![region(64, 236)]);
}

#[test]
fn allocate_whole_region_empties_the_list() {
    let mut heap = MergedListAllocator::new(64, 128);
    assert_eq!(heap.allocate_first_fit(128, 64), Ok(64));
    assert_eq!(heap.free_regions(), vec![]);
    assert_eq!(heap.allocate_first_fit(32, 1), Err(()));
}

#[test]
fn allocate_is_aligned() {
    for align in [1usize, 2, 4, 8, 16, 32, 64, 128, 256] {
        let mut heap = MergedListAllocator::new(8, 4096);
        let addr = heap.allocate_first_fit(64, align).unwrap();
        assert_eq!(addr % align, 0);
        assert_ordered(&heap.free_regions());
    }
}

#[test]
fn allocate_reinserts_both_paddings() {
    let mut heap = MergedListAllocator::new(8, 300);
    assert_eq!(heap.allocate_first_fit(64, 64), Ok(64));
    assert_eq!(heap.free_regions(), vec![region(8, 56), region(128, 180)]);
}

#[test]
fn allocate_keeps_free_bytes_but_for_the_allocation() {
    let mut heap = MergedListAllocator::new(8, 1000);
    let before = total(&heap.free_regions());
    heap.allocate_first_fit(100, 64).unwrap();
    assert_eq!(total(&heap.free_regions()) + 100, before);
    heap.allocate_first_fit(32, 8).unwrap();
    assert_eq!(total(&heap.free_regions()) + 132, before);
}

#[test]
fn allocate_back_padding_is_free_afterwards() {
    let mut heap = MergedListAllocator::new(0, 300);
    assert_eq!(heap.allocate_first_fit(200, 8), Ok(0));
    assert_eq!(heap.free_regions(), vec![region(200, 100)]);
    assert_eq!(heap.allocate_first_fit(100, 8), Ok(200));
    assert_eq!(heap.free_regions(), vec![]);
}

#[test]
fn allocate_takes_first_region_that_fits_not_the_best() {
    let mut heap = MergedListAllocator::empty();
    heap.deallocate(0, 200);
    heap.deallocate(1000, 64);
    assert_eq!(heap.free_regions(), vec![region(0, 200), region(1000, 64)]);
    // The second region would fit exactly; the first one is taken.
    assert_eq!(heap.allocate_first_fit(64, 8), Ok(0));
    assert_eq!(heap.free_regions(), vec![region(64, 136), region(1000, 64)]);
}

#[test]
fn allocate_skips_regions_that_cannot_serve() {
    let mut heap = MergedListAllocator::empty();
    heap.deallocate(0, 48);
    heap.deallocate(100, 80);
    heap.deallocate(1000, 500);
    // 48 bytes are too few; 80 bytes would leave 16; the third region serves.
    assert_eq!(heap.allocate_first_fit(64, 4), Ok(1000));
    assert_eq!(heap.free_regions(), vec![region(0, 48), region(100, 80), region(1064, 436)]);
}

#[test]
fn allocate_more_than_all_free_bytes_fails() {
    let mut heap = MergedListAllocator::new(0, 300);
    assert_eq!(heap.allocate_first_fit(301, 1), Err(()));
    assert_eq!(heap.free_regions(), vec![region(0, 300)]);
    heap.allocate_first_fit(64, 8).unwrap();
    assert_eq!(heap.allocate_first_fit(237, 1), Err(()));
    assert_eq!(heap.free_regions(), vec![region(64, 236)]);
}

#[test]
fn allocate_fails_when_no_single_region_fits() {
    let mut heap = MergedListAllocator::empty();
    heap.deallocate(0, 64);
    heap.deallocate(128, 64);
    assert_eq!(heap.allocate_first_fit(100, 8), Err(()));
    assert_eq!(heap.free_regions(), vec![region(0, 64), region(128, 64)]);
}

#[test]
fn fragment_coalescing() {
    let mut heap = MergedListAllocator::new(0, 300);
    assert_eq!(MergedListAllocator::min_size(), 32);

    assert_eq!(heap.allocate_first_fit(64, 8), Ok(0));
    assert_eq!(heap.free_regions(), vec![region(64, 236)]);

    assert_eq!(heap.allocate_first_fit(64, 8), Ok(64));
    assert_eq!(heap.free_regions(), vec![region(128, 172)]);

    heap.deallocate(0, 64);
    assert_eq!(heap.free_regions(), vec![region(0, 64), region(128, 172)]);

    heap.deallocate(64, 64);
    assert_eq!(heap.free_regions(), vec![region(0, 300)]);
}

#[test]
fn round_trip_restores_single_region() {
    for (size, align) in [(32usize, 1usize), (64, 8), (100, 16), (128, 64), (300, 4)] {
        let mut heap = MergedListAllocator::new(8, 1000);
        let before = heap.free_regions();
        let addr = heap.allocate_first_fit(size, align).unwrap();
        assert!(heap.can_deallocate(addr, size));
        heap.deallocate(addr, size);
        assert_eq!(heap.free_regions(), before);
    }
}

#[test]
fn round_trip_restores_fragmented_list() {
    let mut heap = MergedListAllocator::empty();
    heap.deallocate(8, 40);
    heap.deallocate(200, 500);
    heap.deallocate(1000, 64);
    let before = heap.free_regions();
    let addr = heap.allocate_first_fit(64, 64).unwrap();
    assert_eq!(addr, 256);
    assert_eq!(heap.free_regions(), vec![region(8, 40), region(200, 56), region(320, 380), region(1000, 64)]);
    heap.deallocate(addr, 64);
    assert_eq!(heap.free_regions(), before);
}

#[test]
fn deallocate_merges_into_predecessor() {
    let mut heap = MergedListAllocator::empty();
    heap.deallocate(100, 50);
    heap.deallocate(400, 50);
    heap.deallocate(150, 40);
    assert_eq!(heap.free_regions(), vec![region(100, 90), region(400, 50)]);
}

#[test]
fn deallocate_merges_into_successor() {
    let mut heap = MergedListAllocator::empty();
    heap.deallocate(100, 50);
    heap.deallocate(400, 50);
    heap.deallocate(360, 40);
    assert_eq!(heap.free_regions(), vec![region(100, 50), region(360, 90)]);
}

#[test]
fn deallocate_merges_into_first_region() {
    let mut heap = MergedListAllocator::empty();
    heap.deallocate(400, 50);
    heap.deallocate(360, 40);
    assert_eq!(heap.free_regions(), vec![region(360, 90)]);
}

#[test]
fn deallocate_bridges_both_neighbours() {
    let mut heap = MergedListAllocator::empty();
    heap.deallocate(0, 40);
    heap.deallocate(100, 50);
    heap.deallocate(190, 60);
    heap.deallocate(400, 50);
    heap.deallocate(150, 40);
    assert_eq!(heap.free_regions(), vec![region(0, 40), region(100, 150), region(400, 50)]);
}

#[test]
fn deallocate_inserts_between_apart_regions() {
    let mut heap = MergedListAllocator::empty();
    heap.deallocate(100, 50);
    heap.deallocate(400, 50);
    heap.deallocate(200, 100);
    assert_eq!(heap.free_regions(), vec![region(100, 50), region(200, 100), region(400, 50)]);
}

#[test]
fn deallocate_inserts_at_head_and_tail() {
    let mut heap = MergedListAllocator::empty();
    heap.deallocate(200, 100);
    heap.deallocate(50, 100);
    heap.deallocate(1000, 32);
    assert_eq!(heap.free_regions(), vec![region(50, 100), region(200, 100), region(1000, 32)]);
}

#[test]
fn deallocate_at_address_zero_is_listed() {
    let mut heap = MergedListAllocator::empty();
    heap.deallocate(100, 50);
    heap.deallocate(0, 64);
    assert_eq!(heap.free_regions(), vec![region(0, 64), region(100, 50)]);
    assert_eq!(heap.allocate_first_fit(64, 1), Ok(0));
    assert_eq!(heap.free_regions(), vec![region(100, 50)]);
}

#[test]
fn deallocate_adds_the_bytes_given_back() {
    let mut heap = MergedListAllocator::new(0, 1024);
    let a = heap.allocate_first_fit(128, 8).unwrap();
    let b = heap.allocate_first_fit(256, 8).unwrap();
    let c = heap.allocate_first_fit(64, 8).unwrap();
    let before = total(&heap.free_regions());
    heap.deallocate(b, 256);
    assert_eq!(total(&heap.free_regions()), before + 256);
    heap.deallocate(a, 128);
    assert_eq!(total(&heap.free_regions()), before + 384);
    heap.deallocate(c, 64);
    assert_eq!(heap.free_regions(), vec![region(0, 1024)]);
}

#[test]
fn double_free_is_detected() {
    let mut heap = MergedListAllocator::new(0, 300);
    let addr = heap.allocate_first_fit(64, 8).unwrap();
    assert!(heap.can_deallocate(addr, 64));
    heap.deallocate(addr, 64);
    assert!(!heap.can_deallocate(addr, 64));
}

#[test]
fn double_free_is_detected_without_merge() {
    let mut heap = MergedListAllocator::new(0, 300);
    let a = heap.allocate_first_fit(64, 8).unwrap();
    let _b = heap.allocate_first_fit(64, 8).unwrap();
    heap.deallocate(a, 64);
    assert_eq!(heap.free_regions(), vec![region(0, 64), region(128, 172)]);
    assert!(!heap.can_deallocate(a, 64));
}

#[test]
fn can_deallocate_refuses_overlap_with_free_regions() {
    let mut heap = MergedListAllocator::empty();
    heap.deallocate(100, 100);
    heap.deallocate(400, 100);
    // inside a free region, across its start, across its end
    assert!(!heap.can_deallocate(120, 40));
    assert!(!heap.can_deallocate(80, 40));
    assert!(!heap.can_deallocate(180, 40));
    assert!(!heap.can_deallocate(380, 200));
    assert!(!heap.can_deallocate(0, 1000));
    // touching is no overlap
    assert!(heap.can_deallocate(200, 200));
    assert!(heap.can_deallocate(60, 40));
    assert!(heap.can_deallocate(500, 32));
    assert!(heap.can_deallocate(250, 100));
}

#[test]
fn can_deallocate_refuses_sizes_below_minimum() {
    let heap = MergedListAllocator::new(0, 300);
    assert!(!heap.can_deallocate(1000, 0));
    assert!(!heap.can_deallocate(1000, 16));
    assert!(!heap.can_deallocate(1000, 31));
    assert!(heap.can_deallocate(1000, 32));
}

#[test]
fn can_deallocate_refuses_regions_past_the_address_space() {
    let heap = MergedListAllocator::empty();
    assert!(!heap.can_deallocate(usize::MAX - 10, 32));
    assert!(!heap.can_deallocate(usize::MAX, usize::MAX));
    assert!(heap.can_deallocate(usize::MAX - 32, 32));
}

#[test]
fn free_list_stays_ordered_and_merged() {
    let mut heap = MergedListAllocator::new(0, 4096);
    let mut live: Vec<(usize, usize)> = Vec::new();
    let requests: [(usize, usize); 12] = [
        (64, 8), (100, 16), (32, 1), (256, 64), (48, 8), (500, 128),
        (32, 32), (96, 8), (1000, 256), (40, 4), (64, 64), (200, 8),
    ];
    for (n, (size, align)) in requests.iter().enumerate() {
        if let Ok(addr) = heap.allocate_first_fit(*size, *align) {
            assert_eq!(addr % align, 0);
            for (other, other_size) in &live {
                assert!(addr + size <= *other || other + other_size <= addr);
            }
            live.push((addr, *size));
        }
        assert_ordered(&heap.free_regions());
        if n % 3 == 2 {
            let (addr, size) = live.remove(live.len() / 2);
            assert!(heap.can_deallocate(addr, size));
            heap.deallocate(addr, size);
            assert_ordered(&heap.free_regions());
        }
        let used: usize = live.iter().map(|(_, size)| size).sum();
        assert_eq!(total(&heap.free_regions()) + used, 4096);
    }
    while let Some((addr, size)) = live.pop() {
        assert!(heap.can_deallocate(addr, size));
        heap.deallocate(addr, size);
        assert_ordered(&heap.free_regions());
    }
    assert_eq!(heap.free_regions(), vec![region(0, 4096)]);
}

#[test]
fn header_aligned_requests_keep_headers_aligned() {
    let mut heap = MergedListAllocator::new(5, 2048);
    let mut live: Vec<(usize, usize)> = Vec::new();
    for (size, align) in [(64usize, 1usize), (40, 2), (128, 4), (32, 8), (96, 64), (256, 512)] {
        let addr = heap.allocate_first_fit(size, align).unwrap();
        assert_eq!(addr % 8, 0);
        live.push((addr, size));
        for r in heap.free_regions() {
            assert_eq!(r.addr % 8, 0);
        }
    }
    for (addr, size) in live {
        heap.deallocate(addr, size);
        for r in heap.free_regions() {
            assert_eq!(r.addr % 8, 0);
        }
    }
    assert_eq!(heap.free_regions(), vec![region(8, 2045)]);
}

#[test]
fn heap_at_the_top_of_the_address_space() {
    let top = usize::MAX - 4095;
    let mut heap = MergedListAllocator::new(top - 4096, 8191);
    assert_eq!(heap.free_regions(), vec![region(top - 4096, 8191)]);
    assert_eq!(heap.allocate_first_fit(4096, 4096), Ok(top - 4096));
    assert_eq!(heap.free_regions(), vec![region(top, 4095)]);
    // The next multiple of 8192 lies past the address space.
    assert_eq!(heap.allocate_first_fit(64, 8192), Err(()));
    assert_eq!(heap.free_regions(), vec![region(top, 4095)]);
    assert_eq!(heap.allocate_first_fit(4095, 1), Ok(top));
    assert_eq!(heap.free_regions(), vec![]);
    assert!(heap.can_deallocate(top, 4095));
    heap.deallocate(top, 4095);
    heap.deallocate(top - 4096, 4096);
    assert_eq!(heap.free_regions(), vec![region(top - 4096, 8191)]);
}
