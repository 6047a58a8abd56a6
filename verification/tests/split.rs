use merged_list_allocator::{split_ListNode, Allocation, ListNodeInfo, MergedListAllocator};

fn region(addr: usize, size: usize) -> ListNodeInfo {
    ListNodeInfo { addr, size }
}

#[test]
fn split_exact_fit_has_no_padding() {
    assert_eq!(
        split_ListNode(region(64, 64), 64, 8),
        Some(Allocation { info: region(64, 64), front_padding: None, back_padding: None })
    );
}

#[test]
fn split_aligned_start_leaves_back_padding() {
    assert_eq!(
        split_ListNode(region(0, 300), 64, 8),
        Some(Allocation {
            info: region(0, 64),
            front_padding: None,
            back_padding: Some(region(64, 236)),
        })
    );
}

#[test]
fn split_unaligned_start_leaves_front_padding() {
    // 8 is not a multiple of 64: the allocation starts at the first multiple
    // of 64 at or above 8 + 32.
    assert_eq!(
        split_ListNode(region(8, 300), 64, 64),
        Some(Allocation {
            info: region(64, 64),
            front_padding: Some(region(8, 56)),
            back_padding: Some(region(128, 180)),
        })
    );
}

#[test]
fn split_front_padding_is_never_below_minimum() {
    // 40 + 32 = 72 rounds up to 128, not to 64, so that the front padding
    // can hold a header.
    assert_eq!(
        split_ListNode(region(40, 400), 64, 64),
        Some(Allocation {
            info: region(128, 64),
            front_padding: Some(region(40, 88)),
            back_padding: Some(region(192, 248)),
        })
    );
    let min = MergedListAllocator::min_size();
    for addr in 1usize..64 {
        if let Some(a) = split_ListNode(region(addr, 1000), 64, 64) {
            let front = a.front_padding.unwrap();
            assert!(front.size >= min);
            assert_eq!(front.addr, addr);
            assert_eq!(front.addr + front.size, a.info.addr);
            assert_eq!(a.info.addr % 64, 0);
        } else {
            panic!("a region of 1000 bytes can serve 64 bytes");
        }
    }
}

#[test]
fn split_front_padding_and_exact_end() {
    assert_eq!(
        split_ListNode(region(8, 120), 64, 64),
        Some(Allocation {
            info: region(64, 64),
            front_padding: Some(region(8, 56)),
            back_padding: None,
        })
    );
}

#[test]
fn split_rejects_region_that_is_too_small() {
    assert_eq!(split_ListNode(region(0, 63), 64, 8), None);
    assert_eq!(split_ListNode(region(0, 32), 64, 1), None);
}

#[test]
fn split_rejects_when_alignment_pushes_past_the_end() {
    assert_eq!(split_ListNode(region(8, 100), 64, 64), None);
    assert_eq!(split_ListNode(region(8, 64), 64, 4096), None);
}

#[test]
fn split_rejects_leftover_below_minimum() {
    // 80 - 64 = 16 bytes would be left: too few for a free region.
    assert_eq!(split_ListNode(region(0, 80), 64, 8), None);
    assert_eq!(split_ListNode(region(0, 95), 64, 8), None);
    // 32 bytes left are enough.
    assert_eq!(
        split_ListNode(region(0, 96), 64, 8),
        Some(Allocation {
            info: region(0, 64),
            front_padding: None,
            back_padding: Some(region(64, 32)),
        })
    );
}

#[test]
fn split_near_the_top_of_the_address_space() {
    let top = usize::MAX - 63;
    assert_eq!(split_ListNode(region(top + 1, 62), 32, 16), None);
    assert_eq!(split_ListNode(region(usize::MAX - 40, 40), 32, 8), None);
    assert_eq!(
        split_ListNode(region(top - 64, 64), 64, 64),
        Some(Allocation { info: region(top - 64, 64), front_padding: None, back_padding: None })
    );
}

#[test]
fn split_allocation_has_the_size_asked_for() {
    for size in [32usize, 40, 64, 100, 256] {
        let a = split_ListNode(region(0, 1024), size, 8).unwrap();
        assert_eq!(a.info.size, size);
        let back = a.back_padding.unwrap();
        assert_eq!(back.addr, size);
        assert_eq!(back.size, 1024 - size);
    }
}
