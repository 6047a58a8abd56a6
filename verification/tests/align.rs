use merged_list_allocator::align::{align_up, checked_align_up};

#[test]
fn align_up_leaves_aligned_addresses() {
    assert_eq!(align_up(0, 8), 0);
    assert_eq!(align_up(16, 8), 16);
    assert_eq!(align_up(4096, 4096), 4096);
    assert_eq!(align_up(7, 1), 7);
}

#[test]
fn align_up_rounds_to_next_multiple() {
    assert_eq!(align_up(1, 8), 8);
    assert_eq!(align_up(13, 8), 16);
    assert_eq!(align_up(17, 16), 32);
    assert_eq!(align_up(4097, 4096), 8192);
}

#[test]
fn align_up_result_is_least_multiple() {
    for addr in 0usize..200 {
        for align in [1usize, 2, 4, 8, 16, 32, 64] {
            let up = align_up(addr, align);
            assert_eq!(up % align, 0);
            assert!(up >= addr);
            assert!(up - addr < align);
        }
    }
}

#[test]
fn align_up_takes_any_positive_alignment() {
    assert_eq!(align_up(10, 3), 12);
    assert_eq!(align_up(12, 3), 12);
    assert_eq!(align_up(25, 12), 36);
}

#[test]
fn checked_align_up_agrees_with_align_up() {
    assert_eq!(checked_align_up(13, 8), Some(16));
    assert_eq!(checked_align_up(16, 8), Some(16));
    assert_eq!(checked_align_up(0, 64), Some(0));
}

#[test]
fn checked_align_up_reports_overflow() {
    assert_eq!(checked_align_up(usize::MAX, 8), None);
    assert_eq!(checked_align_up(usize::MAX - 6, 8), None);
    assert_eq!(checked_align_up(usize::MAX - 7, 8), Some(usize::MAX - 7));
    assert_eq!(checked_align_up(usize::MAX, 1), Some(usize::MAX));
}
