//! What holds of a free list across calls.
//!
//! The contracts of `allocate_first_fit` and `deallocate` say what one call
//! does, over `carve_first_fit` and `merge_insert`. The statements here are
//! about those two functions in sequence.

use vstd::prelude::*;
use crate::lemmas::carve::{
    lemma_allocation_grows_back, lemma_first_fit, lemma_paddings_in_place, lemma_split,
};
use crate::lemmas::merge::{lemma_merge_insert_form, lemma_merged_at_cut_apart, lemma_position};
use crate::lemmas::order::lemma_apart_parts;
use crate::merged_list::{ListNodeInfo, MIN_BLOCK_SIZE};
use crate::model::{
    can_deallocate, carve_first_fit, carve_start, first_fit, free_list_wf, merge_insert, paddings,
    position, region_end, split_spec, valid_region,
};

verus! {

/// An allocation that is given back at once, with the size it was asked
/// with, leaves the free list as it was before the allocation: the paddings
/// that the split left and the allocation grow together into the region that
/// served the request.
pub proof fn lemma_allocate_deallocate_restores(s: Seq<ListNodeInfo>, size: usize, align: usize)
    requires
        free_list_wf(s),
        size >= MIN_BLOCK_SIZE,
        align > 0,
        first_fit(s, size, align) < s.len(),
    ensures
        ({
            let addr = carve_start(s[first_fit(s, size, align)], align) as usize;
            &&& can_deallocate(carve_first_fit(s, size, align), addr, size)
            &&& merge_insert(carve_first_fit(s, size, align), addr, size) == s
        }),
{
    lemma_first_fit(s, size, align);
    let i = first_fit(s, size, align);
    let region = s[i];
    let a = split_spec(region, size, align).unwrap();
    let before = s.subrange(0, i);
    let behind = s.subrange(i + 1, s.len() as int);
    assert(valid_region(s[i]));
    assert(s =~= before + seq![region] + behind);
    lemma_split(region, size, align);
    lemma_paddings_in_place(before, region, behind, a);
    lemma_allocation_grows_back(before, region, behind, a);
}

/// What was given back is free, so it may not be given back again: after
/// `[addr, addr + size)` went back to the free list, `can_deallocate`
/// refuses the same region.
pub proof fn lemma_second_deallocate_refused(s: Seq<ListNodeInfo>, addr: usize, size: usize)
    requires
        free_list_wf(s),
        can_deallocate(s, addr, size),
    ensures
        !can_deallocate(merge_insert(s, addr, size), addr, size),
{
    lemma_position(s, addr);
    let k = position(s, addr);
    let r = merge_insert(s, addr, size);
    let at = if k > 0 && region_end(s[k - 1]) == addr { k - 1 } else { k };
    if k > 0 {
        assert(valid_region(s[k - 1]));
    }
    if k < s.len() {
        assert(valid_region(s[k]));
    }
    assert(r[at].addr <= addr);
    assert(region_end(r[at]) >= addr + size);
}

/// Serving a request takes nothing from what is handed out already: a
/// region that shared no byte with the free list before shares none with it
/// afterwards, and none with the new allocation.
pub proof fn lemma_allocate_keeps_apart(
    s: Seq<ListNodeInfo>,
    size: usize,
    align: usize,
    addr: usize,
    len: usize,
)
    requires
        free_list_wf(s),
        size >= MIN_BLOCK_SIZE,
        align > 0,
        can_deallocate(s, addr, len),
    ensures
        can_deallocate(carve_first_fit(s, size, align), addr, len),
        first_fit(s, size, align) < s.len() ==> ({
            let start = carve_start(s[first_fit(s, size, align)], align);
            start + size <= addr || addr + len <= start
        }),
{
    lemma_first_fit(s, size, align);
    let i = first_fit(s, size, align);
    if i < s.len() {
        let region = s[i];
        let a = split_spec(region, size, align).unwrap();
        assert(valid_region(s[i]));
        assert(region_end(s[i]) <= addr || addr + len <= s[i].addr);
        lemma_split(region, size, align);
        let r = carve_first_fit(s, size, align);
        let n = paddings(a).len() as int;
        assert forall|j: int| 0 <= j < r.len() implies region_end(#[trigger] r[j]) <= addr || addr
            + len <= r[j].addr by {
            if j < i {
                assert(r[j] == s[j]);
            } else if j >= i + n {
                assert(r[j] == s[j - n + 1]);
            } else {
                assert(r[j] == paddings(a)[j - i]);
            }
        }
    }
}

/// Giving a region back takes nothing from what else is handed out: another
/// region that shared no byte with the free list before, nor with the region
/// given back, shares none with the free list afterwards.
pub proof fn lemma_deallocate_keeps_apart(
    s: Seq<ListNodeInfo>,
    addr: usize,
    size: usize,
    other_addr: usize,
    other_size: usize,
)
    requires
        free_list_wf(s),
        can_deallocate(s, addr, size),
        can_deallocate(s, other_addr, other_size),
        addr + size <= other_addr || other_addr + other_size <= addr,
    ensures
        can_deallocate(merge_insert(s, addr, size), other_addr, other_size),
{
    lemma_merge_insert_form(s, addr, size);
    let k = position(s, addr);
    let front = s.subrange(0, k);
    let back = s.subrange(k, s.len() as int);
    lemma_apart_parts(front, back, other_addr, other_size);
    lemma_merged_at_cut_apart(front, back, addr, size, other_addr, other_size);
}

} // verus!
