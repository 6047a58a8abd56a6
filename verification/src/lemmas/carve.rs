//! Serving a request: which region serves it, how the region is split, and
//! what the list is once the paddings are back in it.

use vstd::prelude::*;
use crate::align::{is_aligned, lemma_align_up_is_least, lemma_aligned_to_divisor};
use crate::lemmas::merge::{
    joins_first, joins_last, lemma_insert_apart, lemma_merge_insert_at_cut, merged_region,
};
use crate::lemmas::order::{lemma_wf_ends, lemma_wf_parts, lemma_wf_remove};
use crate::lemmas::total::{lemma_total_free_concat, lemma_total_free_one, lemma_total_free_split};
use crate::merged_list::{Allocation, HEADER_ALIGN, ListNodeInfo, MIN_BLOCK_SIZE};
use crate::model::{
    can_deallocate, carve_first_fit, carve_spare, carve_start, first_fit, free_list_wf,
    headers_aligned, keeps_headers_aligned, merge_insert, paddings, region_end, split_spec,
    total_free, valid_region,
};

verus! {

/// `first_fit` is an index into the list or its length; no region before it
/// can serve the request, and the region at it can.
pub proof fn lemma_first_fit(s: Seq<ListNodeInfo>, size: usize, align: usize)
    ensures
        0 <= first_fit(s, size, align) <= s.len(),
        forall|j: int|
            0 <= j < first_fit(s, size, align) ==> split_spec(#[trigger] s[j], size, align) is None,
        first_fit(s, size, align) < s.len() ==> split_spec(
            s[first_fit(s, size, align)],
            size,
            align,
        ) is Some,
    decreases s.len(),
{
    if s.len() == 0 || split_spec(s[0], size, align) is Some {
    } else {
        let t = s.drop_first();
        lemma_first_fit(t, size, align);
        let f = first_fit(t, size, align);
        assert forall|j: int| 0 <= j < f + 1 implies split_spec(
            #[trigger] s[j],
            size,
            align,
        ) is None by {
            if j > 0 {
                assert(t[j - 1] == s[j]);
            }
        }
        if f < t.len() {
            assert(t[f] == s[f + 1]);
        }
    }
}

/// The index that no earlier region can serve the request at, and whose own
/// region can, is `first_fit`.
pub proof fn lemma_first_fit_is(s: Seq<ListNodeInfo>, size: usize, align: usize, k: int)
    requires
        0 <= k <= s.len(),
        forall|j: int| 0 <= j < k ==> split_spec(#[trigger] s[j], size, align) is None,
        k < s.len() ==> split_spec(s[k], size, align) is Some,
    ensures
        first_fit(s, size, align) == k,
{
    lemma_first_fit(s, size, align);
    let f = first_fit(s, size, align);
    if f < k {
        assert(split_spec(s[f], size, align) is None);
    }
}

/// How an allocation and its paddings lie in the region they were split
/// from: front padding, allocation and back padding follow each other from
/// the region's start to its end, and the paddings are valid regions.
pub open spec fn tiles(region: ListNodeInfo, a: Allocation) -> bool {
    &&& a.info.size >= MIN_BLOCK_SIZE
    &&& region.addr <= a.info.addr
    &&& region_end(a.info) <= region_end(region)
    &&& match a.front_padding {
        Some(f) => valid_region(f) && f.addr == region.addr && region_end(f) == a.info.addr,
        None => a.info.addr == region.addr,
    }
    &&& match a.back_padding {
        Some(b) => valid_region(b) && b.addr == region_end(a.info) && region_end(b) == region_end(
            region,
        ),
        None => region_end(a.info) == region_end(region),
    }
}

/// A split that serves a request of at least the minimum size tiles its
/// region, starts where `carve_start` says, and is aligned.
pub proof fn lemma_split(region: ListNodeInfo, size: usize, align: usize)
    requires
        valid_region(region),
        size >= MIN_BLOCK_SIZE,
        align > 0,
        split_spec(region, size, align) is Some,
    ensures
        tiles(region, split_spec(region, size, align).unwrap()),
        split_spec(region, size, align).unwrap().info.size == size,
        split_spec(region, size, align).unwrap().info.addr == carve_start(region, align),
        is_aligned(carve_start(region, align), align as int),
{
    lemma_align_up_is_least(region.addr + MIN_BLOCK_SIZE, align as int);
}

/// The paddings of an allocation that tiles its region hold the region's
/// bytes less the allocation's.
pub proof fn lemma_paddings_total(region: ListNodeInfo, a: Allocation)
    requires
        tiles(region, a),
    ensures
        total_free(paddings(a)) + a.info.size == region.size,
{
    let front = match a.front_padding {
        Some(f) => seq![f],
        None => Seq::empty(),
    };
    let back = match a.back_padding {
        Some(b) => seq![b],
        None => Seq::empty(),
    };
    match a.front_padding {
        Some(f) => lemma_total_free_one(f),
        None => {},
    }
    match a.back_padding {
        Some(b) => lemma_total_free_one(b),
        None => {},
    }
    lemma_total_free_concat(front, back);
}

/// Once the region that an allocation tiles is out of the list, the front
/// padding may be given back, and is then listed in the region's place.
pub proof fn lemma_front_padding_apart(
    before: Seq<ListNodeInfo>,
    region: ListNodeInfo,
    behind: Seq<ListNodeInfo>,
    a: Allocation,
)
    requires
        free_list_wf(before + seq![region] + behind),
        tiles(region, a),
        a.front_padding is Some,
    ensures
        free_list_wf(before + behind),
        can_deallocate(before + behind, a.front_padding->0.addr, a.front_padding->0.size),
        merge_insert(before + behind, a.front_padding->0.addr, a.front_padding->0.size)
            == before.push(a.front_padding->0) + behind,
        free_list_wf(before.push(a.front_padding->0) + behind),
{
    let s = before + seq![region] + behind;
    let i = before.len() as int;
    let f = a.front_padding->0;
    lemma_wf_remove(s, i);
    assert(s.remove(i) =~= before + behind);
    assert(s[i] == region);
    if i > 0 {
        assert(before.last() == s[i - 1]);
        assert(region_end(s[i - 1]) < s[i].addr);
    }
    if behind.len() > 0 {
        assert(behind[0] == s[i + 1]);
        assert(region_end(s[i]) < s[i + 1].addr);
    }
    lemma_insert_apart(before, behind, f.addr, f.size);
    assert(before + seq![f] + behind =~= before.push(f) + behind);
}

/// Once the region that an allocation tiles is out of the list and the front
/// padding, if there is one, is back in it, the back padding may be given
/// back, and is then listed behind the front padding.
pub proof fn lemma_back_padding_apart(
    before: Seq<ListNodeInfo>,
    region: ListNodeInfo,
    behind: Seq<ListNodeInfo>,
    a: Allocation,
)
    requires
        free_list_wf(before + seq![region] + behind),
        tiles(region, a),
        a.back_padding is Some,
    ensures
        ({
            let mid = match a.front_padding {
                Some(f) => before.push(f),
                None => before,
            };
            let b = a.back_padding->0;
            &&& free_list_wf(mid + behind)
            &&& can_deallocate(mid + behind, b.addr, b.size)
            &&& merge_insert(mid + behind, b.addr, b.size) == mid.push(b) + behind
            &&& free_list_wf(mid.push(b) + behind)
        }),
{
    let s = before + seq![region] + behind;
    let i = before.len() as int;
    let b = a.back_padding->0;
    let mid = match a.front_padding {
        Some(f) => before.push(f),
        None => before,
    };
    assert(s[i] == region);
    if i > 0 {
        assert(before.last() == s[i - 1]);
        assert(region_end(s[i - 1]) < s[i].addr);
    }
    if behind.len() > 0 {
        assert(behind[0] == s[i + 1]);
        assert(region_end(s[i]) < s[i + 1].addr);
    }
    if a.front_padding is Some {
        lemma_front_padding_apart(before, region, behind, a);
    } else {
        lemma_wf_remove(s, i);
        assert(s.remove(i) =~= before + behind);
    }
    lemma_insert_apart(mid, behind, b.addr, b.size);
    assert(mid + seq![b] + behind =~= mid.push(b) + behind);
}

/// With the region that an allocation tiles replaced by the paddings, the
/// list is a free list that shares no byte with the allocation.
pub proof fn lemma_paddings_in_place(
    before: Seq<ListNodeInfo>,
    region: ListNodeInfo,
    behind: Seq<ListNodeInfo>,
    a: Allocation,
)
    requires
        free_list_wf(before + seq![region] + behind),
        tiles(region, a),
    ensures
        free_list_wf(before + paddings(a) + behind),
        can_deallocate(before + paddings(a) + behind, a.info.addr, a.info.size),
        before + paddings(a) + behind == (match a.front_padding {
            Some(f) => before.push(f),
            None => before,
        }) + (match a.back_padding {
            Some(b) => seq![b],
            None => Seq::empty(),
        }) + behind,
{
    let s = before + seq![region] + behind;
    let i = before.len() as int;
    let mid = match a.front_padding {
        Some(f) => before.push(f),
        None => before,
    };
    let r = before + paddings(a) + behind;
    assert(s[i] == region);
    assert(valid_region(s[i]));
    assert(r =~= mid + (match a.back_padding {
        Some(b) => seq![b],
        None => Seq::empty(),
    }) + behind);
    if a.back_padding is Some {
        lemma_back_padding_apart(before, region, behind, a);
        assert(r =~= mid.push(a.back_padding->0) + behind);
    } else if a.front_padding is Some {
        lemma_front_padding_apart(before, region, behind, a);
        assert(r =~= mid + behind);
    } else {
        lemma_wf_remove(s, i);
        assert(r =~= s.remove(i));
    }
    let n = paddings(a).len() as int;
    assert forall|j: int| 0 <= j < r.len() implies region_end(#[trigger] r[j]) <= a.info.addr
        || a.info.addr + a.info.size <= r[j].addr by {
        if j < i {
            assert(r[j] == s[j]);
            assert(region_end(s[j]) < s[i].addr);
        } else if j >= i + n {
            assert(r[j] == s[j - n + 1]);
            assert(region_end(s[i]) < s[j - n + 1].addr);
        } else {
            assert(r[j] == paddings(a)[j - i]);
        }
    }
}

/// With the region that an allocation tiles replaced by the paddings,
/// giving the allocation back makes the paddings and the allocation grow
/// together into that region again.
pub proof fn lemma_allocation_grows_back(
    before: Seq<ListNodeInfo>,
    region: ListNodeInfo,
    behind: Seq<ListNodeInfo>,
    a: Allocation,
)
    requires
        free_list_wf(before + seq![region] + behind),
        tiles(region, a),
    ensures
        merge_insert(before + paddings(a) + behind, a.info.addr, a.info.size) == before
            + seq![region] + behind,
{
    let s = before + seq![region] + behind;
    let i = before.len() as int;
    lemma_paddings_in_place(before, region, behind, a);
    let front = match a.front_padding {
        Some(f) => before.push(f),
        None => before,
    };
    let back = (match a.back_padding {
        Some(b) => seq![b],
        None => Seq::<ListNodeInfo>::empty(),
    }) + behind;
    assert(before + paddings(a) + behind =~= front + back);
    assert(s[i] == region);
    assert(valid_region(s[i]));
    lemma_wf_parts(before + seq![region], behind);
    lemma_wf_parts(before, seq![region]);
    if before.len() > 0 {
        lemma_wf_ends(before);
    }
    assert forall|j: int| 0 <= j < front.len() implies (#[trigger] front[j]).addr <= a.info.addr by {
        if j < i {
            assert(front[j] == before[j]);
            assert(region_end(before[j]) <= region_end(before.last()));
        }
    }
    if behind.len() > 0 {
        assert((before + seq![region]).last() == region);
    }
    lemma_merge_insert_at_cut(front, back, a.info.addr, a.info.size);
    assert(joins_last(front, a.info.addr) == (a.front_padding is Some));
    assert(joins_first(back, a.info.addr, a.info.size) == (a.back_padding is Some));
    assert(merged_region(front, back, a.info.addr, a.info.size) == region);
    if a.front_padding is Some {
        assert(front.drop_last() =~= before);
    }
    if a.back_padding is Some {
        assert(back.drop_first() =~= behind);
    } else {
        assert(back =~= behind);
    }
}

/// Serving a request first-fit comes to this: the region that serves it is
/// taken out of the list, and the paddings of its split are given back one
/// after the other. Each may be given back when its turn comes. The outcome
/// is a free list that the allocation may later be given back to, and it
/// holds `size` bytes less than before.
pub proof fn lemma_carve_steps(s: Seq<ListNodeInfo>, size: usize, align: usize)
    requires
        free_list_wf(s),
        size >= MIN_BLOCK_SIZE,
        align > 0,
        first_fit(s, size, align) < s.len(),
    ensures
        ({
            let i = first_fit(s, size, align);
            let a = split_spec(s[i], size, align).unwrap();
            let taken = s.remove(i);
            let fronted = match a.front_padding {
                Some(f) => merge_insert(taken, f.addr, f.size),
                None => taken,
            };
            let backed = match a.back_padding {
                Some(b) => merge_insert(fronted, b.addr, b.size),
                None => fronted,
            };
            &&& 0 <= i
            &&& split_spec(s[i], size, align) is Some
            &&& a.info.size == size
            &&& is_aligned(a.info.addr as int, align as int)
            &&& free_list_wf(taken)
            &&& a.front_padding matches Some(f) ==> can_deallocate(taken, f.addr, f.size)
            &&& free_list_wf(fronted)
            &&& a.back_padding matches Some(b) ==> can_deallocate(fronted, b.addr, b.size)
            &&& backed == carve_first_fit(s, size, align)
            &&& free_list_wf(backed)
            &&& can_deallocate(backed, a.info.addr, size)
            &&& total_free(backed) + size == total_free(s)
        }),
{
    lemma_first_fit(s, size, align);
    let i = first_fit(s, size, align);
    let region = s[i];
    let a = split_spec(region, size, align).unwrap();
    let before = s.subrange(0, i);
    let behind = s.subrange(i + 1, s.len() as int);
    assert(valid_region(s[i]));
    assert(s =~= before + seq![region] + behind);
    lemma_split(region, size, align);
    lemma_wf_remove(s, i);
    let taken = s.remove(i);
    let fronted = match a.front_padding {
        Some(f) => merge_insert(taken, f.addr, f.size),
        None => taken,
    };
    let backed = match a.back_padding {
        Some(b) => merge_insert(fronted, b.addr, b.size),
        None => fronted,
    };
    let mid = match a.front_padding {
        Some(f) => before.push(f),
        None => before,
    };
    assert(taken == before + behind);
    if a.front_padding is Some {
        lemma_front_padding_apart(before, region, behind, a);
    }
    assert(fronted == mid + behind);
    assert(free_list_wf(fronted));
    if a.back_padding is Some {
        lemma_back_padding_apart(before, region, behind, a);
        assert(mid.push(a.back_padding->0) + behind =~= mid + seq![a.back_padding->0] + behind);
    } else {
        assert(mid + behind =~= mid + Seq::<ListNodeInfo>::empty() + behind);
    }
    lemma_paddings_in_place(before, region, behind, a);
    assert(backed == before + paddings(a) + behind);
    assert(backed == carve_first_fit(s, size, align));
    lemma_paddings_total(region, a);
    lemma_total_free_split(s, i);
    lemma_total_free_concat(before + paddings(a), behind);
    lemma_total_free_concat(before, paddings(a));
}

/// Where every header stands at an aligned address, a request that keeps
/// headers aligned is served at such an address and leaves every header at
/// one.
pub proof fn lemma_carve_aligned(s: Seq<ListNodeInfo>, size: usize, align: usize)
    requires
        free_list_wf(s),
        headers_aligned(s),
        size >= MIN_BLOCK_SIZE,
        align > 0,
        keeps_headers_aligned(size, align),
        first_fit(s, size, align) < s.len(),
    ensures
        is_aligned(carve_start(s[first_fit(s, size, align)], align), HEADER_ALIGN as int),
        headers_aligned(carve_first_fit(s, size, align)),
{
    lemma_first_fit(s, size, align);
    let i = first_fit(s, size, align);
    let region = s[i];
    let a = split_spec(region, size, align).unwrap();
    let start = carve_start(region, align);
    assert(valid_region(s[i]));
    assert(is_aligned(s[i].addr as int, HEADER_ALIGN as int));
    lemma_split(region, size, align);
    if is_aligned(align as int, HEADER_ALIGN as int) {
        lemma_aligned_to_divisor(start, align as int, HEADER_ALIGN as int);
    } else {
        lemma_aligned_to_divisor(region.addr as int, HEADER_ALIGN as int, align as int);
    }
    assert(is_aligned(start, HEADER_ALIGN as int));
    assert(is_aligned(start + size, HEADER_ALIGN as int));
    let r = carve_first_fit(s, size, align);
    let n = paddings(a).len() as int;
    assert forall|j: int| 0 <= j < r.len() implies is_aligned(
        (#[trigger] r[j]).addr as int,
        HEADER_ALIGN as int,
    ) by {
        if j < i {
            assert(r[j] == s[j]);
        } else if j >= i + n {
            assert(r[j] == s[j - n + 1]);
        } else {
            assert(r[j] == paddings(a)[j - i]);
        }
    }
}

/// A request for more bytes than the whole list holds finds no region.
pub proof fn lemma_exhausted(s: Seq<ListNodeInfo>, size: usize, align: usize)
    requires
        align > 0,
        size > total_free(s),
    ensures
        first_fit(s, size, align) == s.len(),
{
    lemma_first_fit(s, size, align);
    let i = first_fit(s, size, align);
    if i < s.len() {
        lemma_align_up_is_least(s[i].addr + MIN_BLOCK_SIZE, align as int);
        assert(carve_start(s[i], align) >= s[i].addr);
        assert(carve_spare(s[i], size, align) >= 0);
        lemma_total_free_split(s, i);
    }
}

} // verus!
