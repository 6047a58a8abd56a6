//! Giving a region back: where it goes, and what the list is afterwards.

use vstd::prelude::*;
use crate::align::is_aligned;
use crate::lemmas::order::{
    lemma_apart_join, lemma_apart_parts, lemma_wf_join, lemma_wf_one, lemma_wf_parts,
    lemma_wf_subrange,
};
use crate::lemmas::total::{lemma_total_free_concat, lemma_total_free_one, lemma_total_free_split};
use crate::merged_list::{HEADER_ALIGN, ListNodeInfo, MIN_BLOCK_SIZE};
use crate::model::{
    can_deallocate, free_list_wf, headers_aligned, merge_insert, position, region_end, total_free,
    valid_region,
};

verus! {

/// In a free list, `position` is an index into the list or its length; the
/// regions before it start at or below `addr`, the others above it.
pub proof fn lemma_position(s: Seq<ListNodeInfo>, addr: usize)
    requires
        free_list_wf(s),
    ensures
        0 <= position(s, addr) <= s.len(),
        forall|i: int| 0 <= i < position(s, addr) ==> (#[trigger] s[i]).addr <= addr,
        forall|i: int| position(s, addr) <= i < s.len() ==> (#[trigger] s[i]).addr > addr,
    decreases s.len(),
{
    if s.len() == 0 {
    } else if s[0].addr > addr {
        assert forall|i: int| 0 <= i < s.len() implies (#[trigger] s[i]).addr > addr by {
            if i > 0 {
                assert(region_end(s[0]) < s[i].addr);
            }
        }
    } else {
        let t = s.drop_first();
        lemma_wf_subrange(s, 1, s.len() as int);
        lemma_position(t, addr);
        let p = position(t, addr);
        assert forall|i: int| 0 <= i < p + 1 implies (#[trigger] s[i]).addr <= addr by {
            if i > 0 {
                assert(t[i - 1] == s[i]);
            }
        }
        assert forall|i: int| p + 1 <= i < s.len() implies (#[trigger] s[i]).addr > addr by {
            assert(t[i - 1] == s[i]);
        }
    }
}

/// In a free list, the index that splits the regions starting at or below
/// `addr` from the others is `position`.
pub proof fn lemma_position_is(s: Seq<ListNodeInfo>, addr: usize, k: int)
    requires
        free_list_wf(s),
        0 <= k <= s.len(),
        forall|i: int| 0 <= i < k ==> (#[trigger] s[i]).addr <= addr,
        k < s.len() ==> s[k].addr > addr,
    ensures
        position(s, addr) == k,
{
    lemma_position(s, addr);
    let p = position(s, addr);
    if p < k {
        assert(s[p].addr > addr);
    } else if p > k {
        assert(s[k].addr <= addr);
    }
}

/// The region in front of a freed region that the freed region joins, if
/// there is one: the last of `front`, if it ends at `addr`.
pub open spec fn joins_last(front: Seq<ListNodeInfo>, addr: usize) -> bool {
    front.len() > 0 && region_end(front.last()) == addr
}

/// The region behind a freed region that the freed region joins, if there
/// is one: the first of `back`, if it starts at `addr + size`.
pub open spec fn joins_first(back: Seq<ListNodeInfo>, addr: usize, size: usize) -> bool {
    back.len() > 0 && back[0].addr == addr + size
}

/// The region that comes of giving `[addr, addr + size)` back between
/// `front` and `back`.
pub open spec fn merged_region(
    front: Seq<ListNodeInfo>,
    back: Seq<ListNodeInfo>,
    addr: usize,
    size: usize,
) -> ListNodeInfo {
    let start = if joins_last(front, addr) { front.last().addr as int } else { addr as int };
    let end = if joins_first(back, addr, size) { region_end(back[0]) } else { addr + size };
    ListNodeInfo { addr: start as usize, size: (end - start) as usize }
}

/// The list that comes of giving `[addr, addr + size)` back between `front`
/// and `back`: the two regions at the cut give way to the merged region
/// where the freed region joins them.
pub open spec fn merged_at_cut(
    front: Seq<ListNodeInfo>,
    back: Seq<ListNodeInfo>,
    addr: usize,
    size: usize,
) -> Seq<ListNodeInfo> {
    (if joins_last(front, addr) {
        front.drop_last()
    } else {
        front
    }) + seq![merged_region(front, back, addr, size)] + (if joins_first(back, addr, size) {
        back.drop_first()
    } else {
        back
    })
}

/// Where a free list is cut into the regions that start at or below `addr`
/// and the others, giving `[addr, addr + size)` back changes only the two
/// regions at the cut.
pub proof fn lemma_merge_insert_at_cut(
    front: Seq<ListNodeInfo>,
    back: Seq<ListNodeInfo>,
    addr: usize,
    size: usize,
)
    requires
        free_list_wf(front + back),
        forall|i: int| 0 <= i < front.len() ==> (#[trigger] front[i]).addr <= addr,
        back.len() > 0 ==> back[0].addr > addr,
    ensures
        merge_insert(front + back, addr, size) == merged_at_cut(front, back, addr, size),
{
    let s = front + back;
    let k = front.len() as int;
    assert forall|i: int| 0 <= i < k implies (#[trigger] s[i]).addr <= addr by {
        assert(s[i] == front[i]);
    }
    lemma_position_is(s, addr, k);
    if k > 0 {
        assert(s[k - 1] == front.last());
        assert(s.subrange(0, k - 1) =~= front.drop_last());
    }
    if k < s.len() {
        assert(s[k] == back[0]);
        assert(s.subrange(k + 1, s.len() as int) =~= back.drop_first());
    }
    assert(s.subrange(0, k) =~= front);
    assert(s.subrange(k, s.len() as int) =~= back);
}

/// A free list that a region may be given back to is cut at the region's
/// position into a part that ends at or below the region and a part that
/// starts at or above the region's end; giving the region back changes only
/// the two regions at the cut.
pub proof fn lemma_merge_insert_form(s: Seq<ListNodeInfo>, addr: usize, size: usize)
    requires
        free_list_wf(s),
        can_deallocate(s, addr, size),
    ensures
        ({
            let k = position(s, addr);
            let front = s.subrange(0, k);
            let back = s.subrange(k, s.len() as int);
            &&& 0 <= k <= s.len()
            &&& s == front + back
            &&& front.len() > 0 ==> valid_region(front.last()) && region_end(front.last()) <= addr
            &&& back.len() > 0 ==> valid_region(back[0]) && addr + size <= back[0].addr
            &&& merge_insert(s, addr, size) == merged_at_cut(front, back, addr, size)
        }),
{
    lemma_position(s, addr);
    let k = position(s, addr);
    let front = s.subrange(0, k);
    let back = s.subrange(k, s.len() as int);
    assert(s =~= front + back);
    assert forall|i: int| 0 <= i < front.len() implies (#[trigger] front[i]).addr <= addr by {
        assert(front[i] == s[i]);
    }
    if back.len() > 0 {
        assert(back[0] == s[k]);
        assert(valid_region(s[k]));
    }
    if front.len() > 0 {
        assert(front.last() == s[k - 1]);
        assert(valid_region(s[k - 1]));
    }
    lemma_merge_insert_at_cut(front, back, addr, size);
}

/// Giving a region back to a free list leaves a free list.
pub proof fn lemma_merge_insert_wf(s: Seq<ListNodeInfo>, addr: usize, size: usize)
    requires
        free_list_wf(s),
        can_deallocate(s, addr, size),
    ensures
        free_list_wf(merge_insert(s, addr, size)),
{
    lemma_position(s, addr);
    let k = position(s, addr);
    let front = s.subrange(0, k);
    let back = s.subrange(k, s.len() as int);
    assert(s =~= front + back);
    lemma_wf_parts(front, back);
    assert forall|i: int| 0 <= i < front.len() implies (#[trigger] front[i]).addr <= addr by {
        assert(front[i] == s[i]);
    }
    if back.len() > 0 {
        assert(back[0] == s[k]);
    }
    lemma_merge_insert_at_cut(front, back, addr, size);
    let merged = merged_region(front, back, addr, size);
    let ahead = if joins_last(front, addr) { front.drop_last() } else { front };
    let after = if joins_first(back, addr, size) { back.drop_first() } else { back };
    // The merged region is valid, and lies apart from what is ahead of it
    // and from what comes after it.
    if front.len() > 0 {
        assert(front.last() == s[k - 1]);
        assert(region_end(s[k - 1]) <= addr);
        lemma_wf_subrange(front, 0, front.len() - 1);
        assert(front.drop_last() =~= front.subrange(0, front.len() - 1));
        if front.len() > 1 {
            assert(region_end(front[front.len() - 2]) < front[front.len() - 1].addr);
        }
    }
    if back.len() > 0 {
        assert(addr + size <= s[k].addr);
        lemma_wf_subrange(back, 1, back.len() as int);
        assert(back.drop_first() =~= back.subrange(1, back.len() as int));
        if back.len() > 1 {
            assert(region_end(back[0]) < back[1].addr);
        }
    }
    assert(valid_region(merged));
    lemma_wf_one(merged);
    lemma_wf_join(ahead, seq![merged]);
    lemma_wf_join(ahead + seq![merged], after);
}

/// A freed region that touches the region behind it may first take that
/// region in and then be given back: the outcome is the same.
pub proof fn lemma_absorb_next(
    front: Seq<ListNodeInfo>,
    back: Seq<ListNodeInfo>,
    addr: usize,
    size: usize,
)
    requires
        free_list_wf(front + back),
        can_deallocate(front + back, addr, size),
        forall|i: int| 0 <= i < front.len() ==> (#[trigger] front[i]).addr <= addr,
        joins_first(back, addr, size),
    ensures
        size + back[0].size <= usize::MAX,
        free_list_wf(front + back.drop_first()),
        can_deallocate(front + back.drop_first(), addr, (size + back[0].size) as usize),
        merge_insert(front + back.drop_first(), addr, (size + back[0].size) as usize)
            == merge_insert(front + back, addr, size),
{
    let s = front + back;
    let k = front.len() as int;
    let rest = back.drop_first();
    let t = front + rest;
    let grown = (size + back[0].size) as usize;
    assert(s[k] == back[0]);
    assert(valid_region(s[k]));
    assert forall|i: int| 0 <= i < t.len() implies #[trigger] t[i] == s[if i < k { i } else { i + 1 }] by {}
    assert forall|i: int| 0 <= i < t.len() implies valid_region(#[trigger] t[i]) by {
        assert(valid_region(s[if i < k { i } else { i + 1 }]));
    }
    assert forall|i: int, j: int| #![trigger t[i], t[j]] 0 <= i < j < t.len() implies region_end(
        t[i],
    ) < t[j].addr by {
        assert(region_end(s[if i < k { i } else { i + 1 }]) < s[if j < k { j } else { j + 1 }].addr);
    }
    assert forall|i: int| 0 <= i < t.len() implies region_end(#[trigger] t[i]) <= addr || addr
        + grown <= t[i].addr by {
        if i < k {
            assert(t[i] == front[i]);
            assert(region_end(s[i]) <= addr || addr + size <= s[i].addr);
        } else {
            assert(region_end(s[k]) < s[i + 1].addr);
        }
    }
    lemma_merge_insert_at_cut(front, back, addr, size);
    if rest.len() > 0 {
        assert(rest[0] == s[k + 1]);
        assert(region_end(s[k]) < s[k + 1].addr);
    }
    lemma_merge_insert_at_cut(front, rest, addr, grown);
}

/// A region that lies strictly between the end of `front` and the start of
/// `back` may be given back, and is then listed between them as it is.
pub proof fn lemma_insert_apart(
    front: Seq<ListNodeInfo>,
    back: Seq<ListNodeInfo>,
    addr: usize,
    size: usize,
)
    requires
        free_list_wf(front + back),
        size >= MIN_BLOCK_SIZE,
        addr + size <= usize::MAX,
        front.len() > 0 ==> region_end(front.last()) < addr,
        back.len() > 0 ==> addr + size < back[0].addr,
    ensures
        can_deallocate(front + back, addr, size),
        merge_insert(front + back, addr, size) == front + seq![(ListNodeInfo { addr, size })]
            + back,
        free_list_wf(front + seq![(ListNodeInfo { addr, size })] + back),
{
    let s = front + back;
    let k = front.len() as int;
    assert forall|i: int| 0 <= i < s.len() implies (if i < k {
        region_end(#[trigger] s[i]) < addr
    } else {
        addr + size < s[i].addr
    }) by {
        if i < k {
            assert(s[k - 1] == front.last());
            if i < k - 1 {
                assert(region_end(s[i]) < s[k - 1].addr);
            }
        } else {
            assert(s[k] == back[0]);
            if i > k {
                assert(region_end(s[k]) < s[i].addr);
            }
        }
    }
    assert forall|i: int| 0 <= i < front.len() implies (#[trigger] front[i]).addr <= addr by {
        assert(front[i] == s[i]);
    }
    if back.len() > 0 {
        assert(s[k] == back[0]);
    }
    lemma_merge_insert_at_cut(front, back, addr, size);
    lemma_merge_insert_wf(s, addr, size);
}

/// The list that comes of giving a region back at a cut holds the bytes of
/// both parts and of the region.
pub proof fn lemma_merged_at_cut_total(
    front: Seq<ListNodeInfo>,
    back: Seq<ListNodeInfo>,
    addr: usize,
    size: usize,
)
    requires
        addr + size <= usize::MAX,
        front.len() > 0 ==> region_end(front.last()) <= addr,
        back.len() > 0 ==> valid_region(back[0]) && addr + size <= back[0].addr,
    ensures
        total_free(merged_at_cut(front, back, addr, size)) == total_free(front) + total_free(back)
            + size,
{
    let merged = merged_region(front, back, addr, size);
    let ahead = if joins_last(front, addr) { front.drop_last() } else { front };
    let after = if joins_first(back, addr, size) { back.drop_first() } else { back };
    lemma_total_free_concat(ahead + seq![merged], after);
    lemma_total_free_concat(ahead, seq![merged]);
    lemma_total_free_one(merged);
    if joins_first(back, addr, size) {
        lemma_total_free_split(back, 0);
        assert(back.subrange(0, 0) =~= Seq::<ListNodeInfo>::empty());
        assert(back.subrange(1, back.len() as int) =~= back.drop_first());
    }
}

/// The list that comes of giving a region back at a cut has every header at
/// an aligned address if both parts have and the region starts at one.
pub proof fn lemma_merged_at_cut_aligned(
    front: Seq<ListNodeInfo>,
    back: Seq<ListNodeInfo>,
    addr: usize,
    size: usize,
)
    requires
        headers_aligned(front),
        headers_aligned(back),
        is_aligned(addr as int, HEADER_ALIGN as int),
    ensures
        headers_aligned(merged_at_cut(front, back, addr, size)),
{
    let ahead = if joins_last(front, addr) { front.drop_last() } else { front };
    let after = if joins_first(back, addr, size) { back.drop_first() } else { back };
    let r = merged_at_cut(front, back, addr, size);
    if front.len() > 0 {
        assert(is_aligned(front[front.len() - 1].addr as int, HEADER_ALIGN as int));
    }
    assert forall|i: int| 0 <= i < r.len() implies is_aligned(
        (#[trigger] r[i]).addr as int,
        HEADER_ALIGN as int,
    ) by {
        if i < ahead.len() {
            assert(r[i] == front[i]);
        } else if i > ahead.len() {
            assert(r[i] == after[i - ahead.len() - 1]);
            assert(r[i] == back[i - ahead.len() - 1 + back.len() - after.len()]);
        }
    }
}

/// Where a region is given back at a cut, another region that shares no
/// byte with it nor with either part shares none with the outcome.
pub proof fn lemma_merged_at_cut_apart(
    front: Seq<ListNodeInfo>,
    back: Seq<ListNodeInfo>,
    addr: usize,
    size: usize,
    other_addr: usize,
    other_size: usize,
)
    requires
        size > 0,
        addr + size <= usize::MAX,
        front.len() > 0 ==> region_end(front.last()) <= addr,
        back.len() > 0 ==> valid_region(back[0]) && addr + size <= back[0].addr,
        can_deallocate(front, other_addr, other_size),
        can_deallocate(back, other_addr, other_size),
        addr + size <= other_addr || other_addr + other_size <= addr,
    ensures
        can_deallocate(merged_at_cut(front, back, addr, size), other_addr, other_size),
{
    let merged = merged_region(front, back, addr, size);
    let ahead = if joins_last(front, addr) { front.drop_last() } else { front };
    let after = if joins_first(back, addr, size) { back.drop_first() } else { back };
    if front.len() > 0 {
        assert(front =~= front.drop_last() + seq![front.last()]);
        lemma_apart_parts(front.drop_last(), seq![front.last()], other_addr, other_size);
        assert(seq![front.last()][0] == front.last());
    }
    if back.len() > 0 {
        assert(back =~= seq![back[0]] + back.drop_first());
        lemma_apart_parts(seq![back[0]], back.drop_first(), other_addr, other_size);
        assert(seq![back[0]][0] == back[0]);
    }
    assert(region_end(merged) <= other_addr || other_addr + other_size <= merged.addr);
    assert(can_deallocate(seq![merged], other_addr, other_size));
    lemma_apart_join(ahead, seq![merged], other_addr, other_size);
    lemma_apart_join(ahead + seq![merged], after, other_addr, other_size);
}

/// Giving a region back adds its bytes to the free bytes, and keeps every
/// header at an aligned address if the region starts at one.
pub proof fn lemma_merge_insert_totals(s: Seq<ListNodeInfo>, addr: usize, size: usize)
    requires
        free_list_wf(s),
        can_deallocate(s, addr, size),
    ensures
        total_free(merge_insert(s, addr, size)) == total_free(s) + size,
        headers_aligned(s) && is_aligned(addr as int, HEADER_ALIGN as int) ==> headers_aligned(
            merge_insert(s, addr, size),
        ),
{
    lemma_merge_insert_form(s, addr, size);
    let k = position(s, addr);
    let front = s.subrange(0, k);
    let back = s.subrange(k, s.len() as int);
    lemma_total_free_concat(front, back);
    lemma_merged_at_cut_total(front, back, addr, size);
    if headers_aligned(s) && is_aligned(addr as int, HEADER_ALIGN as int) {
        assert forall|i: int| 0 <= i < front.len() implies is_aligned(
            (#[trigger] front[i]).addr as int,
            HEADER_ALIGN as int,
        ) by {
            assert(front[i] == s[i]);
        }
        assert forall|i: int| 0 <= i < back.len() implies is_aligned(
            (#[trigger] back[i]).addr as int,
            HEADER_ALIGN as int,
        ) by {
            assert(back[i] == s[i + k]);
        }
        lemma_merged_at_cut_aligned(front, back, addr, size);
    }
}

} // verus!
