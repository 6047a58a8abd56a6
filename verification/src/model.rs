//! The free list as a sequence of regions, and what allocation and
//! deallocation do to it.
//!
//! Everything here is specification: the contracts of the executable code
//! are stated over these functions.

use vstd::prelude::*;
use crate::align::{align_up_spec, is_aligned};
use crate::merged_list::{Allocation, HEADER_ALIGN, ListNodeInfo, MIN_BLOCK_SIZE};

verus! {

/// The first address past the region.
pub open spec fn region_end(r: ListNodeInfo) -> int {
    r.addr + r.size
}

/// A region that may stand in a free list: large enough to hold a header and
/// a remainder, and ending inside the address space.
pub open spec fn valid_region(r: ListNodeInfo) -> bool {
    r.size >= MIN_BLOCK_SIZE && region_end(r) <= usize::MAX
}

/// The invariant of a free list: every region is valid, and each region ends
/// strictly below the start of every later one. So the list is in ascending
/// address order, no two regions overlap, and no two touch.
pub open spec fn free_list_wf(s: Seq<ListNodeInfo>) -> bool {
    &&& forall|i: int| 0 <= i < s.len() ==> valid_region(#[trigger] s[i])
    &&& forall|i: int, j: int|
        #![trigger s[i], s[j]]
        0 <= i < j < s.len() ==> region_end(s[i]) < s[j].addr
}

/// Every region starts at an address at which a header can stand.
pub open spec fn headers_aligned(s: Seq<ListNodeInfo>) -> bool {
    forall|i: int| 0 <= i < s.len() ==> is_aligned((#[trigger] s[i]).addr as int, HEADER_ALIGN as int)
}

/// A request whose allocation and paddings all start at addresses at which a
/// header can stand, given that the region that serves it does: the size is
/// a multiple of the header alignment, and the alignment is a multiple or a
/// divisor of it, as every power of two is.
pub open spec fn keeps_headers_aligned(size: usize, align: usize) -> bool {
    &&& is_aligned(size as int, HEADER_ALIGN as int)
    &&& is_aligned(align as int, HEADER_ALIGN as int) || is_aligned(HEADER_ALIGN as int, align as int)
}

/// The sum of the sizes of all regions.
pub open spec fn total_free(s: Seq<ListNodeInfo>) -> int
    decreases s.len(),
{
    if s.len() == 0 {
        0
    } else {
        total_free(s.drop_last()) + s.last().size
    }
}

// ---------------------------------------------------------------------
// Allocation
// ---------------------------------------------------------------------

/// Where an allocation carved out of `region` starts: at the region's own
/// start if that is aligned, and otherwise at the first aligned address that
/// leaves room for a free region in front of it.
pub open spec fn carve_start(region: ListNodeInfo, align: usize) -> int {
    if region.addr as int % align as int == 0 {
        region.addr as int
    } else {
        align_up_spec(region.addr + MIN_BLOCK_SIZE, align as int)
    }
}

/// What is left of `region` behind an allocation of `size` bytes. Negative
/// when the allocation does not fit.
pub open spec fn carve_spare(region: ListNodeInfo, size: usize, align: usize) -> int {
    region_end(region) - (carve_start(region, align) + size)
}

/// The split of `region` for a request, if the region can serve it: the
/// allocation must fit, and what is left behind it must be nothing or enough
/// for a free region.
pub open spec fn split_spec(region: ListNodeInfo, size: usize, align: usize) -> Option<Allocation> {
    let start = carve_start(region, align);
    let spare = carve_spare(region, size, align);
    if spare == 0 || spare >= MIN_BLOCK_SIZE {
        Some(
            Allocation {
                info: ListNodeInfo { addr: start as usize, size },
                front_padding: if start == region.addr {
                    None
                } else {
                    Some(ListNodeInfo { addr: region.addr, size: (start - region.addr) as usize })
                },
                back_padding: if spare == 0 {
                    None
                } else {
                    Some(ListNodeInfo { addr: (start + size) as usize, size: spare as usize })
                },
            },
        )
    } else {
        None
    }
}

/// The index of the first region that can serve the request, or the length
/// of the list when none can.
pub open spec fn first_fit(s: Seq<ListNodeInfo>, size: usize, align: usize) -> int
    decreases s.len(),
{
    if s.len() == 0 || split_spec(s[0], size, align) is Some {
        0
    } else {
        1 + first_fit(s.drop_first(), size, align)
    }
}

/// The paddings of an allocation in address order, as free regions.
pub open spec fn paddings(a: Allocation) -> Seq<ListNodeInfo> {
    (match a.front_padding {
        Some(f) => seq![f],
        None => Seq::empty(),
    }) + (match a.back_padding {
        Some(b) => seq![b],
        None => Seq::empty(),
    })
}

/// The free list after a request was served first-fit: the region that
/// served it gives way to the paddings of the split. Unchanged when no region
/// can serve the request.
pub open spec fn carve_first_fit(s: Seq<ListNodeInfo>, size: usize, align: usize) -> Seq<ListNodeInfo> {
    let i = first_fit(s, size, align);
    if i < s.len() {
        s.subrange(0, i) + paddings(split_spec(s[i], size, align).unwrap()) + s.subrange(
            i + 1,
            s.len() as int,
        )
    } else {
        s
    }
}

// ---------------------------------------------------------------------
// Deallocation
// ---------------------------------------------------------------------

/// Whether `[addr, addr + size)` may be given back: it is large enough, ends
/// inside the address space, and shares no byte with a free region.
pub open spec fn can_deallocate(s: Seq<ListNodeInfo>, addr: usize, size: usize) -> bool {
    &&& size >= MIN_BLOCK_SIZE
    &&& addr + size <= usize::MAX
    &&& forall|i: int|
        0 <= i < s.len() ==> region_end(#[trigger] s[i]) <= addr || addr + size <= s[i].addr
}

/// How many regions at the front of the list start at or below `addr`. In an
/// ordered list these are all the regions that do.
pub open spec fn position(s: Seq<ListNodeInfo>, addr: usize) -> int
    decreases s.len(),
{
    if s.len() == 0 || s[0].addr > addr {
        0
    } else {
        1 + position(s.drop_first(), addr)
    }
}

/// The free list after `[addr, addr + size)` was given back: the region is
/// put at its place in address order, joined with the region before it if
/// that one ends at `addr`, and with the region after it if that one starts
/// at `addr + size`.
pub open spec fn merge_insert(s: Seq<ListNodeInfo>, addr: usize, size: usize) -> Seq<ListNodeInfo> {
    let k = position(s, addr);
    let joins_prev = k > 0 && region_end(s[k - 1]) == addr;
    let joins_next = k < s.len() && s[k].addr == addr + size;
    let start = if joins_prev { s[k - 1].addr as int } else { addr as int };
    let end = if joins_next { region_end(s[k]) } else { addr + size };
    let merged = ListNodeInfo { addr: start as usize, size: (end - start) as usize };
    s.subrange(0, if joins_prev { k - 1 } else { k }) + seq![merged] + s.subrange(
        if joins_next { k + 1 } else { k },
        s.len() as int,
    )
}

} // verus!
