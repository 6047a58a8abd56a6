//! The free list and the allocator built on it.
//!
//! A heap is one contiguous range of addresses. Its free space is kept as a
//! singly linked list of headers in ascending address order, behind a
//! sentinel. Allocation takes the first region that can serve a request and
//! splits it; deallocation links a region back in and merges it with the
//! neighbours it touches.
//!
//! Addresses are plain integers: the list never reads or writes the memory
//! it describes. Each header is therefore an owned node that records its
//! address, rather than a record stored in the free bytes themselves. This
//! costs one small heap node per free region, and in exchange the list needs
//! no raw pointers.

use vstd::prelude::*;
use crate::align::{align_up, align_up_spec, checked_align_up, is_aligned, lemma_align_up_is_least};
use crate::lemmas::carve::{
    lemma_carve_aligned, lemma_carve_steps, lemma_exhausted, lemma_first_fit_is, lemma_split,
};
use crate::lemmas::merge::{
    joins_first, joins_last, lemma_merge_insert_totals, lemma_merge_insert_wf,
};
use crate::lemmas::walk::{
    lemma_pending_absorb, lemma_pending_advance, lemma_pending_done, lemma_pending_facts,
    lemma_pending_start, merge_pending,
};
use crate::model::{
    can_deallocate, carve_first_fit, carve_start, first_fit, free_list_wf, headers_aligned,
    keeps_headers_aligned, merge_insert, region_end, split_spec, total_free, valid_region,
};

verus! {

/// Bytes that a header takes inside the free region it describes: one word
/// for the size and one for the link.
pub const HEADER_SIZE: usize = 16;

/// Alignment that a header's address must have.
pub const HEADER_ALIGN: usize = 8;

/// Smallest region that can be allocated, freed or listed: one header's worth
/// for the region itself and one so that whatever is split off can hold a
/// header of its own.
pub const MIN_BLOCK_SIZE: usize = 2 * HEADER_SIZE;

/// Where a free region lies and how large it is.
#[derive(Clone, Copy, Debug, PartialEq, Eq, Structural)]
pub struct ListNodeInfo {
    pub addr: usize,
    pub size: usize,
}

/// The header of a free region, linked to the header of the next free region
/// in address order.
///
/// A header of size zero is a sentinel: it describes no memory and only
/// serves as the predecessor of the first real header.
#[derive(Debug)]
pub struct ListNode {
    addr: usize,
    size: usize,
    next: Option<Box<ListNode>>,
}

/// An allocator for one heap, holding the heap's free list behind a
/// sentinel.
///
/// The allocator does not synchronise: whoever shares it serialises the
/// calls. It keeps no record of what it has handed out, so a caller gives
/// back exactly the regions it was given, with their sizes.
#[derive(Debug)]
pub struct MergedListAllocator {
    head: ListNode,
}

/// What splitting a free region for a request yields: the region handed out,
/// and the parts of the free region left in front of it and behind it.
#[derive(Clone, Copy, Debug, PartialEq, Eq)]
pub struct Allocation {
    pub info: ListNodeInfo,
    pub front_padding: Option<ListNodeInfo>,
    pub back_padding: Option<ListNodeInfo>,
}

impl ListNode {
    /// The region that this header describes.
    spec fn spec_info(&self) -> ListNodeInfo {
        ListNodeInfo { addr: self.addr, size: self.size }
    }

    /// The regions of the headers linked behind this one, in list order.
    spec fn rest(&self) -> Seq<ListNodeInfo>
        decreases self,
    {
        match self.next {
            None => Seq::empty(),
            Some(next) => seq![next.spec_info()] + next.rest(),
        }
    }

    /// The regions of this header and of those linked behind it, where a
    /// sentinel stands for no region.
    spec fn regions(&self, sentinel: bool) -> Seq<ListNodeInfo> {
        if sentinel {
            self.rest()
        } else {
            seq![self.spec_info()] + self.rest()
        }
    }

    /// This header is a sentinel.
    spec fn is_sentinel(&self) -> bool {
        self.addr == 0 && self.size == 0
    }

    /// This header is a sentinel in front of a free list that meets the
    /// invariant.
    spec fn wf(&self) -> bool {
        self.is_sentinel() && free_list_wf(self.rest())
    }

    /// The region that this header describes.
    #[verifier::when_used_as_spec(spec_info)]
    fn info(&self) -> (info: ListNodeInfo)
        ensures
            info == self.spec_info(),
    {
        ListNodeInfo { addr: self.addr, size: self.size }
    }
}

impl View for MergedListAllocator {
    type V = Seq<ListNodeInfo>;

    /// The free regions, in list order.
    closed spec fn view(&self) -> Seq<ListNodeInfo> {
        self.head.rest()
    }
}

impl MergedListAllocator {
    /// The head is a sentinel.
    pub closed spec fn has_sentinel(&self) -> bool {
        self.head.is_sentinel()
    }

    /// The allocator's invariant: behind the sentinel stands a free list in
    /// ascending address order whose regions are valid and neither overlap
    /// nor touch.
    pub open spec fn wf(&self) -> bool {
        self.has_sentinel() && free_list_wf(self@)
    }

    /// An allocator without memory: every request fails until a region is
    /// given to it.
    pub fn empty() -> (heap: Self)
        ensures
            heap.wf(),
            heap@ == Seq::<ListNodeInfo>::empty(),
    {
        MergedListAllocator { head: ListNode { addr: 0, size: 0, next: None } }
    }

    /// An allocator for the heap `[start_addr, start_addr + heap_size)`.
    ///
    /// The heap's one free region starts at the first header-aligned address
    /// at or above `start_addr` and ends where the heap ends; from there on
    /// the heap must hold at least `MIN_BLOCK_SIZE` bytes. The caller sees to
    /// it that the heap's bytes are the allocator's to hand out.
    pub fn new(start_addr: usize, heap_size: usize) -> (heap: Self)
        requires
            start_addr + heap_size <= usize::MAX,
            align_up_spec(start_addr as int, HEADER_ALIGN as int) + MIN_BLOCK_SIZE <= start_addr
                + heap_size,
        ensures
            heap.wf(),
            heap@ == seq![
                (ListNodeInfo {
                    addr: align_up_spec(start_addr as int, HEADER_ALIGN as int) as usize,
                    size: (start_addr + heap_size - align_up_spec(
                        start_addr as int,
                        HEADER_ALIGN as int,
                    )) as usize,
                }),
            ],
            headers_aligned(heap@),
    {
        let aligned_node_addr = align_up(start_addr, HEADER_ALIGN);
        let node = ListNode {
            addr: aligned_node_addr,
            size: heap_size - (aligned_node_addr - start_addr),
            next: None,
        };
        assert(node.rest() == Seq::<ListNodeInfo>::empty());
        let heap = MergedListAllocator {
            head: ListNode { addr: 0, size: 0, next: Some(Box::new(node)) },
        };
        assert(heap@ =~= seq![node.spec_info()]);
        heap
    }

    /// Allocates `size` bytes aligned to `align` from the first free region
    /// that can serve the request, and returns the address of the allocation.
    ///
    /// What the split leaves in front of the allocation and behind it goes
    /// back to the free list. The allocation has exactly `size` bytes. When
    /// no region can serve the request the call fails and the free list stays
    /// as it is.
    ///
    /// Requests below `MIN_BLOCK_SIZE` are not served: the caller rounds
    /// them up.
    pub fn allocate_first_fit(&mut self, size: usize, align: usize) -> (result: Result<usize, ()>)
        requires
            old(self).wf(),
            size >= MIN_BLOCK_SIZE,
            align > 0,
        ensures
            final(self).wf(),
            final(self)@ == carve_first_fit(old(self)@, size, align),
            match result {
                Ok(addr) => {
                    let i = first_fit(old(self)@, size, align);
                    &&& 0 <= i < old(self)@.len()
                    &&& addr == carve_start(old(self)@[i], align)
                    &&& old(self)@[i].addr <= addr
                    &&& addr + size <= region_end(old(self)@[i])
                    &&& is_aligned(addr as int, align as int)
                    &&& can_deallocate(final(self)@, addr, size)
                    &&& total_free(final(self)@) + size == total_free(old(self)@)
                },
                Err(_) => {
                    &&& first_fit(old(self)@, size, align) == old(self)@.len()
                    &&& final(self)@ == old(self)@
                },
            },
            size > total_free(old(self)@) ==> result is Err,
            headers_aligned(old(self)@) && keeps_headers_aligned(size, align) ==> ({
                &&& headers_aligned(final(self)@)
                &&& result matches Ok(addr) ==> is_aligned(addr as int, HEADER_ALIGN as int)
            }),
    {
        proof {
            if size > total_free(self@) {
                lemma_exhausted(self@, size, align);
            }
            if first_fit(self@, size, align) < self@.len() && headers_aligned(self@)
                && keeps_headers_aligned(size, align) {
                lemma_carve_aligned(self@, size, align);
            }
        }
        match allocate_first_fit(&mut self.head, size, align) {
            Ok(allocation) => {
                proof {
                    lemma_carve_steps(old(self)@, size, align);
                    lemma_split(old(self)@[first_fit(old(self)@, size, align)], size, align);
                }
                if let Some(padding) = allocation.front_padding {
                    deallocate(&mut self.head, padding.addr, padding.size);
                }
                if let Some(padding) = allocation.back_padding {
                    deallocate(&mut self.head, padding.addr, padding.size);
                }
                Ok(allocation.info.addr)
            },
            Err(_) => Err(()),
        }
    }

    /// Gives the `size` bytes at `addr` back to the free list, merged with
    /// the free regions that they touch.
    ///
    /// The bytes must have come from `allocate_first_fit` with this size and
    /// not have been given back since; of this the allocator can check only
    /// what `can_deallocate` tests.
    pub fn deallocate(&mut self, addr: usize, size: usize)
        requires
            old(self).wf(),
            can_deallocate(old(self)@, addr, size),
        ensures
            final(self).wf(),
            final(self)@ == merge_insert(old(self)@, addr, size),
            total_free(final(self)@) == total_free(old(self)@) + size,
            headers_aligned(old(self)@) && is_aligned(addr as int, HEADER_ALIGN as int)
                ==> headers_aligned(final(self)@),
    {
        proof {
            lemma_merge_insert_wf(self@, addr, size);
            lemma_merge_insert_totals(self@, addr, size);
        }
        deallocate(&mut self.head, addr, size)
    }

    /// Whether the `size` bytes at `addr` may be given back: whether they
    /// are at least `MIN_BLOCK_SIZE`, end inside the address space and share
    /// no byte with a free region. Giving back what is free already, in whole
    /// or in part, is refused here.
    pub fn can_deallocate(&self, addr: usize, size: usize) -> (allowed: bool)
        requires
            self.wf(),
        ensures
            allowed == can_deallocate(self@, addr, size),
    {
        if size < MIN_BLOCK_SIZE || size > usize::MAX - addr {
            return false;
        }
        let ghost all = self@;
        let mut current: &ListNode = &self.head;
        loop
            invariant
                all == self@,
                size >= MIN_BLOCK_SIZE,
                addr + size <= usize::MAX,
                free_list_wf(all),
                current.rest().len() <= all.len(),
                all.subrange(all.len() - current.rest().len(), all.len() as int) == current.rest(),
                forall|i: int|
                    0 <= i < all.len() - current.rest().len() ==> region_end(#[trigger] all[i])
                        <= addr,
            decreases current.rest().len(),
        {
            let ghost here = all.len() - current.rest().len();
            match &current.next {
                None => {
                    return true;
                },
                Some(next) => {
                    assert(all[here] == all.subrange(here, all.len() as int)[0]);
                    assert(all[here] == next.spec_info());
                    assert(valid_region(all[here]));
                    if next.addr >= addr + size {
                        assert forall|i: int| here <= i < all.len() implies addr + size
                            <= (#[trigger] all[i]).addr by {
                            if i > here {
                                assert(region_end(all[here]) < all[i].addr);
                            }
                        }
                        return true;
                    }
                    if next.addr + next.size > addr {
                        return false;
                    }
                    assert(all.subrange(here + 1, all.len() as int) =~= all.subrange(
                        here,
                        all.len() as int,
                    ).drop_first());
                    current = &**next;
                },
            }
        }
    }

    /// The free regions in ascending address order.
    pub fn free_regions(&self) -> (regions: Vec<ListNodeInfo>)
        ensures
            regions@ == self@,
    {
        let mut regions: Vec<ListNodeInfo> = Vec::new();
        let mut current: &ListNode = &self.head;
        loop
            invariant
                self@ == regions@ + current.rest(),
            decreases current.rest().len(),
        {
            match &current.next {
                None => {
                    assert(regions@ + current.rest() =~= regions@);
                    return regions;
                },
                Some(next) => {
                    regions.push(next.info());
                    assert(regions@ + next.rest() =~= regions@.drop_last() + current.rest());
                    current = &**next;
                },
            }
        }
    }

    /// The size below which no request is served and nothing is taken back.
    pub fn min_size() -> (size: usize)
        ensures
            size == MIN_BLOCK_SIZE,
    {
        HEADER_SIZE * 2
    }
}

/// Hands its argument back. Passing a mutable reference through it moves the
/// reference instead of reborrowing it, which lets a cursor step from a
/// header to its successor.
fn move_helper<T>(x: T) -> (moved: T)
    ensures
        moved == x,
{
    x
}

/// Searches the list behind `previous` for the first region that can serve a
/// request of `size` bytes aligned to `align`, unlinks that region and
/// returns its split. The other regions stay as they are. Fails, and leaves
/// the list as it is, when no region can serve the request.
fn allocate_first_fit(previous: &mut ListNode, size: usize, align: usize) -> (result: Result<
    Allocation,
    (),
>)
    requires
        old(previous).wf(),
        align > 0,
    ensures
        final(previous).is_sentinel(),
        match result {
            Ok(allocation) => {
                let i = first_fit(old(previous).rest(), size, align);
                &&& i < old(previous).rest().len()
                &&& Some(allocation) == split_spec(old(previous).rest()[i], size, align)
                &&& final(previous).rest() == old(previous).rest().remove(i)
            },
            Err(_) => {
                &&& first_fit(old(previous).rest(), size, align) == old(previous).rest().len()
                &&& final(previous).rest() == old(previous).rest()
            },
        },
{
    let ghost all = previous.rest();
    let ghost end = *final(previous);
    let ghost mut passed: Seq<ListNodeInfo> = Seq::empty();
    let ghost mut sentinel = true;
    let mut previous: &mut ListNode = previous;
    let mut result: Result<Allocation, ()> = Err(());
    loop
        invariant_except_break
            all == passed + previous.regions(sentinel),
            end.rest() == passed + final(previous).regions(sentinel),
            sentinel ==> end.is_sentinel() == final(previous).is_sentinel(),
            !sentinel ==> end.is_sentinel(),
            sentinel ==> previous.is_sentinel(),
            passed.len() + (if sentinel { 0int } else { 1int }) + previous.rest().len() == all.len(),
            forall|j: int|
                0 <= j < all.len() - previous.rest().len() ==> split_spec(
                    #[trigger] all[j],
                    size,
                    align,
                ) is None,
        invariant
            align > 0,
            free_list_wf(all),
        ensures
            end.is_sentinel(),
            match result {
                Ok(allocation) => {
                    let i = first_fit(all, size, align);
                    &&& i < all.len()
                    &&& Some(allocation) == split_spec(all[i], size, align)
                    &&& end.rest() == all.remove(i)
                },
                Err(_) => first_fit(all, size, align) == all.len() && end.rest() == all,
            },
        decreases previous.rest().len(),
    {
        let ghost here = all.len() - previous.rest().len();
        let allocation = match &previous.next {
            Some(current) => {
                assert(all[here] == current.spec_info());
                split_ListNode(current.info(), size, align)
            },
            None => None,
        };
        match allocation {
            Some(allocation) => {
                let ghost before = previous.regions(sentinel);
                let mut current = previous.next.take().unwrap();
                let ghost behind = current.rest();
                assert(before == previous.regions(sentinel).take(before.len() - all.len() + here)
                    + seq![current.spec_info()] + behind);
                previous.next = current.next.take();
                assert(previous.rest() == behind);
                proof {
                    lemma_first_fit_is(all, size, align, here);
                    assert(passed + previous.regions(sentinel) =~= all.remove(here));
                }
                result = Ok(allocation);
                break;
            },
            None => {
                if previous.next.is_some() {
                    proof {
                        passed = passed + previous.regions(sentinel).take(
                            if sentinel { 0int } else { 1int },
                        );
                        sentinel = false;
                    }
                    previous = move_helper(previous).next.as_mut().unwrap();
                } else {
                    proof {
                        lemma_first_fit_is(all, size, align, all.len() as int);
                    }
                    result = Err(());
                    break;
                }
            },
        }
    }
    result
}

/// Gives `[addr, addr + size)` back to the list behind `list_node`.
///
/// Walks the list to the place of the region in address order. Where the
/// region touches the header before it, that header grows over it, and over
/// the header behind it as well if the region touches both. Where it touches
/// only the header behind it, that header is unlinked and the region grows
/// over it before the walk goes on from the same place. Otherwise a new
/// header is linked in. A sentinel is never merged with.
fn deallocate(list_node: &mut ListNode, addr: usize, size: usize)
    requires
        old(list_node).wf(),
        can_deallocate(old(list_node).rest(), addr, size),
    ensures
        final(list_node).is_sentinel(),
        final(list_node).rest() == merge_insert(old(list_node).rest(), addr, size),
{
    let ghost target = merge_insert(list_node.rest(), addr, size);
    let ghost end = *final(list_node);
    let ghost mut passed: Seq<ListNodeInfo> = Seq::empty();
    let ghost mut sentinel = true;
    let mut list_node: &mut ListNode = list_node;
    let mut size: usize = size;
    proof {
        lemma_pending_start(list_node.rest(), addr, size);
    }
    loop
        invariant_except_break
            end.rest() == passed + final(list_node).regions(sentinel),
            sentinel ==> end.is_sentinel() == final(list_node).is_sentinel(),
            !sentinel ==> end.is_sentinel(),
            sentinel ==> list_node.is_sentinel() && passed.len() == 0,
            !sentinel ==> list_node.spec_info().size != 0,
            merge_pending(
                if sentinel { passed } else { passed.push(list_node.spec_info()) },
                list_node.rest(),
                addr,
                size,
                target,
            ),
        ensures
            end.is_sentinel(),
            end.rest() == target,
        decreases list_node.rest().len(),
    {
        let ghost front = if sentinel { passed } else { passed.push(list_node.spec_info()) };
        let ghost back = list_node.rest();
        proof {
            lemma_pending_facts(front, back, addr, size, target);
        }
        let touches_current = list_node.size != 0 && list_node.addr + list_node.size == addr;
        let next_info = match &list_node.next {
            Some(next) => Some(next.info()),
            None => None,
        };
        assert(next_info is Some <==> back.len() > 0);
        assert(next_info is Some ==> back[0] == next_info->0);
        let touches_next = match next_info {
            Some(next) => addr + size == next.addr,
            None => false,
        };
        let next_is_below = match next_info {
            Some(next) => next.addr <= addr,
            None => false,
        };
        assert(touches_current == joins_last(front, addr));
        assert(touches_next == joins_first(back, addr, size));
        if touches_current && touches_next {
            let next = next_info.unwrap();
            proof {
                lemma_pending_done(front, back, addr, size, target);
            }
            list_node.size = list_node.size + size + next.size;
            let mut absorbed = list_node.next.take().unwrap();
            let ghost behind = absorbed.rest();
            assert(back == seq![absorbed.spec_info()] + behind);
            list_node.next = absorbed.next.take();
            assert(list_node.rest() == behind);
            assert(behind =~= back.drop_first());
            assert(front.drop_last() =~= passed);
            assert(passed + list_node.regions(sentinel) =~= target);
            break;
        } else if touches_current {
            proof {
                lemma_pending_done(front, back, addr, size, target);
            }
            list_node.size = list_node.size + size;
            assert(list_node.rest() == back);
            assert(front.drop_last() =~= passed);
            assert(passed + list_node.regions(sentinel) =~= target);
            break;
        } else if touches_next {
            let next = next_info.unwrap();
            proof {
                lemma_pending_absorb(front, back, addr, size, target);
            }
            let mut absorbed = list_node.next.take().unwrap();
            let ghost behind = absorbed.rest();
            assert(back == seq![absorbed.spec_info()] + behind);
            list_node.next = absorbed.next.take();
            assert(list_node.rest() == behind);
            assert(behind =~= back.drop_first());
            size = size + next.size;
        } else if next_is_below {
            proof {
                lemma_pending_advance(front, back, addr, size, target);
                passed = front;
                sentinel = false;
            }
            list_node = move_helper(list_node).next.as_mut().unwrap();
            assert(list_node.rest() =~= back.drop_first());
        } else {
            proof {
                lemma_pending_done(front, back, addr, size, target);
            }
            let new_list_node = ListNode { addr, size, next: list_node.next.take() };
            assert(new_list_node.rest() == back);
            list_node.next = Some(Box::new(new_list_node));
            assert(list_node.rest() == seq![ListNodeInfo { addr, size }] + back);
            assert(passed + list_node.regions(sentinel) =~= target);
            break;
        }
    }
}

/// Splits a free region for a request of `size` bytes aligned to `align`.
///
/// The allocation starts at the region's start if that is aligned. Otherwise
/// it starts at the first aligned address that is at least `MIN_BLOCK_SIZE`
/// above the region's start, so that the bytes in front of it can stand as a
/// free region of their own. The region is refused if the allocation does not
/// fit, or if it would leave fewer than `MIN_BLOCK_SIZE` bytes behind it
/// without leaving none. No attempt is made to place the allocation elsewhere
/// in the region.
#[allow(non_snake_case)]
pub fn split_ListNode(list_node: ListNodeInfo, size: usize, align: usize) -> (allocation: Option<
    Allocation,
>)
    requires
        align > 0,
        region_end(list_node) <= usize::MAX,
    ensures
        allocation == split_spec(list_node, size, align),
{
    let end = list_node.addr + list_node.size;
    let (aligned_addr, front_padding) = if list_node.addr % align == 0 {
        (list_node.addr, None)
    } else {
        proof {
            lemma_align_up_is_least(list_node.addr + MIN_BLOCK_SIZE, align as int);
        }
        if list_node.addr > usize::MAX - MIN_BLOCK_SIZE {
            return None;
        }
        let aligned_addr = match checked_align_up(list_node.addr + MIN_BLOCK_SIZE, align) {
            Some(aligned_addr) => aligned_addr,
            None => {
                return None;
            },
        };
        (
            aligned_addr,
            Some(ListNodeInfo { addr: list_node.addr, size: aligned_addr - list_node.addr }),
        )
    };

    let aligned_list_node = {
        if aligned_addr > end || size > end - aligned_addr {
            return None;
        }
        ListNodeInfo { addr: aligned_addr, size: end - aligned_addr }
    };

    let back_padding = if aligned_list_node.size == size {
        None
    } else if aligned_list_node.size - size < MIN_BLOCK_SIZE {
        return None;
    } else {
        Some(
            ListNodeInfo {
                addr: aligned_list_node.addr + size,
                size: aligned_list_node.size - size,
            },
        )
    };

    Some(
        Allocation {
            info: ListNodeInfo { addr: aligned_list_node.addr, size },
            front_padding,
            back_padding,
        },
    )
}

} // verus!
