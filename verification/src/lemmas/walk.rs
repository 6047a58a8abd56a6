//! The walk along the list that gives a region back, step by step.

use vstd::prelude::*;
use crate::lemmas::merge::{
    joins_first, joins_last, lemma_absorb_next, lemma_merge_insert_at_cut, merged_at_cut,
};
use crate::merged_list::{ListNodeInfo, MIN_BLOCK_SIZE};
use crate::model::{can_deallocate, free_list_wf, merge_insert, region_end, valid_region};

verus! {

/// What holds while a region that is to be given back is walked to its
/// place: the list is cut at the walk's position into `front` and `back`,
/// every region of `front` starts at or below `addr`, and giving the region
/// back to the whole list yields `target`.
#[verifier::opaque]
pub open spec fn merge_pending(
    front: Seq<ListNodeInfo>,
    back: Seq<ListNodeInfo>,
    addr: usize,
    size: usize,
    target: Seq<ListNodeInfo>,
) -> bool {
    &&& free_list_wf(front + back)
    &&& can_deallocate(front + back, addr, size)
    &&& forall|i: int| 0 <= i < front.len() ==> (#[trigger] front[i]).addr <= addr
    &&& merge_insert(front + back, addr, size) == target
}

/// The walk starts in front of the whole list.
pub proof fn lemma_pending_start(s: Seq<ListNodeInfo>, addr: usize, size: usize)
    requires
        free_list_wf(s),
        can_deallocate(s, addr, size),
    ensures
        merge_pending(Seq::empty(), s, addr, size, merge_insert(s, addr, size)),
{
    reveal(merge_pending);
    assert(Seq::<ListNodeInfo>::empty() + s =~= s);
}

/// During the walk the region fits into the address space, the region at
/// the walk's position ends at or below it, and the region behind the
/// position is valid, does not overlap it, and starts above the end of the
/// region at the position.
pub proof fn lemma_pending_facts(
    front: Seq<ListNodeInfo>,
    back: Seq<ListNodeInfo>,
    addr: usize,
    size: usize,
    target: Seq<ListNodeInfo>,
)
    requires
        merge_pending(front, back, addr, size, target),
    ensures
        size >= MIN_BLOCK_SIZE,
        addr + size <= usize::MAX,
        front.len() > 0 ==> valid_region(front.last()) && region_end(front.last()) <= addr,
        back.len() > 0 ==> valid_region(back[0]) && (region_end(back[0]) <= addr || addr + size
            <= back[0].addr),
        front.len() > 0 && back.len() > 0 ==> region_end(front.last()) < back[0].addr,
        joins_last(front, addr) && joins_first(back, addr, size) ==> front.last().size + size
            + back[0].size <= usize::MAX,
{
    reveal(merge_pending);
    let s = front + back;
    if front.len() > 0 {
        assert(s[front.len() - 1] == front.last());
        assert(valid_region(s[front.len() - 1]));
    }
    if back.len() > 0 {
        assert(s[front.len() as int] == back[0]);
        assert(valid_region(s[front.len() as int]));
    }
}

/// The walk ends where the region behind its position starts above `addr`:
/// only the two regions at the position change.
pub proof fn lemma_pending_done(
    front: Seq<ListNodeInfo>,
    back: Seq<ListNodeInfo>,
    addr: usize,
    size: usize,
    target: Seq<ListNodeInfo>,
)
    requires
        merge_pending(front, back, addr, size, target),
        back.len() > 0 ==> back[0].addr > addr,
    ensures
        target == merged_at_cut(front, back, addr, size),
{
    reveal(merge_pending);
    lemma_merge_insert_at_cut(front, back, addr, size);
}

/// The walk may take the region behind its position into the region that is
/// to be given back, if the two touch.
pub proof fn lemma_pending_absorb(
    front: Seq<ListNodeInfo>,
    back: Seq<ListNodeInfo>,
    addr: usize,
    size: usize,
    target: Seq<ListNodeInfo>,
)
    requires
        merge_pending(front, back, addr, size, target),
        joins_first(back, addr, size),
    ensures
        size + back[0].size <= usize::MAX,
        merge_pending(front, back.drop_first(), addr, (size + back[0].size) as usize, target),
{
    reveal(merge_pending);
    lemma_absorb_next(front, back, addr, size);
}

/// The walk may step over a region that starts at or below `addr`.
pub proof fn lemma_pending_advance(
    front: Seq<ListNodeInfo>,
    back: Seq<ListNodeInfo>,
    addr: usize,
    size: usize,
    target: Seq<ListNodeInfo>,
)
    requires
        merge_pending(front, back, addr, size, target),
        back.len() > 0,
        back[0].addr <= addr,
    ensures
        merge_pending(front.push(back[0]), back.drop_first(), addr, size, target),
{
    reveal(merge_pending);
    assert(front.push(back[0]) + back.drop_first() =~= front + back);
}

} // verus!
