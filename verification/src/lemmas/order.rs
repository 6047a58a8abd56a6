//! The invariant of a free list, and the condition for giving a region
//! back, under cutting a list and putting lists together.

use vstd::prelude::*;
use crate::merged_list::ListNodeInfo;
use crate::model::{can_deallocate, free_list_wf, region_end, valid_region};

verus! {

/// Any stretch of a free list is a free list.
pub proof fn lemma_wf_subrange(s: Seq<ListNodeInfo>, from: int, to: int)
    requires
        free_list_wf(s),
        0 <= from <= to <= s.len(),
    ensures
        free_list_wf(s.subrange(from, to)),
{
    let t = s.subrange(from, to);
    assert forall|i: int| 0 <= i < t.len() implies valid_region(#[trigger] t[i]) by {
        assert(t[i] == s[i + from]);
    }
    assert forall|i: int, j: int| #![trigger t[i], t[j]] 0 <= i < j < t.len() implies region_end(
        t[i],
    ) < t[j].addr by {
        assert(t[i] == s[i + from]);
        assert(t[j] == s[j + from]);
    }
}

/// In a free list, a region ends below the start of every region behind it,
/// and starts at or above the end of every region before it.
pub proof fn lemma_wf_ends(s: Seq<ListNodeInfo>)
    requires
        free_list_wf(s),
        s.len() > 0,
    ensures
        forall|i: int| 0 <= i < s.len() ==> s[0].addr <= (#[trigger] s[i]).addr,
        forall|i: int| 0 <= i < s.len() ==> region_end(#[trigger] s[i]) <= region_end(s.last()),
{
    assert forall|i: int| 0 <= i < s.len() implies s[0].addr <= (#[trigger] s[i]).addr by {
        if i > 0 {
            assert(region_end(s[0]) < s[i].addr);
        }
    }
    assert forall|i: int| 0 <= i < s.len() implies region_end(#[trigger] s[i]) <= region_end(
        s.last(),
    ) by {
        if i < s.len() - 1 {
            assert(region_end(s[i]) < s[s.len() - 1].addr);
        }
    }
}

/// Two free lists make one where the first ends below the start of the
/// second.
pub proof fn lemma_wf_join(a: Seq<ListNodeInfo>, b: Seq<ListNodeInfo>)
    requires
        free_list_wf(a),
        free_list_wf(b),
        a.len() > 0 && b.len() > 0 ==> region_end(a.last()) < b[0].addr,
    ensures
        free_list_wf(a + b),
{
    let r = a + b;
    let n = a.len() as int;
    if a.len() > 0 {
        lemma_wf_ends(a);
    }
    if b.len() > 0 {
        lemma_wf_ends(b);
    }
    assert forall|i: int| 0 <= i < r.len() implies valid_region(#[trigger] r[i]) by {
        if i < n {
            assert(r[i] == a[i]);
        } else {
            assert(r[i] == b[i - n]);
        }
    }
    assert forall|i: int, j: int| #![trigger r[i], r[j]] 0 <= i < j < r.len() implies region_end(
        r[i],
    ) < r[j].addr by {
        if j < n {
            assert(r[i] == a[i] && r[j] == a[j]);
        } else if i >= n {
            assert(r[i] == b[i - n] && r[j] == b[j - n]);
        } else {
            assert(r[i] == a[i] && r[j] == b[j - n]);
            assert(region_end(a[i]) <= region_end(a.last()));
            assert(b[0].addr <= b[j - n].addr);
        }
    }
}

/// A list of one valid region is a free list.
pub proof fn lemma_wf_one(r: ListNodeInfo)
    requires
        valid_region(r),
    ensures
        free_list_wf(seq![r]),
{
}

/// A free list is made of two free lists, the first of which ends below the
/// start of the second.
pub proof fn lemma_wf_parts(a: Seq<ListNodeInfo>, b: Seq<ListNodeInfo>)
    requires
        free_list_wf(a + b),
    ensures
        free_list_wf(a),
        free_list_wf(b),
        a.len() > 0 && b.len() > 0 ==> region_end(a.last()) < b[0].addr,
{
    let s = a + b;
    let n = a.len() as int;
    lemma_wf_subrange(s, 0, n);
    lemma_wf_subrange(s, n, s.len() as int);
    assert(s.subrange(0, n) =~= a);
    assert(s.subrange(n, s.len() as int) =~= b);
    if a.len() > 0 && b.len() > 0 {
        assert(s[n - 1] == a.last());
        assert(s[n] == b[0]);
    }
}

/// Taking a region out of a free list leaves a free list.
pub proof fn lemma_wf_remove(s: Seq<ListNodeInfo>, i: int)
    requires
        free_list_wf(s),
        0 <= i < s.len(),
    ensures
        free_list_wf(s.remove(i)),
        s.remove(i) == s.subrange(0, i) + s.subrange(i + 1, s.len() as int),
{
    let before = s.subrange(0, i);
    let behind = s.subrange(i + 1, s.len() as int);
    lemma_wf_subrange(s, 0, i);
    lemma_wf_subrange(s, i + 1, s.len() as int);
    if before.len() > 0 && behind.len() > 0 {
        assert(before.last() == s[i - 1]);
        assert(behind[0] == s[i + 1]);
        assert(region_end(s[i - 1]) < s[i + 1].addr);
    }
    lemma_wf_join(before, behind);
    assert(s.remove(i) =~= before + behind);
}

/// A region that may be given back to a list may be given back to each
/// part of it.
pub proof fn lemma_apart_parts(a: Seq<ListNodeInfo>, b: Seq<ListNodeInfo>, addr: usize, size: usize)
    requires
        can_deallocate(a + b, addr, size),
    ensures
        can_deallocate(a, addr, size),
        can_deallocate(b, addr, size),
{
    let s = a + b;
    assert forall|i: int| 0 <= i < a.len() implies region_end(#[trigger] a[i]) <= addr || addr
        + size <= a[i].addr by {
        assert(a[i] == s[i]);
    }
    assert forall|i: int| 0 <= i < b.len() implies region_end(#[trigger] b[i]) <= addr || addr
        + size <= b[i].addr by {
        assert(b[i] == s[i + a.len()]);
    }
}

/// A region that may be given back to each of two lists may be given back
/// to the two put together.
pub proof fn lemma_apart_join(a: Seq<ListNodeInfo>, b: Seq<ListNodeInfo>, addr: usize, size: usize)
    requires
        can_deallocate(a, addr, size),
        can_deallocate(b, addr, size),
    ensures
        can_deallocate(a + b, addr, size),
{
    let s = a + b;
    assert forall|i: int| 0 <= i < s.len() implies region_end(#[trigger] s[i]) <= addr || addr
        + size <= s[i].addr by {
        if i < a.len() {
            assert(s[i] == a[i]);
        } else {
            assert(s[i] == b[i - a.len()]);
        }
    }
}

} // verus!
