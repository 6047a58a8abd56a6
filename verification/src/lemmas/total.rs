//! The free bytes of a list under cutting and putting together.

use vstd::prelude::*;
use crate::merged_list::ListNodeInfo;
use crate::model::total_free;

verus! {

/// The free bytes of two lists put together are the free bytes of both.
pub proof fn lemma_total_free_concat(a: Seq<ListNodeInfo>, b: Seq<ListNodeInfo>)
    ensures
        total_free(a + b) == total_free(a) + total_free(b),
    decreases b.len(),
{
    if b.len() == 0 {
        assert(a + b =~= a);
    } else {
        assert((a + b).drop_last() =~= a + b.drop_last());
        lemma_total_free_concat(a, b.drop_last());
    }
}

/// The free bytes of a list of one region are that region's size.
pub proof fn lemma_total_free_one(r: ListNodeInfo)
    ensures
        total_free(seq![r]) == r.size,
{
    assert(seq![r].drop_last() =~= Seq::<ListNodeInfo>::empty());
    assert(total_free(seq![r].drop_last()) == 0);
}

/// A list holds no negative number of free bytes.
pub proof fn lemma_total_free_nonnegative(s: Seq<ListNodeInfo>)
    ensures
        total_free(s) >= 0,
    decreases s.len(),
{
    if s.len() > 0 {
        lemma_total_free_nonnegative(s.drop_last());
    }
}

/// The free bytes of a list are those before a region, the region's own and
/// those behind it.
pub proof fn lemma_total_free_split(s: Seq<ListNodeInfo>, i: int)
    requires
        0 <= i < s.len(),
    ensures
        total_free(s) == total_free(s.subrange(0, i)) + s[i].size + total_free(
            s.subrange(i + 1, s.len() as int),
        ),
        s[i].size <= total_free(s),
{
    let before = s.subrange(0, i);
    let behind = s.subrange(i + 1, s.len() as int);
    assert(s =~= before + seq![s[i]] + behind);
    lemma_total_free_concat(before + seq![s[i]], behind);
    lemma_total_free_concat(before, seq![s[i]]);
    lemma_total_free_one(s[i]);
    lemma_total_free_nonnegative(before);
    lemma_total_free_nonnegative(behind);
}

} // verus!
