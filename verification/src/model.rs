//! The bridge between executable data and its mathematical model: the
//! element-wise view of a sequence, with the facts every proof about it
//! needs.

use vstd::prelude::*;

verus! {

/// The views of a sequence's elements, in order.
pub open spec fn views_of<T: View>(s: Seq<T>) -> Seq<T::V> {
    s.map_values(|t: T| t@)
}

/// Length and elements of `views_of`.
pub broadcast proof fn lemma_views_of<T: View>(s: Seq<T>)
    ensures
        (#[trigger] views_of(s)).len() == s.len(),
        forall|j: int| 0 <= j < s.len() ==> views_of(s)[j] == (#[trigger] s[j])@,
{
}

/// `views_of` distributes over `push`.
pub proof fn lemma_views_of_push<T: View>(s: Seq<T>, x: T)
    ensures
        views_of(s.push(x)) =~= views_of(s).push(x@),
{
    lemma_views_of(s.push(x));
    lemma_views_of(s);
}

/// `views_of` distributes over `update`.
pub proof fn lemma_views_of_update<T: View>(s: Seq<T>, i: int, x: T)
    requires
        0 <= i < s.len(),
    ensures
        views_of(s.update(i, x)) =~= views_of(s).update(i, x@),
{
    lemma_views_of(s.update(i, x));
    lemma_views_of(s);
}

} // verus!
