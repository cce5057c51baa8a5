//! Helpers for reasoning about deep views of vectors.

use vstd::prelude::*;

verus! {

/// The deep view of a sequence of values: each element replaced by its own
/// deep view. `Vec::deep_view` is this function applied to the vector's view.
pub open spec fn deep<T: DeepView>(s: Seq<T>) -> Seq<T::V> {
    Seq::new(s.len(), |i: int| s[i].deep_view())
}

pub proof fn lemma_vec_deep<T: DeepView>(v: &Vec<T>)
    ensures
        v.deep_view() == deep(v@),
{
    assert(v.deep_view() =~= deep(v@));
}

pub proof fn lemma_deep_insert0<T: DeepView>(s: Seq<T>, x: T)
    ensures
        deep(s.insert(0, x)) == deep(s).insert(0, x.deep_view()),
{
    assert(deep(s.insert(0, x)) =~= deep(s).insert(0, x.deep_view()));
}

pub proof fn lemma_deep_push<T: DeepView>(s: Seq<T>, x: T)
    ensures
        deep(s.push(x)) == deep(s).push(x.deep_view()),
{
    assert(deep(s.push(x)) =~= deep(s).push(x.deep_view()));
}

pub proof fn lemma_deep_update<T: DeepView>(s: Seq<T>, k: int, x: T)
    requires
        0 <= k < s.len(),
    ensures
        deep(s.update(k, x)) == deep(s).update(k, x.deep_view()),
{
    assert(deep(s.update(k, x)) =~= deep(s).update(k, x.deep_view()));
}

} // verus!
