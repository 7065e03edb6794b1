//! The first item of a sequence that has a property.

use vstd::prelude::*;

verus! {

/// The first item of `s` for which `f` holds.
pub open spec fn first<T>(s: Seq<T>, f: spec_fn(T) -> bool) -> Option<T>
    decreases s.len(),
{
    if s.len() == 0 {
        None
    } else if f(s[0]) {
        Some(s[0])
    } else {
        first(s.skip(1), f)
    }
}

pub proof fn lemma_first_at<T>(s: Seq<T>, f: spec_fn(T) -> bool, k: int)
    requires
        0 <= k < s.len(),
        f(s[k]),
        forall|i: int| 0 <= i < k ==> !f(#[trigger] s[i]),
    ensures
        first(s, f) == Some(s[k]),
    decreases k,
{
    if k > 0 {
        assert(!f(s[0]));
        assert forall|i: int| 0 <= i < k - 1 implies !f(#[trigger] s.skip(1)[i]) by {
            assert(!f(s[i + 1]));
        }
        lemma_first_at(s.skip(1), f, k - 1);
    }
}

pub proof fn lemma_first_none<T>(s: Seq<T>, f: spec_fn(T) -> bool)
    requires
        forall|i: int| 0 <= i < s.len() ==> !f(#[trigger] s[i]),
    ensures
        first(s, f) is None,
    decreases s.len(),
{
    if s.len() > 0 {
        assert(!f(s[0]));
        assert forall|i: int| 0 <= i < s.len() - 1 implies !f(#[trigger] s.skip(1)[i]) by {
            assert(!f(s[i + 1]));
        }
        lemma_first_none(s.skip(1), f);
    }
}

} // verus!
