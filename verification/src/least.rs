//! The lowest index that satisfies a predicate.

use vstd::prelude::*;

verus! {

/// `k` satisfies `p` and no smaller index from zero on does.
pub open spec fn is_lowest(p: spec_fn(int) -> bool, k: int) -> bool {
    &&& 0 <= k
    &&& p(k)
    &&& forall|j: int| 0 <= j < k ==> !#[trigger] p(j)
}

/// The lowest index from zero on that satisfies `p`, if there is one.
pub open spec fn lowest(p: spec_fn(int) -> bool) -> Option<int> {
    if exists|k: int| is_lowest(p, k) {
        Some(choose|k: int| is_lowest(p, k))
    } else {
        None
    }
}

/// An index that is lowest is the value of `lowest`.
pub proof fn lemma_lowest_some(p: spec_fn(int) -> bool, k: int)
    requires
        is_lowest(p, k),
    ensures
        lowest(p) == Some(k),
{
    let c = choose|c: int| is_lowest(p, c);
    if c < k {
        assert(!p(c));
    } else if k < c {
        assert(!p(k));
    }
}

/// What `lowest` finds is lowest.
pub proof fn lemma_lowest_is(p: spec_fn(int) -> bool, k: int)
    requires
        lowest(p) == Some(k),
    ensures
        is_lowest(p, k),
{
}

/// Where no index satisfies `p`, `lowest` finds none.
pub proof fn lemma_lowest_none(p: spec_fn(int) -> bool)
    requires
        forall|k: int| 0 <= k ==> !#[trigger] p(k),
    ensures
        lowest(p) is None,
{
}

/// Where some index satisfies `p`, a lowest one exists at or below it.
pub proof fn lemma_lowest_exists(p: spec_fn(int) -> bool, k: int)
    requires
        0 <= k,
        p(k),
    ensures
        lowest(p) is Some,
        lowest(p)->0 <= k,
        is_lowest(p, lowest(p)->0),
    decreases k,
{
    if forall|j: int| 0 <= j < k ==> !#[trigger] p(j) {
        lemma_lowest_some(p, k);
    } else {
        let j = choose|j: int| 0 <= j < k && #[trigger] p(j);
        lemma_lowest_exists(p, j);
    }
}

} // verus!
