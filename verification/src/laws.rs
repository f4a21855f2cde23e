//! The algebra of sorted-set intersection that the library's contracts rest
//! on: symmetry and self-identity of the two-way intersection, the absorbing
//! empty set, and invariance of the k-way result under reordering of the
//! inputs.

use vstd::prelude::*;

use crate::sets::{
    common, in_all, lemma_common_membership, lemma_common_sorted, lemma_in_all_same_members,
    lemma_sorted_set_unique, sorted_set,
};

verus! {

broadcast use vstd::seq_lib::group_to_multiset_ensures;

/// Intersection is symmetric: for sorted sets the materialized result, and
/// with it the match count, does not depend on the order of the arguments.
pub proof fn lemma_common_symmetric(a: Seq<u32>, b: Seq<u32>)
    requires
        sorted_set(a),
        sorted_set(b),
    ensures
        common(a, b) == common(b, a),
{
    lemma_common_membership(a, b);
    lemma_common_membership(b, a);
    lemma_common_sorted(a, b);
    lemma_common_sorted(b, a);
    lemma_sorted_set_unique(common(a, b), common(b, a));
}

/// Intersecting a sorted set with itself gives the set back unchanged.
pub proof fn lemma_common_self(a: Seq<u32>)
    requires
        sorted_set(a),
    ensures
        common(a, a) == a,
{
    lemma_common_membership(a, a);
    lemma_common_sorted(a, a);
    lemma_sorted_set_unique(common(a, a), a);
}

/// The empty set absorbs: intersecting any sequence with it, on either side,
/// leaves nothing.
pub proof fn lemma_common_empty(a: Seq<u32>)
    ensures
        common(a, Seq::<u32>::empty()) == Seq::<u32>::empty(),
        common(Seq::<u32>::empty(), a) == Seq::<u32>::empty(),
    decreases a.len(),
{
    reveal(Seq::filter);
    if a.len() != 0 {
        lemma_common_empty(a.drop_last());
        assert(common(a, Seq::<u32>::empty()) =~= Seq::<u32>::empty());
    }
}

/// The k-way intersection is invariant under permutation of its inputs: two
/// results that are sorted sets and hold exactly what occurs in every set of
/// two collections with the same sets in any order are the same sequence.
pub proof fn lemma_intersect_multi_permutation(
    s1: Seq<Seq<u32>>,
    s2: Seq<Seq<u32>>,
    r1: Seq<u32>,
    r2: Seq<u32>,
)
    requires
        s1.to_multiset() == s2.to_multiset(),
        sorted_set(r1),
        sorted_set(r2),
        forall|x: u32| r1.contains(x) <==> in_all(s1, x),
        forall|x: u32| r2.contains(x) <==> in_all(s2, x),
    ensures
        r1 == r2,
{
    assert forall|t: Seq<u32>| s1.contains(t) <==> s2.contains(t) by {
        assert(s1.contains(t) <==> s1.to_multiset().count(t) > 0);
        assert(s2.contains(t) <==> s2.to_multiset().count(t) > 0);
    }
    lemma_in_all_same_members(s1, s2);
    assert forall|x: u32| r1.contains(x) <==> r2.contains(x) by {
        assert(in_all(s1, x) <==> in_all(s2, x));
    }
    lemma_sorted_set_unique(r1, r2);
}

} // verus!
