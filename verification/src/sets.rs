//! The mathematical model of sorted integer sets: sortedness predicates, the
//! intersection of two sequences, the lower-bound index that the gallop
//! search computes, and the lemmas that the algorithm proofs lean on.

use vstd::prelude::*;

verus! {

/// A sorted run: non-decreasing, duplicates allowed. This is all the gallop
/// search asks of its input.
pub open spec fn sorted(s: Seq<u32>) -> bool {
    forall|i: int, j: int| 0 <= i <= j < s.len() ==> s[i] <= s[j]
}

/// A sorted set: strictly increasing, hence sorted and duplicate-free.
/// Postings lists are kept in this form.
pub open spec fn sorted_set(s: Seq<u32>) -> bool {
    forall|i: int, j: int| 0 <= i < j < s.len() ==> s[i] < s[j]
}

/// The elements of `a` that also occur in `b`, in the order they carry in
/// `a`. For sorted sets this is exactly their intersection.
pub open spec fn common(a: Seq<u32>, b: Seq<u32>) -> Seq<u32> {
    a.filter(|x: u32| b.contains(x))
}

/// The index of the first element of `s` not less than `key`, or `s.len()`
/// when every element is less. For a sorted `s` this is the lower bound of
/// `key`, the point the gallop search skips to.
pub open spec fn first_ge(s: Seq<u32>, key: u32) -> int
    decreases s.len(),
{
    if s.len() == 0 {
        0
    } else if s[0] >= key {
        0
    } else {
        1 + first_ge(s.skip(1), key)
    }
}

/// The index of the first element of `s` strictly greater than `key`, or
/// `s.len()` when there is none: where the gallop-past-equal variant lands.
pub open spec fn first_gt(s: Seq<u32>, key: u32) -> int
    decreases s.len(),
{
    if s.len() == 0 {
        0
    } else if s[0] > key {
        0
    } else {
        1 + first_gt(s.skip(1), key)
    }
}

/// `x` occurs in every one of `sets`.
pub open spec fn in_all(sets: Seq<Seq<u32>>, x: u32) -> bool {
    forall|i: int| 0 <= i < sets.len() ==> sets[i].contains(x)
}

/// The abstract contents of a vector of sets.
pub open spec fn views_of(sets: Seq<Vec<u32>>) -> Seq<Seq<u32>> {
    sets.map_values(|v: Vec<u32>| v@)
}

/// `first_ge` splits `s` at the lower bound: everything before it is below
/// `key`, and the split point itself (when it exists) is not.
pub proof fn lemma_first_ge_bounds(s: Seq<u32>, key: u32)
    ensures
        0 <= first_ge(s, key) <= s.len(),
        forall|p: int| 0 <= p < first_ge(s, key) ==> s[p] < key,
        first_ge(s, key) < s.len() ==> s[first_ge(s, key)] >= key,
    decreases s.len(),
{
    if s.len() != 0 && s[0] < key {
        lemma_first_ge_bounds(s.skip(1), key);
        assert forall|p: int| 0 <= p < first_ge(s, key) implies s[p] < key by {
            if p > 0 {
                assert(s.skip(1)[p - 1] == s[p]);
            }
        }
    }
}

/// Any index with the lower-bound split shape is `first_ge`.
pub proof fn lemma_first_ge_pinned(s: Seq<u32>, key: u32, i: int)
    requires
        0 <= i <= s.len(),
        forall|p: int| 0 <= p < i ==> s[p] < key,
        i < s.len() ==> s[i] >= key,
    ensures
        first_ge(s, key) == i,
    decreases s.len(),
{
    if s.len() != 0 && s[0] < key {
        assert(i >= 1);
        assert forall|p: int| 0 <= p < i - 1 implies s.skip(1)[p] < key by {
            assert(s.skip(1)[p] == s[p + 1]);
        }
        assert(i - 1 < s.skip(1).len() ==> s.skip(1)[i - 1] >= key);
        lemma_first_ge_pinned(s.skip(1), key, i - 1);
    }
}

/// The counterpart of `lemma_first_ge_bounds` for the strict bound.
pub proof fn lemma_first_gt_bounds(s: Seq<u32>, key: u32)
    ensures
        0 <= first_gt(s, key) <= s.len(),
        forall|p: int| 0 <= p < first_gt(s, key) ==> s[p] <= key,
        first_gt(s, key) < s.len() ==> s[first_gt(s, key)] > key,
    decreases s.len(),
{
    if s.len() != 0 && s[0] <= key {
        lemma_first_gt_bounds(s.skip(1), key);
        assert forall|p: int| 0 <= p < first_gt(s, key) implies s[p] <= key by {
            if p > 0 {
                assert(s.skip(1)[p - 1] == s[p]);
            }
        }
    }
}

/// Any index with the strict split shape is `first_gt`.
pub proof fn lemma_first_gt_pinned(s: Seq<u32>, key: u32, i: int)
    requires
        0 <= i <= s.len(),
        forall|p: int| 0 <= p < i ==> s[p] <= key,
        i < s.len() ==> s[i] > key,
    ensures
        first_gt(s, key) == i,
    decreases s.len(),
{
    if s.len() != 0 && s[0] <= key {
        assert(i >= 1);
        assert forall|p: int| 0 <= p < i - 1 implies s.skip(1)[p] <= key by {
            assert(s.skip(1)[p] == s[p + 1]);
        }
        assert(i - 1 < s.skip(1).len() ==> s.skip(1)[i - 1] > key);
        lemma_first_gt_pinned(s.skip(1), key, i - 1);
    }
}

/// Extending the filtered prefix of `a` by one element.
pub proof fn lemma_filter_take_step(a: Seq<u32>, pred: spec_fn(u32) -> bool, i: int)
    requires
        0 <= i < a.len(),
    ensures
        a.take(i + 1).filter(pred) == if pred(a[i]) {
            a.take(i).filter(pred).push(a[i])
        } else {
            a.take(i).filter(pred)
        },
{
    let t = a.take(i + 1);
    assert(t.len() == i + 1);
    assert(t.drop_last() =~= a.take(i));
    assert(t.last() == a[i]);
    reveal(Seq::filter);
}

/// One step of scanning `a` against `b`: extending the scanned prefix of `a`
/// by one element extends `common` exactly when `b` holds that element.
pub proof fn lemma_common_take_step(a: Seq<u32>, b: Seq<u32>, i: int)
    requires
        0 <= i < a.len(),
    ensures
        common(a.take(i + 1), b) == if b.contains(a[i]) {
            common(a.take(i), b).push(a[i])
        } else {
            common(a.take(i), b)
        },
{
    lemma_filter_take_step(a, |x: u32| b.contains(x), i);
}

/// The scanned-to-the-end prefix is the whole sequence.
pub proof fn lemma_common_take_full(a: Seq<u32>, b: Seq<u32>)
    ensures
        common(a.take(a.len() as int), b) == common(a, b),
        common(a.take(0), b) == Seq::<u32>::empty(),
{
    assert(a.take(a.len() as int) =~= a);
    assert(a.take(0) =~= Seq::<u32>::empty());
    reveal(Seq::filter);
}

/// When everything in `b` before index `j` lies below `x` and `b[j]` (if it
/// exists) does not, membership of `x` in `b` is decided at `j`.
pub proof fn lemma_contains_at(b: Seq<u32>, j: int, x: u32)
    requires
        sorted_set(b),
        0 <= j <= b.len(),
        forall|p: int| 0 <= p < j ==> b[p] < x,
        j < b.len() ==> b[j] >= x,
    ensures
        b.contains(x) <==> j < b.len() && b[j] == x,
{
    if b.contains(x) {
        let q = choose|q: int| 0 <= q < b.len() && b[q] == x;
        assert(q >= j);
        if b[j] != x {
            assert(b[j] > x);
            assert(q > j);
            assert(b[q] > b[j]);
            assert(false);
        }
    }
}

/// Everything a filter keeps came from the sequence it filtered.
pub proof fn lemma_filter_subset(a: Seq<u32>, pred: spec_fn(u32) -> bool)
    ensures
        forall|q: int|
            0 <= q < a.filter(pred).len() ==> a.contains(#[trigger] a.filter(pred)[q]),
    decreases a.len(),
{
    reveal(Seq::filter);
    if a.len() != 0 {
        lemma_filter_subset(a.drop_last(), pred);
        assert forall|q: int|
            0 <= q < a.filter(pred).len() implies a.contains(#[trigger] a.filter(pred)[q]) by {
            if q < a.drop_last().filter(pred).len() {
                let x = a.drop_last().filter(pred)[q];
                let w = choose|w: int| 0 <= w < a.drop_last().len() && a.drop_last()[w] == x;
                assert(a[w] == x);
            } else {
                assert(a.filter(pred)[q] == a.last());
                assert(a[a.len() - 1] == a.last());
            }
        }
    }
}

/// Membership in `common(a, b)` is membership in both `a` and `b`.
pub proof fn lemma_common_membership(a: Seq<u32>, b: Seq<u32>)
    ensures
        forall|x: u32| #[trigger] common(a, b).contains(x) <==> a.contains(x) && b.contains(x),
{
    broadcast use vstd::seq_lib::group_filter_ensures;

    let pred = |x: u32| b.contains(x);
    lemma_filter_subset(a, pred);
    assert forall|x: u32| #[trigger] common(a, b).contains(x) implies a.contains(x)
        && b.contains(x) by {
        let q = choose|q: int| 0 <= q < common(a, b).len() && common(a, b)[q] == x;
        assert(pred(a.filter(pred)[q]));
    }
    assert forall|x: u32| a.contains(x) && b.contains(x) implies #[trigger] common(a, b)
        .contains(x) by {
        let q = choose|q: int| 0 <= q < a.len() && a[q] == x;
        assert(pred(a[q]));
        assert(a.filter(pred).contains(a[q]));
    }
}

/// Filtering a strictly increasing sequence leaves it strictly increasing.
pub proof fn lemma_filter_sorted_set(a: Seq<u32>, pred: spec_fn(u32) -> bool)
    requires
        sorted_set(a),
    ensures
        sorted_set(a.filter(pred)),
    decreases a.len(),
{
    reveal(Seq::filter);
    if a.len() != 0 {
        assert(sorted_set(a.drop_last()));
        lemma_filter_sorted_set(a.drop_last(), pred);
        lemma_filter_subset(a.drop_last(), pred);
        if pred(a.last()) {
            let f = a.drop_last().filter(pred);
            assert forall|q: int| 0 <= q < f.len() implies f[q] < a.last() by {
                let x = f[q];
                assert(a.drop_last().contains(x));
                let w = choose|w: int| 0 <= w < a.drop_last().len() && a.drop_last()[w] == x;
                assert(a[w] == x && a[a.len() - 1] == a.last());
            }
        }
    }
}

/// The intersection of a sorted set with anything is itself a sorted set.
pub proof fn lemma_common_sorted(a: Seq<u32>, b: Seq<u32>)
    requires
        sorted_set(a),
    ensures
        sorted_set(common(a, b)),
{
    lemma_filter_sorted_set(a, |x: u32| b.contains(x));
}

/// Taking an element out of a sequence and putting the same element back at
/// another position keeps exactly the same members.
pub proof fn lemma_remove_insert_keeps_members<A>(s: Seq<A>, i: int, j: int)
    requires
        0 <= i < s.len(),
        0 <= j <= s.len() - 1,
    ensures
        forall|t: A| #[trigger] s.remove(i).insert(j, s[i]).contains(t) <==> s.contains(t),
{
    let s2 = s.remove(i).insert(j, s[i]);
    s.remove_ensures(i);
    s.remove(i).insert_ensures(j, s[i]);
    assert forall|t: A| #[trigger] s2.contains(t) implies s.contains(t) by {
        let q = choose|q: int| 0 <= q < s2.len() && s2[q] == t;
        if q == j {
            assert(s[i] == t);
        } else {
            let qr = if q < j {
                q
            } else {
                q - 1
            };
            assert(s.remove(i)[qr] == t);
            let qs = if qr < i {
                qr
            } else {
                qr + 1
            };
            assert(s[qs] == t);
        }
    }
    assert forall|t: A| s.contains(t) implies #[trigger] s2.contains(t) by {
        let q = choose|q: int| 0 <= q < s.len() && s[q] == t;
        if q == i {
            assert(s2[j] == t);
        } else {
            let qr = if q < i {
                q
            } else {
                q - 1
            };
            assert(s.remove(i)[qr] == t);
            let q2 = if qr < j {
                qr
            } else {
                qr + 1
            };
            assert(s2[q2] == t);
        }
    }
}

/// Two vectors-of-sets with the same member vectors carry the same member
/// contents.
pub proof fn lemma_views_members(s1: Seq<Vec<u32>>, s2: Seq<Vec<u32>>)
    requires
        forall|v: Vec<u32>| s1.contains(v) <==> s2.contains(v),
    ensures
        forall|t: Seq<u32>| #[trigger] views_of(s1).contains(t) <==> views_of(s2).contains(t),
{
    assert forall|t: Seq<u32>| #[trigger] views_of(s1).contains(t) implies views_of(s2).contains(
        t,
    ) by {
        let q = choose|q: int| 0 <= q < views_of(s1).len() && views_of(s1)[q] == t;
        assert(s1.contains(s1[q]));
        let w = choose|w: int| 0 <= w < s2.len() && s2[w] == s1[q];
        assert(views_of(s2)[w] == t);
    }
    assert forall|t: Seq<u32>| views_of(s2).contains(t) implies #[trigger] views_of(s1).contains(
        t,
    ) by {
        let q = choose|q: int| 0 <= q < views_of(s2).len() && views_of(s2)[q] == t;
        assert(s2.contains(s2[q]));
        let w = choose|w: int| 0 <= w < s1.len() && s1[w] == s2[q];
        assert(views_of(s1)[w] == t);
    }
}

/// Collections with the same member sets agree on what occurs in all of them.
pub proof fn lemma_in_all_same_members(v1: Seq<Seq<u32>>, v2: Seq<Seq<u32>>)
    requires
        forall|t: Seq<u32>| v1.contains(t) <==> v2.contains(t),
    ensures
        forall|x: u32| #[trigger] in_all(v1, x) <==> in_all(v2, x),
{
    assert forall|x: u32| #[trigger] in_all(v1, x) implies in_all(v2, x) by {
        assert forall|q: int| 0 <= q < v2.len() implies v2[q].contains(x) by {
            assert(v2.contains(v2[q]));
            let w = choose|w: int| 0 <= w < v1.len() && v1[w] == v2[q];
            assert(v1[w].contains(x));
        }
    }
    assert forall|x: u32| in_all(v2, x) implies #[trigger] in_all(v1, x) by {
        assert forall|q: int| 0 <= q < v1.len() implies v1[q].contains(x) by {
            assert(v1.contains(v1[q]));
            let w = choose|w: int| 0 <= w < v2.len() && v2[w] == v1[q];
            assert(v2[w].contains(x));
        }
    }
}

/// Two strictly increasing sequences with the same members are the same
/// sequence: the sorted-set form of a set of values is unique.
pub proof fn lemma_sorted_set_unique(a: Seq<u32>, b: Seq<u32>)
    requires
        sorted_set(a),
        sorted_set(b),
        forall|x: u32| a.contains(x) <==> b.contains(x),
    ensures
        a == b,
    decreases a.len(),
{
    if a.len() == 0 {
        if b.len() != 0 {
            assert(b.contains(b[0]));
        }
        assert(a =~= b);
    } else {
        assert(a.contains(a[0]));
        assert(b.len() != 0) by {
            assert(b.contains(a[0]));
        }
        assert(b.contains(b[0]));
        assert(a.contains(b[0]));
        let p = choose|p: int| 0 <= p < b.len() && b[p] == a[0];
        let q = choose|q: int| 0 <= q < a.len() && a[q] == b[0];
        assert(a[0] <= a[q] && b[0] <= b[p]);
        assert(a[0] == b[0]);
        let a1 = a.skip(1);
        let b1 = b.skip(1);
        assert forall|x: u32| a1.contains(x) implies b1.contains(x) by {
            let w = choose|w: int| 0 <= w < a1.len() && a1[w] == x;
            assert(a[w + 1] == x);
            assert(x > a[0]);
            assert(a.contains(x));
            let v = choose|v: int| 0 <= v < b.len() && b[v] == x;
            assert(v != 0);
            assert(b1[v - 1] == x);
        }
        assert forall|x: u32| b1.contains(x) implies a1.contains(x) by {
            let w = choose|w: int| 0 <= w < b1.len() && b1[w] == x;
            assert(b[w + 1] == x);
            assert(x > b[0]);
            assert(b.contains(x));
            let v = choose|v: int| 0 <= v < a.len() && a[v] == x;
            assert(v != 0);
            assert(a1[v - 1] == x);
        }
        assert(sorted_set(a1) && sorted_set(b1));
        lemma_sorted_set_unique(a1, b1);
        assert(a.len() == b.len());
        assert forall|i: int| 0 <= i < a.len() implies a[i] == b[i] by {
            if i > 0 {
                assert(a1[i - 1] == b1[i - 1]);
            }
        }
        assert(a =~= b);
    }
}

} // verus!
