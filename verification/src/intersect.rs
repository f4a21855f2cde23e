//! Adaptive intersection of sorted `u32` sets: a galloping lower-bound
//! search, two scalar two-way intersection algorithms (linear merge and
//! gallop-driven), a dispatcher that picks between them by relative input
//! size, and a k-way driver that reduces many sets pairwise.

use core::cmp::Ordering;
use vstd::arithmetic::power2::{lemma2_to64, lemma_pow2_pos, lemma_pow2_unfold, pow2};
use vstd::prelude::*;
use vstd::slice::slice_subrange;

use crate::sets::{
    common, first_ge, first_gt, in_all, lemma_common_membership, lemma_common_sorted,
    lemma_common_take_full, lemma_common_take_step, lemma_contains_at, lemma_first_ge_bounds,
    lemma_first_ge_pinned, lemma_first_gt_pinned, lemma_in_all_same_members,
    lemma_remove_insert_keeps_members, lemma_views_members, sorted, sorted_set, views_of,
};

verus! {

broadcast use vstd::slice::axiom_spec_len, vstd::seq_lib::group_filter_ensures;

/// The default size-ratio cutoff: galloping is chosen when the shorter input
/// is under a quarter of the longer one.
pub const GALLOP_OVERHEAD_DEFAULT: usize = 4;

/// How a target `key` compares to an element `x`: the answer the search's
/// comparison callback gives for `x` when it stands for `key`.
pub open spec fn key_order(key: u32, x: u32) -> Ordering {
    if key < x {
        Ordering::Less
    } else if key == x {
        Ordering::Equal
    } else {
        Ordering::Greater
    }
}

/// The callback `cmp` compares the fixed target `key` against its argument:
/// any answer it can give is `key_order(key, x)`.
pub open spec fn compares_to<F: Fn(&u32) -> Ordering>(cmp: F, key: u32) -> bool {
    forall|x: &u32, o: Ordering| #[trigger] call_ensures(cmp, (x,), o) ==> o == key_order(key, *x)
}

/// `cmp` was observed to answer `o` on the value `x`.
pub open spec fn probed<F: Fn(&u32) -> Ordering>(cmp: F, x: u32, o: Ordering) -> bool {
    call_ensures(cmp, (&x,), o)
}

/// At index `p`, `s` is known to hold an element not below the target (or
/// `p` is past the end): an observed non-`Greater` answer pins it down.
pub open spec fn known_ge<F: Fn(&u32) -> Ordering>(s: Seq<u32>, cmp: F, p: int) -> bool {
    p >= s.len() || exists|o: Ordering| probed(cmp, s[p], o) && o != Ordering::Greater
}

/// The gallop lower-bound search over a sorted slice, driven by a
/// caller-supplied comparison: exponential probing doubles its stride while
/// the probed element is still below the target, then a binary halving of the
/// stride narrows in, and the suffix starting at the first element not below
/// the target is returned. `cmp` answers how the target compares to an
/// element, and must stand for one fixed target.
pub fn gallop_by<F: Fn(&u32) -> Ordering>(slice: &[u32], cmp: F) -> (r: &[u32])
    requires
        sorted(slice@),
        forall|x: &u32| #[trigger] call_requires(cmp, (x,)),
        exists|key: u32| compares_to(cmp, key),
    ensures
        forall|key: u32| #[trigger] compares_to(cmp, key) ==> r@ == slice@.skip(
            first_ge(slice@, key),
        ),
{
    let n = slice.len();
    if n == 0 {
        proof {
            assert forall|key: u32| #[trigger] compares_to(cmp, key) implies slice@ == slice@.skip(
                first_ge(slice@, key),
            ) by {
                lemma_first_ge_pinned(slice@, key, 0);
                assert(slice@.skip(0) =~= slice@);
            }
        }
        return slice;
    }
    let x0: u32 = slice[0];
    let o0 = cmp(&x0);
    if !matches!(o0, Ordering::Greater) {
        proof {
            assert forall|key: u32| #[trigger] compares_to(cmp, key) implies slice@ == slice@.skip(
                first_ge(slice@, key),
            ) by {
                assert(key_order(key, x0) == o0);
                lemma_first_ge_pinned(slice@, key, 0);
                assert(slice@.skip(0) =~= slice@);
            }
        }
        return slice;
    }
    // The target is above the first element: gallop. Throughout, `s` is the
    // suffix of `slice` starting at `off`, its first element was probed
    // `Greater` (so every matching target lies above it and above everything
    // before it), and `hi` is a position where a non-`Greater` probe (or the
    // end of the slice) bounds the target from above.
    let mut s: &[u32] = slice;
    let mut step: usize = 1;
    let ghost mut off: int = 0int;
    let ghost mut g: nat = 0nat;
    proof {
        lemma2_to64();
    }
    loop
        invariant
            sorted(slice@),
            forall|x: &u32| #[trigger] call_requires(cmp, (x,)),
            0 <= off,
            off + s@.len() == slice@.len(),
            s@ == slice@.skip(off),
            s@.len() >= 1,
            slice@.len() <= usize::MAX,
            probed(cmp, s@[0], Ordering::Greater),
            step == off + 1,
            step == pow2(g),
        ensures
            sorted(slice@),
            0 <= off,
            off + s@.len() == slice@.len(),
            s@ == slice@.skip(off),
            s@.len() >= 1,
            probed(cmp, s@[0], Ordering::Greater),
            step >= 1,
            step == pow2(g),
            known_ge(s@, cmp, step as int),
        decreases s@.len(),
    {
        proof {
            lemma_pow2_pos(g);
        }
        if !(step < s.len()) {
            proof {
                assert(step as int >= s@.len());
                assert(known_ge(s@, cmp, step as int));
            }
            break;
        }
        let xs: u32 = s[step];
        let o = cmp(&xs);
        if !matches!(o, Ordering::Greater) {
            proof {
                assert(probed(cmp, s@[step as int], o));
                assert(known_ge(s@, cmp, step as int));
            }
            break;
        }
        s = slice_subrange(s, step, s.len());
        proof {
            assert(s@ =~= slice@.skip(off + step as int)) by {
                assert(s@ =~= slice@.skip(off).skip(step as int));
            }
            off = off + step as int;
            lemma_pow2_unfold((g + 1) as nat);
            g = g + 1;
        }
        step = step * 2;
    }
    let ghost mut hi: int = step as int;
    step = step / 2;
    proof {
        if step >= 1 {
            assert(g > 0) by {
                if g == 0 {
                    lemma2_to64();
                }
            }
            lemma_pow2_unfold(g);
            g = (g - 1) as nat;
        }
    }
    while step > 0
        invariant
            sorted(slice@),
            forall|x: &u32| #[trigger] call_requires(cmp, (x,)),
            exists|key: u32| compares_to(cmp, key),
            0 <= off,
            off + s@.len() == slice@.len(),
            s@ == slice@.skip(off),
            s@.len() >= 1,
            probed(cmp, s@[0], Ordering::Greater),
            1 <= hi,
            known_ge(s@, cmp, hi),
            step == 0 ==> hi == 1,
            step >= 1 ==> step == pow2(g) && hi <= 2 * step,
        decreases step,
    {
        proof {
            lemma_pow2_pos(g);
        }
        if step < s.len() {
            let xs: u32 = s[step];
            let o = cmp(&xs);
            if matches!(o, Ordering::Greater) {
                proof {
                    let key = choose|key: u32| compares_to(cmp, key);
                    assert(key_order(key, xs) == Ordering::Greater);
                    if hi < s@.len() {
                        let oh = choose|oh: Ordering|
                            probed(cmp, s@[hi], oh) && oh != Ordering::Greater;
                        assert(key_order(key, s@[hi]) == oh);
                        assert(s@[hi] >= key);
                        assert(s@[step as int] < key);
                        assert(hi > step) by {
                            if hi <= step {
                                assert(s@[hi] <= s@[step as int]);
                            }
                        }
                    }
                }
                let ghost s_old = s@;
                s = slice_subrange(s, step, s.len());
                proof {
                    assert(s@ =~= slice@.skip(off + step as int)) by {
                        assert(s@ =~= slice@.skip(off).skip(step as int));
                    }
                    off = off + step as int;
                    hi = hi - step as int;
                    assert(hi >= 1);
                    assert(known_ge(s@, cmp, hi)) by {
                        if hi < s@.len() {
                            assert(s@[hi] == s_old[hi + step as int]);
                        }
                    }
                }
            } else {
                proof {
                    hi = step as int;
                    assert(probed(cmp, s@[step as int], o));
                    assert(known_ge(s@, cmp, hi));
                }
            }
        } else {
            proof {
                hi = step as int;
                assert(known_ge(s@, cmp, hi));
            }
        }
        proof {
            if step >= 2 {
                assert(g > 0) by {
                    if g == 0 {
                        lemma2_to64();
                    }
                }
                lemma_pow2_unfold(g);
                g = (g - 1) as nat;
                lemma_pow2_pos(g);
            }
        }
        step = step / 2;
    }
    // One more advance: everything before and including the current first
    // element was confirmed below the target, and position 1 was confirmed
    // not below it.
    let r = slice_subrange(s, 1, s.len());
    proof {
        assert(r@ =~= slice@.skip(off + 1)) by {
            assert(r@ =~= slice@.skip(off).skip(1));
        }
        let i = off + 1;
        assert forall|key: u32| #[trigger] compares_to(cmp, key) implies r@ == slice@.skip(
            first_ge(slice@, key),
        ) by {
            assert(key_order(key, s@[0]) == Ordering::Greater);
            assert(slice@[off] < key);
            assert forall|p: int| 0 <= p < i implies slice@[p] < key by {
                assert(slice@[p] <= slice@[off]);
            }
            if i < slice@.len() {
                assert(s@[1] == slice@[i]);
                let oh = choose|oh: Ordering| probed(cmp, s@[1], oh) && oh != Ordering::Greater;
                assert(key_order(key, s@[1]) == oh);
                assert(slice@[i] >= key);
            }
            lemma_first_ge_pinned(slice@, key, i);
        }
    }
    r
}

/// The gallop search, then one more linear advance past every element equal
/// to the target: the returned suffix starts at the first element strictly
/// greater. Used to move past a value that was just matched.
pub fn gallop_gt_by<F: Fn(&u32) -> Ordering + Copy>(slice: &[u32], cmp: F) -> (r: &[u32])
    requires
        sorted(slice@),
        forall|x: &u32| #[trigger] call_requires(cmp, (x,)),
        exists|key: u32| compares_to(cmp, key),
    ensures
        forall|key: u32| #[trigger] compares_to(cmp, key) ==> r@ == slice@.skip(
            first_gt(slice@, key),
        ),
{
    let mut s = gallop_by(slice, cmp);
    let ghost mut m: int = slice@.len() - s@.len();
    proof {
        assert forall|key: u32| #[trigger] compares_to(cmp, key) implies first_ge(slice@, key)
            == m by {
            lemma_first_ge_bounds(slice@, key);
            assert(s@ == slice@.skip(first_ge(slice@, key)));
        }
        let key0 = choose|key: u32| compares_to(cmp, key);
        assert(first_ge(slice@, key0) == m);
        lemma_first_ge_bounds(slice@, key0);
        assert(s@ =~= slice@.skip(m));
    }
    loop
        invariant
            sorted(slice@),
            forall|x: &u32| #[trigger] call_requires(cmp, (x,)),
            0 <= m <= slice@.len(),
            s@ == slice@.skip(m),
            forall|key: u32| #[trigger] compares_to(cmp, key) ==> first_ge(slice@, key) <= m,
            forall|key: u32, p: int|
                #![trigger compares_to(cmp, key), slice@[p]]
                compares_to(cmp, key) && first_ge(slice@, key) <= p < m ==> slice@[p] == key,
        ensures
            0 <= m <= slice@.len(),
            s@ == slice@.skip(m),
            forall|key: u32| #[trigger] compares_to(cmp, key) ==> first_ge(slice@, key) <= m,
            forall|key: u32, p: int|
                #![trigger compares_to(cmp, key), slice@[p]]
                compares_to(cmp, key) && first_ge(slice@, key) <= p < m ==> slice@[p] == key,
            m == slice@.len() || exists|o: Ordering|
                probed(cmp, slice@[m], o) && o != Ordering::Equal,
        decreases slice@.len() - m,
    {
        if s.len() == 0 {
            break;
        }
        let x0: u32 = s[0];
        let o = cmp(&x0);
        if !matches!(o, Ordering::Equal) {
            proof {
                assert(probed(cmp, slice@[m], o));
            }
            break;
        }
        s = slice_subrange(s, 1, s.len());
        proof {
            assert(s@ =~= slice@.skip(m + 1)) by {
                assert(s@ =~= slice@.skip(m).skip(1));
            }
            assert forall|key: u32| #[trigger] compares_to(cmp, key) implies slice@[m] == key by {
                assert(key_order(key, x0) == Ordering::Equal);
            }
            m = m + 1;
        }
    }
    proof {
        assert forall|key: u32| #[trigger] compares_to(cmp, key) implies s@ == slice@.skip(
            first_gt(slice@, key),
        ) by {
            lemma_first_ge_bounds(slice@, key);
            let f = first_ge(slice@, key);
            assert forall|p: int| 0 <= p < m implies slice@[p] <= key by {
                if p >= f {
                    assert(compares_to(cmp, key) && f <= p < m);
                }
            }
            if m < slice@.len() {
                let o = choose|o: Ordering| probed(cmp, slice@[m], o) && o != Ordering::Equal;
                assert(key_order(key, slice@[m]) == o);
                assert(f < slice@.len());
                assert(slice@[f] >= key);
                assert(slice@[m] >= slice@[f]);
                assert(slice@[m] > key);
            }
            lemma_first_gt_pinned(slice@, key, m);
        }
    }
    s
}

/// The gallop search for a concrete target `key`: the suffix of `slice`
/// starting at the first element not less than `key`.
pub fn gallop<'a>(slice: &'a [u32], key: &u32) -> (r: &'a [u32])
    requires
        sorted(slice@),
    ensures
        r@ == slice@.skip(first_ge(slice@, *key)),
{
    let k: u32 = *key;
    let cmp = |x: &u32| -> (o: Ordering)
        ensures
            o == key_order(k, *x),
        {
            if k < *x {
                Ordering::Less
            } else if k == *x {
                Ordering::Equal
            } else {
                Ordering::Greater
            }
        };
    proof {
        assert(compares_to(cmp, k));
    }
    let r = gallop_by(slice, cmp);
    r
}

/// The gallop-past-equal search for a concrete target `key`: the suffix of
/// `slice` starting at the first element strictly greater than `key`.
pub fn gallop_gt<'a>(slice: &'a [u32], key: &u32) -> (r: &'a [u32])
    requires
        sorted(slice@),
    ensures
        r@ == slice@.skip(first_gt(slice@, *key)),
{
    let k: u32 = *key;
    let cmp = |x: &u32| -> (o: Ordering)
        ensures
            o == key_order(k, *x),
        {
            if k < *x {
                Ordering::Less
            } else if k == *x {
                Ordering::Equal
            } else {
                Ordering::Greater
            }
        };
    proof {
        assert(compares_to(cmp, k));
    }
    let r = gallop_gt_by(slice, cmp);
    r
}

/// The linear-merge two-way intersection: a classic two-pointer walk,
/// advancing the lagging side past everything below the other side's head
/// and recording a match when the heads agree. Appends matches to `out`
/// when `materialize` is set; always returns the match count.
fn merge_into(aaa: &[u32], bbb: &[u32], out: &mut Vec<u32>, materialize: bool) -> (count: usize)
    requires
        sorted_set(aaa@),
        sorted_set(bbb@),
    ensures
        count == common(aaa@, bbb@).len(),
        materialize ==> final(out)@ == old(out)@ + common(aaa@, bbb@),
        !materialize ==> final(out)@ == old(out)@,
{
    let ghost out0 = out@;
    let mut count: usize = 0;
    let mut i: usize = 0;
    let mut j: usize = 0;
    proof {
        lemma_common_take_full(aaa@, bbb@);
        assert(out@ =~= out0 + common(aaa@.take(0), bbb@));
    }
    while i < aaa.len()
        invariant
            sorted_set(aaa@),
            sorted_set(bbb@),
            0 <= i <= aaa@.len(),
            0 <= j <= bbb@.len(),
            count == common(aaa@.take(i as int), bbb@).len(),
            materialize ==> out@ == out0 + common(aaa@.take(i as int), bbb@),
            !materialize ==> out@ == out0,
            i < aaa@.len() ==> forall|p: int| 0 <= p < j ==> bbb@[p] < aaa@[i as int],
        decreases aaa@.len() - i,
    {
        let a: u32 = aaa[i];
        while j < bbb.len() && bbb[j] < a
            invariant
                sorted_set(bbb@),
                0 <= j <= bbb@.len(),
                a == aaa@[i as int],
                forall|p: int| 0 <= p < j ==> bbb@[p] < a,
            decreases bbb@.len() - j,
        {
            j += 1;
        }
        proof {
            lemma_contains_at(bbb@, j as int, a);
            assert(common(aaa@.take(i as int), bbb@).len() <= aaa@.take(i as int).len());
            lemma_common_take_step(aaa@, bbb@, i as int);
        }
        if j < bbb.len() && a == bbb[j] {
            count = count + 1;
            if materialize {
                out.push(a);
                proof {
                    assert(out@ =~= out0 + common(aaa@.take(i as int + 1), bbb@));
                }
            }
        }
        i += 1;
        proof {
            if i < aaa@.len() {
                assert forall|p: int| 0 <= p < j implies bbb@[p] < aaa@[i as int] by {
                    assert(aaa@[i - 1] < aaa@[i as int]);
                }
            }
        }
    }
    proof {
        lemma_common_take_full(aaa@, bbb@);
    }
    count
}

/// The gallop-driven two-way intersection: each element of the (smaller)
/// driving side `aaa` triggers a gallop search into the unconsumed suffix of
/// `bbb`, skipping large gaps in logarithmic steps. Appends matches to `out`
/// when `materialize` is set; always returns the match count.
fn gallop_into(aaa: &[u32], bbb: &[u32], out: &mut Vec<u32>, materialize: bool) -> (count: usize)
    requires
        sorted_set(aaa@),
        sorted_set(bbb@),
    ensures
        count == common(aaa@, bbb@).len(),
        materialize ==> final(out)@ == old(out)@ + common(aaa@, bbb@),
        !materialize ==> final(out)@ == old(out)@,
{
    let ghost out0 = out@;
    let mut count: usize = 0;
    let mut i: usize = 0;
    let mut rest: &[u32] = bbb;
    let ghost mut m: int = 0int;
    proof {
        lemma_common_take_full(aaa@, bbb@);
        assert(out@ =~= out0 + common(aaa@.take(0), bbb@));
        assert(rest@ =~= bbb@.skip(0));
    }
    while i < aaa.len()
        invariant
            sorted_set(aaa@),
            sorted_set(bbb@),
            0 <= i <= aaa@.len(),
            0 <= m <= bbb@.len(),
            rest@ == bbb@.skip(m),
            count == common(aaa@.take(i as int), bbb@).len(),
            materialize ==> out@ == out0 + common(aaa@.take(i as int), bbb@),
            !materialize ==> out@ == out0,
            i < aaa@.len() ==> forall|p: int| 0 <= p < m ==> bbb@[p] < aaa@[i as int],
        decreases aaa@.len() - i,
    {
        let a: u32 = aaa[i];
        rest = gallop(rest, &a);
        proof {
            let old_rest = bbb@.skip(m);
            let f = first_ge(old_rest, a);
            lemma_first_ge_bounds(old_rest, a);
            assert(rest@ =~= bbb@.skip(m + f)) by {
                assert(rest@ =~= bbb@.skip(m).skip(f));
            }
            assert forall|p: int| 0 <= p < m + f implies bbb@[p] < a by {
                if p >= m {
                    assert(old_rest[p - m] < a);
                }
            }
            m = m + f;
            assert(m < bbb@.len() ==> bbb@[m] >= a) by {
                if m < bbb@.len() {
                    assert(old_rest[m - (m - f)] >= a);
                }
            }
            lemma_contains_at(bbb@, m, a);
            assert(common(aaa@.take(i as int), bbb@).len() <= aaa@.take(i as int).len());
            lemma_common_take_step(aaa@, bbb@, i as int);
        }
        if rest.len() > 0 && rest[0] == a {
            count = count + 1;
            if materialize {
                out.push(a);
                proof {
                    assert(out@ =~= out0 + common(aaa@.take(i as int + 1), bbb@));
                }
            }
        }
        i += 1;
        proof {
            if i < aaa@.len() {
                assert forall|p: int| 0 <= p < m implies bbb@[p] < aaa@[i as int] by {
                    assert(aaa@[i - 1] < aaa@[i as int]);
                }
            }
        }
    }
    proof {
        lemma_common_take_full(aaa@, bbb@);
    }
    count
}

/// The merge intersection of two sorted sets, counting matches and, when an
/// output buffer is supplied, appending them to it in ascending order.
pub fn intersect_scalar_merge(
    aaa: &[u32],
    bbb: &[u32],
    results: Option<&mut Vec<u32>>,
) -> (count: usize)
    requires
        sorted_set(aaa@),
        sorted_set(bbb@),
    ensures
        count == common(aaa@, bbb@).len(),
        results matches Some(v) ==> final(v)@ == v@ + common(aaa@, bbb@),
{
    match results {
        Some(v) => merge_into(aaa, bbb, v, true),
        None => {
            let mut sink: Vec<u32> = Vec::new();
            merge_into(aaa, bbb, &mut sink, false)
        },
    }
}

/// The galloping intersection of two sorted sets, with `aaa` driving the
/// search into `bbb`: counting matches and, when an output buffer is
/// supplied, appending them to it in ascending order.
pub fn intersect_scalar_gallop(
    aaa: &[u32],
    bbb: &[u32],
    results: Option<&mut Vec<u32>>,
) -> (count: usize)
    requires
        sorted_set(aaa@),
        sorted_set(bbb@),
    ensures
        count == common(aaa@, bbb@).len(),
        results matches Some(v) ==> final(v)@ == v@ + common(aaa@, bbb@),
{
    match results {
        Some(v) => gallop_into(aaa, bbb, v, true),
        None => {
            let mut sink: Vec<u32> = Vec::new();
            gallop_into(aaa, bbb, &mut sink, false)
        },
    }
}

/// The adaptive two-way intersection with an explicit overhead threshold:
/// when `aaa` is small next to `bbb` (under `len(bbb) / overhead`) the
/// galloping algorithm runs, otherwise the linear merge. The threshold only
/// steers the work; the count and the appended output do not depend on it.
pub fn intersect_with_overhead(
    aaa: &[u32],
    bbb: &[u32],
    overhead: usize,
    results: Option<&mut Vec<u32>>,
) -> (count: usize)
    requires
        sorted_set(aaa@),
        sorted_set(bbb@),
        overhead >= 1,
    ensures
        count == common(aaa@, bbb@).len(),
        results matches Some(v) ==> final(v)@ == v@ + common(aaa@, bbb@),
{
    if aaa.len() < bbb.len() / overhead {
        intersect_scalar_gallop(aaa, bbb, results)
    } else {
        intersect_scalar_merge(aaa, bbb, results)
    }
}

/// The adaptive two-way intersection at the default overhead threshold.
pub fn intersect(aaa: &[u32], bbb: &[u32], results: Option<&mut Vec<u32>>) -> (count: usize)
    requires
        sorted_set(aaa@),
        sorted_set(bbb@),
    ensures
        count == common(aaa@, bbb@).len(),
        results matches Some(v) ==> final(v)@ == v@ + common(aaa@, bbb@),
{
    intersect_with_overhead(aaa, bbb, GALLOP_OVERHEAD_DEFAULT, results)
}

/// The k-way intersection driver: given at least one sorted set, the sets
/// are ordered by ascending length (cheapest first), the two smallest are
/// intersected, and each further set is intersected against the running
/// accumulator, swapping a scratch buffer in to avoid reallocation and
/// stopping as soon as an intermediate result is empty. The result holds
/// exactly the values present in every input set, in ascending order.
#[verifier::loop_isolation(false)]
pub fn intersect_multi(mut to_intersect: Vec<Vec<u32>>) -> (res: Vec<u32>)
    requires
        to_intersect@.len() >= 1,
        forall|k: int| 0 <= k < to_intersect@.len() ==> sorted_set(#[trigger] to_intersect@[k]@),
    ensures
        sorted_set(res@),
        forall|x: u32| #[trigger] res@.contains(x) <==> in_all(views_of(to_intersect@), x),
{
    let ghost orig = to_intersect@;
    if to_intersect.len() == 1 {
        let res = vstd::slice::slice_to_vec(to_intersect[0].as_slice());
        proof {
            assert forall|x: u32| #[trigger] res@.contains(x) <==> in_all(views_of(orig), x) by {
                assert(views_of(orig)[0] == orig[0]@);
            }
        }
        return res;
    }
    let n = to_intersect.len();
    let mut si: usize = 1;
    while si < n
        invariant
            n == to_intersect@.len(),
            1 <= si <= n,
            forall|v: Vec<u32>| #[trigger] to_intersect@.contains(v) <==> orig.contains(v),
            forall|k: int| 0 <= k < orig.len() ==> sorted_set(#[trigger] orig[k]@),
            forall|p: int, q: int|
                0 <= p <= q < si ==> to_intersect@[p]@.len() <= to_intersect@[q]@.len(),
        decreases n - si,
    {
        let vlen = to_intersect[si].len();
        let mut pos: usize = si;
        while pos > 0 && to_intersect[pos - 1].len() > vlen
            invariant
                n == to_intersect@.len(),
                0 <= pos <= si < n,
                vlen == to_intersect@[si as int]@.len(),
                forall|q: int| pos <= q < si ==> to_intersect@[q]@.len() > vlen,
            decreases pos,
        {
            pos -= 1;
        }
        if pos < si {
            let ghost pre = to_intersect@;
            let v = to_intersect.remove(si);
            to_intersect.insert(pos, v);
            proof {
                lemma_remove_insert_keeps_members(pre, si as int, pos as int);
                pre.remove_ensures(si as int);
                pre.remove(si as int).insert_ensures(pos as int, pre[si as int]);
                let s2 = to_intersect@;
                assert forall|p: int, q: int| 0 <= p <= q < si + 1 implies s2[p]@.len()
                    <= s2[q]@.len() by {
                    let lp = if p < pos {
                        pre[p]@.len() as int
                    } else if p == pos {
                        vlen as int
                    } else {
                        pre[p - 1]@.len() as int
                    };
                    assert(s2[p]@.len() == lp);
                    let lq = if q < pos {
                        pre[q]@.len() as int
                    } else if q == pos {
                        vlen as int
                    } else {
                        pre[q - 1]@.len() as int
                    };
                    assert(s2[q]@.len() == lq);
                    if pos > 0 {
                        assert(pre[pos - 1]@.len() <= vlen);
                    }
                }
            }
        }
        si += 1;
    }
    // The two cheapest sets first, then fold the rest in ascending order of
    // length, reusing `buffer` as the scratch target of each step.
    proof {
        assert(sorted_set(to_intersect@[0]@) && sorted_set(to_intersect@[1]@)) by {
            assert(to_intersect@.contains(to_intersect@[0]));
            assert(to_intersect@.contains(to_intersect@[1]));
        }
    }
    let mut intersected: Vec<u32> = Vec::with_capacity(to_intersect[0].len());
    let _count: usize = intersect(
        to_intersect[0].as_slice(),
        to_intersect[1].as_slice(),
        Some(&mut intersected),
    );
    let mut buffer: Vec<u32> = Vec::with_capacity(intersected.len());
    proof {
        lemma_common_membership(to_intersect@[0]@, to_intersect@[1]@);
        lemma_common_sorted(to_intersect@[0]@, to_intersect@[1]@);
        assert(intersected@ =~= common(to_intersect@[0]@, to_intersect@[1]@));
    }
    let mut k: usize = 2;
    while k < n
        invariant
            n == to_intersect@.len(),
            n >= 2,
            2 <= k <= n,
            forall|v: Vec<u32>| #[trigger] to_intersect@.contains(v) <==> orig.contains(v),
            forall|kk: int| 0 <= kk < orig.len() ==> sorted_set(#[trigger] orig[kk]@),
            sorted_set(intersected@),
            buffer@ == Seq::<u32>::empty(),
            forall|x: u32| #[trigger] intersected@.contains(x) <==> (forall|q: int|
                0 <= q < k ==> to_intersect@[q]@.contains(x)),
        decreases n - k,
    {
        proof {
            assert(sorted_set(to_intersect@[k as int]@)) by {
                assert(to_intersect@.contains(to_intersect@[k as int]));
            }
        }
        let count = intersect(
            intersected.as_slice(),
            to_intersect[k].as_slice(),
            Some(&mut buffer),
        );
        let ghost prev = intersected@;
        let ghost setk = to_intersect@[k as int]@;
        proof {
            lemma_common_membership(prev, setk);
            lemma_common_sorted(prev, setk);
            assert(buffer@ =~= common(prev, setk));
        }
        if count == 0 {
            proof {
                lemma_views_members(to_intersect@, orig);
                lemma_in_all_same_members(views_of(to_intersect@), views_of(orig));
                assert forall|x: u32| #[trigger] buffer@.contains(x) <==> in_all(
                    views_of(orig),
                    x,
                ) by {
                    if in_all(views_of(orig), x) {
                        assert(in_all(views_of(to_intersect@), x));
                        assert forall|q: int| 0 <= q < k implies to_intersect@[q]@.contains(
                            x,
                        ) by {
                            assert(views_of(to_intersect@)[q] == to_intersect@[q]@);
                        }
                        assert(views_of(to_intersect@)[k as int] == setk);
                        assert(setk.contains(x));
                        assert(intersected@.contains(x));
                        assert(buffer@.contains(x));
                        assert(buffer@.len() > 0);
                    }
                    if buffer@.contains(x) {
                        assert(buffer@.len() > 0);
                    }
                }
            }
            return buffer;
        }
        core::mem::swap(&mut intersected, &mut buffer);
        buffer.clear();
        proof {
            assert forall|x: u32| #[trigger] intersected@.contains(x) <==> (forall|q: int|
                0 <= q < k + 1 ==> to_intersect@[q]@.contains(x)) by {
                if intersected@.contains(x) {
                    assert(prev.contains(x) && setk.contains(x));
                    assert forall|q: int| 0 <= q < k + 1 implies to_intersect@[q]@.contains(
                        x,
                    ) by {
                        if q < k {
                            assert(prev.contains(x));
                        }
                    }
                } else {
                    if !prev.contains(x) {
                        let q0 = choose|q0: int|
                            0 <= q0 < k && !to_intersect@[q0]@.contains(x);
                        assert(!to_intersect@[q0]@.contains(x));
                    }
                }
            }
        }
        k += 1;
    }
    proof {
        lemma_views_members(to_intersect@, orig);
        lemma_in_all_same_members(views_of(to_intersect@), views_of(orig));
        assert forall|x: u32| #[trigger] intersected@.contains(x) <==> in_all(
            views_of(orig),
            x,
        ) by {
            assert forall|q: int| 0 <= q < n implies views_of(to_intersect@)[q]
                == to_intersect@[q]@ by {}
            if intersected@.contains(x) {
                assert(in_all(views_of(to_intersect@), x));
            }
            if in_all(views_of(to_intersect@), x) {
                assert forall|q: int| 0 <= q < k implies to_intersect@[q]@.contains(x) by {
                    assert(views_of(to_intersect@)[q] == to_intersect@[q]@);
                }
            }
        }
    }
    intersected
}

} // verus!

