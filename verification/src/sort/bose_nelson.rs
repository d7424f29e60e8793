//! Bose-Nelson sorting network.
use vstd::prelude::*;
use crate::primitives::traits::{Cmov, swap_spec};
use crate::sort::utils::cswap_if_greater;
use crate::sort::order::{total_order, sorted, zfirst, splits, le, gt, lemma_gt_not_le, lemma_zfirst_of_sorted, lemma_sorted_from_zfirst, lemma_zfirst_split, lemma_zfirst_concat};

verus! {

/// Index `i` lies in `[st1, st1 + n1)` or in `[st2, st2 + n2)`.
pub open spec fn in_runs(i: int, st1: int, n1: int, st2: int, n2: int) -> bool {
    (st1 <= i < st1 + n1) || (st2 <= i < st2 + n2)
}

/// `b` equals `a` outside the runs `[st1, st1 + n1)` and `[st2, st2 + n2)`.
pub open spec fn same_outside_runs<T>(a: Seq<T>, b: Seq<T>, st1: int, n1: int, st2: int, n2: int) -> bool {
    &&& a.len() == b.len()
    &&& forall|i: int| 0 <= i < a.len() && !in_runs(i, st1, n1, st2, n2) ==> a[i] == b[i]
}

/// The two runs of `a`, one after the other.
pub open spec fn runs<T>(a: Seq<T>, st1: int, n1: int, st2: int, n2: int) -> Seq<T> {
    a.subrange(st1, st1 + n1) + a.subrange(st2, st2 + n2)
}

/// Under a total order, merging runs whose first `za` and `zb` elements are at most `t`
/// gives runs whose first `za + zb` elements are at most `t`, for every `t`: the runs of
/// `f` are the sorted merge of those of `o`.
pub open spec fn merges<T: PartialOrd>(o: Seq<T>, f: Seq<T>, st1: int, n1: int, st2: int, n2: int) -> bool {
    total_order::<T>() ==> forall|t: T, za: int, zb: int|
        #[trigger] zfirst(o.subrange(st1, st1 + n1), t, za) && #[trigger] zfirst(o.subrange(st2, st2 + n2), t, zb) ==> zfirst(
            runs(f, st1, n1, st2, n2),
            t,
            za + zb,
        )
}

/// A compare-exchange of `x` and `y` puts first an element at most `t` exactly when one of
/// them is, and second one exactly when both are.
proof fn lemma_exchange<T: PartialOrd>(x: T, y: T, t: T)
    requires
        total_order::<T>(),
    ensures
        le(if gt(x, y) { y } else { x }, t) == (le(x, t) || le(y, t)),
        le(if gt(x, y) { x } else { y }, t) == (le(x, t) && le(y, t)),
{
    lemma_gt_not_le(x, y);
    if gt(x, y) {
        assert(le(y, x));
        if le(x, t) {
            assert(le(y, t));
        }
    } else {
        if le(y, t) {
            assert(le(x, t));
        }
    }
}

/// Bose-Nelson network that merges the sorted runs `arr[start1..start1 + size1)` and
/// `arr[start2..start2 + size2)`. The runs differ in length by at most one (the shapes
/// `bn_sort` produces; on other shapes the recursion does not end). The elements are
/// permuted within the two runs; under a total order the runs end up holding the sorted
/// merge of both.
pub fn bn_merge<T: Ord + Cmov + Copy>(arr: &mut [T], start1: usize, size1: usize, start2: usize, size2: usize)
    requires
        size1 >= 1,
        size2 >= 1,
        size1 <= size2 + 1,
        size2 <= size1 + 1,
        start1 + size1 <= start2,
        start2 + size2 <= old(arr)@.len(),
        old(arr)@.len() <= usize::MAX,
    ensures
        final(arr)@.to_multiset() == old(arr)@.to_multiset(),
        same_outside_runs(old(arr)@, final(arr)@, start1 as int, size1 as int, start2 as int, size2 as int),
        merges(old(arr)@, final(arr)@, start1 as int, size1 as int, start2 as int, size2 as int),
    decreases size1 + size2,
{
    let ghost o = arr@;
    if size1 == 1 && size2 == 1 {
        cswap_if_greater(arr, start1, start2);
        proof {
            if total_order::<T>() {
                let x = o[start1 as int];
                let y = o[start2 as int];
                assert forall|t: T, za: int, zb: int|
                    #[trigger] zfirst(o.subrange(start1 as int, start1 + 1), t, za) && #[trigger] zfirst(o.subrange(start2 as int, start2 + 1), t, zb)
                        implies zfirst(runs(arr@, start1 as int, 1, start2 as int, 1), t, za + zb) by {
                    lemma_exchange(x, y, t);
                    assert(o.subrange(start1 as int, start1 + 1)[0] == x);
                    assert(o.subrange(start2 as int, start2 + 1)[0] == y);
                    let r = runs(arr@, start1 as int, 1, start2 as int, 1);
                    assert(r[0] == arr@[start1 as int] && r[1] == arr@[start2 as int]);
                }
            }
        }
    } else if size1 == 1 && size2 == 2 {
        cswap_if_greater(arr, start1, start2 + 1);
        let ghost mid = arr@;
        cswap_if_greater(arr, start1, start2);
        proof {
            if total_order::<T>() {
                let x = o[start1 as int];
                let y = o[start2 as int];
                let z = o[start2 + 1];
                let x1 = mid[start1 as int];
                assert forall|t: T, za: int, zb: int|
                    #[trigger] zfirst(o.subrange(start1 as int, start1 + 1), t, za) && #[trigger] zfirst(o.subrange(start2 as int, start2 + 2), t, zb)
                        implies zfirst(runs(arr@, start1 as int, 1, start2 as int, 2), t, za + zb) by {
                    lemma_exchange(x, z, t);
                    lemma_exchange(x1, y, t);
                    assert(o.subrange(start1 as int, start1 + 1)[0] == x);
                    assert(o.subrange(start2 as int, start2 + 2)[0] == y);
                    assert(o.subrange(start2 as int, start2 + 2)[1] == z);
                    let r = runs(arr@, start1 as int, 1, start2 as int, 2);
                    assert(r[0] == arr@[start1 as int] && r[1] == arr@[start2 as int] && r[2] == arr@[start2 + 1]);
                }
            }
        }
    } else if size1 == 2 && size2 == 1 {
        cswap_if_greater(arr, start1, start2);
        let ghost mid = arr@;
        cswap_if_greater(arr, start1 + 1, start2);
        proof {
            if total_order::<T>() {
                let x = o[start1 as int];
                let w = o[start1 + 1];
                let y = o[start2 as int];
                let y1 = mid[start2 as int];
                assert forall|t: T, za: int, zb: int|
                    #[trigger] zfirst(o.subrange(start1 as int, start1 + 2), t, za) && #[trigger] zfirst(o.subrange(start2 as int, start2 + 1), t, zb)
                        implies zfirst(runs(arr@, start1 as int, 2, start2 as int, 1), t, za + zb) by {
                    lemma_exchange(x, y, t);
                    lemma_exchange(w, y1, t);
                    assert(o.subrange(start1 as int, start1 + 2)[0] == x);
                    assert(o.subrange(start1 as int, start1 + 2)[1] == w);
                    assert(o.subrange(start2 as int, start2 + 1)[0] == y);
                    let r = runs(arr@, start1 as int, 2, start2 as int, 1);
                    assert(r[0] == arr@[start1 as int] && r[1] == arr@[start1 + 1] && r[2] == arr@[start2 as int]);
                }
            }
        }
    } else {
        let s1 = size1 / 2;
        let s2 = if (size1 % 2) == 0 { (size2 + 1) / 2 } else { size2 / 2 };
        bn_merge(arr, start1, s1, start2, s2);
        let ghost a1 = arr@;
        bn_merge(arr, start1 + s1, size1 - s1, start2 + s2, size2 - s2);
        let ghost a2 = arr@;
        bn_merge(arr, start1 + s1, size1 - s1, start2, s2);
        proof {
            lemma_merge_step(o, a1, a2, arr@, start1 as int, size1 as int, start2 as int, size2 as int, s1 as int, s2 as int);
        }
    }
}

/// How the elements at most a threshold spread over the pieces of the Bose-Nelson
/// recursion: with `za` and `zb` of them first in runs of lengths `n1` and `n2`, the four
/// pieces of the result hold them first, one piece after the other.
proof fn lemma_merge_counts(n1: int, n2: int, s1: int, s2: int, za: int, zb: int)
    requires
        n1 >= 1,
        n2 >= 1,
        n1 <= n2 + 1,
        n2 <= n1 + 1,
        !(n1 == 1 && n2 == 1),
        !(n1 == 1 && n2 == 2),
        !(n1 == 2 && n2 == 1),
        s1 == n1 / 2,
        s2 == (if n1 % 2 == 0 { (n2 + 1) / 2 } else { n2 / 2 }),
        0 <= za <= n1,
        0 <= zb <= n2,
    ensures
        ({
            let za1 = if za < s1 { za } else { s1 };
            let zb1 = if zb < s2 { zb } else { s2 };
            let c1 = za1 + zb1;
            let za1p = if c1 < s1 { c1 } else { s1 };
            let zb1p = c1 - za1p;
            let c2 = za - za1 + zb - zb1;
            let za2p = if c2 < n1 - s1 { c2 } else { n1 - s1 };
            let zb2p = c2 - za2p;
            let c3 = za2p + zb1p;
            &&& za1p < s1 ==> c3 == 0
            &&& za1p + c3 < n1 + s2 ==> zb2p == 0
            &&& za1p + c3 + zb2p == za + zb
        }),
{
}

/// The three merges of the Bose-Nelson recursion, on runs of lengths `n1` and `n2` split
/// at `s1` and `s2`, merge the two runs, for the threshold `t`.
proof fn lemma_merge_step_at<T: PartialOrd>(
    o: Seq<T>,
    a1: Seq<T>,
    a2: Seq<T>,
    a3: Seq<T>,
    st1: int,
    n1: int,
    st2: int,
    n2: int,
    s1: int,
    s2: int,
    t: T,
    za: int,
    zb: int,
)
    requires
        n1 >= 1,
        n2 >= 1,
        n1 <= n2 + 1,
        n2 <= n1 + 1,
        !(n1 == 1 && n2 == 1),
        !(n1 == 1 && n2 == 2),
        !(n1 == 2 && n2 == 1),
        s1 == n1 / 2,
        s2 == (if n1 % 2 == 0 { (n2 + 1) / 2 } else { n2 / 2 }),
        0 <= st1,
        st1 + n1 <= st2,
        st2 + n2 <= o.len(),
        total_order::<T>(),
        same_outside_runs(o, a1, st1, s1, st2, s2),
        merges(o, a1, st1, s1, st2, s2),
        same_outside_runs(a1, a2, st1 + s1, n1 - s1, st2 + s2, n2 - s2),
        merges(a1, a2, st1 + s1, n1 - s1, st2 + s2, n2 - s2),
        same_outside_runs(a2, a3, st1 + s1, n1 - s1, st2, s2),
        merges(a2, a3, st1 + s1, n1 - s1, st2, s2),
        zfirst(o.subrange(st1, st1 + n1), t, za),
        zfirst(o.subrange(st2, st2 + n2), t, zb),
    ensures
        zfirst(runs(a3, st1, n1, st2, n2), t, za + zb),
{
    let ra = o.subrange(st1, st1 + n1);
    let rb = o.subrange(st2, st2 + n2);
    lemma_merge_counts(n1, n2, s1, s2, za, zb);
    lemma_zfirst_split(ra, t, za, s1);
    lemma_zfirst_split(rb, t, zb, s2);
    let za1 = if za < s1 { za } else { s1 };
    let zb1 = if zb < s2 { zb } else { s2 };
    let za2 = za - za1;
    let zb2 = zb - zb1;
    assert(ra.subrange(0, s1) =~= o.subrange(st1, st1 + s1));
    assert(rb.subrange(0, s2) =~= o.subrange(st2, st2 + s2));
    assert(ra.subrange(s1, n1) =~= o.subrange(st1 + s1, st1 + n1));
    assert(rb.subrange(s2, n2) =~= o.subrange(st2 + s2, st2 + n2));
    let m1 = runs(a1, st1, s1, st2, s2);
    assert(zfirst(m1, t, za1 + zb1));
    lemma_zfirst_split(m1, t, za1 + zb1, s1);
    let c1 = za1 + zb1;
    let za1p = if c1 < s1 { c1 } else { s1 };
    let zb1p = c1 - za1p;
    assert(m1.subrange(0, s1) =~= a1.subrange(st1, st1 + s1));
    assert(m1.subrange(s1, s1 + s2) =~= a1.subrange(st2, st2 + s2));
    assert(a1.subrange(st1 + s1, st1 + n1) =~= o.subrange(st1 + s1, st1 + n1));
    assert(a1.subrange(st2 + s2, st2 + n2) =~= o.subrange(st2 + s2, st2 + n2));
    let m2 = runs(a2, st1 + s1, n1 - s1, st2 + s2, n2 - s2);
    assert(zfirst(m2, t, za2 + zb2));
    lemma_zfirst_split(m2, t, za2 + zb2, n1 - s1);
    let c2 = za2 + zb2;
    let za2p = if c2 < n1 - s1 { c2 } else { n1 - s1 };
    let zb2p = c2 - za2p;
    assert(m2.subrange(0, n1 - s1) =~= a2.subrange(st1 + s1, st1 + n1));
    assert(m2.subrange(n1 - s1, n1 - s1 + n2 - s2) =~= a2.subrange(st2 + s2, st2 + n2));
    assert(a2.subrange(st1, st1 + s1) =~= a1.subrange(st1, st1 + s1));
    assert(a2.subrange(st2, st2 + s2) =~= a1.subrange(st2, st2 + s2));
    let m3 = runs(a3, st1 + s1, n1 - s1, st2, s2);
    assert(zfirst(m3, t, za2p + zb1p));
    assert(a3.subrange(st1, st1 + s1) =~= a2.subrange(st1, st1 + s1));
    assert(a3.subrange(st2 + s2, st2 + n2) =~= a2.subrange(st2 + s2, st2 + n2));
    let c3 = za2p + zb1p;
    lemma_zfirst_concat(a3.subrange(st1, st1 + s1), m3, t, za1p, c3);
    lemma_zfirst_concat(a3.subrange(st1, st1 + s1) + m3, a3.subrange(st2 + s2, st2 + n2), t, za1p + c3, zb2p);
    assert(a3.subrange(st1, st1 + s1) + m3 + a3.subrange(st2 + s2, st2 + n2) =~= runs(a3, st1, n1, st2, n2));
}

/// The three merges of the Bose-Nelson recursion, on runs of lengths `n1` and `n2` split
/// at `s1` and `s2`, merge the two runs.
proof fn lemma_merge_step<T: PartialOrd>(
    o: Seq<T>,
    a1: Seq<T>,
    a2: Seq<T>,
    a3: Seq<T>,
    st1: int,
    n1: int,
    st2: int,
    n2: int,
    s1: int,
    s2: int,
)
    requires
        n1 >= 1,
        n2 >= 1,
        n1 <= n2 + 1,
        n2 <= n1 + 1,
        !(n1 == 1 && n2 == 1),
        !(n1 == 1 && n2 == 2),
        !(n1 == 2 && n2 == 1),
        s1 == n1 / 2,
        s2 == (if n1 % 2 == 0 { (n2 + 1) / 2 } else { n2 / 2 }),
        0 <= st1,
        st1 + n1 <= st2,
        st2 + n2 <= o.len(),
        same_outside_runs(o, a1, st1, s1, st2, s2),
        merges(o, a1, st1, s1, st2, s2),
        same_outside_runs(a1, a2, st1 + s1, n1 - s1, st2 + s2, n2 - s2),
        merges(a1, a2, st1 + s1, n1 - s1, st2 + s2, n2 - s2),
        same_outside_runs(a2, a3, st1 + s1, n1 - s1, st2, s2),
        merges(a2, a3, st1 + s1, n1 - s1, st2, s2),
    ensures
        same_outside_runs(o, a3, st1, n1, st2, n2),
        merges(o, a3, st1, n1, st2, n2),
{
    if total_order::<T>() {
        assert forall|t: T, za: int, zb: int|
            #[trigger] zfirst(o.subrange(st1, st1 + n1), t, za) && #[trigger] zfirst(o.subrange(st2, st2 + n2), t, zb) implies zfirst(
                runs(a3, st1, n1, st2, n2),
                t,
                za + zb,
            ) by {
            lemma_merge_step_at(o, a1, a2, a3, st1, n1, st2, n2, s1, s2, t, za, zb);
        }
    }
}

/// Sorts the region `arr[start..start + size)` with the Bose-Nelson sorting network.
/// The elements are permuted within that region; under a total order it ends up sorted.
pub fn bn_sort<T: Ord + Cmov + Copy>(arr: &mut [T], start: usize, size: usize)
    requires
        start + size <= old(arr)@.len(),
        old(arr)@.len() <= usize::MAX,
    ensures
        final(arr)@.to_multiset() == old(arr)@.to_multiset(),
        same_outside_runs(old(arr)@, final(arr)@, start as int, size as int, start as int, 0),
        total_order::<T>() ==> sorted(final(arr)@.subrange(start as int, start + size)),
    decreases size,
{
    if size <= 1 {
        return;
    }
    let ghost o = arr@;
    let s2 = size / 2;
    bn_sort(arr, start, s2);
    let ghost a1 = arr@;
    bn_sort(arr, start + s2, size - s2);
    let ghost a2 = arr@;
    bn_merge(arr, start, s2, start + s2, size - s2);
    proof {
        if total_order::<T>() {
            assert(a2.subrange(start as int, start + s2) =~= a1.subrange(start as int, start + s2));
            let f = arr@;
            let reg = f.subrange(start as int, start + size);
            assert(runs(f, start as int, s2 as int, start + s2, size - s2) =~= reg);
            assert forall|t: T| #[trigger] splits(reg, t) by {
                let za = lemma_zfirst_of_sorted(a2.subrange(start as int, start + s2), t);
                let zb = lemma_zfirst_of_sorted(a2.subrange(start + s2, start + size), t);
                assert(zfirst(reg, t, za + zb));
            }
            lemma_sorted_from_zfirst(reg);
        }
    }
}

/// Sorts `arr` with the Bose-Nelson sorting network. The elements are permuted; the
/// access pattern depends only on `arr.len()`. Under a total order the result is sorted.
pub fn bose_nelson_sort<T: Ord + Cmov + Copy>(arr: &mut [T])
    ensures
        final(arr)@.len() == old(arr)@.len(),
        final(arr)@.to_multiset() == old(arr)@.to_multiset(),
        total_order::<T>() ==> sorted(final(arr)@),
{
    let n = arr.len();
    bn_sort(arr, 0, n);
    proof {
        assert(arr@.subrange(0, n as int) =~= arr@);
    }
}

} // verus!
