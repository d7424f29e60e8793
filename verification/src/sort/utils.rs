//! Shared specifications and the compare-and-swap step of the sorting networks.
use vstd::prelude::*;
use crate::primitives::traits::{Cmov, CswapIndex, swap_spec, lemma_swap_spec_multiset};
use crate::sort::order::{obeys_order, le, gt};

verus! {

/// `b` holds the same elements as `a`, counted with multiplicity.
pub open spec fn is_permutation<T>(a: Seq<T>, b: Seq<T>) -> bool {
    a.to_multiset() == b.to_multiset()
}

/// `b` equals `a` outside the index range `[lo, hi)`.
pub open spec fn same_outside<T>(a: Seq<T>, b: Seq<T>, lo: int, hi: int) -> bool {
    &&& a.len() == b.len()
    &&& forall|i: int| 0 <= i < a.len() && !(lo <= i < hi) ==> a[i] == b[i]
}

/// The pairs `(a[i], b[i])`.
pub open spec fn zip_spec<A, B>(a: Seq<A>, b: Seq<B>) -> Seq<(A, B)> {
    Seq::new(a.len(), |i: int| (a[i], b[i]))
}

/// Swapping the same positions of two sequences swaps the positions of their zip.
pub proof fn lemma_zip_swap<A, B>(a: Seq<A>, b: Seq<B>, i: int, j: int, choice: bool)
    requires
        a.len() == b.len(),
        0 <= i < a.len(),
        0 <= j < a.len(),
    ensures
        zip_spec(swap_spec(a, i, j, choice), swap_spec(b, i, j, choice)) == swap_spec(zip_spec(a, b), i, j, choice),
        zip_spec(swap_spec(a, i, j, choice), swap_spec(b, i, j, choice)).to_multiset() == zip_spec(a, b).to_multiset(),
{
    assert(zip_spec(swap_spec(a, i, j, choice), swap_spec(b, i, j, choice)) =~= swap_spec(zip_spec(a, b), i, j, choice));
    lemma_swap_spec_multiset(zip_spec(a, b), i, j, choice);
}

/// A swap inside `[lo, hi)` keeps a sequence the same outside that range.
pub proof fn lemma_swap_same_outside<T>(orig: Seq<T>, a: Seq<T>, b: Seq<T>, l: int, r: int, lo: int, hi: int)
    requires
        same_outside(orig, a, lo, hi),
        exists|c: bool| b == swap_spec(a, l, r, c),
        lo <= l < hi,
        lo <= r < hi,
        0 <= l < a.len(),
        0 <= r < a.len(),
    ensures
        same_outside(orig, b, lo, hi),
{
    let c = choose|c: bool| b == swap_spec(a, l, r, c);
    assert(b.len() == a.len());
}

/// Orders `arr[left]` and `arr[right]`: ascending when `up`, descending otherwise.
/// The two positions are always read and written, whatever their order.
pub fn compare_and_swap<T: Ord + Cmov + Copy>(arr: &mut [T], left: usize, right: usize, up: bool)
    requires
        left < old(arr)@.len(),
        right < old(arr)@.len(),
    ensures
        final(arr)@.to_multiset() == old(arr)@.to_multiset(),
        final(arr)@.len() == old(arr)@.len(),
        exists|c: bool| final(arr)@ == swap_spec(old(arr)@, left as int, right as int, c),
        obeys_order::<T>() ==> final(arr)@ == swap_spec(
            old(arr)@,
            left as int,
            right as int,
            if up {
                !le(old(arr)@[left as int], old(arr)@[right as int])
            } else {
                le(old(arr)@[left as int], old(arr)@[right as int])
            },
        ),
{
    let cond = arr[left] <= arr[right];
    let swap = if up { !cond } else { cond };
    proof {
        lemma_swap_spec_multiset(arr@, left as int, right as int, swap);
    }
    arr.cswap(left, right, swap);
}

/// Swaps `arr[i]` and `arr[j]` when `arr[i] > arr[j]`; both positions are always
/// read and written.
pub fn cswap_if_greater<T: Ord + Cmov + Copy>(arr: &mut [T], i: usize, j: usize)
    requires
        i < old(arr)@.len(),
        j < old(arr)@.len(),
    ensures
        final(arr)@.to_multiset() == old(arr)@.to_multiset(),
        final(arr)@.len() == old(arr)@.len(),
        exists|c: bool| final(arr)@ == swap_spec(old(arr)@, i as int, j as int, c),
        obeys_order::<T>() ==> final(arr)@ == swap_spec(old(arr)@, i as int, j as int, gt(old(arr)@[i as int], old(arr)@[j as int])),
{
    let swap = arr[i] > arr[j];
    proof {
        lemma_swap_spec_multiset(arr@, i as int, j as int, swap);
    }
    arr.cswap(i, j, swap);
}

/// Orders `arr[left]` and `arr[right]` like `compare_and_swap` and moves the payload
/// entries the same way.
pub fn compare_and_swap_payload<T: Ord + Cmov + Copy, P: Cmov + Copy>(
    arr: &mut [T],
    payload: &mut [P],
    left: usize,
    right: usize,
    up: bool,
)
    requires
        left < old(arr)@.len(),
        right < old(arr)@.len(),
        old(arr)@.len() == old(payload)@.len(),
    ensures
        final(arr)@.len() == old(arr)@.len(),
        final(payload)@.len() == old(payload)@.len(),
        zip_spec(final(arr)@, final(payload)@).to_multiset() == zip_spec(old(arr)@, old(payload)@).to_multiset(),
        final(arr)@.to_multiset() == old(arr)@.to_multiset(),
        final(payload)@.to_multiset() == old(payload)@.to_multiset(),
        exists|c: bool|
            final(arr)@ == swap_spec(old(arr)@, left as int, right as int, c) && final(payload)@ == swap_spec(
                old(payload)@,
                left as int,
                right as int,
                c,
            ),
        obeys_order::<T>() ==> final(arr)@ == swap_spec(
            old(arr)@,
            left as int,
            right as int,
            if up {
                !le(old(arr)@[left as int], old(arr)@[right as int])
            } else {
                le(old(arr)@[left as int], old(arr)@[right as int])
            },
        ),
{
    let cond = arr[left] <= arr[right];
    let swap = if up { !cond } else { cond };
    proof {
        lemma_swap_spec_multiset(arr@, left as int, right as int, swap);
        lemma_zip_swap(arr@, payload@, left as int, right as int, swap);
        lemma_swap_spec_multiset(payload@, left as int, right as int, swap);
    }
    arr.cswap(left, right, swap);
    payload.cswap(left, right, swap);
}

} // verus!
