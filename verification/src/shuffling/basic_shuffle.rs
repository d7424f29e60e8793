//! Basic shuffle algorithm: random tags and an oblivious sort.
use vstd::prelude::*;
use crate::primitives::traits::Cmov;
use crate::random::{draw_tag, drawn};
use crate::sort::shuffle::{all_drawn, ordered_by_tags, shuffled};
use crate::sort::bitonic::bitonic_payload_sort;

use crate::sort::utils::zip_spec;
use crate::sort::order::{sorted, lemma_u64_total_order};

verus! {

/// Draws one random tag per element of `arr` from the thread-local generator.
fn wrap_data<T>(arr: &[T]) -> (tags: Vec<u64>)
    ensures
        tags@.len() == arr@.len(),
        all_drawn(tags@),
{
    let n = arr.len();
    let mut tags: Vec<u64> = Vec::with_capacity(n);
    let mut i: usize = 0;
    while i < n
        invariant
            n == arr@.len(),
            i <= n,
            tags@.len() == i,
            forall|j: int| 0 <= j < i ==> drawn(#[trigger] tags@[j]),
        decreases n - i,
    {
        tags.push(draw_tag());
        i += 1;
    }
    tags
}

/// Sorts `arr` along its tags, which rearranges it in the order of the tags: the tags end
/// sorted, and each element keeps its tag.
fn basic_shuffle_inner<T: Cmov + Copy>(arr: &mut [T], tags: &mut Vec<u64>)
    requires
        old(arr)@.len() <= usize::MAX / 2,
        old(tags)@.len() == old(arr)@.len(),
    ensures
        final(arr)@.len() == old(arr)@.len(),
        final(tags)@.len() == old(tags)@.len(),
        final(arr)@.to_multiset() == old(arr)@.to_multiset(),
        final(tags)@.to_multiset() == old(tags)@.to_multiset(),
        zip_spec(final(tags)@, final(arr)@).to_multiset() == zip_spec(old(tags)@, old(arr)@).to_multiset(),
        sorted(final(tags)@),
{
    proof {
        lemma_u64_total_order();
    }
    bitonic_payload_sort(tags.as_mut_slice(), arr);
}

/// Basic shuffle algorithm: tags each element with a random key and sorts obliviously by
/// the keys. The elements are permuted; which permutation comes is chance.
pub fn basic_shuffle<T: Cmov + Copy>(arr: &mut [T])
    requires
        old(arr)@.len() <= usize::MAX / 2,
    ensures
        final(arr)@.len() == old(arr)@.len(),
        final(arr)@.to_multiset() == old(arr)@.to_multiset(),
        shuffled(old(arr)@, final(arr)@),
{
    let mut tags = wrap_data(arr);
    let ghost t0 = tags@;
    basic_shuffle_inner(arr, &mut tags);
    proof {
        assert(ordered_by_tags(old(arr)@, arr@, t0));
        assert(all_drawn(t0));
    }
}

} // verus!
