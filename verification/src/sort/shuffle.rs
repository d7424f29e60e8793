//! Random shuffling by tagging each element with a random key and sorting by the tags.
use vstd::prelude::*;
use crate::primitives::traits::Cmov;
use crate::random::{draw_tag, drawn};
use crate::sort::bitonic::bitonic_payload_sort;
use crate::sort::order::{sorted, lemma_u64_total_order};
use crate::sort::utils::zip_spec;

verus! {

/// Every tag was drawn from the random generator.
pub open spec fn all_drawn(tags: Seq<u64>) -> bool {
    forall|i: int| 0 <= i < tags.len() ==> drawn(#[trigger] tags[i])
}

/// `after` is `before` put in the order of `tags`: the tags can be sorted so that each
/// element of `after` sits beside the tag that its element of `before` had.
pub open spec fn ordered_by_tags<T>(before: Seq<T>, after: Seq<T>, tags: Seq<u64>) -> bool {
    exists|st: Seq<u64>| #[trigger] sorted(st) && zip_spec(st, after).to_multiset() == zip_spec(tags, before).to_multiset()
}

/// A random shuffle: `after` is `before` put in the order of one tag per element, each tag
/// drawn from the random generator.
pub open spec fn shuffled<T>(before: Seq<T>, after: Seq<T>) -> bool {
    exists|tags: Seq<u64>| tags.len() == before.len() && #[trigger] all_drawn(tags) && ordered_by_tags(before, after, tags)
}

/// Draws one random tag per element of `arr`.
fn wrap_data<T>(arr: &[T]) -> (tags: Vec<u64>)
    ensures
        tags@.len() == arr@.len(),
        all_drawn(tags@),
{
    let n = arr.len();
    let mut tags: Vec<u64> = Vec::with_capacity(n);
    let mut i: usize = 0;
    while i < n
        invariant
            n == arr@.len(),
            i <= n,
            tags@.len() == i,
            forall|j: int| 0 <= j < i ==> drawn(#[trigger] tags@[j]),
        decreases n - i,
    {
        tags.push(draw_tag());
        i += 1;
    }
    tags
}

/// Does a random shuffle of `arr` by adding a random tag to each element and obliviously
/// sorting by the tags. The elements are permuted; which permutation comes is chance.
pub fn shuffle<T: Cmov + Copy>(arr: &mut [T])
    requires
        old(arr)@.len() <= usize::MAX / 2,
    ensures
        final(arr)@.len() == old(arr)@.len(),
        final(arr)@.to_multiset() == old(arr)@.to_multiset(),
        shuffled(old(arr)@, final(arr)@),
{
    let mut tags = wrap_data(arr);
    let ghost t0 = tags@;
    proof {
        lemma_u64_total_order();
    }
    bitonic_payload_sort(tags.as_mut_slice(), arr);
    proof {
        assert(ordered_by_tags(old(arr)@, arr@, t0));
        assert(all_drawn(t0));
    }
}

} // verus!
