//! The order of the elements being sorted, and what it means for a sequence to be sorted.
use vstd::prelude::*;
use vstd::std_specs::cmp::{PartialOrdSpec, PartialOrdIs};

verus! {

/// The comparison operators of `T` follow its specified order.
pub open spec fn obeys_order<T: PartialOrd>() -> bool {
    T::obeys_partial_cmp_spec()
}

/// `x` is at most `y`.
pub open spec fn le<T: PartialOrd>(x: T, y: T) -> bool {
    x.is_le(&y)
}

/// `x` is greater than `y`.
pub open spec fn gt<T: PartialOrd>(x: T, y: T) -> bool {
    x.is_gt(&y)
}

/// The order of `T` is total and transitive, any two elements are comparable, and the
/// comparison operators follow it: what `Ord` asks of its implementations.
pub open spec fn total_order<T: PartialOrd>() -> bool {
    &&& obeys_order::<T>()
    &&& forall|x: T, y: T| #[trigger] x.partial_cmp_spec(&y) is Some
    &&& forall|x: T, y: T| #[trigger] le(x, y) || le(y, x)
    &&& forall|x: T, y: T, z: T| #[trigger] le(x, y) && #[trigger] le(y, z) ==> le(x, z)
}

/// Under a total order, `x > y` exactly when not `x <= y`.
pub proof fn lemma_gt_not_le<T: PartialOrd>(x: T, y: T)
    requires
        total_order::<T>(),
    ensures
        gt(x, y) == !le(x, y),
        le(x, x),
{
    assert(x.partial_cmp_spec(&y) is Some);
    assert(le(x, x) || le(x, x));
}

/// Every element of `s` before index `i < j` is at most `s[j]`.
pub open spec fn sorted<T: PartialOrd>(s: Seq<T>) -> bool {
    forall|i: int, j: int| 0 <= i < j < s.len() ==> le(#[trigger] s[i], #[trigger] s[j])
}

/// The first `z` elements of `s` are at most `t` and the others are not.
pub open spec fn zfirst<T: PartialOrd>(s: Seq<T>, t: T, z: int) -> bool {
    &&& 0 <= z <= s.len()
    &&& forall|i: int| 0 <= i < s.len() ==> (le(#[trigger] s[i], t) <==> i < z)
}

/// Some prefix of `s` holds exactly its elements at most `t`.
pub open spec fn splits<T: PartialOrd>(s: Seq<T>, t: T) -> bool {
    exists|z: int| zfirst(s, t, z)
}

/// Index of the first element of `s` above `t`, or the length of `s` when there is none.
pub open spec fn first_above<T: PartialOrd>(s: Seq<T>, t: T) -> int
    decreases s.len(),
{
    if s.len() == 0 {
        0
    } else if !le(s[0], t) {
        0
    } else {
        1 + first_above(s.drop_first(), t)
    }
}

/// In a sorted sequence the elements at most `t` come first.
pub proof fn lemma_zfirst_of_sorted<T: PartialOrd>(s: Seq<T>, t: T) -> (z: int)
    requires
        total_order::<T>(),
        sorted(s),
    ensures
        zfirst(s, t, z),
        z == first_above(s, t),
    decreases s.len(),
{
    if s.len() == 0 {
        0
    } else if !le(s[0], t) {
        assert forall|i: int| 0 <= i < s.len() implies !le(#[trigger] s[i], t) by {
            if i > 0 && le(s[i], t) {
                assert(le(s[0], s[i]));
            }
        }
        0
    } else {
        let r = s.drop_first();
        assert forall|i: int, j: int| 0 <= i < j < r.len() implies le(#[trigger] r[i], #[trigger] r[j]) by {
            assert(r[i] == s[i + 1] && r[j] == s[j + 1]);
        }
        let z1 = lemma_zfirst_of_sorted(r, t);
        assert forall|i: int| 0 <= i < s.len() implies (le(#[trigger] s[i], t) <==> i < z1 + 1) by {
            if i > 0 {
                assert(s[i] == r[i - 1]);
            }
        }
        z1 + 1
    }
}

/// A sequence whose elements at most `t` come first, for every `t`, is sorted.
pub proof fn lemma_sorted_from_zfirst<T: PartialOrd>(s: Seq<T>)
    requires
        total_order::<T>(),
        forall|t: T| #[trigger] splits(s, t),
    ensures
        sorted(s),
{
    assert forall|i: int, j: int| 0 <= i < j < s.len() implies le(#[trigger] s[i], #[trigger] s[j]) by {
        let t = s[j];
        assert(splits(s, t));
        let z = choose|z: int| zfirst(s, t, z);
        lemma_gt_not_le(t, t);
        assert(le(s[j], t));
    }
}

/// Cutting a sequence whose first `z` elements are at most `t` at `k`.
pub proof fn lemma_zfirst_split<T: PartialOrd>(s: Seq<T>, t: T, z: int, k: int)
    requires
        zfirst(s, t, z),
        0 <= k <= s.len(),
    ensures
        zfirst(s.subrange(0, k), t, if z < k { z } else { k }),
        zfirst(s.subrange(k, s.len() as int), t, if z > k { z - k } else { 0 }),
{
    assert forall|i: int| 0 <= i < k implies (le(#[trigger] s.subrange(0, k)[i], t) <==> i < (if z < k { z } else { k })) by {
        assert(s.subrange(0, k)[i] == s[i]);
    }
    assert forall|i: int| 0 <= i < s.len() - k implies (le(#[trigger] s.subrange(k, s.len() as int)[i], t) <==> i < (if z > k {
        z - k
    } else {
        0
    })) by {
        assert(s.subrange(k, s.len() as int)[i] == s[i + k]);
    }
}

/// Joining a sequence whose first `zx` elements are at most `t` with one whose first `zy`
/// are, when the first one is all at most `t` or the second one all above.
pub proof fn lemma_zfirst_concat<T: PartialOrd>(x: Seq<T>, y: Seq<T>, t: T, zx: int, zy: int)
    requires
        zfirst(x, t, zx),
        zfirst(y, t, zy),
        zx < x.len() ==> zy == 0,
    ensures
        zfirst(x + y, t, zx + zy),
{
    assert forall|i: int| 0 <= i < (x + y).len() implies (le(#[trigger] (x + y)[i], t) <==> i < zx + zy) by {
        if i >= x.len() {
            assert((x + y)[i] == y[i - x.len()]);
        }
    }
}

/// The integer types are totally ordered.
pub proof fn lemma_u64_total_order()
    ensures
        total_order::<u64>(),
{
}

} // verus!
