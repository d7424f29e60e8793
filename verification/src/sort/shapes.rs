//! Shapes of boolean sequences met by the bitonic network: each element of the sequence
//! says whether an element of the array belongs before those above some threshold.
use vstd::prelude::*;

verus! {

/// `b` is true exactly on `[a, c)`.
pub open spec fn valley(b: Seq<bool>, a: int, c: int) -> bool {
    &&& 0 <= a <= c <= b.len()
    &&& forall|i: int| 0 <= i < b.len() ==> (#[trigger] b[i] <==> a <= i < c)
}

/// `b` is false exactly on `[a, c)`.
pub open spec fn hill(b: Seq<bool>, a: int, c: int) -> bool {
    &&& 0 <= a <= c <= b.len()
    &&& forall|i: int| 0 <= i < b.len() ==> (#[trigger] b[i] <==> !(a <= i < c))
}

/// `b` is a valley or a hill.
pub open spec fn bitonic(b: Seq<bool>) -> bool {
    exists|a: int, c: int| valley(b, a, c) || hill(b, a, c)
}

/// `b` is true exactly on its first `z` elements.
pub open spec fn ordered_at(b: Seq<bool>, z: int) -> bool {
    valley(b, 0, z)
}

/// `b` is true on a prefix and false on the rest.
pub open spec fn ordered(b: Seq<bool>) -> bool {
    exists|z: int| ordered_at(b, z)
}

/// `b` is all true.
pub open spec fn all_true(b: Seq<bool>) -> bool {
    forall|i: int| 0 <= i < b.len() ==> #[trigger] b[i]
}

/// `b` is all false.
pub open spec fn all_false(b: Seq<bool>) -> bool {
    forall|i: int| 0 <= i < b.len() ==> !#[trigger] b[i]
}

/// The half cleaner on `2h` positions: position `i < h` becomes `b[i] || b[i + h]` and
/// position `i + h` becomes `b[i] && b[i + h]`; only the first `m` pairs are compared.
pub open spec fn half_clean(b: Seq<bool>, h: int, m: int) -> Seq<bool> {
    Seq::new(
        b.len(),
        |i: int|
            if i < m {
                b[i] || b[i + h]
            } else if h <= i < h + m {
                b[i - h] && b[i]
            } else {
                b[i]
            },
    )
}

/// `b` is a valley.
pub open spec fn is_valley(b: Seq<bool>) -> bool {
    exists|a: int, c: int| valley(b, a, c)
}

/// The half cleaner of a bitonic sequence of even length gives two bitonic halves, the
/// first all true or the second all false.
pub proof fn lemma_half_clean(b: Seq<bool>, h: int)
    requires
        h >= 1,
        b.len() == 2 * h,
        bitonic(b),
    ensures
        bitonic(half_clean(b, h, h).subrange(0, h)),
        bitonic(half_clean(b, h, h).subrange(h, 2 * h)),
        all_true(half_clean(b, h, h).subrange(0, h)) || all_false(half_clean(b, h, h).subrange(h, 2 * h)),
{
    let (a, c) = choose|a: int, c: int| valley(b, a, c) || hill(b, a, c);
    if valley(b, a, c) {
        lemma_partial_clean(b, h, h);
    } else {
        let r = half_clean(b, h, h);
        let x = r.subrange(0, h);
        let y = r.subrange(h, 2 * h);
        assert forall|i: int| 0 <= i < h implies #[trigger] x[i] == r[i] by {}
        assert forall|i: int| 0 <= i < h implies #[trigger] y[i] == r[i + h] by {}
        if c <= h {
            assert(hill(x, 0, 0));
            assert(hill(y, a, c));
        } else if a >= h {
            assert(hill(x, 0, 0));
            assert(hill(y, a - h, c - h));
        } else if c - h > a {
            assert(hill(x, a, c - h));
            assert(hill(y, 0, h));
        } else {
            assert(hill(x, 0, 0));
            assert(valley(y, c - h, a));
        }
    }
}

/// The partial half cleaner with offset `h`, comparing the first `m = len - h <= h`
/// positions with those `h` further, turns a valley into a bitonic first part of length
/// `h` and a valley second part of length `m`, the first all true or the second all
/// false.
pub proof fn lemma_partial_clean(b: Seq<bool>, h: int, m: int)
    requires
        h >= 1,
        m >= 0,
        m <= h,
        b.len() == h + m,
        is_valley(b),
    ensures
        bitonic(half_clean(b, h, m).subrange(0, h)),
        is_valley(half_clean(b, h, m).subrange(h, h + m)),
        all_true(half_clean(b, h, m).subrange(0, h)) || all_false(half_clean(b, h, m).subrange(h, h + m)),
{
    let r = half_clean(b, h, m);
    let x = r.subrange(0, h);
    let y = r.subrange(h, h + m);
    let (a, c) = choose|a: int, c: int| valley(b, a, c);
    assert forall|i: int| 0 <= i < h implies #[trigger] x[i] == r[i] by {}
    assert forall|i: int| 0 <= i < m implies #[trigger] y[i] == r[i + h] by {}
    if c <= h {
        assert(valley(x, a, c));
        assert(valley(y, 0, 0));
    } else if a >= h {
        assert(valley(x, a - h, c - h));
        assert(valley(y, 0, 0));
    } else if c - h >= a {
        assert(valley(x, 0, h));
        assert(valley(y, a, c - h));
    } else {
        assert(hill(x, c - h, a));
        assert(valley(y, 0, 0));
    }
}

} // verus!
