//! Bitonic sorter.
use vstd::prelude::*;
use vstd::arithmetic::power2::{pow2, lemma_pow2_adds, lemma_pow2_pos};
use vstd::bits::{lemma_usize_shl_is_mul, lemma_usize_shr_is_div};
use crate::primitives::traits::{Cmov, swap_spec};
use crate::primitives::utils::{get_strictly_bigger_power_of_two, is_pow2, pow2_above, lemma_pow2_above, log2_of_pow2, lemma_usize_max_pow2};
use crate::sort::utils::{compare_and_swap, compare_and_swap_payload, same_outside, zip_spec, lemma_swap_same_outside};
use crate::sort::order::{total_order, le, lemma_gt_not_le, sorted, splits, zfirst, lemma_sorted_from_zfirst};
use crate::sort::shapes::{valley, hill, bitonic, is_valley, ordered, ordered_at, all_true, all_false, half_clean, lemma_half_clean, lemma_partial_clean};

verus! {

/// Under the order of `T`, `x` goes before the elements above `t` when sorting in the
/// direction `up`: it is at most `t` for an ascending sort, above `t` for a descending one.
pub open spec fn first<T: PartialOrd>(x: T, t: T, up: bool) -> bool {
    if up {
        le(x, t)
    } else {
        !le(x, t)
    }
}

/// For each element of `s`, whether it goes before the elements above `t`.
pub open spec fn bits<T: PartialOrd>(s: Seq<T>, t: T, up: bool) -> Seq<bool> {
    Seq::new(s.len(), |i: int| first(s[i], t, up))
}

/// Whether a compare-exchange of `x` and `y` in the direction `up` swaps them.
pub open spec fn exchanges<T: PartialOrd>(x: T, y: T, up: bool) -> bool {
    if up {
        !le(x, y)
    } else {
        le(x, y)
    }
}

/// The element a compare-exchange of `x` and `y` in the direction `up` puts first.
pub open spec fn lo<T: PartialOrd>(x: T, y: T, up: bool) -> T {
    if exchanges(x, y, up) {
        y
    } else {
        x
    }
}

/// The element a compare-exchange of `x` and `y` in the direction `up` puts second.
pub open spec fn hi<T: PartialOrd>(x: T, y: T, up: bool) -> T {
    if exchanges(x, y, up) {
        x
    } else {
        y
    }
}

/// The element of `s` at offset `w` of block `jj`, blocks of length `l` starting at `base`.
pub open spec fn elem<T>(s: Seq<T>, base: int, l: int, jj: int, w: int) -> T {
    s[base + jj * l + w]
}

/// The pair at offsets `ii` and `ii + h` of block `jj` (blocks of length `2h` from `base`)
/// of `s` is the compare-exchange of that pair of `lv`.
pub open spec fn pair_done<T: PartialOrd>(s: Seq<T>, lv: Seq<T>, base: int, h: int, jj: int, ii: int, up: bool) -> bool {
    &&& elem(s, base, 2 * h, jj, ii) == lo(elem(lv, base, 2 * h, jj, ii), elem(lv, base, 2 * h, jj, ii + h), up)
    &&& elem(s, base, 2 * h, jj, ii + h) == hi(elem(lv, base, 2 * h, jj, ii), elem(lv, base, 2 * h, jj, ii + h), up)
}

/// Offset `w` of block `jj` has been compared once the pairs of the blocks before `j` and
/// the first `i` pairs of block `j` have.
pub open spec fn touched(jj: int, w: int, j: int, i: int, h: int) -> bool {
    jj < j || (jj == j && (w < i || (h <= w < h + i)))
}

/// Element `w` of block `jj` of `b`, blocks of length `l`.
pub open spec fn blk(b: Seq<bool>, l: int, jj: int, w: int) -> bool {
    b[jj * l + w]
}

/// `b` is made of `nb` blocks of length `l`: those before block `j0` all true, those after
/// it all false, and block `j0` bitonic.
pub open spec fn blocked_at(b: Seq<bool>, l: int, nb: int, j0: int) -> bool {
    &&& l >= 1
    &&& nb >= 1
    &&& b.len() == nb * l
    &&& 0 <= j0 < nb
    &&& forall|jj: int, w: int| 0 <= jj < j0 && 0 <= w < l ==> #[trigger] blk(b, l, jj, w)
    &&& forall|jj: int, w: int| j0 < jj < nb && 0 <= w < l ==> !#[trigger] blk(b, l, jj, w)
    &&& bitonic(b.subrange(j0 * l, j0 * l + l))
}

/// `b` is made of `nb` blocks of length `l`, sorted but for one bitonic block.
pub open spec fn blocked(b: Seq<bool>, l: int, nb: int) -> bool {
    exists|j0: int| blocked_at(b, l, nb, j0)
}

/// A compare-exchange in the direction `up` puts first an element that goes before the
/// elements above `t` exactly when one of the two does, and second one exactly when both
/// do.
pub proof fn lemma_exchange_dir<T: PartialOrd>(x: T, y: T, t: T, up: bool)
    requires
        total_order::<T>(),
    ensures
        first(lo(x, y, up), t, up) == (first(x, t, up) || first(y, t, up)),
        first(hi(x, y, up), t, up) == (first(x, t, up) && first(y, t, up)),
{
    lemma_gt_not_le(x, y);
    lemma_gt_not_le(y, x);
    if le(x, y) {
        if le(y, t) {
            assert(le(x, t));
        }
    } else {
        assert(le(y, x));
        if le(x, t) {
            assert(le(y, t));
        }
    }
}

/// Offsets below the block length identify a block and an offset.
proof fn lemma_index_unique(jj: int, w: int, j: int, i: int, l: int)
    requires
        0 <= jj,
        0 <= j,
        0 <= w < l,
        0 <= i < l,
        jj * l + w == j * l + i,
    ensures
        jj == j,
        w == i,
{
    vstd::arithmetic::div_mod::lemma_fundamental_div_mod_converse(jj * l + w, l, jj, w);
    vstd::arithmetic::div_mod::lemma_fundamental_div_mod_converse(j * l + i, l, j, i);
}

/// Block `jj` of length `h` is half `jj % 2` of block `jj / 2` of length `2h`.
proof fn lemma_block_halves(jj: int, h: int)
    requires
        0 <= jj,
        h >= 1,
    ensures
        jj * h == (jj / 2) * (2 * h) + (jj % 2) * h,
        0 <= jj % 2 < 2,
        jj / 2 >= 0,
{
    assert(jj == 2 * (jj / 2) + jj % 2);
    assert(jj * h == (2 * (jj / 2) + jj % 2) * h);
    assert((2 * (jj / 2) + jj % 2) * h == (jj / 2) * (2 * h) + (jj % 2) * h) by (nonlinear_arith);
}

/// One level of the power-of-two merge: compare-exchanging the two halves of every block
/// of length `2h` of a sequence sorted but for one bitonic block leaves one sorted but for
/// one bitonic block of length `h`.
proof fn lemma_level_bits(b: Seq<bool>, b2: Seq<bool>, h: int, nb: int, j0: int)
    requires
        h >= 1,
        blocked_at(b, 2 * h, nb, j0),
        b2.len() == b.len(),
        forall|jj: int, ii: int|
            0 <= jj < nb && 0 <= ii < h ==> #[trigger] blk(b2, 2 * h, jj, ii) == (blk(b, 2 * h, jj, ii) || blk(b, 2 * h, jj, ii + h)),
        forall|jj: int, ii: int|
            0 <= jj < nb && 0 <= ii < h ==> #[trigger] blk(b2, 2 * h, jj, ii + h) == (blk(b, 2 * h, jj, ii) && blk(b, 2 * h, jj, ii + h)),
    ensures
        blocked(b2, h, 2 * nb),
{
    let base = j0 * (2 * h);
    let bb = b.subrange(base, base + 2 * h);
    let bb2 = b2.subrange(base, base + 2 * h);
    assert(base + 2 * h <= nb * (2 * h)) by (nonlinear_arith)
        requires
            0 <= j0 < nb,
            h >= 1,
            base == j0 * (2 * h),
    ;
    assert forall|w: int| 0 <= w < 2 * h implies #[trigger] bb2[w] == half_clean(bb, h, h)[w] by {
        assert(bb2[w] == b2[base + w]);
        if w < h {
            assert(blk(b2, 2 * h, j0, w) == (blk(b, 2 * h, j0, w) || blk(b, 2 * h, j0, w + h)));
        } else {
            assert(blk(b2, 2 * h, j0, (w - h) + h) == (blk(b, 2 * h, j0, w - h) && blk(b, 2 * h, j0, (w - h) + h)));
        }
    }
    assert(bb2 =~= half_clean(bb, h, h));
    lemma_half_clean(bb, h);
    let first_true = all_true(bb2.subrange(0, h));
    let j1 = if first_true { 2 * j0 + 1 } else { 2 * j0 };
    assert(b2.len() == (2 * nb) * h) by (nonlinear_arith)
        requires
            b2.len() == nb * (2 * h),
    ;
    assert forall|jj: int, w: int| 0 <= jj < j1 && 0 <= w < h implies #[trigger] blk(b2, h, jj, w) by {
        lemma_block_halves(jj, h);
        let q = jj / 2;
        let e = jj % 2;
        assert(jj * h + w == q * (2 * h) + (e * h + w));
        if q < j0 {
            if e == 0 {
                assert(blk(b2, 2 * h, q, w) == (blk(b, 2 * h, q, w) || blk(b, 2 * h, q, w + h)));
                assert(blk(b, 2 * h, q, w));
            } else {
                assert(blk(b2, 2 * h, q, w + h) == (blk(b, 2 * h, q, w) && blk(b, 2 * h, q, w + h)));
                assert(blk(b, 2 * h, q, w));
                assert(blk(b, 2 * h, q, w + h));
            }
        } else {
            assert(q == j0 && e == 0);
            assert(bb2.subrange(0, h)[w] == b2[base + w]);
        }
    }
    assert forall|jj: int, w: int| j1 < jj < 2 * nb && 0 <= w < h implies !#[trigger] blk(b2, h, jj, w) by {
        lemma_block_halves(jj, h);
        let q = jj / 2;
        let e = jj % 2;
        assert(jj * h + w == q * (2 * h) + (e * h + w));
        if q > j0 {
            if e == 0 {
                assert(blk(b2, 2 * h, q, w) == (blk(b, 2 * h, q, w) || blk(b, 2 * h, q, w + h)));
                assert(!blk(b, 2 * h, q, w));
                assert(!blk(b, 2 * h, q, w + h));
            } else {
                assert(blk(b2, 2 * h, q, w + h) == (blk(b, 2 * h, q, w) && blk(b, 2 * h, q, w + h)));
                assert(!blk(b, 2 * h, q, w));
            }
        } else {
            assert(q == j0 && e == 1);
            assert(bb2.subrange(h, 2 * h)[w] == b2[base + h + w]);
        }
    }
    assert(j1 * h == base + (if first_true { h } else { 0 })) by (nonlinear_arith)
        requires
            j1 == (if first_true { 2 * j0 + 1 } else { 2 * j0 }),
            base == j0 * (2 * h),
    ;
    if first_true {
        assert(b2.subrange(j1 * h, j1 * h + h) =~= bb2.subrange(h, 2 * h));
    } else {
        assert(b2.subrange(j1 * h, j1 * h + h) =~= bb2.subrange(0, h));
    }
    assert(blocked_at(b2, h, 2 * nb, j1));
}

/// Blocks of one element, sorted but for one, are sorted.
proof fn lemma_blocked_ordered(b: Seq<bool>)
    requires
        blocked(b, 1, b.len() as int),
    ensures
        ordered(b),
{
    let j0 = choose|j0: int| blocked_at(b, 1, b.len() as int, j0);
    assert forall|i: int| 0 <= i < j0 implies #[trigger] b[i] by {
        assert(blk(b, 1, i, 0));
    }
    assert forall|i: int| j0 < i < b.len() implies !#[trigger] b[i] by {
        assert(!blk(b, 1, i, 0));
    }
    let z = if b[j0] { j0 + 1 } else { j0 };
    assert(ordered_at(b, z));
}

/// A bitonic sequence is one bitonic block.
proof fn lemma_bitonic_blocked(b: Seq<bool>)
    requires
        bitonic(b),
        b.len() >= 1,
    ensures
        blocked(b, b.len() as int, 1),
{
    assert(b.subrange(0, b.len() as int) =~= b);
    assert(blocked_at(b, b.len() as int, 1, 0));
}


/// Within one level of the power-of-two merge on blocks of length `2h` from `base`: the
/// pairs compared so far are the compare-exchanges of those of `lv`, and the other
/// elements of the region are those of `lv`.
pub open spec fn level_inv<T: PartialOrd>(s: Seq<T>, lv: Seq<T>, base: int, h: int, nb: int, j: int, i: int, up: bool) -> bool {
    &&& s.len() == lv.len()
    &&& forall|jj: int, ii: int|
        0 <= jj < nb && 0 <= ii < h && touched(jj, ii, j, i, h) ==> #[trigger] pair_done(s, lv, base, h, jj, ii, up)
    &&& forall|jj: int, w: int|
        0 <= jj < nb && 0 <= w < 2 * h && !touched(jj, w, j, i, h) ==> #[trigger] elem(s, base, 2 * h, jj, w) == elem(
            lv,
            base,
            2 * h,
            jj,
            w,
        )
}

/// One compare-exchange of the power-of-two merge keeps `level_inv`.
proof fn lemma_level_step<T: PartialOrd>(s: Seq<T>, s2: Seq<T>, lv: Seq<T>, base: int, h: int, nb: int, j: int, i: int, up: bool)
    requires
        base >= 0,
        h >= 1,
        0 <= j < nb,
        0 <= i < h,
        base + nb * (2 * h) <= s.len(),
        level_inv(s, lv, base, h, nb, j, i, up),
        s2 == swap_spec(
            s,
            base + j * (2 * h) + i,
            base + j * (2 * h) + i + h,
            exchanges(s[base + j * (2 * h) + i], s[base + j * (2 * h) + i + h], up),
        ),
    ensures
        level_inv(s2, lv, base, h, nb, j, i + 1, up),
{
    let left = base + j * (2 * h) + i;
    let right = left + h;
    assert(0 <= j * (2 * h) && j * (2 * h) + 2 * h <= nb * (2 * h)) by (nonlinear_arith)
        requires
            0 <= j < nb,
            h >= 1,
    ;
    assert(!touched(j, i, j, i, h) && !touched(j, i + h, j, i, h));
    assert(elem(s, base, 2 * h, j, i) == elem(lv, base, 2 * h, j, i));
    assert(elem(s, base, 2 * h, j, i + h) == elem(lv, base, 2 * h, j, i + h));
    assert(pair_done(s2, lv, base, h, j, i, up));
    assert forall|jj: int, ii: int|
        0 <= jj < nb && 0 <= ii < h && touched(jj, ii, j, i + 1, h) implies #[trigger] pair_done(s2, lv, base, h, jj, ii, up) by {
        if !(jj == j && ii == i) {
            assert(pair_done(s, lv, base, h, jj, ii, up));
            assert(0 <= jj * (2 * h) && jj * (2 * h) + 2 * h <= nb * (2 * h)) by (nonlinear_arith)
                requires
                    0 <= jj < nb,
                    h >= 1,
            ;
            if jj * (2 * h) + ii == j * (2 * h) + i || jj * (2 * h) + ii == j * (2 * h) + i + h {
                if jj * (2 * h) + ii == j * (2 * h) + i {
                    lemma_index_unique(jj, ii, j, i, 2 * h);
                } else {
                    lemma_index_unique(jj, ii, j, i + h, 2 * h);
                }
            }
            if jj * (2 * h) + ii + h == j * (2 * h) + i || jj * (2 * h) + ii + h == j * (2 * h) + i + h {
                if jj * (2 * h) + ii + h == j * (2 * h) + i {
                    lemma_index_unique(jj, ii + h, j, i, 2 * h);
                } else {
                    lemma_index_unique(jj, ii + h, j, i + h, 2 * h);
                }
            }
        }
    }
    assert forall|jj: int, w: int|
        0 <= jj < nb && 0 <= w < 2 * h && !touched(jj, w, j, i + 1, h) implies #[trigger] elem(s2, base, 2 * h, jj, w) == elem(
        lv,
        base,
        2 * h,
        jj,
        w,
    ) by {
        assert(elem(s, base, 2 * h, jj, w) == elem(lv, base, 2 * h, jj, w));
        assert(0 <= jj * (2 * h) && jj * (2 * h) + 2 * h <= nb * (2 * h)) by (nonlinear_arith)
            requires
                0 <= jj < nb,
                h >= 1,
        ;
        if jj * (2 * h) + w == j * (2 * h) + i {
            lemma_index_unique(jj, w, j, i, 2 * h);
        }
        if jj * (2 * h) + w == j * (2 * h) + i + h {
            lemma_index_unique(jj, w, j, i + h, 2 * h);
        }
    }
}

/// Finishing block `j` of a level is starting block `j + 1`.
proof fn lemma_level_next_block<T: PartialOrd>(s: Seq<T>, lv: Seq<T>, base: int, h: int, nb: int, j: int, up: bool)
    requires
        h >= 1,
        level_inv(s, lv, base, h, nb, j, h, up),
    ensures
        level_inv(s, lv, base, h, nb, j + 1, 0, up),
{
    assert forall|jj: int, ii: int|
        0 <= jj < nb && 0 <= ii < h && touched(jj, ii, j + 1, 0, h) implies #[trigger] pair_done(s, lv, base, h, jj, ii, up) by {
        assert(touched(jj, ii, j, h, h));
    }
    assert forall|jj: int, w: int|
        0 <= jj < nb && 0 <= w < 2 * h && !touched(jj, w, j + 1, 0, h) implies #[trigger] elem(s, base, 2 * h, jj, w) == elem(
        lv,
        base,
        2 * h,
        jj,
        w,
    ) by {
        assert(!touched(jj, w, j, h, h));
    }
}

/// After a whole level, the bits of each pair are the `||` and the `&&` of those of `lv`.
proof fn lemma_pairs_to_bits<T: PartialOrd>(s: Seq<T>, lv: Seq<T>, base: int, h: int, nb: int, t: T, up: bool)
    requires
        total_order::<T>(),
        base >= 0,
        h >= 1,
        nb >= 1,
        base + nb * (2 * h) <= s.len(),
        level_inv(s, lv, base, h, nb, nb, 0, up),
    ensures
        ({
            let b = bits(lv.subrange(base, base + nb * (2 * h)), t, up);
            let b2 = bits(s.subrange(base, base + nb * (2 * h)), t, up);
            &&& b2.len() == b.len()
            &&& forall|jj: int, ii: int|
                0 <= jj < nb && 0 <= ii < h ==> #[trigger] blk(b2, 2 * h, jj, ii) == (blk(b, 2 * h, jj, ii) || blk(b, 2 * h, jj, ii + h))
            &&& forall|jj: int, ii: int|
                0 <= jj < nb && 0 <= ii < h ==> #[trigger] blk(b2, 2 * h, jj, ii + h) == (blk(b, 2 * h, jj, ii) && blk(b, 2 * h, jj, ii + h))
        }),
{
    let b = bits(lv.subrange(base, base + nb * (2 * h)), t, up);
    let b2 = bits(s.subrange(base, base + nb * (2 * h)), t, up);
    assert forall|jj: int, ii: int| 0 <= jj < nb && 0 <= ii < h implies #[trigger] blk(b2, 2 * h, jj, ii) == (blk(b, 2 * h, jj, ii) || blk(
        b,
        2 * h,
        jj,
        ii + h,
    )) && blk(b2, 2 * h, jj, ii + h) == (blk(b, 2 * h, jj, ii) && blk(b, 2 * h, jj, ii + h)) by {
        lemma_pair_bits(s, lv, base, h, nb, t, up, jj, ii);
    }
    assert forall|jj: int, ii: int| 0 <= jj < nb && 0 <= ii < h implies #[trigger] blk(b2, 2 * h, jj, ii + h) == (blk(b, 2 * h, jj, ii)
        && blk(b, 2 * h, jj, ii + h)) by {
        lemma_pair_bits(s, lv, base, h, nb, t, up, jj, ii);
    }
}

/// The bits of one compared pair.
proof fn lemma_pair_bits<T: PartialOrd>(s: Seq<T>, lv: Seq<T>, base: int, h: int, nb: int, t: T, up: bool, jj: int, ii: int)
    requires
        total_order::<T>(),
        base >= 0,
        h >= 1,
        nb >= 1,
        base + nb * (2 * h) <= s.len(),
        level_inv(s, lv, base, h, nb, nb, 0, up),
        0 <= jj < nb,
        0 <= ii < h,
    ensures
        ({
            let b = bits(lv.subrange(base, base + nb * (2 * h)), t, up);
            let b2 = bits(s.subrange(base, base + nb * (2 * h)), t, up);
            &&& blk(b2, 2 * h, jj, ii) == (blk(b, 2 * h, jj, ii) || blk(b, 2 * h, jj, ii + h))
            &&& blk(b2, 2 * h, jj, ii + h) == (blk(b, 2 * h, jj, ii) && blk(b, 2 * h, jj, ii + h))
        }),
{
    {
        assert(touched(jj, ii, nb, 0, h));
        assert(pair_done(s, lv, base, h, jj, ii, up));
        assert(0 <= jj * (2 * h) && jj * (2 * h) + 2 * h <= nb * (2 * h)) by (nonlinear_arith)
            requires
                0 <= jj < nb,
                h >= 1,
        ;
        lemma_exchange_dir(elem(lv, base, 2 * h, jj, ii), elem(lv, base, 2 * h, jj, ii + h), t, up);
    }
}


/// Equal multisets and equal elements outside `[lo, hi)` give equal multisets on `[lo, hi)`.
pub proof fn lemma_region_multiset<T>(a: Seq<T>, b: Seq<T>, lo: int, hi: int)
    requires
        0 <= lo <= hi <= a.len(),
        a.to_multiset() == b.to_multiset(),
        same_outside(a, b, lo, hi),
    ensures
        a.subrange(lo, hi).to_multiset() == b.subrange(lo, hi).to_multiset(),
{
    broadcast use vstd::multiset::group_multiset_axioms;
    let n = a.len() as int;
    assert(a =~= a.subrange(0, lo) + a.subrange(lo, hi) + a.subrange(hi, n));
    assert(b =~= b.subrange(0, lo) + b.subrange(lo, hi) + b.subrange(hi, n));
    assert(a.subrange(0, lo) =~= b.subrange(0, lo));
    assert(a.subrange(hi, n) =~= b.subrange(hi, n));
    vstd::seq_lib::lemma_multiset_commutative(a.subrange(0, lo) + a.subrange(lo, hi), a.subrange(hi, n));
    vstd::seq_lib::lemma_multiset_commutative(a.subrange(0, lo), a.subrange(lo, hi));
    vstd::seq_lib::lemma_multiset_commutative(b.subrange(0, lo) + b.subrange(lo, hi), b.subrange(hi, n));
    vstd::seq_lib::lemma_multiset_commutative(b.subrange(0, lo), b.subrange(lo, hi));
    let a1 = a.subrange(0, lo);
    let a2 = a.subrange(lo, hi);
    let a3 = a.subrange(hi, n);
    let b1 = b.subrange(0, lo);
    let b2 = b.subrange(lo, hi);
    let b3 = b.subrange(hi, n);
    assert forall|v: T| #[trigger] a2.to_multiset().count(v) == b2.to_multiset().count(v) by {
        assert(a.to_multiset() == (a1 + a2 + a3).to_multiset());
        assert(b.to_multiset() == (b1 + b2 + b3).to_multiset());
        assert((a1 + a2 + a3).to_multiset().count(v) == (a1 + a2).to_multiset().count(v) + a3.to_multiset().count(v));
        assert((a1 + a2).to_multiset().count(v) == a1.to_multiset().count(v) + a2.to_multiset().count(v));
        assert((b1 + b2 + b3).to_multiset().count(v) == (b1 + b2).to_multiset().count(v) + b3.to_multiset().count(v));
        assert((b1 + b2).to_multiset().count(v) == b1.to_multiset().count(v) + b2.to_multiset().count(v));
        assert(a.to_multiset().count(v) == b.to_multiset().count(v));
    }
    assert(a.subrange(lo, hi).to_multiset() =~= b.subrange(lo, hi).to_multiset());
}

/// A permutation of elements that all go first (or all go last) for the threshold `t` has
/// the same property.
pub proof fn lemma_uniform_permuted<T: PartialOrd>(a: Seq<T>, b: Seq<T>, t: T, up: bool)
    requires
        a.to_multiset() == b.to_multiset(),
    ensures
        all_true(bits(a, t, up)) ==> all_true(bits(b, t, up)),
        all_false(bits(a, t, up)) ==> all_false(bits(b, t, up)),
{
    broadcast use vstd::seq_lib::group_to_multiset_ensures;
    assert forall|i: int| 0 <= i < b.len() implies #[trigger] a.contains(b[i]) by {
        assert(b.to_multiset().count(b[i]) > 0);
        assert(a.contains(b[i]));
    }
    if all_true(bits(a, t, up)) {
        assert forall|i: int| 0 <= i < b.len() implies #[trigger] bits(b, t, up)[i] by {
            assert(a.contains(b[i]));
            let j = choose|j: int| 0 <= j < a.len() && #[trigger] a[j] == b[i];
            assert(bits(a, t, up)[j]);
        }
    }
    if all_false(bits(a, t, up)) {
        assert forall|i: int| 0 <= i < b.len() implies !#[trigger] bits(b, t, up)[i] by {
            assert(a.contains(b[i]));
            let j = choose|j: int| 0 <= j < a.len() && #[trigger] a[j] == b[i];
            assert(!bits(a, t, up)[j]);
        }
    }
}

/// Within the merge on `[base, base + len)` with offset `h`: the first `i` pairs have been
/// compare-exchanged, the other elements are those of `o`.
pub open spec fn clean_inv<T: PartialOrd>(s: Seq<T>, o: Seq<T>, base: int, h: int, len: int, i: int, up: bool) -> bool {
    &&& s.len() == o.len()
    &&& forall|q: int| 0 <= q < i ==> #[trigger] pair_done(s, o, base, h, 0, q, up)
    &&& forall|w: int| 0 <= w < len && !touched(0, w, 0, i, h) ==> #[trigger] elem(s, base, 2 * h, 0, w) == elem(o, base, 2 * h, 0, w)
}

/// One compare-exchange of the merge keeps `clean_inv`.
proof fn lemma_clean_step<T: PartialOrd>(s: Seq<T>, s2: Seq<T>, o: Seq<T>, base: int, h: int, len: int, i: int, up: bool)
    requires
        base >= 0,
        h >= 1,
        h < len <= 2 * h,
        0 <= i < len - h,
        base + len <= s.len(),
        clean_inv(s, o, base, h, len, i, up),
        s2 == swap_spec(s, base + i, base + i + h, exchanges(s[base + i], s[base + i + h], up)),
    ensures
        clean_inv(s2, o, base, h, len, i + 1, up),
{
    assert(!touched(0, i, 0, i, h) && !touched(0, i + h, 0, i, h));
    assert(elem(s, base, 2 * h, 0, i) == elem(o, base, 2 * h, 0, i));
    assert(elem(s, base, 2 * h, 0, i + h) == elem(o, base, 2 * h, 0, i + h));
    assert(pair_done(s2, o, base, h, 0, i, up));
    assert forall|q: int| 0 <= q < i + 1 implies #[trigger] pair_done(s2, o, base, h, 0, q, up) by {
        if q < i {
            assert(pair_done(s, o, base, h, 0, q, up));
        }
    }
    assert forall|w: int| 0 <= w < len && !touched(0, w, 0, i + 1, h) implies #[trigger] elem(s2, base, 2 * h, 0, w) == elem(
        o,
        base,
        2 * h,
        0,
        w,
    ) by {
        assert(elem(s, base, 2 * h, 0, w) == elem(o, base, 2 * h, 0, w));
    }
}

/// After the compare-exchanges of the merge, the bits are the partial half cleaner of
/// those before.
proof fn lemma_clean_bits<T: PartialOrd>(s: Seq<T>, o: Seq<T>, base: int, h: int, len: int, t: T, up: bool)
    requires
        total_order::<T>(),
        base >= 0,
        h >= 1,
        h < len <= 2 * h,
        base + len <= s.len(),
        clean_inv(s, o, base, h, len, len - h, up),
    ensures
        bits(s.subrange(base, base + len), t, up) == half_clean(bits(o.subrange(base, base + len), t, up), h, len - h),
{
    let b = bits(o.subrange(base, base + len), t, up);
    let b2 = bits(s.subrange(base, base + len), t, up);
    assert forall|w: int| 0 <= w < len implies #[trigger] b2[w] == half_clean(b, h, len - h)[w] by {
        if w < len - h {
            assert(pair_done(s, o, base, h, 0, w, up));
            lemma_exchange_dir(elem(o, base, 2 * h, 0, w), elem(o, base, 2 * h, 0, w + h), t, up);
        } else if h <= w {
            assert(pair_done(s, o, base, h, 0, w - h, up));
            lemma_exchange_dir(elem(o, base, 2 * h, 0, w - h), elem(o, base, 2 * h, 0, w), t, up);
        } else {
            assert(!touched(0, w, 0, len - h, h));
            assert(elem(s, base, 2 * h, 0, w) == elem(o, base, 2 * h, 0, w));
        }
    }
    assert(b2 =~= half_clean(b, h, len - h));
}

/// A sequence of one element is ordered.
proof fn lemma_single_ordered(b: Seq<bool>)
    requires
        b.len() == 1,
    ensures
        ordered(b),
        bitonic(b),
        is_valley(b),
{
    let z = if b[0] { 1int } else { 0int };
    assert(ordered_at(b, z));
    assert(valley(b, 0, z));
}

/// An ordered sequence followed by another, the first all true or the second all false,
/// is ordered.
proof fn lemma_ordered_concat(x: Seq<bool>, y: Seq<bool>)
    requires
        ordered(x),
        ordered(y),
        all_true(x) || all_false(y),
    ensures
        ordered(x + y),
{
    let zx = choose|z: int| ordered_at(x, z);
    let zy = choose|z: int| ordered_at(y, z);
    if all_true(x) {
        if zx < x.len() {
            assert(x[zx]);
        }
        assert forall|i: int| 0 <= i < (x + y).len() implies (#[trigger] (x + y)[i] <==> 0 <= i < x.len() + zy) by {
            if i >= x.len() {
                assert((x + y)[i] == y[i - x.len()]);
            }
        }
        assert(ordered_at(x + y, x.len() + zy));
    } else {
        if zy > 0 {
            assert(y[0]);
        }
        assert forall|i: int| 0 <= i < (x + y).len() implies (#[trigger] (x + y)[i] <==> 0 <= i < zx) by {
            if i >= x.len() {
                assert((x + y)[i] == y[i - x.len()]);
            }
        }
        assert(ordered_at(x + y, zx));
    }
}

/// Facts about the exponents used by the power-of-two merge.
proof fn lemma_merge_pow2_sizes(l2: nat, sz: nat)
    requires
        sz < l2,
    ensures
        pow2(sz) * pow2((l2 - sz - 1) as nat) * 2 == pow2(l2),
        pow2(l2) / pow2(sz + 1) == pow2((l2 - sz - 1) as nat),
        pow2(sz) >= 1,
        pow2((l2 - sz - 1) as nat) >= 1,
{
    lemma_pow2_adds(sz, (l2 - sz - 1) as nat);
    lemma_pow2_adds((l2 - 1) as nat, 1);
    lemma_pow2_adds(sz + 1, (l2 - sz - 1) as nat);
    lemma_pow2_adds(sz, 1);
    vstd::arithmetic::power2::lemma2_to64();
    lemma_pow2_pos(sz);
    lemma_pow2_pos((l2 - sz - 1) as nat);
    lemma_pow2_pos(sz + 1);
    vstd::arithmetic::div_mod::lemma_div_by_multiple(pow2((l2 - sz - 1) as nat) as int, pow2(sz + 1) as int);
    assert(pow2(sz) * pow2((l2 - sz - 1) as nat) * 2 == pow2(sz) * 2 * pow2((l2 - sz - 1) as nat)) by (nonlinear_arith);
    assert(pow2((l2 - sz - 1) as nat) * pow2(sz + 1) == pow2(sz + 1) * pow2((l2 - sz - 1) as nat)) by (nonlinear_arith);
}

/// Bitonic merge of the power-of-two region `arr[start..start + size)`. Under a total
/// order, a region whose elements going first in the direction `up` form a valley or a hill,
/// for every threshold, ends up sorted in that direction.
fn bitonic_merge_pow2<T: Ord + Cmov + Copy>(arr: &mut [T], start: usize, size: usize, up: bool)
    requires
        size > 1,
        is_pow2(size as int),
        start + size <= old(arr)@.len(),
        old(arr)@.len() <= usize::MAX / 2,
    ensures
        final(arr)@.to_multiset() == old(arr)@.to_multiset(),
        same_outside(old(arr)@, final(arr)@, start as int, start + size),
        total_order::<T>() ==> forall|t: T|
            bitonic(#[trigger] bits(old(arr)@.subrange(start as int, start + size), t, up)) ==> ordered(
                bits(final(arr)@.subrange(start as int, start + size), t, up),
            ),
{
    let ghost orig = arr@;
    let l2 = log2_of_pow2(size);
    proof {
        assert forall|t: T| bitonic(#[trigger] bits(orig.subrange(start as int, start + size), t, up)) implies blocked(
            bits(arr@.subrange(start as int, start + size), t, up),
            pow2((l2 - 0) as nat) as int,
            pow2(0) as int,
        ) by {
            vstd::arithmetic::power2::lemma2_to64();
            lemma_bitonic_blocked(bits(orig.subrange(start as int, start + size), t, up));
        }
    }
    let mut sz: usize = 0;
    while sz < l2
        invariant
            start + size <= arr@.len(),
            arr@.len() <= usize::MAX / 2,
            pow2(l2 as nat) == size,
            l2 < usize::BITS,
            sz <= l2,
            arr@.to_multiset() == orig.to_multiset(),
            same_outside(orig, arr@, start as int, start + size),
            total_order::<T>() ==> forall|t: T|
                bitonic(#[trigger] bits(orig.subrange(start as int, start + size), t, up)) ==> blocked(
                    bits(arr@.subrange(start as int, start + size), t, up),
                    pow2((l2 - sz) as nat) as int,
                    pow2(sz as nat) as int,
                ),
        decreases l2 - sz,
    {
        proof {
            lemma_merge_pow2_sizes(l2 as nat, sz as nat);
            lemma_usize_max_pow2();
            vstd::arithmetic::power2::lemma_pow2_strictly_increases(sz as nat, l2 as nat);
            lemma_usize_shl_is_mul(1, sz);
            lemma_usize_shr_is_div(size, (sz + 1) as usize);
            vstd::arithmetic::power2::lemma_pow2_unfold((l2 - sz) as nat);
            vstd::arithmetic::power2::lemma_pow2_unfold((sz + 1) as nat);
        }
        let blocks = 1usize << sz;
        let s2 = size >> (sz + 1);
        let ghost lv = arr@;
        proof {
            assert(blocks == pow2(sz as nat));
            assert(s2 == pow2((l2 - sz - 1) as nat));
            assert(level_inv(arr@, lv, start as int, s2 as int, blocks as int, 0, 0, up));
        }
        let mut j: usize = 0;
        while j < blocks
            invariant
                start + size <= arr@.len(),
                arr@.len() <= usize::MAX / 2,
                blocks * s2 * 2 == size,
                s2 >= 1,
                j <= blocks,
                arr@.to_multiset() == orig.to_multiset(),
                same_outside(orig, arr@, start as int, start + size),
                total_order::<T>() ==> level_inv(arr@, lv, start as int, s2 as int, blocks as int, j as int, 0, up),
            decreases blocks - j,
        {
            let mut i: usize = 0;
            while i < s2
                invariant
                    start + size <= arr@.len(),
                    arr@.len() <= usize::MAX / 2,
                    blocks * s2 * 2 == size,
                    s2 >= 1,
                    j < blocks,
                    i <= s2,
                    arr@.to_multiset() == orig.to_multiset(),
                    same_outside(orig, arr@, start as int, start + size),
                    total_order::<T>() ==> level_inv(arr@, lv, start as int, s2 as int, blocks as int, j as int, i as int, up),
                decreases s2 - i,
            {
                proof {
                    assert(2 * j * s2 + i + s2 < size && 2 * j <= size && 2 * j * s2 <= size) by (nonlinear_arith)
                        requires
                            blocks * s2 * 2 == size,
                            j < blocks,
                            i < s2,
                    ;
                    assert(2 * j * s2 == j * (2 * s2)) by (nonlinear_arith);
                    assert(blocks * (2 * s2) == size) by (nonlinear_arith)
                        requires
                            blocks * s2 * 2 == size,
                    ;
                }
                let left = start + 2 * j * s2 + i;
                let right = left + s2;
                let ghost before = arr@;
                compare_and_swap(arr, left, right, up);
                proof {
                    lemma_swap_same_outside(orig, before, arr@, left as int, right as int, start as int, start + size);
                    if total_order::<T>() {
                        lemma_level_step(before, arr@, lv, start as int, s2 as int, blocks as int, j as int, i as int, up);
                    }
                }
                i += 1;
            }
            proof {
                if total_order::<T>() {
                    lemma_level_next_block(arr@, lv, start as int, s2 as int, blocks as int, j as int, up);
                }
            }
            j += 1;
        }
        proof {
            if total_order::<T>() {
                assert(blocks * (2 * s2) == size) by (nonlinear_arith)
                    requires
                        blocks * s2 * 2 == size,
                ;
                assert(pow2((l2 - sz) as nat) == 2 * s2);
                assert forall|t: T| bitonic(#[trigger] bits(orig.subrange(start as int, start + size), t, up)) implies blocked(
                    bits(arr@.subrange(start as int, start + size), t, up),
                    pow2((l2 - (sz + 1)) as nat) as int,
                    pow2((sz + 1) as nat) as int,
                ) by {
                    let b = bits(lv.subrange(start as int, start + size), t, up);
                    let b2 = bits(arr@.subrange(start as int, start + size), t, up);
                    assert(blocked(b, (2 * s2) as int, blocks as int));
                    let j0 = choose|j0: int| #[trigger] blocked_at(b, (2 * s2) as int, blocks as int, j0);
                    lemma_pairs_to_bits(arr@, lv, start as int, s2 as int, blocks as int, t, up);
                    lemma_level_bits(b, b2, s2 as int, blocks as int, j0);
                }
            }
        }
        sz += 1;
    }
    proof {
        if total_order::<T>() {
            vstd::arithmetic::power2::lemma2_to64();
            assert forall|t: T| bitonic(#[trigger] bits(orig.subrange(start as int, start + size), t, up)) implies ordered(
                bits(arr@.subrange(start as int, start + size), t, up),
            ) by {
                lemma_blocked_ordered(bits(arr@.subrange(start as int, start + size), t, up));
            }
        }
    }
}

/// The two parts of the merge, merged after the compare-exchanges, form a sorted region.
proof fn lemma_merge_result<T: PartialOrd>(orig: Seq<T>, cleaned: Seq<T>, after_first: Seq<T>, f: Seq<T>, st: int, h: int, n: int, up: bool)
    requires
        total_order::<T>(),
        st >= 0,
        1 <= h < n,
        n <= 2 * h,
        st + n <= orig.len(),
        clean_inv(cleaned, orig, st, h, n, n - h, up),
        cleaned.len() == orig.len(),
        after_first.to_multiset() == cleaned.to_multiset(),
        same_outside(cleaned, after_first, st, st + h),
        h > 1 ==> forall|t: T|
            bitonic(#[trigger] bits(cleaned.subrange(st, st + h), t, up)) ==> ordered(bits(after_first.subrange(st, st + h), t, up)),
        f.to_multiset() == after_first.to_multiset(),
        same_outside(after_first, f, st + h, st + n),
        n - h > 1 ==> forall|t: T|
            is_valley(#[trigger] bits(after_first.subrange(st + h, st + n), t, up)) ==> ordered(bits(f.subrange(st + h, st + n), t, up)),
    ensures
        forall|t: T| is_valley(#[trigger] bits(orig.subrange(st, st + n), t, up)) ==> ordered(bits(f.subrange(st, st + n), t, up)),
{
    assert forall|t: T| is_valley(#[trigger] bits(orig.subrange(st, st + n), t, up)) implies ordered(bits(f.subrange(st, st + n), t, up)) by {
        lemma_clean_bits(cleaned, orig, st, h, n, t, up);
        let bc = bits(cleaned.subrange(st, st + n), t, up);
        lemma_partial_clean(bits(orig.subrange(st, st + n), t, up), h, n - h);
        assert(bc.subrange(0, h) =~= bits(cleaned.subrange(st, st + h), t, up));
        assert(bc.subrange(h, n) =~= bits(cleaned.subrange(st + h, st + n), t, up));
        assert(after_first.subrange(st + h, st + n) =~= cleaned.subrange(st + h, st + n));
        assert(f.subrange(st, st + h) =~= after_first.subrange(st, st + h));
        if h == 1 {
            lemma_single_ordered(bits(f.subrange(st, st + h), t, up));
        } else {
            assert(ordered(bits(after_first.subrange(st, st + h), t, up)));
        }
        if n - h == 1 {
            lemma_single_ordered(bits(f.subrange(st + h, st + n), t, up));
        } else {
            assert(ordered(bits(f.subrange(st + h, st + n), t, up)));
        }
        lemma_region_multiset(cleaned, after_first, st, st + h);
        lemma_region_multiset(after_first, f, st + h, st + n);
        lemma_uniform_permuted(cleaned.subrange(st, st + h), after_first.subrange(st, st + h), t, up);
        lemma_uniform_permuted(after_first.subrange(st + h, st + n), f.subrange(st + h, st + n), t, up);
        lemma_ordered_concat(bits(f.subrange(st, st + h), t, up), bits(f.subrange(st + h, st + n), t, up));
        assert(bits(f.subrange(st, st + h), t, up) + bits(f.subrange(st + h, st + n), t, up) =~= bits(f.subrange(st, st + n), t, up));
    }
}

/// Bitonic merge of the region `arr[start..start + size)` of any size. Under a total order,
/// a region whose elements going first in the direction `up` form a valley, for every
/// threshold, ends up sorted in that direction.
fn bitonic_merge<T: Ord + Cmov + Copy>(arr: &mut [T], start: usize, size: usize, up: bool)
    requires
        size > 1,
        start + size <= old(arr)@.len(),
        old(arr)@.len() <= usize::MAX / 2,
    ensures
        final(arr)@.to_multiset() == old(arr)@.to_multiset(),
        same_outside(old(arr)@, final(arr)@, start as int, start + size),
        total_order::<T>() ==> forall|t: T|
            is_valley(#[trigger] bits(old(arr)@.subrange(start as int, start + size), t, up)) ==> ordered(
                bits(final(arr)@.subrange(start as int, start + size), t, up),
            ),
    decreases size,
{
    let ghost orig = arr@;
    let p2 = get_strictly_bigger_power_of_two(size - 1);
    proof {
        lemma_pow2_above((size - 1) as int);
        lemma_usize_max_pow2();
    }
    let s2: usize = p2 / 2;
    let mut i: usize = 0;
    while i < size - s2
        invariant
            start + size <= arr@.len(),
            arr@.len() <= usize::MAX / 2,
            1 <= s2 < size,
            size <= 2 * s2,
            i <= size - s2,
            arr@.to_multiset() == orig.to_multiset(),
            same_outside(orig, arr@, start as int, start + size),
            total_order::<T>() ==> clean_inv(arr@, orig, start as int, s2 as int, size as int, i as int, up),
        decreases size - s2 - i,
    {
        let left = start + i;
        let right = left + s2;
        let ghost before = arr@;
        compare_and_swap(arr, left, right, up);
        proof {
            lemma_swap_same_outside(orig, before, arr@, left as int, right as int, start as int, start + size);
            if total_order::<T>() {
                lemma_clean_step(before, arr@, orig, start as int, s2 as int, size as int, i as int, up);
            }
        }
        i += 1;
    }
    let ghost cleaned = arr@;
    if s2 > 1 {
        proof {
            assert(is_pow2(p2 as int));
            assert(is_pow2(s2 as int));
        }
        bitonic_merge_pow2(arr, start, s2, up);
    }
    let ghost after_first = arr@;
    if size - s2 > 1 {
        bitonic_merge(arr, start + s2, size - s2, up);
    }
    proof {
        if total_order::<T>() {
            lemma_merge_result(orig, cleaned, after_first, arr@, start as int, s2 as int, size as int, up);
        }
    }
}

/// Sorts the region `arr[start..start + size)` in the direction `up` with a bitonic network.
/// Under a total order, the region ends up sorted in that direction: for every threshold,
/// the elements going first come first.
fn bitonic_sort_inner<T: Ord + Cmov + Copy>(arr: &mut [T], start: usize, size: usize, up: bool)
    requires
        size > 1,
        start + size <= old(arr)@.len(),
        old(arr)@.len() <= usize::MAX / 2,
    ensures
        final(arr)@.to_multiset() == old(arr)@.to_multiset(),
        same_outside(old(arr)@, final(arr)@, start as int, start + size),
        total_order::<T>() ==> forall|t: T| #[trigger] ordered(bits(final(arr)@.subrange(start as int, start + size), t, up)),
    decreases size,
{
    let ghost orig = arr@;
    let half_size = size / 2;
    let ghost after1 = arr@;
    if size - half_size > 1 {
        bitonic_sort_inner(arr, start + half_size, size - half_size, up);
        proof {
            after1 = arr@;
        }
        if half_size > 1 {
            bitonic_sort_inner(arr, start, half_size, !up);
        }
    }
    let ghost sorted_halves = arr@;
    proof {
        if total_order::<T>() {
            assert forall|t: T| is_valley(#[trigger] bits(sorted_halves.subrange(start as int, start + size), t, up)) by {
                if size - half_size > 1 {
                    assert(ordered(bits(after1.subrange(start + half_size, start + size), t, up)));
                    assert(sorted_halves.subrange(start + half_size, start + size) =~= after1.subrange(start + half_size, start + size));
                }
                if half_size > 1 {
                    assert(ordered(bits(sorted_halves.subrange(start as int, start + half_size), t, !up)));
                }
                lemma_halves_valley(orig, sorted_halves, start as int, half_size as int, size as int, t, up);
            }
        }
    }
    bitonic_merge(arr, start, size, up);
    proof {
        if total_order::<T>() {
            assert forall|t: T| #[trigger] ordered(bits(arr@.subrange(start as int, start + size), t, up)) by {
                assert(is_valley(bits(sorted_halves.subrange(start as int, start + size), t, up)));
            }
        }
    }
}

/// After sorting the second half of a region in the direction `up` and the first half in
/// the other direction, the elements going first form a valley.
proof fn lemma_halves_valley<T: PartialOrd>(o: Seq<T>, s: Seq<T>, st: int, half: int, n: int, t: T, up: bool)
    requires
        total_order::<T>(),
        0 <= st,
        1 <= half,
        n - half >= 1,
        half <= n - half,
        st + n <= s.len(),
        n - half > 1 ==> ordered(bits(s.subrange(st + half, st + n), t, up)),
        half > 1 ==> ordered(bits(s.subrange(st, st + half), t, !up)),
    ensures
        is_valley(bits(s.subrange(st, st + n), t, up)),
{
    let b = bits(s.subrange(st, st + n), t, up);
    let x = bits(s.subrange(st, st + half), t, up);
    let y = bits(s.subrange(st + half, st + n), t, up);
    assert(b =~= x + y);
    // the first half is false on a prefix and true on the rest
    let p: int = if half > 1 {
        let xr = bits(s.subrange(st, st + half), t, !up);
        let z = choose|z: int| ordered_at(xr, z);
        assert forall|i: int| 0 <= i < half implies (#[trigger] x[i] <==> z <= i < half) by {
            assert(xr[i] == !x[i]);
        }
        z
    } else {
        if x[0] { 0 } else { 1 }
    };
    assert(valley(x, p, half));
    // the second half is true on a prefix and false on the rest
    let q: int = if n - half > 1 {
        choose|z: int| ordered_at(y, z)
    } else {
        if y[0] { 1 } else { 0 }
    };
    assert(valley(y, 0, q));
    assert forall|i: int| 0 <= i < n implies (#[trigger] b[i] <==> p <= i < half + q) by {
        if i >= half {
            assert(b[i] == y[i - half]);
        } else {
            assert(b[i] == x[i]);
        }
    }
    assert(valley(b, p, half + q));
}

/// Bitonic merge of the power-of-two region `arr[start..start + size)`, moving the payload
/// alongside. Under a total
/// order, a region whose elements going first in the direction `up` form a valley or a hill,
/// for every threshold, ends up sorted in that direction.
fn bitonic_payload_merge_pow2<T: Ord + Cmov + Copy, P: Cmov + Copy>(arr: &mut [T], payload: &mut [P], start: usize, size: usize, up: bool)
    requires
        size > 1,
        is_pow2(size as int),
        start + size <= old(arr)@.len(),
        old(arr)@.len() <= usize::MAX / 2,
        old(payload)@.len() == old(arr)@.len(),
    ensures
        final(arr)@.to_multiset() == old(arr)@.to_multiset(),
        zip_spec(final(arr)@, final(payload)@).to_multiset() == zip_spec(old(arr)@, old(payload)@).to_multiset(),
        final(payload)@.to_multiset() == old(payload)@.to_multiset(),
        same_outside(old(payload)@, final(payload)@, start as int, start + size),
        same_outside(old(arr)@, final(arr)@, start as int, start + size),
        total_order::<T>() ==> forall|t: T|
            bitonic(#[trigger] bits(old(arr)@.subrange(start as int, start + size), t, up)) ==> ordered(
                bits(final(arr)@.subrange(start as int, start + size), t, up),
            ),
{
    let ghost orig = arr@;
    let ghost orig_p = payload@;
    let l2 = log2_of_pow2(size);
    proof {
        assert forall|t: T| bitonic(#[trigger] bits(orig.subrange(start as int, start + size), t, up)) implies blocked(
            bits(arr@.subrange(start as int, start + size), t, up),
            pow2((l2 - 0) as nat) as int,
            pow2(0) as int,
        ) by {
            vstd::arithmetic::power2::lemma2_to64();
            lemma_bitonic_blocked(bits(orig.subrange(start as int, start + size), t, up));
        }
    }
    let mut sz: usize = 0;
    while sz < l2
        invariant
            start + size <= arr@.len(),
            arr@.len() <= usize::MAX / 2,
            pow2(l2 as nat) == size,
            l2 < usize::BITS,
            sz <= l2,
            arr@.to_multiset() == orig.to_multiset(),
            zip_spec(arr@, payload@).to_multiset() == zip_spec(orig, orig_p).to_multiset(),
            payload@.to_multiset() == orig_p.to_multiset(),
            payload@.len() == arr@.len(),
            same_outside(orig_p, payload@, start as int, start + size),
            same_outside(orig, arr@, start as int, start + size),
            total_order::<T>() ==> forall|t: T|
                bitonic(#[trigger] bits(orig.subrange(start as int, start + size), t, up)) ==> blocked(
                    bits(arr@.subrange(start as int, start + size), t, up),
                    pow2((l2 - sz) as nat) as int,
                    pow2(sz as nat) as int,
                ),
        decreases l2 - sz,
    {
        proof {
            lemma_merge_pow2_sizes(l2 as nat, sz as nat);
            lemma_usize_max_pow2();
            vstd::arithmetic::power2::lemma_pow2_strictly_increases(sz as nat, l2 as nat);
            lemma_usize_shl_is_mul(1, sz);
            lemma_usize_shr_is_div(size, (sz + 1) as usize);
            vstd::arithmetic::power2::lemma_pow2_unfold((l2 - sz) as nat);
            vstd::arithmetic::power2::lemma_pow2_unfold((sz + 1) as nat);
        }
        let blocks = 1usize << sz;
        let s2 = size >> (sz + 1);
        let ghost lv = arr@;
        proof {
            assert(blocks == pow2(sz as nat));
            assert(s2 == pow2((l2 - sz - 1) as nat));
            assert(level_inv(arr@, lv, start as int, s2 as int, blocks as int, 0, 0, up));
        }
        let mut j: usize = 0;
        while j < blocks
            invariant
                start + size <= arr@.len(),
                arr@.len() <= usize::MAX / 2,
                blocks * s2 * 2 == size,
                s2 >= 1,
                j <= blocks,
                arr@.to_multiset() == orig.to_multiset(),
                zip_spec(arr@, payload@).to_multiset() == zip_spec(orig, orig_p).to_multiset(),
                payload@.to_multiset() == orig_p.to_multiset(),
                payload@.len() == arr@.len(),
                same_outside(orig_p, payload@, start as int, start + size),
                same_outside(orig, arr@, start as int, start + size),
                total_order::<T>() ==> level_inv(arr@, lv, start as int, s2 as int, blocks as int, j as int, 0, up),
            decreases blocks - j,
        {
            let mut i: usize = 0;
            while i < s2
                invariant
                    start + size <= arr@.len(),
                    arr@.len() <= usize::MAX / 2,
                    blocks * s2 * 2 == size,
                    s2 >= 1,
                    j < blocks,
                    i <= s2,
                    arr@.to_multiset() == orig.to_multiset(),
                    zip_spec(arr@, payload@).to_multiset() == zip_spec(orig, orig_p).to_multiset(),
                    payload@.to_multiset() == orig_p.to_multiset(),
                    payload@.len() == arr@.len(),
                    same_outside(orig_p, payload@, start as int, start + size),
                    same_outside(orig, arr@, start as int, start + size),
                    total_order::<T>() ==> level_inv(arr@, lv, start as int, s2 as int, blocks as int, j as int, i as int, up),
                decreases s2 - i,
            {
                proof {
                    assert(2 * j * s2 + i + s2 < size && 2 * j <= size && 2 * j * s2 <= size) by (nonlinear_arith)
                        requires
                            blocks * s2 * 2 == size,
                            j < blocks,
                            i < s2,
                    ;
                    assert(2 * j * s2 == j * (2 * s2)) by (nonlinear_arith);
                    assert(blocks * (2 * s2) == size) by (nonlinear_arith)
                        requires
                            blocks * s2 * 2 == size,
                    ;
                }
                let left = start + 2 * j * s2 + i;
                let right = left + s2;
                let ghost before = arr@;
                let ghost before_p = payload@;
        let ghost before_p = payload@;
                compare_and_swap_payload(arr, payload, left, right, up);
                proof {
                    lemma_swap_same_outside(orig, before, arr@, left as int, right as int, start as int, start + size);
                    lemma_swap_same_outside(orig_p, before_p, payload@, left as int, right as int, start as int, start + size);
                    if total_order::<T>() {
                        lemma_level_step(before, arr@, lv, start as int, s2 as int, blocks as int, j as int, i as int, up);
                    }
                }
                i += 1;
            }
            proof {
                if total_order::<T>() {
                    lemma_level_next_block(arr@, lv, start as int, s2 as int, blocks as int, j as int, up);
                }
            }
            j += 1;
        }
        proof {
            if total_order::<T>() {
                assert(blocks * (2 * s2) == size) by (nonlinear_arith)
                    requires
                        blocks * s2 * 2 == size,
                ;
                assert(pow2((l2 - sz) as nat) == 2 * s2);
                assert forall|t: T| bitonic(#[trigger] bits(orig.subrange(start as int, start + size), t, up)) implies blocked(
                    bits(arr@.subrange(start as int, start + size), t, up),
                    pow2((l2 - (sz + 1)) as nat) as int,
                    pow2((sz + 1) as nat) as int,
                ) by {
                    let b = bits(lv.subrange(start as int, start + size), t, up);
                    let b2 = bits(arr@.subrange(start as int, start + size), t, up);
                    assert(blocked(b, (2 * s2) as int, blocks as int));
                    let j0 = choose|j0: int| #[trigger] blocked_at(b, (2 * s2) as int, blocks as int, j0);
                    lemma_pairs_to_bits(arr@, lv, start as int, s2 as int, blocks as int, t, up);
                    lemma_level_bits(b, b2, s2 as int, blocks as int, j0);
                }
            }
        }
        sz += 1;
    }
    proof {
        if total_order::<T>() {
            vstd::arithmetic::power2::lemma2_to64();
            assert forall|t: T| bitonic(#[trigger] bits(orig.subrange(start as int, start + size), t, up)) implies ordered(
                bits(arr@.subrange(start as int, start + size), t, up),
            ) by {
                lemma_blocked_ordered(bits(arr@.subrange(start as int, start + size), t, up));
            }
        }
    }
}

/// Bitonic merge of the region `arr[start..start + size)` of any size, moving the payload
/// alongside. Under a total order,
/// a region whose elements going first in the direction `up` form a valley, for every
/// threshold, ends up sorted in that direction.
fn bitonic_payload_merge<T: Ord + Cmov + Copy, P: Cmov + Copy>(arr: &mut [T], payload: &mut [P], start: usize, size: usize, up: bool)
    requires
        size > 1,
        start + size <= old(arr)@.len(),
        old(arr)@.len() <= usize::MAX / 2,
        old(payload)@.len() == old(arr)@.len(),
    ensures
        final(arr)@.to_multiset() == old(arr)@.to_multiset(),
        zip_spec(final(arr)@, final(payload)@).to_multiset() == zip_spec(old(arr)@, old(payload)@).to_multiset(),
        final(payload)@.to_multiset() == old(payload)@.to_multiset(),
        same_outside(old(payload)@, final(payload)@, start as int, start + size),
        same_outside(old(arr)@, final(arr)@, start as int, start + size),
        total_order::<T>() ==> forall|t: T|
            is_valley(#[trigger] bits(old(arr)@.subrange(start as int, start + size), t, up)) ==> ordered(
                bits(final(arr)@.subrange(start as int, start + size), t, up),
            ),
    decreases size,
{
    let ghost orig = arr@;
    let ghost orig_p = payload@;
    let p2 = get_strictly_bigger_power_of_two(size - 1);
    proof {
        lemma_pow2_above((size - 1) as int);
        lemma_usize_max_pow2();
    }
    let s2: usize = p2 / 2;
    let mut i: usize = 0;
    while i < size - s2
        invariant
            start + size <= arr@.len(),
            arr@.len() <= usize::MAX / 2,
            1 <= s2 < size,
            size <= 2 * s2,
            i <= size - s2,
            arr@.to_multiset() == orig.to_multiset(),
            zip_spec(arr@, payload@).to_multiset() == zip_spec(orig, orig_p).to_multiset(),
            payload@.to_multiset() == orig_p.to_multiset(),
            payload@.len() == arr@.len(),
            same_outside(orig_p, payload@, start as int, start + size),
            same_outside(orig, arr@, start as int, start + size),
            total_order::<T>() ==> clean_inv(arr@, orig, start as int, s2 as int, size as int, i as int, up),
        decreases size - s2 - i,
    {
        let left = start + i;
        let right = left + s2;
        let ghost before = arr@;
        let ghost before_p = payload@;
        compare_and_swap_payload(arr, payload, left, right, up);
        proof {
            lemma_swap_same_outside(orig, before, arr@, left as int, right as int, start as int, start + size);
                    lemma_swap_same_outside(orig_p, before_p, payload@, left as int, right as int, start as int, start + size);
            if total_order::<T>() {
                lemma_clean_step(before, arr@, orig, start as int, s2 as int, size as int, i as int, up);
            }
        }
        i += 1;
    }
    let ghost cleaned = arr@;
    if s2 > 1 {
        proof {
            assert(is_pow2(p2 as int));
            assert(is_pow2(s2 as int));
        }
        bitonic_payload_merge_pow2(arr, payload, start, s2, up);
    }
    let ghost after_first = arr@;
    if size - s2 > 1 {
        bitonic_payload_merge(arr, payload, start + s2, size - s2, up);
    }
    proof {
        if total_order::<T>() {
            lemma_merge_result(orig, cleaned, after_first, arr@, start as int, s2 as int, size as int, up);
        }
    }
}

/// Sorts the region `arr[start..start + size)` in the direction `up` with a bitonic network,
/// moving the payload alongside.
/// Under a total order, the region ends up sorted in that direction: for every threshold,
/// the elements going first come first.
fn bitonic_payload_sort_inner<T: Ord + Cmov + Copy, P: Cmov + Copy>(arr: &mut [T], payload: &mut [P], start: usize, size: usize, up: bool)
    requires
        size > 1,
        start + size <= old(arr)@.len(),
        old(arr)@.len() <= usize::MAX / 2,
        old(payload)@.len() == old(arr)@.len(),
    ensures
        final(arr)@.to_multiset() == old(arr)@.to_multiset(),
        zip_spec(final(arr)@, final(payload)@).to_multiset() == zip_spec(old(arr)@, old(payload)@).to_multiset(),
        final(payload)@.to_multiset() == old(payload)@.to_multiset(),
        same_outside(old(payload)@, final(payload)@, start as int, start + size),
        same_outside(old(arr)@, final(arr)@, start as int, start + size),
        total_order::<T>() ==> forall|t: T| #[trigger] ordered(bits(final(arr)@.subrange(start as int, start + size), t, up)),
    decreases size,
{
    let ghost orig = arr@;
    let ghost orig_p = payload@;
    let half_size = size / 2;
    let ghost after1 = arr@;
    if size - half_size > 1 {
        bitonic_payload_sort_inner(arr, payload, start + half_size, size - half_size, up);
        proof {
            after1 = arr@;
        }
        if half_size > 1 {
            bitonic_payload_sort_inner(arr, payload, start, half_size, !up);
        }
    }
    let ghost sorted_halves = arr@;
    proof {
        if total_order::<T>() {
            assert forall|t: T| is_valley(#[trigger] bits(sorted_halves.subrange(start as int, start + size), t, up)) by {
                if size - half_size > 1 {
                    assert(ordered(bits(after1.subrange(start + half_size, start + size), t, up)));
                    assert(sorted_halves.subrange(start + half_size, start + size) =~= after1.subrange(start + half_size, start + size));
                }
                if half_size > 1 {
                    assert(ordered(bits(sorted_halves.subrange(start as int, start + half_size), t, !up)));
                }
                lemma_halves_valley(orig, sorted_halves, start as int, half_size as int, size as int, t, up);
            }
        }
    }
    bitonic_payload_merge(arr, payload, start, size, up);
    proof {
        if total_order::<T>() {
            assert forall|t: T| #[trigger] ordered(bits(arr@.subrange(start as int, start + size), t, up)) by {
                assert(is_valley(bits(sorted_halves.subrange(start as int, start + size), t, up)));
            }
        }
    }
}

/// Ascending order for every threshold is sortedness.
proof fn lemma_ordered_sorted<T: PartialOrd>(s: Seq<T>)
    requires
        total_order::<T>(),
        forall|t: T| #[trigger] ordered(bits(s, t, true)),
    ensures
        sorted(s),
{
    assert forall|t: T| #[trigger] splits(s, t) by {
        assert(ordered(bits(s, t, true)));
        let z = choose|z: int| ordered_at(bits(s, t, true), z);
        assert forall|i: int| 0 <= i < s.len() implies (le(#[trigger] s[i], t) <==> i < z) by {
            assert(bits(s, t, true)[i] == le(s[i], t));
        }
        assert(zfirst(s, t, z));
    }
    lemma_sorted_from_zfirst(s);
}

/// Sorts the given array obliviously with the bitonic sorting network. The elements are
/// permuted; the memory access pattern depends only on `arr.len()`. Under a total order
/// the result is sorted.
pub fn bitonic_sort<T: Ord + Cmov + Copy>(arr: &mut [T])
    requires
        old(arr)@.len() <= usize::MAX / 2,
    ensures
        final(arr)@.len() == old(arr)@.len(),
        final(arr)@.to_multiset() == old(arr)@.to_multiset(),
        total_order::<T>() ==> sorted(final(arr)@),
{
    if arr.len() <= 1 {
        proof {
            if total_order::<T>() {
                assert(sorted(arr@));
            }
        }
        return;
    }
    let n = arr.len();
    bitonic_sort_inner(arr, 0, n, true);
    proof {
        if total_order::<T>() {
            assert(arr@.subrange(0, n as int) =~= arr@);
            lemma_ordered_sorted(arr@);
        }
    }
}

/// Sorts `arr` obliviously with the bitonic sorting network and applies the same
/// rearrangement to `payload`: the pairs `(arr[i], payload[i])` are permuted. The memory
/// access pattern depends only on `arr.len()`.
pub fn bitonic_payload_sort<T: Ord + Cmov + Copy, P: Cmov + Copy>(arr: &mut [T], payload: &mut [P])
    requires
        old(arr)@.len() <= 1 || old(arr)@.len() == old(payload)@.len(),
        old(arr)@.len() <= usize::MAX / 2,
    ensures
        final(arr)@.len() == old(arr)@.len(),
        final(payload)@.len() == old(payload)@.len(),
        old(arr)@.len() <= 1 ==> final(arr)@ == old(arr)@ && final(payload)@ == old(payload)@,
        zip_spec(final(arr)@, final(payload)@).to_multiset() == zip_spec(old(arr)@, old(payload)@).to_multiset(),
        final(arr)@.to_multiset() == old(arr)@.to_multiset(),
        final(payload)@.to_multiset() == old(payload)@.to_multiset(),
        total_order::<T>() ==> sorted(final(arr)@),
{
    if arr.len() <= 1 {
        proof {
            if total_order::<T>() {
                assert(sorted(arr@));
            }
        }
        return;
    }
    let n = arr.len();
    bitonic_payload_sort_inner(arr, payload, 0, n, true);
    proof {
        if total_order::<T>() {
            assert(arr@.subrange(0, n as int) =~= arr@);
            lemma_ordered_sorted(arr@);
        }
    }
}

} // verus!
