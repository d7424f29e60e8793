//! Oblivious shift and rotation.
use vstd::prelude::*;
use vstd::arithmetic::div_mod::{lemma_mod_breakdown, lemma_add_mod_noop, lemma_small_mod, lemma_mod_self_0, lemma_mod_bound};
use vstd::arithmetic::power2::{pow2, lemma_pow2_unfold, lemma_pow2_pos, lemma2_to64, lemma2_to64_rest};
use vstd::bits::{lemma_usize_shl_is_mul, lemma_usize_shr_is_div};
use crate::primitives::traits::{Cmov, CswapIndex, swap_spec};

verus! {

/// `s` with the region `[start, end)` reversed.
#[verifier::opaque]
pub open spec fn reverse_region_spec<T>(s: Seq<T>, start: int, end: int) -> Seq<T> {
    Seq::new(s.len(), |i: int| if start <= i < end { s[start + end - 1 - i] } else { s[i] })
}

/// `s` rotated left by `k` positions: the element at index `i` moves to `(i + n - k) % n`.
#[verifier::opaque]
pub open spec fn rotate_left_spec<T>(s: Seq<T>, k: int) -> Seq<T> {
    Seq::new(s.len(), |i: int| s[(i + k) % (s.len() as int)])
}

/// Reverses the region arr[start..end) in place with oblivious conditional swaps when
/// `enable` holds, and leaves `arr` unchanged otherwise. The addresses touched depend
/// only on `start` and `end`.
fn reverse_region<T: Cmov + Copy>(arr: &mut [T], start: usize, end: usize, enable: bool)
    requires
        start <= end <= old(arr)@.len(),
    ensures
        final(arr)@ == (if enable { reverse_region_spec(old(arr)@, start as int, end as int) } else { old(arr)@ }),
        final(arr)@.len() == old(arr)@.len(),
{
    let len = end - start;
    let half = len >> 1usize;
    proof {
        assert(len >> 1usize == len / 2) by (bit_vector);
    }
    let ghost orig = arr@;
    let mut i: usize = 0;
    while i < half
        invariant
            start <= end <= orig.len(),
            len == end - start,
            half == len / 2,
            i <= half,
            arr@.len() == orig.len(),
            forall|x: int| 0 <= x < orig.len() ==> #[trigger] arr@[x] == (
                if enable && ((start <= x < start + i) || (end - i <= x < end)) {
                    orig[start + end - 1 - x]
                } else {
                    orig[x]
                }),
        decreases half - i,
    {
        let a = start + i;
        let b = end - 1 - i;
        arr.cswap(a, b, enable);
        i += 1;
    }
    proof {
        reveal(reverse_region_spec);
        if enable {
            assert(arr@ =~= reverse_region_spec(orig, start as int, end as int));
        } else {
            assert(arr@ =~= orig);
        }
    }
}

/// Rotation and region reversal keep the length.
proof fn lemma_lengths<T>(t: Seq<T>, k: int, a: int, b: int)
    ensures
        rotate_left_spec(t, k).len() == t.len(),
        reverse_region_spec(t, a, b).len() == t.len(),
{
    reveal(reverse_region_spec);
    reveal(rotate_left_spec);
}

/// Three reversals rotate a sequence left by `s`.
proof fn lemma_three_reversals<T>(t: Seq<T>, s: int)
    requires
        0 < s < t.len(),
    ensures
        reverse_region_spec(
            reverse_region_spec(reverse_region_spec(t, 0, s), s, t.len() as int),
            0,
            t.len() as int,
        ) =~= rotate_left_spec(t, s),
{
    reveal(reverse_region_spec);
    reveal(rotate_left_spec);
    let n = t.len() as int;
    let t1 = reverse_region_spec(t, 0, s);
    let t2 = reverse_region_spec(t1, s, n);
    let t3 = reverse_region_spec(t2, 0, n);
    assert forall|i: int| 0 <= i < n implies #[trigger] t3[i] == rotate_left_spec(t, s)[i] by {
        if i + s < n {
            lemma_small_mod((i + s) as nat, n as nat);
        } else {
            lemma_small_mod((i + s - n) as nat, n as nat);
            vstd::arithmetic::div_mod::lemma_mod_sub_multiples_vanish(i + s, n);
        }
    }
}

/// Rotations compose by adding their amounts.
proof fn lemma_rotate_compose<T>(t: Seq<T>, a: int, b: int)
    requires
        t.len() > 0,
        a >= 0,
        b >= 0,
    ensures
        rotate_left_spec(rotate_left_spec(t, a), b) =~= rotate_left_spec(t, a + b),
{
    reveal(reverse_region_spec);
    reveal(rotate_left_spec);
    let n = t.len() as int;
    assert forall|i: int| 0 <= i < n implies #[trigger] rotate_left_spec(rotate_left_spec(t, a), b)[i]
        == rotate_left_spec(t, a + b)[i] by {
        lemma_mod_bound(i + b, n);
        lemma_add_mod_noop(i + b, a, n);
        lemma_add_mod_noop((i + b) % n, a, n);
        vstd::arithmetic::div_mod::lemma_mod_twice(i + b, n);
    }
}

/// One step of `rotate_left`: rotating by `s` when bit `s` of `k` is set extends the
/// rotation from `k % s` to `k % 2s`.
proof fn lemma_rotate_step<T>(orig: Seq<T>, k: int, s: int, enable: bool, before: Seq<T>, after: Seq<T>)
    requires
        orig.len() > 1,
        0 < s < orig.len(),
        k >= 0,
        before == rotate_left_spec(orig, k % s),
        enable == ((k / s) % 2 == 1),
        after == (if enable {
            reverse_region_spec(
                reverse_region_spec(reverse_region_spec(before, 0, s), s, orig.len() as int),
                0,
                orig.len() as int,
            )
        } else {
            before
        }),
    ensures
        after == rotate_left_spec(orig, k % (2 * s)),
{
    let acc = k % s;
    lemma_lengths(orig, k % s, 0, 0);
    lemma_mod_bound(k, s);
    lemma_mod_breakdown(k, s, 2);
    let q = (k / s) % 2;
    lemma_mod_bound(k / s, 2);
    assert(s * 2 == 2 * s);
    if enable {
        assert(q == 1);
        assert(s * q == s) by (nonlinear_arith) requires q == 1;
        lemma_three_reversals(before, s);
        lemma_rotate_compose(orig, acc, s);
        assert(k % (2 * s) == acc + s);
    } else {
        assert(q == 0);
        assert(s * q == 0) by (nonlinear_arith) requires q == 0;
        assert(k % (2 * s) == acc);
    }
}

proof fn lemma_bit_test(k: usize, j: usize)
    by (bit_vector)
    requires
        j < usize::BITS,
    ensures
        (((1usize << j) & k) != 0) == (((k >> j) % 2) == 1),
{
}

/// Rotating by any amount does nothing to a sequence of at most one element.
proof fn lemma_rotate_short<T>(t: Seq<T>, k: int)
    requires
        t.len() <= 1,
        k >= 0,
    ensures
        rotate_left_spec(t, k) =~= t,
{
    reveal(reverse_region_spec);
    reveal(rotate_left_spec);
}

/// Rotating by `0` or by the length does nothing.
proof fn lemma_rotate_zero<T>(t: Seq<T>, k: int)
    requires
        t.len() > 0,
        k == 0 || k == t.len(),
    ensures
        rotate_left_spec(t, k) =~= t,
{
    reveal(reverse_region_spec);
    reveal(rotate_left_spec);
    let n = t.len() as int;
    assert forall|i: int| 0 <= i < n implies #[trigger] rotate_left_spec(t, k)[i] == t[i] by {
        lemma_small_mod(i as nat, n as nat);
        if k == n {
            vstd::arithmetic::div_mod::lemma_mod_add_multiples_vanish(i, n);
        }
    }
}

/// Obliviously rotates `arr` left by `k` positions in place: the element at index `i`
/// moves to index `(i + n - k) % n`. The memory access pattern depends only on `arr.len()`.
pub fn rotate_left<T: Cmov + Copy>(arr: &mut [T], k: usize)
    requires
        old(arr)@.len() <= 1 || k <= old(arr)@.len(),
        old(arr)@.len() <= usize::MAX / 2,
    ensures
        final(arr)@ == rotate_left_spec(old(arr)@, k as int),
        final(arr)@.len() == old(arr)@.len(),
{
    let n = arr.len();
    let ghost orig = arr@;
    proof {
        lemma_lengths(orig, k as int, 0, 0);
    }
    if n <= 1 {
        proof {
            lemma_rotate_short(orig, k as int);
        }
        return;
    }
    let mut s: usize = 1;
    let ghost mut j: nat = 0;
    proof {
        lemma2_to64();
        lemma_rotate_zero(orig, 0);
        assert(k as int % 1 == 0);
        lemma_lengths(orig, 0, 0, 0);
    }
    while s < n
        invariant
            n == orig.len(),
            1 < n <= usize::MAX / 2,
            k <= n,
            s == pow2(j),
            s >= 1,
            j < usize::BITS,
            s <= 2 * n,
            arr@.len() == n,
            arr@ == rotate_left_spec(orig, k as int % s as int),
        decreases 2 * n - s,
    {
        proof {
            lemma2_to64();
            lemma_usize_shl_is_mul(1, j as usize);
            lemma_bit_test(k, j as usize);
            lemma_usize_shr_is_div(k, j as usize);
        }
        let enable = (s & k) != 0;
        let ghost before = arr@;
        reverse_region(arr, 0, s, enable);
        reverse_region(arr, s, n, enable);
        reverse_region(arr, 0, n, enable);
        proof {
            lemma_rotate_step(orig, k as int, s as int, enable, before, arr@);
            lemma_pow2_unfold(j + 1);
        }
        s = s * 2;
        proof {
            j = j + 1;
            if j >= usize::BITS {
                lemma2_to64_rest();
                vstd::arithmetic::power2::lemma_pow2_strictly_increases((usize::BITS - 1) as nat, (j - 1) as nat);
                assert(false);
            }
        }
    }
    proof {
        if k < s {
            lemma_small_mod(k as nat, s as nat);
        } else {
            lemma_mod_self_0(s as int);
            lemma_rotate_zero(orig, 0);
            lemma_rotate_zero(orig, k as int);
        }
    }
}

} // verus!
