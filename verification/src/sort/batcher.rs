//! Batcher's odd-even merge sorter.
use vstd::prelude::*;
use crate::primitives::traits::Cmov;
use crate::primitives::utils::min;
use crate::sort::utils::{cswap_if_greater, same_outside, lemma_swap_same_outside};
use crate::sort::order::{le, total_order, sorted};
use crate::sort::odd_even::{blocks_sorted, merged_upto, in_pass, pass_apply, pass_offset, lemma_pass_apply_none, lemma_pass_apply_skip, lemma_pass_apply_step, lemma_pass_positions, lemma_pass_first, lemma_pass_merge, lemma_phase_end, pass_with, lemma_pass_with_ext, lemma_pass_with_upto, lemma_pass_with_step, lemma_chunk};
use vstd::arithmetic::power2::{pow2, lemma2_to64, lemma_pow2_unfold, lemma_pow2_adds, lemma_pow2_strictly_increases};

verus! {

/// For a power of two `m = 2^e`, setting the low `e` bits of two numbers gives equal
/// results exactly when they lie in the same block of `m`.
proof fn lemma_or_mask(x: usize, y: usize, e: usize, mask: usize)
    requires
        e < usize::BITS,
        mask + 1 == pow2(e as nat),
    ensures
        ((x | mask) == (y | mask)) == (x as int / (pow2(e as nat) as int) == y as int / (pow2(e as nat) as int)),
{
    crate::primitives::utils::lemma_usize_max_pow2();
    vstd::arithmetic::power2::lemma_pow2_pos(e as nat);
    if e + 1 < usize::BITS {
        lemma_pow2_strictly_increases(e as nat, usize::BITS as nat);
    }
    assert(1 * pow2(e as nat) <= usize::MAX) by {
        if (e as nat) < (usize::BITS as nat) {
            lemma_pow2_strictly_increases(e as nat, usize::BITS as nat);
        }
    }
    vstd::bits::lemma_usize_shl_is_mul(1, e);
    assert(((x | mask) == (y | mask)) == ((x >> e) == (y >> e))) by (bit_vector)
        requires
            mask + 1 == (1usize << e),
            e < usize::BITS,
    ;
    vstd::bits::lemma_usize_shr_is_div(x, e);
    vstd::bits::lemma_usize_shr_is_div(y, e);
}

/// For powers of two `k <= p`, masking `k` with `p - 1` gives `k % p`.
proof fn lemma_and_mask(k: usize, p: usize, pe: nat)
    requires
        p == pow2(pe),
        p <= usize::MAX / 4,
    ensures
        pe < usize::BITS,
        k & ((p - 1) as usize) == k % p,
{
    crate::primitives::utils::lemma_usize_max_pow2();
    vstd::arithmetic::power2::lemma_pow2_pos(pe);
    if pe >= usize::BITS {
        if pe > usize::BITS {
            lemma_pow2_strictly_increases(usize::BITS as nat, pe);
        }
        assert(false);
    }
    vstd::bits::lemma_usize_low_bits_mask_is_mod(k, pe);
    assert(vstd::bits::low_bits_mask(pe) == p - 1);
}

/// Sorts `arr` with Batcher's odd-even merge network, in the transformed loop form of
/// <https://ieeexplore.ieee.org/document/8478515>. The elements are permuted; the access
/// pattern depends only on `arr.len()`. It compare-exchanges the same pairs as
/// `batcher_sort_paper`, so it sorts as well.
#[verifier::spinoff_prover]
#[verifier::rlimit(40)]
fn batcher_sort_untrusted_but_faster<T: Ord + Cmov + Copy>(arr: &mut [T])
    requires
        old(arr)@.len() <= usize::MAX / 4,
    ensures
        final(arr)@.len() == old(arr)@.len(),
        final(arr)@.to_multiset() == old(arr)@.to_multiset(),
        total_order::<T>() ==> sorted(final(arr)@),
{
    let ghost orig = arr@;
    let ghost tot = total_order::<T>();
    let n = arr.len();
    let mut p: usize = 1;
    let ghost mut pe: nat = 0;
    proof {
        lemma2_to64();
    }
    while p < n
        invariant
            n == arr@.len(),
            n <= usize::MAX / 4,
            1 <= p <= 2 * n + 1,
            p == pow2(pe),
            arr@.to_multiset() == orig.to_multiset(),
            tot == total_order::<T>(),
            tot ==> blocks_sorted(arr@, n as int, p as int),
        decreases 2 * n + 1 - p,
    {
        let ghost start = arr@;
        let mut k = p;
        let ghost mut ke: nat = pe;
        while k > 0
            invariant
                n == arr@.len(),
                n <= usize::MAX / 4,
                1 <= p < n,
                k <= p,
                p == pow2(pe),
                k > 0 ==> k == pow2(ke) && ke <= pe,
                arr@.to_multiset() == orig.to_multiset(),
                tot == total_order::<T>(),
                start.len() == n,
                tot ==> blocks_sorted(start, n as int, p as int),
                k == p ==> arr@ == start,
                tot && 0 < k < p ==> forall|t: T| #[trigger] merged_upto(arr@, start, n as int, p as int, 2 * k, t),
                tot && k == 0 ==> forall|t: T| #[trigger] merged_upto(arr@, start, n as int, p as int, 1, t),
            decreases k,
        {
            proof {
                if ke < pe {
                    lemma_pow2_strictly_increases(ke, pe);
                    lemma_pow2_adds((ke + 1) as nat, (pe - ke - 1) as nat);
                    lemma_pow2_unfold((ke + 1) as nat);
                    let a = pow2((ke + 1) as nat) as int;
                    let b = pow2((pe - ke - 1) as nat) as int;
                    assert((ke + 1) as nat + (pe - ke - 1) as nat == pe);
                    assert(a == 2 * k);
                    assert(a * b == p);
                    assert(b * (2 * k) == p) by (nonlinear_arith)
                        requires
                            a * b == p,
                            a == 2 * k,
                    ;
                    vstd::arithmetic::div_mod::lemma_mod_multiples_basic(b, 2 * k);
                    vstd::arithmetic::div_mod::lemma_fundamental_div_mod_converse(k as int, p as int, 0, k as int);
                } else {
                    assert(k == p);
                    vstd::arithmetic::div_mod::lemma_fundamental_div_mod_converse(k as int, p as int, 1, 0);
                }
                lemma_and_mask(k, p, pe);
            }
            let ghost s0 = arr@;
            let mut j = k & (p - 1);
            proof {
                assert(k & ((p - 1) as usize) <= k) by (bit_vector);
                if k == p {
                    vstd::arithmetic::div_mod::lemma_fundamental_div_mod_converse(0, 2 * k, 0, 0);
                } else {
                    vstd::arithmetic::div_mod::lemma_fundamental_div_mod_converse(k as int, 2 * k, 0, k as int);
                }
                assert(j == pass_offset(p as int, k as int));
                lemma_pow2_unfold(pe + 1);
                assert(pe + 1 < usize::BITS) by {
                    crate::primitives::utils::lemma_usize_max_pow2();
                    if pe + 1 >= usize::BITS {
                        if pe + 1 > usize::BITS {
                            lemma_pow2_strictly_increases(usize::BITS as nat, pe + 1);
                        }
                    }
                }
                if tot {
                    lemma_pass_apply_none(s0, n as int, p as int, k as int);
                    assert forall|x: int| 0 <= x < j implies !#[trigger] in_pass(n as int, p as int, k as int, x) by {
                        if k != p {
                            vstd::arithmetic::div_mod::lemma_fundamental_div_mod_converse(x, 2 * k, 0, x);
                        }
                    }
                    lemma_pass_apply_skip(s0, n as int, p as int, k as int, 0, j as int);
                }
            }
            while j < n - k
                invariant
                    n == arr@.len(),
                    n <= usize::MAX / 4,
                    1 <= k <= p < n,
                    k == p || (k < p && (p as int) % (2 * (k as int)) == 0),
                    2 * p == pow2(pe + 1),
                    pe + 1 < usize::BITS,
                    j <= 2 * n,
                    (j as int) % (2 * (k as int)) == pass_offset(p as int, k as int),
                    arr@.to_multiset() == orig.to_multiset(),
                    tot == total_order::<T>(),
                    tot ==> arr@ == pass_apply(s0, n as int, p as int, k as int, j as int),
                    s0.len() == n,
                decreases 2 * n - j,
            {
                proof {
                    lemma_or_mask(j, (j + k) as usize, (pe + 1) as usize, (2 * p - 1) as usize);
                }
                let ghost bound: int = if k < n - j - k { k as int } else { (n - j - k) as int };
                if (j | (2 * p - 1)) == ((j + k) | (2 * p - 1)) {
                    let mut i = min(k, n - j - k);
                    proof {
                        if tot {
                            lemma_pass_with_upto(s0, n as int, p as int, k as int, j as int);
                            lemma_pass_with_ext(
                                s0,
                                n as int,
                                p as int,
                                k as int,
                                |x: int| x < j,
                                |x: int| x < j || (j + i <= x < j + bound),
                            );
                        }
                    }
                    while i > 0
                        invariant
                            n == arr@.len(),
                            1 <= k <= p < n,
                            k == p || (k < p && (p as int) % (2 * (k as int)) == 0),
                            j + k < n,
                            (j as int) % (2 * (k as int)) == pass_offset(p as int, k as int),
                            j as int / (2 * (p as int)) == (j + k) as int / (2 * (p as int)),
                            bound == (if k < n - j - k { k as int } else { (n - j - k) as int }),
                            0 <= i <= bound,
                            arr@.to_multiset() == orig.to_multiset(),
                            tot == total_order::<T>(),
                            tot ==> arr@ == pass_with(s0, n as int, p as int, k as int, |x: int| x < j || (j + i <= x < j + bound)),
                            s0.len() == n,
                        decreases i,
                    {
                        i -= 1;
                        let ghost before = arr@;
                        cswap_if_greater(arr, j + i, j + i + k);
                        proof {
                            if tot {
                                let x = (j + i) as int;
                                let d = |z: int| z < j || (j + i + 1 <= z < j + bound);
                                lemma_chunk(n as int, p as int, k as int, j as int, i as int);
                                lemma_pass_positions(n as int, p as int, k as int, j as int, i as int);
                                lemma_pass_with_step(s0, n as int, p as int, k as int, d, x);
                                assert(arr@ =~= pass_with(s0, n as int, p as int, k as int, |z: int| d(z) || z == x));
                                lemma_pass_with_ext(
                                    s0,
                                    n as int,
                                    p as int,
                                    k as int,
                                    |z: int| d(z) || z == x,
                                    |z: int| z < j || (j + i <= z < j + bound),
                                );
                            }
                        }
                    }
                    proof {
                        if tot {
                            lemma_pass_with_ext(
                                s0,
                                n as int,
                                p as int,
                                k as int,
                                |x: int| x < j || (j + 0 <= x < j + bound),
                                |x: int| x < j + bound,
                            );
                            lemma_pass_with_upto(s0, n as int, p as int, k as int, j + bound);
                        }
                    }
                } else {
                    proof {
                        if tot {
                            assert forall|x: int| j <= x < j + bound implies !#[trigger] in_pass(n as int, p as int, k as int, x) by {
                                lemma_chunk(n as int, p as int, k as int, j as int, x - j);
                            }
                            lemma_pass_apply_skip(s0, n as int, p as int, k as int, j as int, j + bound);
                        }
                    }
                }
                proof {
                    if tot {
                        assert forall|x: int| j + bound <= x < j + 2 * k implies !#[trigger] in_pass(n as int, p as int, k as int, x) by {
                            lemma_pass_positions(n as int, p as int, k as int, j as int, x - j);
                        }
                        lemma_pass_apply_skip(s0, n as int, p as int, k as int, j + bound, j + 2 * k);
                    }
                    vstd::arithmetic::div_mod::lemma_mod_add_multiples_vanish(j as int, 2 * k);
                }
                j += 2 * k;
            }
            proof {
                if tot {
                    if j < n {
                        lemma_pass_apply_skip(s0, n as int, p as int, k as int, j as int, n as int);
                    } else {
                        lemma_pass_apply_skip(s0, n as int, p as int, k as int, n as int, j as int);
                    }
                    assert(arr@ == pass_apply(s0, n as int, p as int, k as int, n as int));
                    if k == p {
                        assert forall|t: T| #[trigger] merged_upto(arr@, start, n as int, p as int, k as int, t) by {
                            lemma_pass_first(s0, n as int, p as int, t);
                        }
                    } else {
                        let q2 = (p as int) / (2 * (k as int));
                        vstd::arithmetic::div_mod::lemma_fundamental_div_mod(p as int, 2 * (k as int));
                        assert(p >= 2 * k) by (nonlinear_arith)
                            requires
                                p == (2 * k) * q2,
                                p > 0,
                                k >= 1,
                        ;
                        assert forall|t: T| #[trigger] merged_upto(arr@, start, n as int, p as int, k as int, t) by {
                            assert(merged_upto(s0, start, n as int, p as int, 2 * k, t));
                            lemma_pass_merge(s0, start, n as int, p as int, k as int, t);
                        }
                    }
                }
                if ke > 0 {
                    lemma_pow2_unfold(ke);
                } else {
                    lemma2_to64();
                }
            }
            k /= 2;
            proof {
                if ke > 0 {
                    ke = (ke - 1) as nat;
                }
            }
        }
        proof {
            if tot {
                lemma_phase_end(arr@, start, n as int, p as int);
            }
            lemma_pow2_unfold(pe + 1);
            pe = pe + 1;
        }
        p *= 2;
    }
    proof {
        if tot {
            assert forall|x: int, y: int| 0 <= x < y < arr@.len() implies le(#[trigger] arr@[x], #[trigger] arr@[y]) by {
                vstd::arithmetic::div_mod::lemma_fundamental_div_mod_converse(x, p as int, 0, x);
                vstd::arithmetic::div_mod::lemma_fundamental_div_mod_converse(y, p as int, 0, y);
            }
        }
    }
}

/// Sorts `arr` with Batcher's odd-even merge sorting network, in the loop form of the
/// paper that introduced it. The elements are permuted; the access pattern depends only on
/// `arr.len()`.
#[verifier::spinoff_prover]
#[verifier::rlimit(40)]
pub fn batcher_sort_paper<T: Ord + Cmov + Copy>(arr: &mut [T])
    requires
        old(arr)@.len() <= usize::MAX / 4,
    ensures
        final(arr)@.len() == old(arr)@.len(),
        final(arr)@.to_multiset() == old(arr)@.to_multiset(),
        total_order::<T>() ==> sorted(final(arr)@),
{
    let ghost orig = arr@;
    let ghost tot = total_order::<T>();
    let n = arr.len();
    let mut p: usize = 1;
    let ghost mut pe: nat = 0;
    proof {
        lemma2_to64();
    }
    while p < n
        invariant
            n == arr@.len(),
            n <= usize::MAX / 4,
            1 <= p <= 2 * n + 1,
            p == pow2(pe),
            arr@.to_multiset() == orig.to_multiset(),
            tot == total_order::<T>(),
            tot ==> blocks_sorted(arr@, n as int, p as int),
        decreases 2 * n + 1 - p,
    {
        let ghost start = arr@;
        let mut k = p;
        let ghost mut ke: nat = pe;
        while k > 0
            invariant
                n == arr@.len(),
                n <= usize::MAX / 4,
                1 <= p < n,
                k <= p,
                p == pow2(pe),
                k > 0 ==> k == pow2(ke) && ke <= pe,
                arr@.to_multiset() == orig.to_multiset(),
                tot == total_order::<T>(),
                start.len() == n,
                tot ==> blocks_sorted(start, n as int, p as int),
                k == p ==> arr@ == start,
                tot && 0 < k < p ==> forall|t: T| #[trigger] merged_upto(arr@, start, n as int, p as int, 2 * k, t),
                tot && k == 0 ==> forall|t: T| #[trigger] merged_upto(arr@, start, n as int, p as int, 1, t),
            decreases k,
        {
            proof {
                if ke < pe {
                    lemma_pow2_strictly_increases(ke, pe);
                    lemma_pow2_adds((ke + 1) as nat, (pe - ke - 1) as nat);
                    lemma_pow2_unfold((ke + 1) as nat);
                    let a = pow2((ke + 1) as nat) as int;
                    let b = pow2((pe - ke - 1) as nat) as int;
                    assert((ke + 1) as nat + (pe - ke - 1) as nat == pe);
                    assert(a == 2 * k);
                    assert(a * b == p);
                    assert(b * (2 * k) == p) by (nonlinear_arith)
                        requires
                            a * b == p,
                            a == 2 * k,
                    ;
                    vstd::arithmetic::div_mod::lemma_mod_multiples_basic(b, 2 * k);
                    vstd::arithmetic::div_mod::lemma_fundamental_div_mod_converse(k as int, p as int, 0, k as int);
                } else {
                    assert(k == p);
                }
            }
            let ghost s0 = arr@;
            let mut j = k % p;
            proof {
                if k == p {
                    vstd::arithmetic::div_mod::lemma_fundamental_div_mod_converse(k as int, p as int, 1, 0);
                } else {
                    vstd::arithmetic::div_mod::lemma_fundamental_div_mod_converse(k as int, p as int, 0, k as int);
                }
                if k == p {
                    vstd::arithmetic::div_mod::lemma_fundamental_div_mod_converse(0, 2 * k, 0, 0);
                } else {
                    vstd::arithmetic::div_mod::lemma_fundamental_div_mod_converse(k as int, 2 * k, 0, k as int);
                }
                assert(j == pass_offset(p as int, k as int));
                if tot {
                    lemma_pass_apply_none(s0, n as int, p as int, k as int);
                    assert forall|x: int| 0 <= x < j implies !#[trigger] in_pass(n as int, p as int, k as int, x) by {
                        if k != p {
                            vstd::arithmetic::div_mod::lemma_fundamental_div_mod_converse(x, 2 * k, 0, x);
                        }
                    }
                    lemma_pass_apply_skip(s0, n as int, p as int, k as int, 0, j as int);
                }
            }
            while j < n - k
                invariant
                    n == arr@.len(),
                    n <= usize::MAX / 4,
                    1 <= k <= p < n,
                    k == p || (k < p && (p as int) % (2 * (k as int)) == 0),
                    j <= 2 * n,
                    (j as int) % (2 * (k as int)) == pass_offset(p as int, k as int),
                    arr@.to_multiset() == orig.to_multiset(),
                    tot == total_order::<T>(),
                    tot ==> arr@ == pass_apply(s0, n as int, p as int, k as int, j as int),
                    s0.len() == n,
                decreases 2 * n - j,
            {
                let bound = min(k, n - j - k);
                let mut i: usize = 0;
                while i < bound
                    invariant
                        n == arr@.len(),
                        n <= usize::MAX / 4,
                        1 <= k <= p < n,
                        k == p || (k < p && (p as int) % (2 * (k as int)) == 0),
                        j + k < n,
                        (j as int) % (2 * (k as int)) == pass_offset(p as int, k as int),
                        bound <= n - j - k,
                        bound <= k,
                        i <= bound,
                        arr@.to_multiset() == orig.to_multiset(),
                        tot == total_order::<T>(),
                        tot ==> arr@ == pass_apply(s0, n as int, p as int, k as int, j + i),
                        s0.len() == n,
                    decreases bound - i,
                {
                    proof {
                        lemma_pass_positions(n as int, p as int, k as int, j as int, i as int);
                    }
                    if ((i + j) / (p * 2)) == ((i + j + k) / (p * 2)) {
                        let ghost before = arr@;
                        cswap_if_greater(arr, i + j, i + j + k);
                        proof {
                            if tot {
                                let x = (j + i) as int;
                                lemma_pass_apply_step(s0, n as int, p as int, k as int, x);
                                assert(arr@ =~= pass_apply(s0, n as int, p as int, k as int, x + 1));
                            }
                        }
                    } else {
                        proof {
                            if tot {
                                lemma_pass_apply_skip(s0, n as int, p as int, k as int, j + i, j + i + 1);
                            }
                        }
                    }
                    i += 1;
                }
                proof {
                    if tot {
                        assert forall|x: int| j + bound <= x < j + 2 * k implies !#[trigger] in_pass(n as int, p as int, k as int, x) by {
                            lemma_pass_positions(n as int, p as int, k as int, j as int, x - j);
                        }
                        lemma_pass_apply_skip(s0, n as int, p as int, k as int, j + bound, j + 2 * k);
                    }
                    vstd::arithmetic::div_mod::lemma_mod_add_multiples_vanish(j as int, 2 * k);
                }
                j += 2 * k;
            }
            proof {
                if tot {
                    if j < n {
                        lemma_pass_apply_skip(s0, n as int, p as int, k as int, j as int, n as int);
                    } else {
                        lemma_pass_apply_skip(s0, n as int, p as int, k as int, n as int, j as int);
                    }
                    assert(arr@ == pass_apply(s0, n as int, p as int, k as int, n as int));
                    if k == p {
                        assert forall|t: T| #[trigger] merged_upto(arr@, start, n as int, p as int, k as int, t) by {
                            lemma_pass_first(s0, n as int, p as int, t);
                        }
                    } else {
                        let q2 = (p as int) / (2 * (k as int));
                        vstd::arithmetic::div_mod::lemma_fundamental_div_mod(p as int, 2 * (k as int));
                        assert(p >= 2 * k) by (nonlinear_arith)
                            requires
                                p == (2 * k) * q2,
                                p > 0,
                                k >= 1,
                        ;
                        assert forall|t: T| #[trigger] merged_upto(arr@, start, n as int, p as int, k as int, t) by {
                            assert(merged_upto(s0, start, n as int, p as int, 2 * k, t));
                            lemma_pass_merge(s0, start, n as int, p as int, k as int, t);
                        }
                    }
                }
                if ke > 0 {
                    lemma_pow2_unfold(ke);
                } else {
                    lemma2_to64();
                }
            }
            k /= 2;
            proof {
                if ke > 0 {
                    ke = (ke - 1) as nat;
                } else {
                    assert(k == 0);
                }
            }
        }
        proof {
            if tot {
                lemma_phase_end(arr@, start, n as int, p as int);
            }
            lemma_pow2_unfold(pe + 1);
            pe = pe + 1;
        }
        p *= 2;
    }
    proof {
        if tot {
            assert forall|x: int, y: int| 0 <= x < y < arr@.len() implies le(#[trigger] arr@[x], #[trigger] arr@[y]) by {
                vstd::arithmetic::div_mod::lemma_fundamental_div_mod_converse(x, p as int, 0, x);
                vstd::arithmetic::div_mod::lemma_fundamental_div_mod_converse(y, p as int, 0, y);
            }
        }
    }
}

/// Sorts `arr` with Batcher's odd-even merge sorting network. The elements are permuted;
/// the access pattern depends only on `arr.len()`.
pub fn batcher_sort<T: Ord + Cmov + Copy>(arr: &mut [T])
    requires
        old(arr)@.len() <= usize::MAX / 4,
    ensures
        final(arr)@.len() == old(arr)@.len(),
        final(arr)@.to_multiset() == old(arr)@.to_multiset(),
        total_order::<T>() ==> sorted(final(arr)@),
{
    batcher_sort_paper(arr)
}

} // verus!
