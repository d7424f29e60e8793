//! Why Batcher's odd-even merge network sorts: for every threshold `t`, the elements at
//! most `t` of each merged block end up first in every residue class of the block.
use vstd::prelude::*;
use vstd::arithmetic::div_mod::{lemma_div_is_ordered, lemma_fundamental_div_mod, lemma_mod_mod, lemma_mod_breakdown};
use crate::sort::order::{le, gt, total_order, sorted, zfirst, first_above, lemma_gt_not_le, lemma_zfirst_of_sorted, lemma_sorted_from_zfirst, splits};

verus! {

/// Number of indices `q >= 0` with `r + m * q < z`: how many positions of the residue
/// class `r` modulo `m` lie below `z`.
pub open spec fn class_count(z: int, r: int, m: int) -> int {
    (z + m - 1 - r) / m
}

/// `class_count` counts the class positions below `z`: position `r + m * q` is below `z`
/// exactly when `q` is below the count.
pub proof fn lemma_class_count(z: int, r: int, m: int, q: int)
    requires
        0 <= z,
        0 <= r < m,
        0 <= q,
    ensures
        class_count(z, r, m) >= 0,
        (r + m * q < z) == (q < class_count(z, r, m)),
{
    let c = class_count(z, r, m);
    lemma_fundamental_div_mod(z + m - 1 - r, m);
    assert(z + m - 1 - r >= 0);
    assert(c >= 0) by {
        vstd::arithmetic::div_mod::lemma_div_pos_is_pos(z + m - 1 - r, m);
    }
    let rem = (z + m - 1 - r) % m;
    assert(0 <= rem < m);
    assert(m * c + rem == z + m - 1 - r);
    if q < c {
        assert(m * q <= m * (c - 1)) by (nonlinear_arith)
            requires
                q <= c - 1,
                m > 0,
        ;
        assert(m * (c - 1) == m * c - m) by (nonlinear_arith);
    } else {
        assert(m * q >= m * c) by (nonlinear_arith)
            requires
                q >= c,
                m > 0,
        ;
    }
}

/// More room holds at least as many class positions.
pub proof fn lemma_class_count_mono(z1: int, z2: int, r: int, m: int)
    requires
        0 <= z1 <= z2,
        0 <= r < m,
    ensures
        class_count(z1, r, m) <= class_count(z2, r, m),
{
    lemma_div_is_ordered(z1 + m - 1 - r, z2 + m - 1 - r, m);
}

/// A class modulo `m` below `z` splits into two classes modulo `2 * m`.
pub proof fn lemma_class_count_split(z: int, r: int, m: int)
    requires
        0 <= z,
        0 <= r < m,
    ensures
        class_count(z, r, m) == class_count(z, r, 2 * m) + class_count(z, r + m, 2 * m),
        0 <= class_count(z, r, 2 * m) - class_count(z, r + m, 2 * m) <= 1,
{
    let c = class_count(z, r, m);
    let ce = class_count(z, r, 2 * m);
    let co = class_count(z, r + m, 2 * m);
    lemma_class_count(z, r, m, 0);
    lemma_class_count(z, r, 2 * m, 0);
    lemma_class_count(z, r + m, 2 * m, 0);
    // ce counts the even q below c, co the odd ones.
    if ce > 0 {
        lemma_class_count(z, r, 2 * m, ce - 1);
        lemma_class_count(z, r, m, 2 * (ce - 1));
        assert(r + (2 * m) * (ce - 1) == r + m * (2 * (ce - 1))) by (nonlinear_arith);
    }
    lemma_class_count(z, r, 2 * m, ce);
    lemma_class_count(z, r, m, 2 * ce);
    assert(r + (2 * m) * ce == r + m * (2 * ce)) by (nonlinear_arith);
    if co > 0 {
        lemma_class_count(z, r + m, 2 * m, co - 1);
        lemma_class_count(z, r, m, 2 * (co - 1) + 1);
        assert(r + m + (2 * m) * (co - 1) == r + m * (2 * (co - 1) + 1)) by (nonlinear_arith);
    }
    lemma_class_count(z, r + m, 2 * m, co);
    lemma_class_count(z, r, m, 2 * co + 1);
    assert(r + m + (2 * m) * co == r + m * (2 * co + 1)) by (nonlinear_arith);
    // So 2ce - 1 < c <= 2ce and 2co < c <= 2co + 1 (with the obvious edge cases).
}

/// A length that is a multiple of `m` holds `len / m` positions of every class, and after
/// it the classes continue.
pub proof fn lemma_class_count_shift(z: int, r: int, m: int, d: int)
    requires
        0 <= z,
        0 <= r < m,
        0 <= d,
    ensures
        class_count(z + m * d, r, m) == class_count(z, r, m) + d,
        class_count(m * d, r, m) == d,
{
    let x = z + m - 1 - r;
    let q0 = x / m;
    let r0 = x % m;
    vstd::arithmetic::div_mod::lemma_fundamental_div_mod(x, m);
    assert((q0 + d) * m + r0 == x + m * d) by (nonlinear_arith)
        requires
            m * q0 + r0 == x,
    ;
    vstd::arithmetic::div_mod::lemma_fundamental_div_mod_converse(x + m * d, m, q0 + d, r0);
    assert(d * m + (m - 1 - r) == m * d + m - 1 - r) by (nonlinear_arith);
    vstd::arithmetic::div_mod::lemma_fundamental_div_mod_converse(m * d + m - 1 - r, m, d, m - 1 - r);
}

/// The smaller of `a` and `b`, as a compare-exchange leaves it at the lower position.
pub open spec fn cx_lo<T: PartialOrd>(a: T, b: T) -> T {
    if gt(a, b) {
        b
    } else {
        a
    }
}

/// The larger of `a` and `b`, as a compare-exchange leaves it at the upper position.
pub open spec fn cx_hi<T: PartialOrd>(a: T, b: T) -> T {
    if gt(a, b) {
        a
    } else {
        b
    }
}

/// Seen through a threshold `t`, a compare-exchange puts an element at most `t` at the
/// lower position when either input is one, and at the upper position when both are.
pub proof fn lemma_cx_threshold<T: PartialOrd>(a: T, b: T, t: T)
    requires
        total_order::<T>(),
    ensures
        le(cx_lo(a, b), t) == (le(a, t) || le(b, t)),
        le(cx_hi(a, b), t) == (le(a, t) && le(b, t)),
{
    lemma_gt_not_le(a, b);
    assert(le(a, b) || le(b, a));
    if le(a, t) && le(b, a) {
        assert(le(b, t));
    }
    if le(b, t) && le(a, b) {
        assert(le(a, t));
    }
}

/// The smaller of two integers.
pub open spec fn imin(a: int, b: int) -> int {
    if a < b {
        a
    } else {
        b
    }
}

/// Pass `k` of phase `p` of the network on `n` elements compare-exchanges `x` with
/// `x + k`: both lie in one block of `2p` elements, and `x` lies in the first half of its
/// block (when `k == p`) or of its group of `2k` (when `k < p`).
pub open spec fn in_pass(n: int, p: int, k: int, x: int) -> bool {
    &&& 0 <= x
    &&& x + k < n
    &&& (if k == p {
        x % (2 * p) < p
    } else {
        x % (2 * k) >= k
    })
    &&& x / (2 * p) == (x + k) / (2 * p)
}

/// `s0` after the compare-exchanges of pass `k` of phase `p` whose lower position is
/// below `upto`.
pub open spec fn pass_apply<T: PartialOrd>(s0: Seq<T>, n: int, p: int, k: int, upto: int) -> Seq<T> {
    Seq::new(
        s0.len(),
        |y: int|
            if in_pass(n, p, k, y) && y < upto {
                cx_lo(s0[y], s0[y + k])
            } else if in_pass(n, p, k, y - k) && y - k < upto {
                cx_hi(s0[y - k], s0[y])
            } else {
                s0[y]
            },
    )
}

/// How many elements at most `t` the first half of the block at `base` held when the
/// phase started.
pub open spec fn lows_a<T: PartialOrd>(start: Seq<T>, n: int, p: int, base: int, t: T) -> int {
    first_above(start.subrange(base, imin(base + p, n)), t)
}

/// How many elements at most `t` the second half of the block at `base` held when the
/// phase started.
pub open spec fn lows_b<T: PartialOrd>(start: Seq<T>, n: int, p: int, base: int, t: T) -> int {
    first_above(start.subrange(imin(base + p, n), imin(base + 2 * p, n)), t)
}

/// After pass `k` of phase `p`, seen through `t`: in every block and every residue class
/// modulo `k`, the elements at most `t` come first, as many as the two halves of the block
/// held in that class.
pub open spec fn merged_upto<T: PartialOrd>(s: Seq<T>, start: Seq<T>, n: int, p: int, k: int, t: T) -> bool {
    forall|y: int|
        0 <= y < n ==> (le(#[trigger] s[y], t) <==> {
            let w = y % (2 * p);
            let base = y - w;
            w / k < class_count(lows_a(start, n, p, base, t), w % k, k) + class_count(
                lows_b(start, n, p, base, t),
                w % k,
                k,
            )
        })
}

/// The blocks of `m` consecutive elements of `s` are sorted.
pub open spec fn blocks_sorted<T: PartialOrd>(s: Seq<T>, n: int, m: int) -> bool {
    forall|x: int, y: int| 0 <= x < y < n && x / m == y / m ==> le(#[trigger] s[x], #[trigger] s[y])
}

/// Offset `w` in its class modulo `k` and in its class modulo `2k`.
pub proof fn lemma_split_index(w: int, k: int)
    requires
        0 <= w,
        1 <= k,
    ensures
        0 <= w % k < k,
        w == k * (w / k) + w % k,
        w / k >= 0,
        w % (2 * k) == w % k + k * ((w / k) % 2),
        w / (2 * k) == (w / k) / 2,
{
    let r = w % k;
    let j = w / k;
    lemma_fundamental_div_mod(w, k);
    vstd::arithmetic::div_mod::lemma_div_pos_is_pos(w, k);
    lemma_fundamental_div_mod(j, 2);
    let i = j / 2;
    let b = j % 2;
    assert(b == 0 || b == 1);
    assert(w == i * (2 * k) + (r + k * b)) by (nonlinear_arith)
        requires
            w == k * j + r,
            j == 2 * i + b,
    ;
    assert(0 <= r + k * b < 2 * k) by (nonlinear_arith)
        requires
            0 <= r < k,
            b == 0 || b == 1,
    ;
    vstd::arithmetic::div_mod::lemma_fundamental_div_mod_converse(w, 2 * k, i, r + k * b);
}

/// A run of one block of `m` elements of a sequence whose blocks are sorted is sorted.
pub proof fn lemma_run_sorted<T: PartialOrd>(s: Seq<T>, n: int, m: int, c: int, hi: int)
    requires
        blocks_sorted(s, n, m),
        m >= 1,
        c >= 0,
        m * c <= hi <= imin(m * c + m, n),
        s.len() == n,
    ensures
        sorted(s.subrange(m * c, hi)),
{
    let lo = m * c;
    let r = s.subrange(lo, hi);
    assert(c * m == m * c) by (nonlinear_arith);
    assert forall|i1: int, i2: int| 0 <= i1 < i2 < r.len() implies le(#[trigger] r[i1], #[trigger] r[i2]) by {
        vstd::arithmetic::div_mod::lemma_fundamental_div_mod_converse(lo + i1, m, c, i1);
        vstd::arithmetic::div_mod::lemma_fundamental_div_mod_converse(lo + i2, m, c, i2);
        assert(s[lo + i1] == r[i1] && s[lo + i2] == r[i2]);
    }
}

/// Where `y` lies in its block of `2p` elements.
pub proof fn lemma_block_of(y: int, p: int)
    requires
        0 <= y,
        p >= 1,
    ensures
        0 <= y % (2 * p) < 2 * p,
        y / (2 * p) >= 0,
        y - y % (2 * p) == (2 * p) * (y / (2 * p)),
        y - y % (2 * p) == p * (2 * (y / (2 * p))),
{
    lemma_fundamental_div_mod(y, 2 * p);
    vstd::arithmetic::div_mod::lemma_div_pos_is_pos(y, 2 * p);
    assert((2 * p) * (y / (2 * p)) == p * (2 * (y / (2 * p)))) by (nonlinear_arith);
}

/// A position of the block at `base` has its offset in the block as remainder.
pub proof fn lemma_in_block(y2: int, base: int, p: int, c: int)
    requires
        p >= 1,
        c >= 0,
        base == (2 * p) * c,
        base <= y2 < base + 2 * p,
    ensures
        y2 % (2 * p) == y2 - base,
        y2 / (2 * p) == c,
{
    assert(c * (2 * p) == (2 * p) * c) by (nonlinear_arith);
    vstd::arithmetic::div_mod::lemma_fundamental_div_mod_converse(y2, 2 * p, c, y2 - base);
}

/// The first pass of a phase, at distance `p`, merges the pairs of halves of the blocks:
/// seen through any `t`, every residue class modulo `p` of every block then holds its
/// elements at most `t` first.
#[verifier::spinoff_prover]
pub proof fn lemma_pass_first<T: PartialOrd>(s0: Seq<T>, n: int, p: int, t: T)
    requires
        total_order::<T>(),
        s0.len() == n,
        p >= 1,
        blocks_sorted(s0, n, p),
    ensures
        merged_upto(pass_apply(s0, n, p, p, n), s0, n, p, p, t),
{
    let s = pass_apply(s0, n, p, p, n);
    assert forall|y: int| 0 <= y < n implies (le(#[trigger] s[y], t) <==> {
        let w = y % (2 * p);
        let base = y - w;
        w / p < class_count(lows_a(s0, n, p, base, t), w % p, p) + class_count(lows_b(s0, n, p, base, t), w % p, p)
    }) by {
        let w = y % (2 * p);
        let base = y - w;
        let c = y / (2 * p);
        lemma_block_of(y, p);
        let ea = imin(base + p, n);
        let eb = imin(base + 2 * p, n);
        let a_run = s0.subrange(base, ea);
        let b_run = s0.subrange(ea, eb);
        lemma_run_sorted(s0, n, p, 2 * c, ea);
        let la = lemma_zfirst_of_sorted(a_run, t);
        assert(la == lows_a(s0, n, p, base, t));
        if ea == base + p {
            assert(p * (2 * c + 1) == base + p) by (nonlinear_arith)
                requires
                    base == p * (2 * c),
            ;
            lemma_run_sorted(s0, n, p, 2 * c + 1, eb);
        } else {
            assert(b_run.len() == 0);
        }
        let lb = lemma_zfirst_of_sorted(b_run, t);
        assert(lb == lows_b(s0, n, p, base, t));
        assert(0 <= la <= p);
        assert(0 <= lb <= p);
        if w < p {
            vstd::arithmetic::div_mod::lemma_fundamental_div_mod_converse(w, p, 0, w);
            assert(w % p == w && w / p == 0);
            lemma_class_count(la, w, p, 0);
            lemma_class_count(lb, w, p, 0);
            assert(s0[y] == a_run[w]);
            if y + p < n {
                lemma_in_block(y + p, base, p, c);
                assert(in_pass(n, p, p, y));
                assert(s0[y + p] == b_run[w]);
                lemma_cx_threshold(s0[y], s0[y + p], t);
            } else {
                if y >= p {
                    lemma_in_block(y, base, p, c);
                    if (y - p) / (2 * p) == c {
                        vstd::arithmetic::div_mod::lemma_fundamental_div_mod(y - p, 2 * p);
                    }
                }
                assert(!in_pass(n, p, p, y - p));
                assert(b_run.len() <= w);
            }
        } else {
            let r = w - p;
            vstd::arithmetic::div_mod::lemma_fundamental_div_mod_converse(w, p, 1, r);
            lemma_class_count(la, r, p, 1);
            lemma_class_count(lb, r, p, 1);
            lemma_class_count(la, r, p, 0);
            lemma_class_count(lb, r, p, 0);
            lemma_in_block(y - p, base, p, c);
            assert(in_pass(n, p, p, y - p));
            assert(!in_pass(n, p, p, y));
            assert(ea == base + p);
            assert(s0[y - p] == a_run[r]);
            assert(s0[y] == b_run[r]);
            lemma_cx_threshold(s0[y - p], s0[y], t);
        }
    }
}

/// The index of the first element above `t` lies within the sequence.
pub proof fn lemma_first_above_bound<T: PartialOrd>(s: Seq<T>, t: T)
    ensures
        0 <= first_above(s, t) <= s.len(),
    decreases s.len(),
{
    if s.len() > 0 {
        lemma_first_above_bound(s.drop_first(), t);
    }
}

/// The class `r` modulo `2k` of a block of `len` existing elements holds at least as many
/// positions as the elements at most `t` that the two halves put in it.
proof fn lemma_class_room(la: int, lb: int, len: int, p: int, r: int, k: int)
    requires
        k >= 1,
        p % (2 * k) == 0,
        p >= 2 * k,
        0 <= r < 2 * k,
        0 <= la,
        0 <= lb,
        0 <= len,
        la <= imin(p, len),
        len <= p ==> lb == 0,
        len > p ==> lb <= len - p,
    ensures
        class_count(la, r, 2 * k) + class_count(lb, r, 2 * k) <= class_count(len, r, 2 * k),
{
    let d = p / (2 * k);
    lemma_fundamental_div_mod(p, 2 * k);
    assert(p == (2 * k) * d);
    lemma_class_count(0, r, 2 * k, 0);
    lemma_class_count(lb, r, 2 * k, 0);
    if len <= p {
        assert(class_count(lb, r, 2 * k) == class_count(0, r, 2 * k));
        lemma_class_count_mono(la, len, r, 2 * k);
        assert(class_count(0, r, 2 * k) == 0) by {
            lemma_class_count_shift(0, r, 2 * k, 0);
        }
    } else {
        lemma_class_count_mono(la, p, r, 2 * k);
        lemma_class_count_shift(0, r, 2 * k, d);
        lemma_class_count_mono(lb, len - p, r, 2 * k);
        lemma_class_count_shift(len - p, r, 2 * k, d);
    }
}

/// A later pass of a phase, at distance `k < p`, merges the two classes modulo `2k` that
/// make up each class modulo `k`: seen through any `t`, if every class modulo `2k` of every
/// block holds its elements at most `t` first, so does every class modulo `k` afterwards.
#[verifier::spinoff_prover]
pub proof fn lemma_pass_merge<T: PartialOrd>(s0: Seq<T>, start: Seq<T>, n: int, p: int, k: int, t: T)
    requires
        total_order::<T>(),
        s0.len() == n,
        start.len() == n,
        k >= 1,
        p % (2 * k) == 0,
        p >= 2 * k,
        merged_upto(s0, start, n, p, 2 * k, t),
    ensures
        merged_upto(pass_apply(s0, n, p, k, n), start, n, p, k, t),
{
    let s = pass_apply(s0, n, p, k, n);
    let q2 = p / (2 * k);
    let dd = 2 * q2;
    lemma_fundamental_div_mod(p, 2 * k);
    assert((2 * k) * dd == 2 * p) by (nonlinear_arith)
        requires
            p == (2 * k) * q2,
            dd == 2 * q2,
    ;
    assert forall|y: int| 0 <= y < n implies (le(#[trigger] s[y], t) <==> {
        let w = y % (2 * p);
        let base = y - w;
        w / k < class_count(lows_a(start, n, p, base, t), w % k, k) + class_count(lows_b(start, n, p, base, t), w % k, k)
    }) by {
        let w = y % (2 * p);
        let base = y - w;
        let c = y / (2 * p);
        lemma_block_of(y, p);
        let la = lows_a(start, n, p, base, t);
        let lb = lows_b(start, n, p, base, t);
        let ea = imin(base + p, n);
        let eb = imin(base + 2 * p, n);
        lemma_first_above_bound(start.subrange(base, ea), t);
        lemma_first_above_bound(start.subrange(ea, eb), t);
        let len = eb - base;
        let r = w % k;
        let j = w / k;
        lemma_split_index(w, k);
        lemma_mod_mod(y, 2 * k, dd);
        assert(y % (2 * k) == w % (2 * k));
        let i = j / 2;
        let e = class_count(la, r, 2 * k) + class_count(lb, r, 2 * k);
        let o = class_count(la, r + k, 2 * k) + class_count(lb, r + k, 2 * k);
        lemma_class_count_split(la, r, k);
        lemma_class_count_split(lb, r, k);
        assert(s0[y] == s0[y]);
        if j % 2 == 1 {
            assert(k * (j % 2) == k && k * ((j - 1) % 2) == 0 && k * ((j + 1) % 2) == 0) by (nonlinear_arith)
                requires
                    j % 2 == 1,
                    j >= 0,
            ;
            assert(w % (2 * k) == r + k && w / (2 * k) == i);
            assert(le(s0[y], t) <==> i < o);
            assert(w >= k) by (nonlinear_arith)
                requires
                    w == k * j + r,
                    j >= 1,
                    r >= 0,
                    k >= 1,
            ;
            lemma_in_block(y - k, base, p, c);
            lemma_mod_mod(y - k, 2 * k, dd);
            lemma_split_index(w - k, k);
            assert((j - 1) * k + r == w - k) by (nonlinear_arith)
                requires
                    w == k * j + r,
            ;
            vstd::arithmetic::div_mod::lemma_fundamental_div_mod_converse(w - k, k, j - 1, r);
            assert(!in_pass(n, p, k, y - k));
            if y + k < base + 2 * p {
                lemma_in_block(y + k, base, p, c);
            }
            if in_pass(n, p, k, y) {
                lemma_fundamental_div_mod(y + k, 2 * p);
                lemma_in_block(y + k, base, p, c);
                lemma_mod_mod(y + k, 2 * k, dd);
                lemma_split_index(w + k, k);
                assert((j + 1) * k + r == w + k) by (nonlinear_arith)
                    requires
                        w == k * j + r,
                ;
                vstd::arithmetic::div_mod::lemma_fundamental_div_mod_converse(w + k, k, j + 1, r);
                assert(s0[y + k] == s0[y + k]);
                assert(le(s0[y + k], t) <==> i + 1 < e);
                lemma_cx_threshold(s0[y], s0[y + k], t);
            } else {
                assert(w + k >= len);
                if len <= p {
                    assert(ea == eb);
                }
                lemma_class_room(la, lb, len, p, r, k);
                lemma_class_count(len, r, 2 * k, i + 1);
                assert(r + (2 * k) * (i + 1) == w + k) by (nonlinear_arith)
                    requires
                        w == k * j + r,
                        j == 2 * i + 1,
                ;
                assert(e <= i + 1);
            }
        } else {
            assert(k * (j % 2) == 0 && (j >= 1 ==> k * ((j - 1) % 2) == k)) by (nonlinear_arith)
                requires
                    j % 2 == 0,
                    j >= 0,
            ;
            assert(w % (2 * k) == r && w / (2 * k) == i);
            assert(le(s0[y], t) <==> i < e);
            assert(!in_pass(n, p, k, y));
            if j >= 2 {
                assert(w >= 2 * k) by (nonlinear_arith)
                    requires
                        w == k * j + r,
                        j >= 2,
                        r >= 0,
                        k >= 1,
                ;
                lemma_in_block(y - k, base, p, c);
                lemma_mod_mod(y - k, 2 * k, dd);
                lemma_split_index(w - k, k);
                assert((j - 1) * k + r == w - k) by (nonlinear_arith)
                requires
                    w == k * j + r,
            ;
            vstd::arithmetic::div_mod::lemma_fundamental_div_mod_converse(w - k, k, j - 1, r);
                assert(in_pass(n, p, k, y - k));
                assert(s0[y - k] == s0[y - k]);
                assert(le(s0[y - k], t) <==> i - 1 < o);
                lemma_cx_threshold(s0[y - k], s0[y], t);
            } else {
                assert(w < k) by (nonlinear_arith)
                    requires
                        w == k * j + r,
                        j == 0,
                        r < k,
                ;
                if y - k >= 0 {
                    vstd::arithmetic::div_mod::lemma_fundamental_div_mod(y - k, 2 * p);
                    if (y - k) / (2 * p) == c {
                        assert(false) by (nonlinear_arith)
                            requires
                                y - k == (2 * p) * ((y - k) / (2 * p)) + (y - k) % (2 * p),
                                0 <= (y - k) % (2 * p),
                                (y - k) / (2 * p) == c,
                                y - w == (2 * p) * c,
                                w < k,
                        ;
                    }
                }
                assert(!in_pass(n, p, k, y - k));
            }
        }
    }
}

/// When every class modulo one, that is every block of `2p` elements, holds its elements
/// at most `t` first for every `t`, the blocks of `2p` elements are sorted.
pub proof fn lemma_phase_end<T: PartialOrd>(s: Seq<T>, start: Seq<T>, n: int, p: int)
    requires
        total_order::<T>(),
        s.len() == n,
        p >= 1,
        forall|t: T| #[trigger] merged_upto(s, start, n, p, 1, t),
    ensures
        blocks_sorted(s, n, 2 * p),
{
    assert forall|x: int, y: int| 0 <= x < y < n && x / (2 * p) == y / (2 * p) implies le(#[trigger] s[x], #[trigger] s[y]) by {
        let t = s[y];
        assert(merged_upto(s, start, n, p, 1, t));
        lemma_gt_not_le(t, t);
        lemma_block_of(x, p);
        lemma_block_of(y, p);
        let wx = x % (2 * p);
        let wy = y % (2 * p);
        let base = y - wy;
        assert(x - wx == base);
        let la = lows_a(start, n, p, base, t);
        let lb = lows_b(start, n, p, base, t);
        lemma_first_above_bound(start.subrange(base, imin(base + p, n)), t);
        lemma_first_above_bound(start.subrange(imin(base + p, n), imin(base + 2 * p, n)), t);
        assert(class_count(la, 0, 1) == la && class_count(lb, 0, 1) == lb);
        assert(wy % 1 == 0 && wy / 1 == wy && wx % 1 == 0 && wx / 1 == wx);
        assert(le(s[y], t));
        assert(wy < la + lb);
        assert(wx < wy);
    }
}

/// Before any compare-exchange of a pass, nothing has changed.
pub proof fn lemma_pass_apply_none<T: PartialOrd>(s0: Seq<T>, n: int, p: int, k: int)
    requires
        k >= 1,
    ensures
        pass_apply(s0, n, p, k, 0) == s0,
{
    assert(pass_apply(s0, n, p, k, 0) =~= s0);
}

/// Positions with no compare-exchange of the pass do not change what the pass has done.
pub proof fn lemma_pass_apply_skip<T: PartialOrd>(s0: Seq<T>, n: int, p: int, k: int, u1: int, u2: int)
    requires
        u1 <= u2,
        forall|x: int| u1 <= x < u2 ==> !#[trigger] in_pass(n, p, k, x),
    ensures
        pass_apply(s0, n, p, k, u1) == pass_apply(s0, n, p, k, u2),
{
    let a = pass_apply(s0, n, p, k, u1);
    let b = pass_apply(s0, n, p, k, u2);
    assert forall|y: int| 0 <= y < s0.len() implies a[y] == b[y] by {
        if in_pass(n, p, k, y) && u1 <= y < u2 {
        }
        if in_pass(n, p, k, y - k) && u1 <= y - k < u2 {
        }
    }
    assert(a =~= b);
}

/// The compare-exchange of the pass at `x` takes the pass one position further.
pub proof fn lemma_pass_apply_step<T: PartialOrd>(s0: Seq<T>, n: int, p: int, k: int, x: int)
    requires
        k >= 1,
        s0.len() == n,
        in_pass(n, p, k, x),
        !in_pass(n, p, k, x - k),
        !in_pass(n, p, k, x + k),
    ensures
        pass_apply(s0, n, p, k, x)[x] == s0[x],
        pass_apply(s0, n, p, k, x)[x + k] == s0[x + k],
        pass_apply(s0, n, p, k, x + 1) == pass_apply(s0, n, p, k, x).update(x, cx_lo(s0[x], s0[x + k])).update(
            x + k,
            cx_hi(s0[x], s0[x + k]),
        ),
{
    let a = pass_apply(s0, n, p, k, x);
    let b = pass_apply(s0, n, p, k, x + 1);
    let c = a.update(x, cx_lo(s0[x], s0[x + k])).update(x + k, cx_hi(s0[x], s0[x + k]));
    assert forall|y: int| 0 <= y < n implies b[y] == c[y] by {
        if y != x && y != x + k {
            if in_pass(n, p, k, y - k) && y - k == x {
            }
        }
    }
    assert(b =~= c);
}

/// The start of the groups of pass `k` of phase `p`: `0` for the first pass, `k` after.
pub open spec fn pass_offset(p: int, k: int) -> int {
    if k == p {
        0
    } else {
        k
    }
}

/// The positions the loops of pass `k` visit from a group start `j`: the compare-exchange
/// at `j + i`, for `i < k`, belongs to the pass exactly when both ends are in the array and
/// in one block, its neighbours at distance `k` have none, and nor do the next `k`
/// positions.
pub proof fn lemma_pass_positions(n: int, p: int, k: int, j: int, i: int)
    requires
        k >= 1,
        k == p || (k < p && p % (2 * k) == 0),
        j >= 0,
        j % (2 * k) == pass_offset(p, k),
        0 <= i < 2 * k,
    ensures
        i < k ==> (in_pass(n, p, k, j + i) == (j + i + k < n && (j + i) / (2 * p) == (j + i + k) / (2 * p))),
        i < k ==> !in_pass(n, p, k, j + i - k),
        i < k ==> !in_pass(n, p, k, j + i + k),
        i >= k ==> !in_pass(n, p, k, j + i),
{
    let m = 2 * k;
    let c0 = pass_offset(p, k);
    let q = j / m;
    lemma_fundamental_div_mod(j, m);
    vstd::arithmetic::div_mod::lemma_div_pos_is_pos(j, m);
    assert(j == m * q + c0);
    assert(q * m == m * q) by (nonlinear_arith);
    assert((q + 1) * m == m * q + m) by (nonlinear_arith);
    if q >= 1 {
        assert((q - 1) * m == m * q - m) by (nonlinear_arith);
    }
    if c0 == k {
        if i < k {
            vstd::arithmetic::div_mod::lemma_fundamental_div_mod_converse(j + i, m, q, c0 + i);
            vstd::arithmetic::div_mod::lemma_fundamental_div_mod_converse(j + i - k, m, q, i);
            assert(k != p);
            assert(!in_pass(n, p, k, j + i - k));
            vstd::arithmetic::div_mod::lemma_fundamental_div_mod_converse(j + i + k, m, q + 1, i);
        } else {
            vstd::arithmetic::div_mod::lemma_fundamental_div_mod_converse(j + i, m, q + 1, i - k);
        }
    } else {
        assert(k == p);
        if i < k {
            vstd::arithmetic::div_mod::lemma_fundamental_div_mod_converse(j + i, m, q, i);
            if q >= 1 {
                vstd::arithmetic::div_mod::lemma_fundamental_div_mod_converse(j + i - k, m, q - 1, i + k);
                assert(!in_pass(n, p, k, j + i - k));
            } else {
                assert(m * q == 0) by (nonlinear_arith)
                    requires
                        q == 0,
                ;
                assert(j + i - k < 0);
                assert(!in_pass(n, p, k, j + i - k));
            }
            vstd::arithmetic::div_mod::lemma_fundamental_div_mod_converse(j + i + k, m, q, i + k);
        } else {
            vstd::arithmetic::div_mod::lemma_fundamental_div_mod_converse(j + i, m, q, i);
        }
    }
}

/// `s0` after the compare-exchanges of pass `k` of phase `p` whose lower position
/// satisfies `done`.
pub open spec fn pass_with<T: PartialOrd>(s0: Seq<T>, n: int, p: int, k: int, done: spec_fn(int) -> bool) -> Seq<T> {
    Seq::new(
        s0.len(),
        |y: int|
            if in_pass(n, p, k, y) && done(y) {
                cx_lo(s0[y], s0[y + k])
            } else if in_pass(n, p, k, y - k) && done(y - k) {
                cx_hi(s0[y - k], s0[y])
            } else {
                s0[y]
            },
    )
}

/// Two selections that agree on the compare-exchanges of the pass give the same result,
/// and the selection of the positions below `upto` gives `pass_apply`.
pub proof fn lemma_pass_with_ext<T: PartialOrd>(
    s0: Seq<T>,
    n: int,
    p: int,
    k: int,
    d1: spec_fn(int) -> bool,
    d2: spec_fn(int) -> bool,
)
    requires
        forall|x: int| #[trigger] in_pass(n, p, k, x) ==> d1(x) == d2(x),
    ensures
        pass_with(s0, n, p, k, d1) == pass_with(s0, n, p, k, d2),
{
    let a = pass_with(s0, n, p, k, d1);
    let b = pass_with(s0, n, p, k, d2);
    assert forall|y: int| 0 <= y < s0.len() implies a[y] == b[y] by {
        if in_pass(n, p, k, y) {
        }
        if in_pass(n, p, k, y - k) {
        }
    }
    assert(a =~= b);
}

/// `pass_apply` is the selection of the positions below `upto`.
pub proof fn lemma_pass_with_upto<T: PartialOrd>(s0: Seq<T>, n: int, p: int, k: int, upto: int)
    ensures
        pass_apply(s0, n, p, k, upto) == pass_with(s0, n, p, k, |x: int| x < upto),
{
    assert(pass_apply(s0, n, p, k, upto) =~= pass_with(s0, n, p, k, |x: int| x < upto));
}

/// Adding the compare-exchange at `x` to the selection.
pub proof fn lemma_pass_with_step<T: PartialOrd>(s0: Seq<T>, n: int, p: int, k: int, done: spec_fn(int) -> bool, x: int)
    requires
        k >= 1,
        s0.len() == n,
        in_pass(n, p, k, x),
        !in_pass(n, p, k, x - k),
        !in_pass(n, p, k, x + k),
        !done(x),
    ensures
        pass_with(s0, n, p, k, done)[x] == s0[x],
        pass_with(s0, n, p, k, done)[x + k] == s0[x + k],
        pass_with(s0, n, p, k, |z: int| done(z) || z == x) == pass_with(s0, n, p, k, done).update(
            x,
            cx_lo(s0[x], s0[x + k]),
        ).update(x + k, cx_hi(s0[x], s0[x + k])),
{
    let a = pass_with(s0, n, p, k, done);
    let b = pass_with(s0, n, p, k, |z: int| done(z) || z == x);
    let c = a.update(x, cx_lo(s0[x], s0[x + k])).update(x + k, cx_hi(s0[x], s0[x + k]));
    assert forall|y: int| 0 <= y < n implies b[y] == c[y] by {
        if y != x && y != x + k {
            if in_pass(n, p, k, y - k) && y - k == x {
            }
        }
    }
    assert(b =~= c);
}

/// Within a group of pass `k` started at `j`, the compare-exchange at `j + i` belongs to the
/// pass exactly when its upper end is in the array and `j` and `j + k` share a block.
pub proof fn lemma_chunk(n: int, p: int, k: int, j: int, i: int)
    requires
        k >= 1,
        k == p || (k < p && p % (2 * k) == 0),
        j >= 0,
        j % (2 * k) == pass_offset(p, k),
        0 <= i < k,
    ensures
        in_pass(n, p, k, j + i) == (j + i + k < n && j / (2 * p) == (j + k) / (2 * p)),
{
    lemma_pass_positions(n, p, k, j, i);
    let m = 2 * k;
    let q = j / m;
    lemma_fundamental_div_mod(j, m);
    vstd::arithmetic::div_mod::lemma_div_pos_is_pos(j, m);
    if k == p {
        assert(j == m * q);
        assert(q * m == m * q) by (nonlinear_arith);
        vstd::arithmetic::div_mod::lemma_fundamental_div_mod_converse(j, m, q, 0);
        vstd::arithmetic::div_mod::lemma_fundamental_div_mod_converse(j + i, m, q, i);
        vstd::arithmetic::div_mod::lemma_fundamental_div_mod_converse(j + k, m, q, k);
        vstd::arithmetic::div_mod::lemma_fundamental_div_mod_converse(j + i + k, m, q, i + k);
    } else {
        let d = p / m;
        lemma_fundamental_div_mod(p, m);
        assert(2 * p == m * (2 * d)) by (nonlinear_arith)
            requires
                p == m * d,
        ;
        assert(d >= 1) by (nonlinear_arith)
            requires
                p == m * d,
                p > 0,
                m > 0,
        ;
        assert(j == m * q + k);
        assert(q * m == m * q) by (nonlinear_arith);
        assert((q + 1) * m == m * q + m) by (nonlinear_arith);
        vstd::arithmetic::div_mod::lemma_fundamental_div_mod_converse(j, m, q, k);
        vstd::arithmetic::div_mod::lemma_fundamental_div_mod_converse(j + i, m, q, k + i);
        vstd::arithmetic::div_mod::lemma_fundamental_div_mod_converse(j + k, m, q + 1, 0);
        vstd::arithmetic::div_mod::lemma_fundamental_div_mod_converse(j + i + k, m, q + 1, i);
        vstd::arithmetic::div_mod::lemma_div_denominator(j, m, 2 * d);
        vstd::arithmetic::div_mod::lemma_div_denominator(j + i, m, 2 * d);
        vstd::arithmetic::div_mod::lemma_div_denominator(j + k, m, 2 * d);
        vstd::arithmetic::div_mod::lemma_div_denominator(j + i + k, m, 2 * d);
    }
}

} // verus!
