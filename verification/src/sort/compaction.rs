//! Oblivious compaction: moving the real elements of an array to its front.
use vstd::prelude::*;
use crate::primitives::traits::{Cmov, CswapIndex, swap_spec, lemma_swap_spec_multiset};
use crate::primitives::utils::{get_smaller_or_equal_power_of_two, is_pow2, pow2_above, lemma_pow2_above, bit_length, usize_leading_zeros, lemma_usize_max_pow2};
use vstd::arithmetic::power2::{pow2, lemma_pow2_unfold, lemma_pow2_strictly_increases, lemma2_to64, lemma2_to64_rest};
use vstd::bits::lemma_usize_shl_is_mul;

verus! {

/// `p` counts something up by steps of zero or one.
pub open spec fn is_prefix_count(p: Seq<usize>) -> bool {
    forall|i: int| 0 < i < p.len() ==> (#[trigger] p[i] == p[i - 1] || p[i] == p[i - 1] + 1)
}

/// `p` is the prefix sum of the real (non-dummy) elements of `s`, where `is_dummy` decides
/// which elements are dummies: `p[i]` is the number of real elements among the first `i`.
pub open spec fn is_real_prefix_sum<T, F: Fn(&T) -> bool>(p: Seq<usize>, s: Seq<T>, is_dummy: F) -> bool {
    &&& p.len() == s.len() + 1
    &&& p[0] == 0
    &&& forall|i: int|
        0 <= i < s.len() ==> ((#[trigger] p[i + 1] == p[i] && is_dummy.ensures((&s[i],), true)) || (
        p[i + 1] == p[i] + 1 && is_dummy.ensures((&s[i],), false)))
}

/// Between two positions a prefix count grows by at most their distance.
pub proof fn lemma_prefix_count_bounds(p: Seq<usize>, a: int, b: int)
    requires
        is_prefix_count(p),
        0 <= a <= b < p.len(),
    ensures
        p[a] <= p[b] <= p[a] + (b - a),
    decreases b - a,
{
    if a < b {
        lemma_prefix_count_bounds(p, a, b - 1);
        assert(p[b] == p[b - 1] || p[b] == p[b - 1] + 1);
    }
}

/// A prefix sum of real elements is a prefix count.
proof fn lemma_real_prefix_sum_is_count<T, F: Fn(&T) -> bool>(p: Seq<usize>, s: Seq<T>, is_dummy: F)
    requires
        is_real_prefix_sum(p, s, is_dummy),
    ensures
        is_prefix_count(p),
{
    assert forall|i: int| 0 < i < p.len() implies (#[trigger] p[i] == p[i - 1] || p[i] == p[i - 1] + 1) by {
        assert(p[(i - 1) + 1] == p[i]);
    }
}

/// Computes the prefix sum of valid elements in arr: `ret[i]` is the number of elements
/// among the first `i` for which `is_dummy` is false. The access pattern depends only on
/// `arr.len()`.
pub fn compute_prefix_sum<T, F: Fn(&T) -> bool>(arr: &[T], is_dummy: F) -> (ret: Vec<usize>)
    requires
        arr@.len() < usize::MAX,
        forall|i: int| 0 <= i < arr@.len() ==> is_dummy.requires((&arr@[i],)),
    ensures
        is_real_prefix_sum(ret@, arr@, is_dummy),
        ret@[arr@.len() as int] <= arr@.len(),
{
    let size = arr.len();
    let mut sarr: Vec<usize> = vec![0; size + 1];
    let mut i: usize = 0;
    while i < size
        invariant
            size == arr@.len(),
            i <= size,
            sarr@.len() == size + 1,
            sarr@[0] == 0,
            sarr@[i as int] <= i,
            forall|i: int| 0 <= i < arr@.len() ==> is_dummy.requires((&arr@[i],)),
            forall|j: int|
                0 <= j < i ==> ((#[trigger] sarr@[j + 1] == sarr@[j] && is_dummy.ensures((&arr@[j],), true)) || (
                sarr@[j + 1] == sarr@[j] + 1 && is_dummy.ensures((&arr@[j],), false))),
        decreases size - i,
    {
        let mut adder: usize = 1;
        let d = is_dummy(&arr[i]);
        adder.cmov(&0, d);
        let next = sarr[i] + adder;
        sarr.set(i + 1, next);
        i += 1;
    }
    sarr
}

/// Number of dummy elements among the first `i`, by the prefix count `p` of the real ones.
spec fn dummies_before(p: Seq<usize>, i: int) -> int {
    i - p[i]
}

/// Where the real element `i` stands when level `l` of the Goodrich network starts: it has
/// moved left by the low `l` bits of the number of dummies before it.
spec fn level_pos(p: Seq<usize>, i: int, l: nat) -> int {
    i - dummies_before(p, i) % (pow2(l) as int)
}

/// The real element `i` moves at level `l`: bit `l` of the number of dummies before it.
spec fn level_bit(p: Seq<usize>, i: int, l: nat) -> bool {
    (dummies_before(p, i) / (pow2(l) as int)) % 2 == 1
}

/// How far the real element `i` still has to move when level `l` starts.
spec fn level_rem(p: Seq<usize>, i: int, l: nat) -> int {
    dummies_before(p, i) - dummies_before(p, i) % (pow2(l) as int)
}

/// Level `l` has handled the pairs below `j` and `i` moves at that level.
spec fn level_moved(p: Seq<usize>, i: int, l: nat, j: int) -> bool {
    level_bit(p, i, l) && level_pos(p, i, l) - pow2(l) < j
}

/// Where the real element `i` stands in level `l` once the pairs below `j` are handled.
spec fn level_loc(p: Seq<usize>, i: int, l: nat, j: int) -> int {
    if level_moved(p, i, l, j) {
        level_pos(p, i, l) - pow2(l)
    } else {
        level_pos(p, i, l)
    }
}

/// The distance the real element `i` still has to move at that point.
spec fn level_cs(p: Seq<usize>, i: int, l: nat, j: int) -> int {
    if level_moved(p, i, l, j) {
        level_rem(p, i, l) - pow2(l)
    } else {
        level_rem(p, i, l)
    }
}

/// The state of the Goodrich network in level `l` once the pairs below `j` are handled:
/// `own[x]` is the real element at `x`, or negative where a dummy is; every real element
/// sits where `level_loc` puts it with its remaining distance in `csum`, and a dummy has
/// distance zero.
spec fn goodrich_state<T>(arr: Seq<T>, csum: Seq<usize>, own: Seq<int>, orig: Seq<T>, p: Seq<usize>, l: nat, j: int) -> bool {
    let n = orig.len();
    &&& arr.len() == n
    &&& csum.len() == n
    &&& own.len() == n
    &&& forall|x: int| 0 <= x < n && #[trigger] own[x] >= 0 ==> own[x] < n && is_real(p, own[x]) && level_loc(p, own[x], l, j) == x
    &&& forall|x: int| 0 <= x < n && #[trigger] own[x] < 0 ==> csum[x] == 0
    &&& forall|i: int|
        0 <= i < n && #[trigger] is_real(p, i) ==> {
            &&& 0 <= level_loc(p, i, l, j) < n
            &&& own[level_loc(p, i, l, j)] == i
            &&& arr[level_loc(p, i, l, j)] == orig[i]
            &&& csum[level_loc(p, i, l, j)] == level_cs(p, i, l, j)
        }
}

/// Facts on one real element: its start position at level `l` lies in `[0, i]`, its
/// remaining distance is the multiple of `2^l` below the dummies before it, and moving or
/// not at level `l` leads to its start at level `l + 1`.
proof fn lemma_level_facts(p: Seq<usize>, i: int, l: nat)
    requires
        is_prefix_count(p),
        p[0] == 0,
        0 <= i < p.len() - 1,
    ensures
        0 <= dummies_before(p, i) <= i,
        0 <= level_rem(p, i, l) <= dummies_before(p, i),
        level_rem(p, i, l) == pow2(l) * (dummies_before(p, i) / (pow2(l) as int)),
        0 <= level_pos(p, i, l) <= i,
        level_bit(p, i, l) ==> level_pos(p, i, l) - pow2(l) >= 0 && level_rem(p, i, l) >= pow2(l),
        level_pos(p, i, l) - (if level_bit(p, i, l) { pow2(l) as int } else { 0 }) == level_pos(p, i, l + 1),
        level_rem(p, i, l) - (if level_bit(p, i, l) { pow2(l) as int } else { 0 }) == level_rem(p, i, l + 1),
{
    lemma_prefix_count_bounds(p, 0, i);
    let d = dummies_before(p, i);
    let a = pow2(l) as int;
    vstd::arithmetic::power2::lemma_pow2_pos(l);
    lemma_pow2_unfold(l + 1);
    assert(pow2(l + 1) as int == a * 2);
    vstd::arithmetic::div_mod::lemma_fundamental_div_mod(d, a);
    vstd::arithmetic::div_mod::lemma_mod_breakdown(d, a, 2);
    let q = d / a;
    assert(q >= 0) by {
        vstd::arithmetic::div_mod::lemma_div_pos_is_pos(d, a);
    }
    assert(0 <= d % a < a);
    let b = q % 2;
    assert(b == 0 || b == 1);
    assert((b == 0 ==> a * b == 0) && (b == 1 ==> a * b == a)) by (nonlinear_arith)
        requires
            b == 0 || b == 1,
    ;
    if b == 1 {
        assert(q >= 1);
        assert(a * q >= a) by (nonlinear_arith)
            requires
                q >= 1,
                a > 0,
        ;
    }
    assert(d % (a * 2) == a * b + d % a);
    assert(a * q >= 0) by (nonlinear_arith)
        requires
            q >= 0,
            a > 0,
    ;
}

/// Real elements keep their order at every level, and two real elements `2^l` apart
/// there move together at level `l`.
proof fn lemma_level_order(p: Seq<usize>, i1: int, i2: int, l: nat)
    requires
        is_prefix_count(p),
        p[0] == 0,
        0 <= i1 < i2 < p.len() - 1,
        is_real(p, i1),
    ensures
        level_pos(p, i1, l) < level_pos(p, i2, l),
        level_pos(p, i2, l) - level_pos(p, i1, l) == pow2(l) ==> level_bit(p, i1, l) == level_bit(p, i2, l),
{
    lemma_prefix_count_bounds(p, i1 + 1, i2);
    let a = pow2(l) as int;
    vstd::arithmetic::power2::lemma_pow2_pos(l);
    let d1 = dummies_before(p, i1);
    let d2 = dummies_before(p, i2);
    assert(d1 <= d2);
    vstd::arithmetic::div_mod::lemma_fundamental_div_mod(d1, a);
    vstd::arithmetic::div_mod::lemma_fundamental_div_mod(d2, a);
    vstd::arithmetic::div_mod::lemma_div_is_ordered(d1, d2, a);
    let m = d2 / a - d1 / a;
    assert(m >= 0);
    assert(a * (d2 / a) - a * (d1 / a) == a * m) by (nonlinear_arith)
        requires
            m == d2 / a - d1 / a,
    ;
    assert(level_pos(p, i2, l) - level_pos(p, i1, l) == (p[i2] - p[i1]) + a * m);
    assert(a * m >= 0) by (nonlinear_arith)
        requires
            m >= 0,
            a > 0,
    ;
    if level_pos(p, i2, l) - level_pos(p, i1, l) == a {
        if m >= 1 {
            assert(a * m >= a) by (nonlinear_arith)
                requires
                    m >= 1,
                    a > 0,
            ;
        }
        assert(m == 0);
    }
}

/// Bit `l` of `c`, read with a mask, is `(c / 2^l) % 2`.
proof fn lemma_and_bit(c: usize, l: usize)
    requires
        l < usize::BITS,
    ensures
        ((c & (1usize << l)) != 0) == ((c as int / (pow2(l as nat) as int)) % 2 == 1),
{
    assert(((c & (1usize << l)) != 0) == (((c >> l) & 1) == 1)) by (bit_vector)
        requires
            l < usize::BITS,
    ;
    let x = c >> l;
    assert(x & 1 == x % 2) by (bit_vector);
    vstd::bits::lemma_usize_shr_is_div(c, l);
}

/// Two real elements never start a level at the same position.
proof fn lemma_level_pos_injective(p: Seq<usize>, i1: int, i2: int, l: nat)
    requires
        is_prefix_count(p),
        p[0] == 0,
        0 <= i1 < p.len() - 1,
        0 <= i2 < p.len() - 1,
        is_real(p, i1),
        is_real(p, i2),
        level_pos(p, i1, l) == level_pos(p, i2, l),
    ensures
        i1 == i2,
{
    if i1 < i2 {
        lemma_level_order(p, i1, i2, l);
    } else if i2 < i1 {
        lemma_level_order(p, i2, i1, l);
    }
}

/// One compare-exchange of level `l` of the Goodrich network, between `j` and
/// `j + 2^l`: the element at `j + 2^l` moves to `j` exactly when it is real and moves at
/// level `l`, and `j` then holds a dummy.
#[verifier::spinoff_prover]
proof fn lemma_goodrich_step<T>(
    arr: Seq<T>,
    csum: Seq<usize>,
    own: Seq<int>,
    orig: Seq<T>,
    p: Seq<usize>,
    l: nat,
    j: int,
    pred: bool,
)
    requires
        goodrich_state(arr, csum, own, orig, p, l, j),
        p.len() == orig.len() + 1,
        is_prefix_count(p),
        p[0] == 0,
        0 <= j,
        j + pow2(l) < orig.len(),
        pred == ((csum[j + pow2(l)] as int / (pow2(l) as int)) % 2 == 1),
    ensures
        pred ==> csum[j + pow2(l)] >= pow2(l),
        goodrich_state(
            swap_spec(arr, j, j + pow2(l), pred),
            if pred {
                csum.update(j, (csum[j + pow2(l)] - pow2(l)) as usize).update(j + pow2(l), 0)
            } else {
                csum
            },
            if pred {
                own.update(j, own[j + pow2(l)]).update(j + pow2(l), -1)
            } else {
                own
            },
            orig,
            p,
            l,
            j + 1,
        ),
{
    let n = orig.len() as int;
    let off = pow2(l) as int;
    let a = j;
    let b = j + off;
    vstd::arithmetic::power2::lemma_pow2_pos(l);
    let arr2 = swap_spec(arr, a, b, pred);
    let csum2 = if pred {
        csum.update(a, (csum[b] - off) as usize).update(b, 0)
    } else {
        csum
    };
    let own2 = if pred {
        own.update(a, own[b]).update(b, -1)
    } else {
        own
    };
    // A real element whose position at level `l` is `b` stands there, and owns `b`.
    assert forall|i: int| 0 <= i < n && is_real(p, i) && level_pos(p, i, l) == b implies own[b] == i && !level_moved(
        p,
        i,
        l,
        j,
    ) by {
        assert(is_real(p, i));
    }
    if own[b] >= 0 {
        let i = own[b];
        assert(is_real(p, i));
        assert(level_loc(p, i, l, j) == b);
        lemma_level_facts(p, i, l);
        assert(!level_moved(p, i, l, j));
        assert(level_pos(p, i, l) == b);
        assert(csum[b] == level_rem(p, i, l));
        vstd::arithmetic::div_mod::lemma_div_multiples_vanish(dummies_before(p, i) / off, off);
        assert(pred == level_bit(p, i, l));
        if pred {
            if own[a] >= 0 {
                let i2 = own[a];
                assert(is_real(p, i2));
                lemma_level_facts(p, i2, l);
                if level_moved(p, i2, l, j) {
                    lemma_level_pos_injective(p, i, i2, l);
                } else {
                    assert(level_pos(p, i2, l) == a);
                    if i < i2 {
                        lemma_level_order(p, i, i2, l);
                    }
                    if i2 == i {
                    } else if i2 < i {
                        lemma_level_order(p, i2, i, l);
                        assert(level_bit(p, i2, l));
                        assert(level_moved(p, i2, l, j));
                    }
                }
            }
            assert(own[a] < 0);
            assert(csum[a] == 0);
            assert forall|x: int| 0 <= x < n && #[trigger] own2[x] >= 0 implies own2[x] < n && is_real(p, own2[x]) && level_loc(
                p,
                own2[x],
                l,
                j + 1,
            ) == x by {
                if x == a {
                    assert(own2[x] == i);
                } else if x != b {
                    let i3 = own[x];
                    assert(own2[x] == i3);
                    assert(is_real(p, i3));
                    assert(level_loc(p, i3, l, j) == x);
                    if level_pos(p, i3, l) == b {
                        assert(own[b] == i3);
                    }
                }
            }
            assert forall|x: int| 0 <= x < n && #[trigger] own2[x] < 0 implies csum2[x] == 0 by {
                if x != a && x != b {
                    assert(own[x] < 0);
                }
            }
            assert forall|i3: int| 0 <= i3 < n && #[trigger] is_real(p, i3) implies {
                &&& 0 <= level_loc(p, i3, l, j + 1) < n
                &&& own2[level_loc(p, i3, l, j + 1)] == i3
                &&& arr2[level_loc(p, i3, l, j + 1)] == orig[i3]
                &&& csum2[level_loc(p, i3, l, j + 1)] == level_cs(p, i3, l, j + 1)
            } by {
                assert(is_real(p, i3));
                if i3 == i {
                    assert(level_loc(p, i3, l, j + 1) == a);
                } else {
                    if level_pos(p, i3, l) == b {
                        assert(own[b] == i3);
                    }
                    assert(level_loc(p, i3, l, j + 1) == level_loc(p, i3, l, j));
                    let x = level_loc(p, i3, l, j);
                    assert(own[x] == i3);
                    assert(x != a);
                    assert(x != b);
                }
            }
        } else {
            assert forall|i3: int| 0 <= i3 < n && is_real(p, i3) implies level_loc(p, i3, l, j + 1) == level_loc(p, i3, l, j)
                && level_cs(p, i3, l, j + 1) == level_cs(p, i3, l, j) by {
                if level_pos(p, i3, l) == b {
                    assert(own[b] == i3);
                }
            }
            assert forall|x: int| 0 <= x < n && #[trigger] own2[x] >= 0 implies own2[x] < n && is_real(p, own2[x]) && level_loc(
                p,
                own2[x],
                l,
                j + 1,
            ) == x by {
                assert(is_real(p, own[x]));
            }
            assert forall|i3: int| 0 <= i3 < n && #[trigger] is_real(p, i3) implies {
                &&& 0 <= level_loc(p, i3, l, j + 1) < n
                &&& own2[level_loc(p, i3, l, j + 1)] == i3
                &&& arr2[level_loc(p, i3, l, j + 1)] == orig[i3]
                &&& csum2[level_loc(p, i3, l, j + 1)] == level_cs(p, i3, l, j + 1)
            } by {
                assert(is_real(p, i3));
            }
            assert(arr2 =~= arr);
        }
    } else {
        assert(csum[b] == 0);
        assert(!pred);
        assert forall|i3: int| 0 <= i3 < n && is_real(p, i3) implies level_loc(p, i3, l, j + 1) == level_loc(p, i3, l, j)
            && level_cs(p, i3, l, j + 1) == level_cs(p, i3, l, j) by {
            if level_pos(p, i3, l) == b {
                assert(own[b] == i3);
            }
        }
        assert forall|x: int| 0 <= x < n && #[trigger] own2[x] >= 0 implies own2[x] < n && is_real(p, own2[x]) && level_loc(
            p,
            own2[x],
            l,
            j + 1,
        ) == x by {
            assert(is_real(p, own[x]));
        }
        assert forall|i3: int| 0 <= i3 < n && #[trigger] is_real(p, i3) implies {
            &&& 0 <= level_loc(p, i3, l, j + 1) < n
            &&& own2[level_loc(p, i3, l, j + 1)] == i3
            &&& arr2[level_loc(p, i3, l, j + 1)] == orig[i3]
            &&& csum2[level_loc(p, i3, l, j + 1)] == level_cs(p, i3, l, j + 1)
        } by {
            assert(is_real(p, i3));
        }
        assert(arr2 =~= arr);
    }
}

/// Once level `l` has handled all its pairs, the state is that of the start of level
/// `l + 1`.
proof fn lemma_goodrich_next_level<T>(arr: Seq<T>, csum: Seq<usize>, own: Seq<int>, orig: Seq<T>, p: Seq<usize>, l: nat)
    requires
        goodrich_state(arr, csum, own, orig, p, l, orig.len() - pow2(l)),
        p.len() == orig.len() + 1,
        is_prefix_count(p),
        p[0] == 0,
    ensures
        goodrich_state(arr, csum, own, orig, p, l + 1, 0),
{
    let n = orig.len() as int;
    let j = n - pow2(l);
    assert forall|i: int| 0 <= i < n && is_real(p, i) implies level_loc(p, i, l + 1, 0) == level_loc(p, i, l, j) && level_cs(
        p,
        i,
        l + 1,
        0,
    ) == level_cs(p, i, l, j) by {
        lemma_level_facts(p, i, l);
        lemma_level_facts(p, i, l + 1);
    }
    assert forall|x: int| 0 <= x < n && #[trigger] own[x] >= 0 implies own[x] < n && is_real(p, own[x]) && level_loc(
        p,
        own[x],
        l + 1,
        0,
    ) == x by {
        assert(is_real(p, own[x]));
    }
    assert forall|i: int| 0 <= i < n && #[trigger] is_real(p, i) implies {
        &&& 0 <= level_loc(p, i, l + 1, 0) < n
        &&& own[level_loc(p, i, l + 1, 0)] == i
        &&& arr[level_loc(p, i, l + 1, 0)] == orig[i]
        &&& csum[level_loc(p, i, l + 1, 0)] == level_cs(p, i, l + 1, 0)
    } by {
        assert(is_real(p, i));
    }
}

/// At the start of the network every real element stands at its index with the number of
/// dummies before it as its distance.
proof fn lemma_goodrich_start<T>(arr: Seq<T>, csum: Seq<usize>, orig: Seq<T>, p: Seq<usize>)
    requires
        arr == orig,
        csum.len() == orig.len(),
        p.len() == orig.len() + 1,
        is_prefix_count(p),
        p[0] == 0,
        forall|k: int| 0 <= k < orig.len() ==> #[trigger] csum[k] == (if is_real(p, k) { dummies_before(p, k) } else { 0 }),
    ensures
        goodrich_state(arr, csum, Seq::new(orig.len(), |x: int| if is_real(p, x) { x } else { -1 }), orig, p, 0, 0),
{
    let n = orig.len() as int;
    let own = Seq::new(orig.len(), |x: int| if is_real(p, x) { x } else { -1 });
    vstd::arithmetic::power2::lemma2_to64();
    assert forall|i: int| 0 <= i < n && is_real(p, i) implies level_loc(p, i, 0, 0) == i && level_cs(p, i, 0, 0) == dummies_before(
        p,
        i,
    ) by {
        lemma_level_facts(p, i, 0);
    }
    assert forall|x: int| 0 <= x < n && #[trigger] own[x] >= 0 implies own[x] < n && is_real(p, own[x]) && level_loc(
        p,
        own[x],
        0,
        0,
    ) == x by {
        assert(is_real(p, x));
    }
    assert forall|x: int| 0 <= x < n && #[trigger] own[x] < 0 implies csum[x] == 0 by {
        assert(!is_real(p, x));
    }
    assert forall|i: int| 0 <= i < n && #[trigger] is_real(p, i) implies {
        &&& 0 <= level_loc(p, i, 0, 0) < n
        &&& own[level_loc(p, i, 0, 0)] == i
        &&& arr[level_loc(p, i, 0, 0)] == orig[i]
        &&& csum[level_loc(p, i, 0, 0)] == level_cs(p, i, 0, 0)
    } by {
        assert(level_loc(p, i, 0, 0) == i);
    }
}

/// Once the levels reach a power of two above every index, each real element stands at
/// its rank.
proof fn lemma_goodrich_end<T>(arr: Seq<T>, csum: Seq<usize>, own: Seq<int>, orig: Seq<T>, p: Seq<usize>, l: nat)
    requires
        goodrich_state(arr, csum, own, orig, p, l, 0),
        p.len() == orig.len() + 1,
        is_prefix_count(p),
        p[0] == 0,
        orig.len() <= pow2(l),
    ensures
        forall|i: int| 0 <= i < orig.len() && #[trigger] is_real(p, i) ==> arr[p[i] as int] == orig[i],
{
    let n = orig.len() as int;
    assert forall|i: int| 0 <= i < n && #[trigger] is_real(p, i) implies arr[p[i] as int] == orig[i] by {
        lemma_level_facts(p, i, l);
        vstd::arithmetic::power2::lemma_pow2_pos(l);
        vstd::arithmetic::div_mod::lemma_small_mod(dummies_before(p, i) as nat, pow2(l));
        assert(level_loc(p, i, l, 0) == p[i]);
    }
}

/// Stably compacts `arr` in place with the O(n log n) network of Goodrich
/// (<https://arxiv.org/pdf/1103.5102>) and returns the number of real elements (those
/// for which `is_dummy` is false): the real element of rank `r` ends at index `r`, so the
/// real elements come first, in their order. The elements are permuted obliviously; the
/// access pattern depends only on `arr.len()`.
#[verifier::spinoff_prover]
pub fn compact_goodrich<T: Cmov + Copy, F: Fn(&T) -> bool>(arr: &mut [T], is_dummy: F) -> (ret: usize)
    requires
        old(arr)@.len() <= usize::MAX / 2,
        forall|i: int| 0 <= i < old(arr)@.len() ==> is_dummy.requires((&old(arr)@[i],)),
    ensures
        final(arr)@.len() == old(arr)@.len(),
        final(arr)@.to_multiset() == old(arr)@.to_multiset(),
        exists|p: Seq<usize>|
            {
                &&& is_real_prefix_sum(p, old(arr)@, is_dummy)
                &&& ret == p[old(arr)@.len() as int]
                &&& forall|i: int| 0 <= i < old(arr)@.len() && #[trigger] is_real(p, i) ==> final(arr)@[p[i] as int] == old(arr)@[i]
            },
{
    let ghost orig = arr@;
    let n = arr.len();
    if n == 0 {
        proof {
            assert(is_real_prefix_sum(seq![0usize], orig, is_dummy));
        }
        return 0;
    }
    let l2len = (usize::BITS - usize_leading_zeros(n - 1)) as usize;
    let mut csum: Vec<usize> = vec![0; n];
    let mut dummy_count: usize = 0;
    csum.set(0, 0);
    let pred = is_dummy(&arr[0]);
    dummy_count.cmov(&1, pred);
    let ghost mut p: Seq<usize> = seq![0usize, (if pred { 0usize } else { 1usize })];
    let mut i: usize = 1;
    while i < n
        invariant
            n == arr@.len(),
            arr@ == orig,
            1 <= i <= n,
            csum@.len() == n,
            p.len() == i + 1,
            p[0] == 0,
            dummy_count + p[i as int] == i,
            forall|k: int| 0 <= k < orig.len() ==> is_dummy.requires((&orig[k],)),
            forall|k: int|
                0 <= k < i ==> ((#[trigger] p[k + 1] == p[k] && is_dummy.ensures((&orig[k],), true)) || (
                p[k + 1] == p[k] + 1 && is_dummy.ensures((&orig[k],), false))),
            forall|k: int| 0 <= k < i ==> #[trigger] csum@[k] == (if is_real(p, k) { dummies_before(p, k) } else { 0 }),
        decreases n - i,
    {
        csum.set(i, 0);
        let pred = is_dummy(&arr[i]);
        let next = dummy_count + 1;
        dummy_count.cmov(&next, pred);
        let mut c: usize = 0;
        c.cmov(&dummy_count, !pred);
        csum.set(i, c);
        proof {
            let last = p[i as int];
            let p_old = p;
            p = p.push(if pred { last } else { (last + 1) as usize });
            assert forall|k: int| 0 <= k < i + 1 implies #[trigger] csum@[k] == (if is_real(p, k) { dummies_before(p, k) } else { 0 }) by {
                if k < i {
                    assert(p[k] == p_old[k] && p[k + 1] == p_old[k + 1]);
                    assert(csum@[k] == (if is_real(p_old, k) { dummies_before(p_old, k) } else { 0 }));
                }
            }
        }
        i += 1;
    }
    let ret = n - dummy_count;
    proof {
        assert(is_real_prefix_sum(p, orig, is_dummy));
        lemma_real_prefix_sum_is_count(p, orig, is_dummy);
        lemma_pow2_above((n - 1) as int);
        lemma_goodrich_start(arr@, csum@, orig, p);
    }
    let ghost mut own: Seq<int> = Seq::new(orig.len(), |x: int| if is_real(p, x) { x } else { -1 });
    let mut lvl: usize = 0;
    while lvl < l2len
        invariant
            n == arr@.len(),
            n == orig.len(),
            n >= 1,
            n <= usize::MAX / 2,
            l2len == bit_length((n - 1) as nat),
            pow2_above((n - 1) as int) == pow2(l2len as nat),
            pow2_above((n - 1) as int) / 2 <= n - 1,
            n - 1 < pow2_above((n - 1) as int),
            lvl <= l2len,
            csum@.len() == n,
            arr@.to_multiset() == orig.to_multiset(),
            p.len() == n + 1,
            is_prefix_count(p),
            p[0] == 0,
            goodrich_state(arr@, csum@, own, orig, p, lvl as nat, 0),
        decreases l2len - lvl,
    {
        proof {
            lemma_pow2_unfold(l2len as nat);
            if lvl < l2len - 1 {
                lemma_pow2_strictly_increases(lvl as nat, (l2len - 1) as nat);
            }
            assert(pow2(lvl as nat) <= n - 1);
            lemma_usize_max_pow2();
            if lvl >= usize::BITS {
                lemma_pow2_strictly_increases((usize::BITS - 1) as nat, lvl as nat);
            }
            assert(lvl < usize::BITS);
            vstd::arithmetic::power2::lemma_pow2_pos(lvl as nat);
            assert(1 * pow2(lvl as nat) <= usize::MAX);
            lemma_usize_shl_is_mul(1, lvl);
            assert(1usize << lvl == pow2(lvl as nat));
        }
        let offset: usize = 1usize << lvl;
        let mut j: usize = 0;
        while j < n - offset
            invariant
                n == arr@.len(),
                n == orig.len(),
                1 <= offset < n,
                offset == pow2(lvl as nat),
                offset == 1usize << lvl,
                lvl < usize::BITS,
                j <= n - offset,
                csum@.len() == n,
                arr@.to_multiset() == orig.to_multiset(),
                p.len() == n + 1,
                is_prefix_count(p),
                p[0] == 0,
                goodrich_state(arr@, csum@, own, orig, p, lvl as nat, j as int),
            decreases n - offset - j,
        {
            let a = j;
            let b = j + offset;
            let pred = (csum[b] & offset) != 0;
            proof {
                lemma_swap_spec_multiset(arr@, a as int, b as int, pred);
                lemma_and_bit(csum@[b as int], lvl);
                lemma_goodrich_step(arr@, csum@, own, orig, p, lvl as nat, j as int, pred);
            }
            let ghost csum0 = csum@;
            arr.cswap(a, b, pred);
            let newacsum = csum[b].wrapping_sub(offset);
            let mut ca = csum[a];
            ca.cmov(&newacsum, pred);
            csum.set(a, ca);
            let mut cb = csum[b];
            cb.cmov(&0, pred);
            csum.set(b, cb);
            proof {
                if pred {
                    assert(csum@ =~= csum0.update(a as int, (csum0[b as int] - offset) as usize).update(b as int, 0));
                    own = own.update(a as int, own[b as int]).update(b as int, -1);
                } else {
                    assert(csum@ =~= csum0);
                }
            }
            j += 1;
        }
        proof {
            lemma_goodrich_next_level(arr@, csum@, own, orig, p, lvl as nat);
        }
        lvl += 1;
    }
    proof {
        lemma_goodrich_end(arr@, csum@, own, orig, p, l2len as nat);
    }
    ret
}

/// `x % d` when `x` lies in `[q * d, (q + 1) * d)`.
proof fn lemma_mod_window(x: int, d: int, q: int)
    requires
        d >= 1,
        q * d <= x < q * d + d,
    ensures
        x % d == x - q * d,
{
    vstd::arithmetic::div_mod::lemma_fundamental_div_mod_converse(x, d, q, x - q * d);
}

/// Where the merge step of the compaction to offset `z` of a region of `2h` elements puts
/// the element of rank `r` of the left half, compacted to offset `z % h` in that half:
/// from offset `i` it goes to `i + h` exactly when the pair at `i` is swapped.
proof fn lemma_offset_left(z: int, h: int, m: int, r: int)
    requires
        h >= 1,
        0 <= z < 2 * h,
        0 <= m <= h,
        0 <= r < m,
    ensures
        ({
            let zl = z % h;
            let zr = (z + m) % h;
            let s = (zl + m >= h) != (z >= h);
            let i = (zl + r) % h;
            &&& 0 <= i < h
            &&& (z + r) % (2 * h) == i + (if s != (i >= zr) { h } else { 0 })
        }),
{
    let qz: int = if z >= h { 1 } else { 0 };
    lemma_mod_window(z, h, qz);
    let zl = z - qz * h;
    let qa: int = if zl + r >= h { 1 } else { 0 };
    lemma_mod_window(zl + r, h, qa);
    let qm: int = if z + m >= 2 * h { 2 } else if z + m >= h { 1 } else { 0 };
    lemma_mod_window(z + m, h, qm);
    let qt: int = if z + r >= 2 * h { 1 } else { 0 };
    lemma_mod_window(z + r, 2 * h, qt);
}

/// Where the merge step of the compaction to offset `z` of a region of `2h` elements puts
/// the element of rank `m + r` (rank `r` of the right half, compacted to offset
/// `(z + m) % h` in that half): from offset `i + h` it goes to `i` exactly when the pair
/// at `i` is swapped.
proof fn lemma_offset_right(z: int, h: int, m: int, total: int, r: int)
    requires
        h >= 1,
        0 <= z < 2 * h,
        0 <= m <= h,
        m <= total <= m + h,
        0 <= r < total - m,
    ensures
        ({
            let zl = z % h;
            let zr = (z + m) % h;
            let s = (zl + m >= h) != (z >= h);
            let i = (zr + r) % h;
            &&& 0 <= i < h
            &&& (z + m + r) % (2 * h) == i + (if s != (i >= zr) { 0 } else { h })
        }),
{
    let qz: int = if z >= h { 1 } else { 0 };
    lemma_mod_window(z, h, qz);
    let qm: int = if z + m >= 2 * h { 2 } else if z + m >= h { 1 } else { 0 };
    lemma_mod_window(z + m, h, qm);
    let zr = z + m - qm * h;
    let qa: int = if zr + r >= h { 1 } else { 0 };
    lemma_mod_window(zr + r, h, qa);
    let qt: int = if z + m + r >= 4 * h { 2 } else if z + m + r >= 2 * h { 1 } else { 0 };
    lemma_mod_window(z + m + r, 2 * h, qt);
}

/// Position `i` holds a real element, as marked by the prefix count `p`.
pub open spec fn is_real(p: Seq<usize>, i: int) -> bool {
    p[i + 1] == p[i] + 1
}

/// Compacts the power-of-two region `arr[start..start + n)` to the offset `z`, as marked
/// by the prefix sum `payload[start..=start + n]`: the real element of rank `r` in the
/// region (counted from its start) ends at `start + (z + r) % n`. The elements are
/// permuted; nothing outside the region moves.
#[verifier::spinoff_prover]
#[verifier::rlimit(60)]
fn compact_payload_offset<T: Cmov + Copy>(arr: &mut [T], payload: &[usize], start: usize, n: usize, z: usize)
    requires
        is_pow2(n as int),
        n >= 2,
        start + n <= old(arr)@.len(),
        old(arr)@.len() <= usize::MAX / 2,
        payload@.len() == old(arr)@.len() + 1,
        is_prefix_count(payload@),
        z < n,
    ensures
        final(arr)@.len() == old(arr)@.len(),
        final(arr)@.to_multiset() == old(arr)@.to_multiset(),
        forall|i: int| 0 <= i < old(arr)@.len() && !(start <= i < start + n) ==> final(arr)@[i] == old(arr)@[i],
        forall|i: int|
            start <= i < start + n && #[trigger] is_real(payload@, i) ==> final(arr)@[start + (z + payload@[i] - payload@[start as int])
                % (n as int)] == old(arr)@[i],
    decreases n,
{
    let ghost orig = arr@;
    let ghost p = payload@;
    let half_n = n / 2;
    proof {
        assert(n % 2 == 0 && is_pow2(half_n as int));
        lemma_prefix_count_bounds(payload@, start as int, (start + half_n) as int);
        lemma_prefix_count_bounds(payload@, (start + 1) as int, (start + 2) as int);
    }
    let m = payload[start + half_n] - payload[start];
    if n == 2 {
        let should_swap = ((!m) & (payload[start + 2] - payload[start + 1])) != z;
        proof {
            lemma_swap_spec_multiset(arr@, start as int, (start + 1) as int, should_swap);
            let x = (payload[start + 2] - payload[start + 1]) as usize;
            assert(x <= 1);
            assert(m <= 1);
            assert(m <= 1 && x <= 1 ==> ((!m) & x) == (if m == 0 && x == 1 { 1usize } else { 0usize })) by (bit_vector);
        }
        arr.cswap(start, start + 1, should_swap);
        proof {
            assert forall|i: int|
                start <= i < start + n && #[trigger] is_real(p, i) implies arr@[start + (z + p[i] - p[start as int]) % (n as int)]
                == orig[i] by {
                let r = p[i] - p[start as int];
                if i == start {
                    lemma_mod_window(z + r, 2, if z + r >= 2 { 1 } else { 0 });
                } else {
                    lemma_mod_window(z + r, 2, if z + r >= 2 { 1 } else { 0 });
                }
            }
        }
        return;
    }
    let zleft = z % half_n;
    let zright = (z + m) % half_n;
    compact_payload_offset(arr, payload, start, half_n, zleft);
    let ghost a1 = arr@;
    compact_payload_offset(arr, payload, start + half_n, half_n, zright);

    let s_a = zleft + m >= half_n;
    let s_b = z >= half_n;
    let s = s_a != s_b;
    let ghost mid = arr@;
    let mut i: usize = 0;
    while i < half_n
        invariant
            half_n == n / 2,
            half_n + half_n == n,
            start + n <= arr@.len(),
            arr@.len() <= usize::MAX / 2,
            i <= half_n,
            arr@.len() == mid.len(),
            arr@.to_multiset() == mid.to_multiset(),
            forall|x: int| 0 <= x < mid.len() && !(start <= x < start + n) ==> arr@[x] == mid[x],
            forall|q: int| 0 <= q < half_n ==> #[trigger] merged_pair(arr@, mid, start as int, half_n as int, q, i as int, s, zright as int),
        decreases half_n - i,
    {
        let cond = s != (i >= zright);
        proof {
            lemma_swap_spec_multiset(arr@, (start + i) as int, (start + i + half_n) as int, cond);
        }
        let ghost before = arr@;
        arr.cswap(start + i, start + i + half_n, cond);
        proof {
            assert forall|q: int| 0 <= q < half_n implies #[trigger] merged_pair(arr@, mid, start as int, half_n as int, q, i + 1, s, zright as int) by {
                assert(merged_pair(before, mid, start as int, half_n as int, q, i as int, s, zright as int));
            }
        }
        i += 1;
    }
    proof {
        lemma_offset_result(orig, a1, mid, arr@, p, start as int, n as int, z as int, m as int, s, zleft as int, zright as int);
    }
}

/// In the merge step of the compaction on `[st, st + 2h)`, the pair at offset `q` of `f`
/// is the pair of `mid`, swapped when `s != (q >= zr)`, once `q < i`.
pub open spec fn merged_pair<T>(f: Seq<T>, mid: Seq<T>, st: int, h: int, q: int, i: int, s: bool, zr: int) -> bool {
    let c = s != (q >= zr);
    &&& q < i ==> f[st + q] == (if c { mid[st + q + h] } else { mid[st + q] })
    &&& q < i ==> f[st + q + h] == (if c { mid[st + q] } else { mid[st + q + h] })
    &&& q >= i ==> f[st + q] == mid[st + q] && f[st + q + h] == mid[st + q + h]
}

/// The compaction of both halves followed by the merge step compacts the region.
proof fn lemma_offset_result<T>(
    orig: Seq<T>,
    a1: Seq<T>,
    mid: Seq<T>,
    f: Seq<T>,
    p: Seq<usize>,
    st: int,
    n: int,
    z: int,
    m: int,
    s: bool,
    zleft: int,
    zright: int,
)
    requires
        n >= 4,
        n % 2 == 0,
        st >= 0,
        st + n <= orig.len(),
        p.len() == orig.len() + 1,
        is_prefix_count(p),
        0 <= z < n,
        m == p[st + n / 2] - p[st],
        zleft == z % (n / 2),
        zright == (z + m) % (n / 2),
        s == ((zleft + m >= n / 2) != (z >= n / 2)),
        a1.len() == orig.len(),
        mid.len() == orig.len(),
        forall|q: int| 0 <= q < n / 2 ==> #[trigger] merged_pair(f, mid, st, n / 2, q, n / 2, s, zright),
        forall|i: int| 0 <= i < orig.len() && !(st <= i < st + n / 2) ==> a1[i] == orig[i],
        forall|i: int|
            st <= i < st + n / 2 && #[trigger] is_real(p, i) ==> a1[st + (zleft + p[i] - p[st]) % (n / 2)] == orig[i],
        forall|i: int| 0 <= i < orig.len() && !(st + n / 2 <= i < st + n) ==> mid[i] == a1[i],
        forall|i: int|
            st + n / 2 <= i < st + n && #[trigger] is_real(p, i) ==> mid[st + n / 2 + (zright + p[i] - p[st + n / 2]) % (n / 2)] == a1[i],
    ensures
        forall|k: int| st <= k < st + n && #[trigger] is_real(p, k) ==> f[st + (z + p[k] - p[st]) % n] == orig[k],
{
    lemma_offset_result_left(orig, a1, mid, f, p, st, n, z, m, s, zleft, zright);
    lemma_offset_result_right(orig, a1, mid, f, p, st, n, z, m, s, zleft, zright);
}

/// The real elements of the left half are compacted.
#[verifier::spinoff_prover]
proof fn lemma_offset_result_left<T>(
    orig: Seq<T>,
    a1: Seq<T>,
    mid: Seq<T>,
    f: Seq<T>,
    p: Seq<usize>,
    st: int,
    n: int,
    z: int,
    m: int,
    s: bool,
    zleft: int,
    zright: int,
)
    requires
        n >= 4,
        n % 2 == 0,
        st >= 0,
        st + n <= orig.len(),
        p.len() == orig.len() + 1,
        is_prefix_count(p),
        0 <= z < n,
        m == p[st + n / 2] - p[st],
        zleft == z % (n / 2),
        zright == (z + m) % (n / 2),
        s == ((zleft + m >= n / 2) != (z >= n / 2)),
        a1.len() == orig.len(),
        mid.len() == orig.len(),
        forall|q: int| 0 <= q < n / 2 ==> #[trigger] merged_pair(f, mid, st, n / 2, q, n / 2, s, zright),
        forall|i: int|
            st <= i < st + n / 2 && #[trigger] is_real(p, i) ==> a1[st + (zleft + p[i] - p[st]) % (n / 2)] == orig[i],
        forall|i: int| 0 <= i < orig.len() && !(st + n / 2 <= i < st + n) ==> mid[i] == a1[i],
    ensures
        forall|k: int| st <= k < st + n / 2 && #[trigger] is_real(p, k) ==> f[st + (z + p[k] - p[st]) % n] == orig[k],
{
    let h = n / 2;
    lemma_prefix_count_bounds(p, st, st + h);
    assert forall|k: int| st <= k < st + h && #[trigger] is_real(p, k) implies f[st + (z + p[k] - p[st]) % n] == orig[k] by {
        lemma_prefix_count_bounds(p, st, k);
        lemma_prefix_count_bounds(p, k + 1, st + h);
        let r = p[k] - p[st];
        assert(a1[st + (zleft + r) % h] == orig[k]);
        assert(mid[st + (zleft + r) % h] == orig[k]);
        lemma_offset_place_left(f, mid, st, h, z, m, s, zright, r, orig[k]);
    }
}

/// The real elements of the right half are compacted.
#[verifier::spinoff_prover]
proof fn lemma_offset_result_right<T>(
    orig: Seq<T>,
    a1: Seq<T>,
    mid: Seq<T>,
    f: Seq<T>,
    p: Seq<usize>,
    st: int,
    n: int,
    z: int,
    m: int,
    s: bool,
    zleft: int,
    zright: int,
)
    requires
        n >= 4,
        n % 2 == 0,
        st >= 0,
        st + n <= orig.len(),
        p.len() == orig.len() + 1,
        is_prefix_count(p),
        0 <= z < n,
        m == p[st + n / 2] - p[st],
        zleft == z % (n / 2),
        zright == (z + m) % (n / 2),
        s == ((zleft + m >= n / 2) != (z >= n / 2)),
        a1.len() == orig.len(),
        mid.len() == orig.len(),
        forall|q: int| 0 <= q < n / 2 ==> #[trigger] merged_pair(f, mid, st, n / 2, q, n / 2, s, zright),
        forall|i: int| 0 <= i < orig.len() && !(st <= i < st + n / 2) ==> a1[i] == orig[i],
        forall|i: int|
            st + n / 2 <= i < st + n && #[trigger] is_real(p, i) ==> mid[st + n / 2 + (zright + p[i] - p[st + n / 2]) % (n / 2)] == a1[i],
    ensures
        forall|k: int| st + n / 2 <= k < st + n && #[trigger] is_real(p, k) ==> f[st + (z + p[k] - p[st]) % n] == orig[k],
{
    let h = n / 2;
    let total = p[st + n] - p[st];
    lemma_prefix_count_bounds(p, st, st + h);
    lemma_prefix_count_bounds(p, st + h, st + n);
    assert forall|k: int| st + h <= k < st + n && #[trigger] is_real(p, k) implies f[st + (z + p[k] - p[st]) % n] == orig[k] by {
        lemma_prefix_count_bounds(p, st + h, k);
        lemma_prefix_count_bounds(p, k + 1, st + n);
        let r = p[k] - p[st + h];
        assert(a1[k] == orig[k]);
        assert(mid[st + h + (zright + r) % h] == orig[k]);
        lemma_offset_place_right(f, mid, st, h, z, m, total, s, zright, r, orig[k]);
        assert(z + p[k] - p[st] == z + m + r);
    }
}

/// The element `v` of rank `r` of the left half, at offset `(z % h + r) % h` before the
/// merge step, ends at `(z + r) % 2h`.
proof fn lemma_offset_place_left<T>(f: Seq<T>, mid: Seq<T>, st: int, h: int, z: int, m: int, s: bool, zr: int, r: int, v: T)
    requires
        h >= 1,
        0 <= z < 2 * h,
        0 <= m <= h,
        0 <= r < m,
        zr == (z + m) % h,
        s == ((z % h + m >= h) != (z >= h)),
        mid[st + (z % h + r) % h] == v,
        forall|q: int| 0 <= q < h ==> #[trigger] merged_pair(f, mid, st, h, q, h, s, zr),
    ensures
        f[st + (z + r) % (2 * h)] == v,
{
    lemma_offset_left(z, h, m, r);
    let q = (z % h + r) % h;
    assert(merged_pair(f, mid, st, h, q, h, s, zr));
}

/// The element `v` of rank `r` of the right half, at offset `h + ((z + m) % h + r) % h`
/// before the merge step, ends at `(z + m + r) % 2h`.
proof fn lemma_offset_place_right<T>(f: Seq<T>, mid: Seq<T>, st: int, h: int, z: int, m: int, total: int, s: bool, zr: int, r: int, v: T)
    requires
        h >= 1,
        0 <= z < 2 * h,
        0 <= m <= h,
        m <= total <= m + h,
        0 <= r < total - m,
        zr == (z + m) % h,
        s == ((z % h + m >= h) != (z >= h)),
        mid[st + h + (zr + r) % h] == v,
        forall|q: int| 0 <= q < h ==> #[trigger] merged_pair(f, mid, st, h, q, h, s, zr),
    ensures
        f[st + (z + m + r) % (2 * h)] == v,
{
    lemma_offset_right(z, h, m, total, r);
    let q = (zr + r) % h;
    assert(merged_pair(f, mid, st, h, q, h, s, zr));
}

/// Stably compacts the prefix `arr[..n)` as marked by the prefix sum `payload[..=n]`: the
/// real element of rank `r` ends at `r`.
fn compact_payload_prefix<T: Cmov + Copy>(arr: &mut [T], payload: &[usize], n: usize)
    requires
        n <= old(arr)@.len(),
        old(arr)@.len() <= usize::MAX / 2,
        payload@.len() == old(arr)@.len() + 1,
        is_prefix_count(payload@),
    ensures
        final(arr)@.len() == old(arr)@.len(),
        final(arr)@.to_multiset() == old(arr)@.to_multiset(),
        forall|i: int| n <= i < old(arr)@.len() ==> final(arr)@[i] == old(arr)@[i],
        forall|i: int| 0 <= i < n && #[trigger] is_real(payload@, i) ==> final(arr)@[payload@[i] - payload@[0]] == old(arr)@[i],
    decreases n,
{
    let ghost orig = arr@;
    let ghost p = payload@;
    if n <= 1 {
        return;
    }
    let n1 = get_smaller_or_equal_power_of_two(n);
    proof {
        lemma_pow2_above(n as int);
    }
    let n2 = n - n1;
    if n2 == 0 {
        compact_payload_offset(arr, payload, 0, n1, 0);
        proof {
            assert forall|i: int| 0 <= i < n && #[trigger] is_real(p, i) implies arr@[p[i] - p[0]] == orig[i] by {
                lemma_prefix_count_bounds(p, 0, i);
                lemma_prefix_count_bounds(p, i + 1, n as int);
                lemma_mod_window(p[i] - p[0], n1 as int, 0);
                assert(arr@[0 + (0 + p[i] - p[0]) % (n1 as int)] == orig[i]);
            }
        }
        return;
    }
    proof {
        lemma_prefix_count_bounds(payload@, 0, n2 as int);
    }
    let m = payload[n2] - payload[0];
    compact_payload_prefix(arr, payload, n2);
    let ghost a1 = arr@;
    let zz = (n1 - n2 + m) % n1;
    compact_payload_offset(arr, payload, n2, n1, zz);
    let ghost mid = arr@;
    let mut i: usize = 0;
    while i < n2
        invariant
            n2 < n1,
            n1 + n2 == n,
            n <= arr@.len(),
            i <= n2,
            arr@.len() == mid.len(),
            arr@.to_multiset() == mid.to_multiset(),
            forall|x: int| n <= x < mid.len() ==> arr@[x] == mid[x],
            forall|q: int| 0 <= q < n2 ==> #[trigger] merged_pair(arr@, mid, 0, n1 as int, q, i as int, false, m as int),
            forall|x: int| n2 <= x < n1 ==> arr@[x] == mid[x],
        decreases n2 - i,
    {
        proof {
            lemma_swap_spec_multiset(arr@, i as int, (i + n1) as int, i >= m);
        }
        let ghost before = arr@;
        arr.cswap(i, i + n1, i >= m);
        proof {
            assert forall|q: int| 0 <= q < n2 implies #[trigger] merged_pair(arr@, mid, 0, n1 as int, q, i + 1, false, m as int) by {
                assert(merged_pair(before, mid, 0, n1 as int, q, i as int, false, m as int));
            }
        }
        i += 1;
    }
    proof {
        lemma_prefix_result(orig, a1, mid, arr@, p, n as int, n1 as int, n2 as int, m as int, zz as int);
    }
}

/// The compaction of the first part, the compaction of the power-of-two rest to its offset
/// and the merge step stably compact the prefix.
proof fn lemma_prefix_result<T>(orig: Seq<T>, a1: Seq<T>, mid: Seq<T>, f: Seq<T>, p: Seq<usize>, n: int, n1: int, n2: int, m: int, zz: int)
    requires
        1 <= n2 < n1,
        n1 + n2 == n,
        n <= orig.len(),
        p.len() == orig.len() + 1,
        is_prefix_count(p),
        m == p[n2] - p[0],
        zz == (n1 - n2 + m) % n1,
        a1.len() == orig.len(),
        mid.len() == orig.len(),
        f.len() == orig.len(),
        forall|i: int| n2 <= i < orig.len() ==> a1[i] == orig[i],
        forall|i: int| 0 <= i < n2 && #[trigger] is_real(p, i) ==> a1[p[i] - p[0]] == orig[i],
        forall|i: int| 0 <= i < orig.len() && !(n2 <= i < n2 + n1) ==> mid[i] == a1[i],
        forall|i: int| n2 <= i < n2 + n1 && #[trigger] is_real(p, i) ==> mid[n2 + (zz + p[i] - p[n2]) % n1] == a1[i],
        forall|q: int| 0 <= q < n2 ==> #[trigger] merged_pair(f, mid, 0, n1, q, n2, false, m),
        forall|x: int| n2 <= x < n1 ==> f[x] == mid[x],
    ensures
        forall|i: int| 0 <= i < n && #[trigger] is_real(p, i) ==> f[p[i] - p[0]] == orig[i],
{
    assert forall|i: int| 0 <= i < n && #[trigger] is_real(p, i) implies f[p[i] - p[0]] == orig[i] by {
        if i < n2 {
            lemma_prefix_one_left(orig, a1, mid, f, p, n, n1, n2, m, zz, i);
        } else {
            lemma_prefix_one_right(orig, a1, mid, f, p, n, n1, n2, m, zz, i);
        }
    }
}

/// A real element of the first part ends at its rank.
#[verifier::spinoff_prover]
proof fn lemma_prefix_one_left<T>(orig: Seq<T>, a1: Seq<T>, mid: Seq<T>, f: Seq<T>, p: Seq<usize>, n: int, n1: int, n2: int, m: int, zz: int, i: int)
    requires
        1 <= n2 < n1,
        n1 + n2 == n,
        n <= orig.len(),
        p.len() == orig.len() + 1,
        is_prefix_count(p),
        m == p[n2] - p[0],
        zz == (n1 - n2 + m) % n1,
        a1.len() == orig.len(),
        mid.len() == orig.len(),
        f.len() == orig.len(),
        forall|i: int| n2 <= i < orig.len() ==> a1[i] == orig[i],
        forall|i: int| 0 <= i < n2 && #[trigger] is_real(p, i) ==> a1[p[i] - p[0]] == orig[i],
        forall|i: int| 0 <= i < orig.len() && !(n2 <= i < n2 + n1) ==> mid[i] == a1[i],
        forall|i: int| n2 <= i < n2 + n1 && #[trigger] is_real(p, i) ==> mid[n2 + (zz + p[i] - p[n2]) % n1] == a1[i],
        forall|q: int| 0 <= q < n2 ==> #[trigger] merged_pair(f, mid, 0, n1, q, n2, false, m),
        forall|x: int| n2 <= x < n1 ==> f[x] == mid[x],
        0 <= i < n2,
        is_real(p, i),
    ensures
        f[p[i] - p[0]] == orig[i],
{
    lemma_prefix_count_bounds(p, 0, i);
    lemma_prefix_count_bounds(p, i + 1, n2);
    let r = p[i] - p[0];
    assert(a1[r] == orig[i]);
    assert(merged_pair(f, mid, 0, n1, r, n2, false, m));
}

/// A real element of the power-of-two rest ends at its rank.
#[verifier::spinoff_prover]
#[verifier::rlimit(80)]
proof fn lemma_prefix_one_right<T>(orig: Seq<T>, a1: Seq<T>, mid: Seq<T>, f: Seq<T>, p: Seq<usize>, n: int, n1: int, n2: int, m: int, zz: int, i: int)
    requires
        1 <= n2 < n1,
        n1 + n2 == n,
        n <= orig.len(),
        p.len() == orig.len() + 1,
        is_prefix_count(p),
        m == p[n2] - p[0],
        zz == (n1 - n2 + m) % n1,
        a1.len() == orig.len(),
        mid.len() == orig.len(),
        f.len() == orig.len(),
        forall|i: int| n2 <= i < orig.len() ==> a1[i] == orig[i],
        forall|i: int| 0 <= i < n2 && #[trigger] is_real(p, i) ==> a1[p[i] - p[0]] == orig[i],
        forall|i: int| 0 <= i < orig.len() && !(n2 <= i < n2 + n1) ==> mid[i] == a1[i],
        forall|i: int| n2 <= i < n2 + n1 && #[trigger] is_real(p, i) ==> mid[n2 + (zz + p[i] - p[n2]) % n1] == a1[i],
        forall|q: int| 0 <= q < n2 ==> #[trigger] merged_pair(f, mid, 0, n1, q, n2, false, m),
        forall|x: int| n2 <= x < n1 ==> f[x] == mid[x],
        n2 <= i < n,
        is_real(p, i),
    ensures
        f[p[i] - p[0]] == orig[i],
{
    lemma_prefix_count_bounds(p, 0, n2);
    lemma_prefix_count_bounds(p, n2, n);
    lemma_prefix_count_bounds(p, n2, i);
    lemma_prefix_count_bounds(p, i + 1, n);
    let rp = p[i] - p[n2];
    let r = m + rp;
    lemma_prefix_pos(n1, n2, m, zz, rp, p[n] - p[0]);
    assert(mid[n2 + (zz + rp) % n1] == orig[i]);
    if r < n2 {
        assert(merged_pair(f, mid, 0, n1, r, n2, false, m));
    } else if r >= n1 {
        assert(merged_pair(f, mid, 0, n1, r - n1, n2, false, m));
    }
}

/// Where the compaction of the power-of-two rest puts the real element of rank `m + rp`:
/// at its rank, or `n1` further when the merge step brings it back to its rank.
proof fn lemma_prefix_pos(n1: int, n2: int, m: int, zz: int, rp: int, total: int)
    requires
        1 <= n2 < n1,
        0 <= m <= n2,
        zz == (n1 - n2 + m) % n1,
        0 <= rp,
        m + rp < total,
        total - m <= n1,
    ensures
        ({
            let pos = n2 + (zz + rp) % n1;
            let r = m + rp;
            &&& r < n2 ==> pos == r + n1 && r >= m
            &&& n2 <= r < n1 ==> pos == r
            &&& r >= n1 ==> pos == r && r - n1 < m
        }),
{
    if m < n2 {
        lemma_mod_window(n1 - n2 + m, n1, 0);
    } else {
        lemma_mod_window(n1 - n2 + m, n1, 1);
    }
    lemma_mod_window(zz + rp, n1, if zz + rp >= n1 { 1 } else { 0 });
}

/// Stably compacts an array `arr` of length n, as marked by the prefix sum `payload` of
/// its real elements (`payload.len() == arr.len() + 1`): the real element of rank `r`
/// ends at `r`, so the real elements come first, in their order. The elements of `arr`
/// are permuted obliviously; the access pattern depends only on `arr.len()`.
pub fn compact_payload<T: Cmov + Copy>(arr: &mut [T], payload: &[usize])
    requires
        payload@.len() == old(arr)@.len() + 1,
        old(arr)@.len() <= usize::MAX / 2,
        is_prefix_count(payload@),
    ensures
        final(arr)@.len() == old(arr)@.len(),
        final(arr)@.to_multiset() == old(arr)@.to_multiset(),
        forall|i: int|
            0 <= i < old(arr)@.len() && #[trigger] is_real(payload@, i) ==> final(arr)@[payload@[i] - payload@[0]] == old(arr)@[i],
{
    let n = arr.len();
    compact_payload_prefix(arr, payload, n);
}

/// Stably compacts the real elements of `arr` (those for which `is_dummy` is false) to its
/// front and returns their number: the real elements come first, in their order. The
/// elements are permuted obliviously; the access pattern depends only on `arr.len()`.
pub fn compact<T: Cmov + Copy, F: Fn(&T) -> bool>(arr: &mut [T], is_dummy: F) -> (ret: usize)
    requires
        old(arr)@.len() <= usize::MAX / 2,
        forall|i: int| 0 <= i < old(arr)@.len() ==> is_dummy.requires((&old(arr)@[i],)),
    ensures
        final(arr)@.len() == old(arr)@.len(),
        final(arr)@.to_multiset() == old(arr)@.to_multiset(),
        exists|p: Seq<usize>|
            {
                &&& is_real_prefix_sum(p, old(arr)@, is_dummy)
                &&& ret == p[old(arr)@.len() as int]
                &&& forall|i: int| 0 <= i < old(arr)@.len() && #[trigger] is_real(p, i) ==> final(arr)@[p[i] as int] == old(arr)@[i]
            },
{
    let ghost orig = arr@;
    let payload = compute_prefix_sum(arr, is_dummy);
    proof {
        lemma_real_prefix_sum_is_count(payload@, arr@, is_dummy);
    }
    compact_payload(arr, &payload);
    proof {
        let p = payload@;
        assert(is_real_prefix_sum(p, orig, is_dummy));
        assert forall|i: int| 0 <= i < orig.len() && #[trigger] is_real(p, i) implies arr@[p[i] as int] == orig[i] by {
            assert(arr@[p[i] - p[0]] == orig[i]);
        }
    }
    payload[payload.len() - 1]
}

/// Distributes the power-of-two region `arr[start..start + n)` from the offset `z`; the
/// inverse of `compact_payload_offset` for the same payload: the real element at `i` is
/// taken from `start + (z + r) % n`, where `r` is its rank in the region.
#[verifier::rlimit(40)]
fn distribute_payload_offset<T: Cmov + Copy>(arr: &mut [T], payload: &[usize], start: usize, n: usize, z: usize)
    requires
        is_pow2(n as int),
        n >= 2,
        start + n <= old(arr)@.len(),
        old(arr)@.len() <= usize::MAX / 2,
        payload@.len() == old(arr)@.len() + 1,
        is_prefix_count(payload@),
        z < n,
    ensures
        final(arr)@.len() == old(arr)@.len(),
        final(arr)@.to_multiset() == old(arr)@.to_multiset(),
        forall|i: int| 0 <= i < old(arr)@.len() && !(start <= i < start + n) ==> final(arr)@[i] == old(arr)@[i],
        forall|i: int|
            start <= i < start + n && #[trigger] is_real(payload@, i) ==> final(arr)@[i] == old(arr)@[start + (z + payload@[i]
                - payload@[start as int]) % (n as int)],
    decreases n,
{
    let ghost orig = arr@;
    let ghost p = payload@;
    let half_n = n / 2;
    proof {
        assert(n % 2 == 0 && is_pow2(half_n as int));
        lemma_prefix_count_bounds(payload@, start as int, (start + half_n) as int);
        lemma_prefix_count_bounds(payload@, (start + 1) as int, (start + 2) as int);
    }
    let m = payload[start + half_n] - payload[start];
    if n == 2 {
        let should_swap = ((!m) & (payload[start + 2] - payload[start + 1])) != z;
        proof {
            lemma_swap_spec_multiset(arr@, start as int, (start + 1) as int, should_swap);
            let x = (payload[start + 2] - payload[start + 1]) as usize;
            assert(x <= 1);
            assert(m <= 1);
            assert(m <= 1 && x <= 1 ==> ((!m) & x) == (if m == 0 && x == 1 { 1usize } else { 0usize })) by (bit_vector);
        }
        arr.cswap(start, start + 1, should_swap);
        proof {
            assert forall|i: int|
                start <= i < start + n && #[trigger] is_real(p, i) implies arr@[i] == orig[start + (z + p[i] - p[start as int]) % (
            n as int)] by {
                let r = p[i] - p[start as int];
                lemma_mod_window(z + r, 2, if z + r >= 2 { 1 } else { 0 });
            }
        }
        return;
    }
    let zleft = z % half_n;
    let zright = (z + m) % half_n;
    let s_a = zleft + m >= half_n;
    let s_b = z >= half_n;
    let s = s_a != s_b;
    let mut i: usize = 0;
    while i < half_n
        invariant
            half_n == n / 2,
            half_n + half_n == n,
            start + n <= arr@.len(),
            arr@.len() <= usize::MAX / 2,
            i <= half_n,
            arr@.len() == orig.len(),
            arr@.to_multiset() == orig.to_multiset(),
            forall|x: int| 0 <= x < orig.len() && !(start <= x < start + n) ==> arr@[x] == orig[x],
            forall|q: int| 0 <= q < half_n ==> #[trigger] merged_pair(arr@, orig, start as int, half_n as int, q, i as int, s, zright as int),
        decreases half_n - i,
    {
        let cond = s != (i >= zright);
        proof {
            lemma_swap_spec_multiset(arr@, (start + i) as int, (start + i + half_n) as int, cond);
        }
        let ghost before = arr@;
        arr.cswap(start + i, start + i + half_n, cond);
        proof {
            assert forall|q: int| 0 <= q < half_n implies #[trigger] merged_pair(arr@, orig, start as int, half_n as int, q, i + 1, s, zright as int) by {
                assert(merged_pair(before, orig, start as int, half_n as int, q, i as int, s, zright as int));
            }
        }
        i += 1;
    }
    let ghost mid = arr@;
    distribute_payload_offset(arr, payload, start, half_n, zleft);
    let ghost a1 = arr@;
    distribute_payload_offset(arr, payload, start + half_n, half_n, zright);
    proof {
        lemma_dist_offset_result(orig, mid, a1, arr@, p, start as int, n as int, z as int, m as int, s, zleft as int, zright as int);
    }
}

/// The swap step followed by the distribution of both halves distributes the region.
proof fn lemma_dist_offset_result<T>(
    orig: Seq<T>,
    mid: Seq<T>,
    a1: Seq<T>,
    f: Seq<T>,
    p: Seq<usize>,
    st: int,
    n: int,
    z: int,
    m: int,
    s: bool,
    zleft: int,
    zright: int,
)
    requires
        n >= 4,
        n % 2 == 0,
        st >= 0,
        st + n <= orig.len(),
        p.len() == orig.len() + 1,
        is_prefix_count(p),
        0 <= z < n,
        m == p[st + n / 2] - p[st],
        zleft == z % (n / 2),
        zright == (z + m) % (n / 2),
        s == ((zleft + m >= n / 2) != (z >= n / 2)),
        forall|q: int| 0 <= q < n / 2 ==> #[trigger] merged_pair(mid, orig, st, n / 2, q, n / 2, s, zright),
        forall|i: int| 0 <= i < orig.len() && !(st <= i < st + n / 2) ==> a1[i] == mid[i],
        forall|i: int|
            st <= i < st + n / 2 && #[trigger] is_real(p, i) ==> a1[i] == mid[st + (zleft + p[i] - p[st]) % (n / 2)],
        forall|i: int| 0 <= i < orig.len() && !(st + n / 2 <= i < st + n) ==> f[i] == a1[i],
        forall|i: int|
            st + n / 2 <= i < st + n && #[trigger] is_real(p, i) ==> f[i] == a1[st + n / 2 + (zright + p[i] - p[st + n / 2]) % (n / 2)],
    ensures
        forall|k: int| st <= k < st + n && #[trigger] is_real(p, k) ==> f[k] == orig[st + (z + p[k] - p[st]) % n],
{
    lemma_dist_result_left(orig, mid, a1, f, p, st, n, z, m, s, zleft, zright);
    lemma_dist_result_right(orig, mid, a1, f, p, st, n, z, m, s, zleft, zright);
}

/// The real elements of the left half are distributed.
#[verifier::spinoff_prover]
proof fn lemma_dist_result_left<T>(
    orig: Seq<T>,
    mid: Seq<T>,
    a1: Seq<T>,
    f: Seq<T>,
    p: Seq<usize>,
    st: int,
    n: int,
    z: int,
    m: int,
    s: bool,
    zleft: int,
    zright: int,
)
    requires
        n >= 4,
        n % 2 == 0,
        st >= 0,
        st + n <= orig.len(),
        p.len() == orig.len() + 1,
        is_prefix_count(p),
        0 <= z < n,
        m == p[st + n / 2] - p[st],
        zleft == z % (n / 2),
        zright == (z + m) % (n / 2),
        s == ((zleft + m >= n / 2) != (z >= n / 2)),
        forall|q: int| 0 <= q < n / 2 ==> #[trigger] merged_pair(mid, orig, st, n / 2, q, n / 2, s, zright),
        forall|i: int|
            st <= i < st + n / 2 && #[trigger] is_real(p, i) ==> a1[i] == mid[st + (zleft + p[i] - p[st]) % (n / 2)],
        forall|i: int| 0 <= i < orig.len() && !(st + n / 2 <= i < st + n) ==> f[i] == a1[i],
    ensures
        forall|k: int| st <= k < st + n / 2 && #[trigger] is_real(p, k) ==> f[k] == orig[st + (z + p[k] - p[st]) % n],
{
    let h = n / 2;
    lemma_prefix_count_bounds(p, st, st + h);
    assert forall|k: int| st <= k < st + h && #[trigger] is_real(p, k) implies f[k] == orig[st + (z + p[k] - p[st]) % n] by {
        lemma_prefix_count_bounds(p, st, k);
        lemma_prefix_count_bounds(p, k + 1, st + h);
        let r = p[k] - p[st];
        assert(f[k] == a1[k]);
        assert(a1[k] == mid[st + (zleft + r) % h]);
        lemma_dist_place_left(mid, orig, st, h, z, m, s, zright, r);
    }
}

/// The real elements of the right half are distributed.
#[verifier::spinoff_prover]
proof fn lemma_dist_result_right<T>(
    orig: Seq<T>,
    mid: Seq<T>,
    a1: Seq<T>,
    f: Seq<T>,
    p: Seq<usize>,
    st: int,
    n: int,
    z: int,
    m: int,
    s: bool,
    zleft: int,
    zright: int,
)
    requires
        n >= 4,
        n % 2 == 0,
        st >= 0,
        st + n <= orig.len(),
        p.len() == orig.len() + 1,
        is_prefix_count(p),
        0 <= z < n,
        m == p[st + n / 2] - p[st],
        zleft == z % (n / 2),
        zright == (z + m) % (n / 2),
        s == ((zleft + m >= n / 2) != (z >= n / 2)),
        forall|q: int| 0 <= q < n / 2 ==> #[trigger] merged_pair(mid, orig, st, n / 2, q, n / 2, s, zright),
        forall|i: int| 0 <= i < orig.len() && !(st <= i < st + n / 2) ==> a1[i] == mid[i],
        forall|i: int|
            st + n / 2 <= i < st + n && #[trigger] is_real(p, i) ==> f[i] == a1[st + n / 2 + (zright + p[i] - p[st + n / 2]) % (n / 2)],
    ensures
        forall|k: int| st + n / 2 <= k < st + n && #[trigger] is_real(p, k) ==> f[k] == orig[st + (z + p[k] - p[st]) % n],
{
    let h = n / 2;
    let total = p[st + n] - p[st];
    lemma_prefix_count_bounds(p, st, st + h);
    lemma_prefix_count_bounds(p, st + h, st + n);
    assert forall|k: int| st + h <= k < st + n && #[trigger] is_real(p, k) implies f[k] == orig[st + (z + p[k] - p[st]) % n] by {
        lemma_prefix_count_bounds(p, st + h, k);
        lemma_prefix_count_bounds(p, k + 1, st + n);
        let r = p[k] - p[st + h];
        assert(f[k] == a1[st + h + (zright + r) % h]);
        assert(a1[st + h + (zright + r) % h] == mid[st + h + (zright + r) % h]);
        lemma_dist_place_right(mid, orig, st, h, z, m, total, s, zright, r);
        assert(z + p[k] - p[st] == z + m + r);
    }
}

/// Before the distribution of the left half, the element at offset `(z % h + r) % h` is the
/// one at `(z + r) % 2h` before the swap step.
proof fn lemma_dist_place_left<T>(mid: Seq<T>, orig: Seq<T>, st: int, h: int, z: int, m: int, s: bool, zr: int, r: int)
    requires
        h >= 1,
        0 <= z < 2 * h,
        0 <= m <= h,
        0 <= r < m,
        zr == (z + m) % h,
        s == ((z % h + m >= h) != (z >= h)),
        forall|q: int| 0 <= q < h ==> #[trigger] merged_pair(mid, orig, st, h, q, h, s, zr),
    ensures
        mid[st + (z % h + r) % h] == orig[st + (z + r) % (2 * h)],
{
    lemma_offset_left(z, h, m, r);
    let q = (z % h + r) % h;
    assert(merged_pair(mid, orig, st, h, q, h, s, zr));
}

/// Before the distribution of the right half, the element at offset
/// `h + ((z + m) % h + r) % h` is the one at `(z + m + r) % 2h` before the swap step.
proof fn lemma_dist_place_right<T>(mid: Seq<T>, orig: Seq<T>, st: int, h: int, z: int, m: int, total: int, s: bool, zr: int, r: int)
    requires
        h >= 1,
        0 <= z < 2 * h,
        0 <= m <= h,
        m <= total <= m + h,
        0 <= r < total - m,
        zr == (z + m) % h,
        s == ((z % h + m >= h) != (z >= h)),
        forall|q: int| 0 <= q < h ==> #[trigger] merged_pair(mid, orig, st, h, q, h, s, zr),
    ensures
        mid[st + h + (zr + r) % h] == orig[st + (z + m + r) % (2 * h)],
{
    lemma_offset_right(z, h, m, total, r);
    let q = (zr + r) % h;
    assert(merged_pair(mid, orig, st, h, q, h, s, zr));
}

/// Distributes the prefix `arr[..n)` as marked by the prefix sum `payload[..=n]`: the real
/// element at `i` is taken from its rank.
fn distribute_payload_prefix<T: Cmov + Copy>(arr: &mut [T], payload: &[usize], n: usize)
    requires
        n <= old(arr)@.len(),
        old(arr)@.len() <= usize::MAX / 2,
        payload@.len() == old(arr)@.len() + 1,
        is_prefix_count(payload@),
    ensures
        final(arr)@.len() == old(arr)@.len(),
        final(arr)@.to_multiset() == old(arr)@.to_multiset(),
        forall|i: int| n <= i < old(arr)@.len() ==> final(arr)@[i] == old(arr)@[i],
        forall|i: int| 0 <= i < n && #[trigger] is_real(payload@, i) ==> final(arr)@[i] == old(arr)@[payload@[i] - payload@[0]],
    decreases n,
{
    let ghost orig = arr@;
    let ghost p = payload@;
    if n <= 1 {
        return;
    }
    let n1 = get_smaller_or_equal_power_of_two(n);
    proof {
        lemma_pow2_above(n as int);
    }
    let n2 = n - n1;
    if n2 == 0 {
        distribute_payload_offset(arr, payload, 0, n1, 0);
        proof {
            assert forall|i: int| 0 <= i < n && #[trigger] is_real(p, i) implies arr@[i] == orig[p[i] - p[0]] by {
                lemma_prefix_count_bounds(p, 0, i);
                lemma_prefix_count_bounds(p, i + 1, n as int);
                lemma_mod_window(p[i] - p[0], n1 as int, 0);
                assert(arr@[i] == orig[0 + (0 + p[i] - p[0]) % (n1 as int)]);
            }
        }
        return;
    }
    proof {
        lemma_prefix_count_bounds(payload@, 0, n2 as int);
    }
    let m = payload[n2] - payload[0];
    let mut i: usize = 0;
    while i < n2
        invariant
            n2 < n1,
            n1 + n2 == n,
            n <= arr@.len(),
            arr@.len() <= usize::MAX / 2,
            i <= n2,
            arr@.len() == orig.len(),
            arr@.to_multiset() == orig.to_multiset(),
            forall|x: int| n <= x < orig.len() ==> arr@[x] == orig[x],
            forall|q: int| 0 <= q < n2 ==> #[trigger] merged_pair(arr@, orig, 0, n1 as int, q, i as int, false, m as int),
            forall|x: int| n2 <= x < n1 ==> arr@[x] == orig[x],
        decreases n2 - i,
    {
        proof {
            lemma_swap_spec_multiset(arr@, i as int, (i + n1) as int, i >= m);
        }
        let ghost before = arr@;
        arr.cswap(i, i + n1, i >= m);
        proof {
            assert forall|q: int| 0 <= q < n2 implies #[trigger] merged_pair(arr@, orig, 0, n1 as int, q, i + 1, false, m as int) by {
                assert(merged_pair(before, orig, 0, n1 as int, q, i as int, false, m as int));
            }
        }
        i += 1;
    }
    let ghost mid = arr@;
    distribute_payload_prefix(arr, payload, n2);
    let ghost a1 = arr@;
    let zz = (n1 - n2 + m) % n1;
    distribute_payload_offset(arr, payload, n2, n1, zz);
    proof {
        assert forall|k: int| 0 <= k < n && #[trigger] is_real(p, k) implies arr@[k] == orig[p[k] - p[0]] by {
            if k < n2 {
                lemma_dist_prefix_left(orig, mid, a1, arr@, p, n as int, n1 as int, n2 as int, m as int, zz as int, k);
            } else {
                lemma_dist_prefix_right(orig, mid, a1, arr@, p, n as int, n1 as int, n2 as int, m as int, zz as int, k);
            }
        }
    }
}

/// A real element of the first part of the prefix is taken from its rank.
#[verifier::spinoff_prover]
proof fn lemma_dist_prefix_left<T>(orig: Seq<T>, mid: Seq<T>, a1: Seq<T>, f: Seq<T>, p: Seq<usize>, n: int, n1: int, n2: int, m: int, zz: int, k: int)
    requires
        1 <= n2 < n1,
        n1 + n2 == n,
        n <= orig.len(),
        p.len() == orig.len() + 1,
        is_prefix_count(p),
        m == p[n2] - p[0],
        zz == (n1 - n2 + m) % n1,
        forall|q: int| 0 <= q < n2 ==> #[trigger] merged_pair(mid, orig, 0, n1, q, n2, false, m),
        forall|x: int| n2 <= x < n1 ==> mid[x] == orig[x],
        forall|i: int| n2 <= i < orig.len() ==> a1[i] == mid[i],
        forall|i: int| 0 <= i < n2 && #[trigger] is_real(p, i) ==> a1[i] == mid[p[i] - p[0]],
        forall|i: int| 0 <= i < orig.len() && !(n2 <= i < n2 + n1) ==> f[i] == a1[i],
        forall|i: int| n2 <= i < n2 + n1 && #[trigger] is_real(p, i) ==> f[i] == a1[n2 + (zz + p[i] - p[n2]) % n1],
        0 <= k < n2,
        is_real(p, k),
    ensures
        f[k] == orig[p[k] - p[0]],
{
    lemma_prefix_count_bounds(p, 0, k);
    lemma_prefix_count_bounds(p, k + 1, n2);
    let r = p[k] - p[0];
    assert(f[k] == a1[k]);
    assert(a1[k] == mid[r]);
    assert(merged_pair(mid, orig, 0, n1, r, n2, false, m));
}

/// A real element of the power-of-two rest of the prefix is taken from its rank.
#[verifier::spinoff_prover]
#[verifier::rlimit(80)]
proof fn lemma_dist_prefix_right<T>(orig: Seq<T>, mid: Seq<T>, a1: Seq<T>, f: Seq<T>, p: Seq<usize>, n: int, n1: int, n2: int, m: int, zz: int, k: int)
    requires
        1 <= n2 < n1,
        n1 + n2 == n,
        n <= orig.len(),
        p.len() == orig.len() + 1,
        is_prefix_count(p),
        m == p[n2] - p[0],
        zz == (n1 - n2 + m) % n1,
        forall|q: int| 0 <= q < n2 ==> #[trigger] merged_pair(mid, orig, 0, n1, q, n2, false, m),
        forall|x: int| n2 <= x < n1 ==> mid[x] == orig[x],
        forall|i: int| n2 <= i < orig.len() ==> a1[i] == mid[i],
        forall|i: int| 0 <= i < n2 && #[trigger] is_real(p, i) ==> a1[i] == mid[p[i] - p[0]],
        forall|i: int| 0 <= i < orig.len() && !(n2 <= i < n2 + n1) ==> f[i] == a1[i],
        forall|i: int| n2 <= i < n2 + n1 && #[trigger] is_real(p, i) ==> f[i] == a1[n2 + (zz + p[i] - p[n2]) % n1],
        n2 <= k < n,
        is_real(p, k),
    ensures
        f[k] == orig[p[k] - p[0]],
{
    lemma_prefix_count_bounds(p, 0, n2);
    lemma_prefix_count_bounds(p, n2, n);
    lemma_prefix_count_bounds(p, n2, k);
    lemma_prefix_count_bounds(p, k + 1, n);
    let rp = p[k] - p[n2];
    let r = m + rp;
    lemma_prefix_pos(n1, n2, m, zz, rp, p[n] - p[0]);
    let pos = n2 + (zz + rp) % n1;
    assert(f[k] == a1[pos]);
    assert(a1[pos] == mid[pos]);
    if r < n2 {
        assert(merged_pair(mid, orig, 0, n1, r, n2, false, m));
    } else if r >= n1 {
        assert(merged_pair(mid, orig, 0, n1, r - n1, n2, false, m));
    }
}

/// Distributes the elements of arr according to the prefix sum payload: the reverse of
/// compaction for the same payload, the real element at `i` taken from its rank. The
/// elements are permuted obliviously.
pub fn distribute_payload<T: Cmov + Copy>(arr: &mut [T], payload: &[usize])
    requires
        payload@.len() == old(arr)@.len() + 1,
        old(arr)@.len() <= usize::MAX / 2,
        is_prefix_count(payload@),
    ensures
        final(arr)@.len() == old(arr)@.len(),
        final(arr)@.to_multiset() == old(arr)@.to_multiset(),
        forall|i: int|
            0 <= i < old(arr)@.len() && #[trigger] is_real(payload@, i) ==> final(arr)@[i] == old(arr)@[payload@[i] - payload@[0]],
{
    let n = arr.len();
    distribute_payload_prefix(arr, payload, n);
}

/// Distributing with a payload undoes compacting with it: every real element is back at
/// its place.
pub proof fn lemma_distribute_undoes_compact<T>(x: Seq<T>, compacted: Seq<T>, distributed: Seq<T>, payload: Seq<usize>)
    requires
        payload.len() == x.len() + 1,
        forall|i: int| 0 <= i < x.len() && #[trigger] is_real(payload, i) ==> compacted[payload[i] - payload[0]] == x[i],
        forall|i: int| 0 <= i < x.len() && #[trigger] is_real(payload, i) ==> distributed[i] == compacted[payload[i] - payload[0]],
    ensures
        forall|i: int| 0 <= i < x.len() && #[trigger] is_real(payload, i) ==> distributed[i] == x[i],
{
}

} // verus!
