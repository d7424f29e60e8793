//! Small integer utilities: max, min and powers of two.
use vstd::prelude::*;
use vstd::arithmetic::power2::{pow2, lemma_pow2_unfold, lemma_pow2_pos, lemma2_to64, lemma2_to64_rest};
use vstd::bits::{lemma_usize_shr_is_div, lemma_usize_shl_is_mul};
use vstd::arithmetic::div_mod::lemma_basic_div;

verus! {

/// Const version of `std::cmp::max`.
pub fn max(a: usize, b: usize) -> (r: usize)
    ensures
        r == (if a > b { a } else { b }),
{
    if a > b {
        a
    } else {
        b
    }
}

/// Const version of `std::cmp::min`.
pub fn min(a: usize, b: usize) -> (r: usize)
    ensures
        r == (if a < b { a } else { b }),
{
    if a < b {
        a
    } else {
        b
    }
}

/// `x` is a power of two.
pub open spec fn is_pow2(x: int) -> bool
    decreases x,
{
    if x <= 0 {
        false
    } else if x == 1 {
        true
    } else {
        x % 2 == 0 && is_pow2(x / 2)
    }
}

/// The smallest power of two that is strictly greater than `n`.
pub open spec fn pow2_above(n: int) -> int
    decreases n,
{
    if n <= 0 {
        1
    } else {
        2 * pow2_above(n / 2)
    }
}

/// Number of binary digits of `n` (0 for 0).
pub open spec fn bit_length(n: nat) -> nat
    decreases n,
{
    if n == 0 {
        0
    } else {
        1 + bit_length(n / 2)
    }
}

/// What the saturating power-of-two helpers return: `pow2_above(n)`, or `usize::MAX`
/// when that does not fit.
pub open spec fn saturated_pow2_above(n: int) -> int {
    if pow2_above(n) <= usize::MAX {
        pow2_above(n)
    } else {
        usize::MAX as int
    }
}

/// `pow2_above(n)` is a power of two, greater than `n`, and at most `2n + 1`.
pub proof fn lemma_pow2_above(n: int)
    requires
        0 <= n,
    ensures
        is_pow2(pow2_above(n)),
        n < pow2_above(n),
        pow2_above(n) / 2 <= n,
        pow2_above(n) == pow2(bit_length(n as nat)),
    decreases n,
{
    if n > 0 {
        lemma_pow2_above(n / 2);
        lemma_pow2_unfold(bit_length(n as nat));
        assert(pow2_above(n) / 2 == pow2_above(n / 2));
    } else {
        lemma2_to64();
        assert(pow2_above(0) == 1);
        assert(pow2_above(1) == 2);
    }
}

/// The smallest power of two above `2^j` is `2^(j+1)`.
proof fn lemma_pow2_above_of_pow2(j: nat)
    ensures
        pow2_above(pow2(j) as int) == pow2(j + 1),
    decreases j,
{
    lemma_pow2_unfold(j + 1);
    lemma_pow2_pos(j);
    if j > 0 {
        lemma_pow2_unfold(j);
        lemma_pow2_above_of_pow2((j - 1) as nat);
        assert(pow2(j) as int / 2 == pow2((j - 1) as nat));
        assert(pow2_above(pow2((j - 1) as nat) as int) == pow2(j));
        assert(pow2_above(pow2(j) as int) == 2 * pow2_above(pow2(j) as int / 2));
    } else {
        lemma2_to64();
        assert(pow2_above(0) == 1);
        assert(pow2_above(1) == 2);
    }
}

/// A power of two `p` with `p / 2 <= n < p` is `pow2_above(n)`.
pub proof fn lemma_pow2_above_unique(p: int, n: int)
    requires
        is_pow2(p),
        0 <= n,
        p / 2 <= n < p,
    ensures
        p == pow2_above(n),
    decreases n,
{
    if n > 0 {
        assert(p >= 2);
        lemma_pow2_above_unique(p / 2, n / 2);
    }
}

/// `pow2_above` is monotone.
proof fn lemma_pow2_above_monotone(a: int, b: int)
    requires
        0 <= a <= b,
    ensures
        pow2_above(a) <= pow2_above(b),
    decreases b,
{
    lemma_pow2_above(b);
    if a > 0 {
        lemma_pow2_above_monotone(a / 2, b / 2);
    }
}

proof fn lemma_half_of_pow2_bits(x: usize)
    by (bit_vector)
    requires
        x > 1,
        x & ((x - 1) as usize) == 0,
    ensures
        x % 2 == 0,
        (x / 2) & ((x / 2 - 1) as usize) == 0,
{
}

proof fn lemma_pow2_from_bits(x: usize)
    requires
        x > 0,
        x & ((x - 1) as usize) == 0,
    ensures
        is_pow2(x as int),
    decreases x,
{
    if x > 1 {
        lemma_half_of_pow2_bits(x);
        lemma_pow2_from_bits(x / 2);
    }
}

proof fn lemma_smear(n: usize)
    by (bit_vector)
    ensures
        ({
            let m1 = n | (n >> 1usize);
            let m2 = m1 | (m1 >> 2usize);
            let m3 = m2 | (m2 >> 4usize);
            let m4 = m3 | (m3 >> 8usize);
            let m5 = m4 | (m4 >> 16usize);
            let m6 = if usize::BITS == 64 { m5 | (m5 >> 32usize) } else { m5 };
            &&& n <= m6
            &&& ((m6 + 1) as usize) & m6 == 0
            &&& n > 0 ==> (m6 >> 1usize) < n
            &&& n == 0 ==> m6 == 0
            &&& (usize::BITS == 64 && (n >> 63usize) == 0) ==> (m6 >> 63usize) == 0
            &&& (usize::BITS == 32 && (n >> 31usize) == 0) ==> (m6 >> 31usize) == 0
            &&& (usize::BITS == 64 && (n >> 63usize) != 0) ==> ((m6 + 1) as usize) == 0
            &&& (usize::BITS == 32 && (n >> 31usize) != 0) ==> ((m6 + 1) as usize) == 0
        }),
{
}

proof fn lemma_half_plus_one(m: usize)
    by (bit_vector)
    requires
        ((m + 1) as usize) & m == 0,
        (m + 1) as usize != 0,
        m > 0,
    ensures
        ((m + 1) as usize) / 2 == (m >> 1usize) + 1,
{
}

/// Returns the smallest power of two that is strictly greater than the given size,
/// saturating at `usize::MAX`.
pub fn get_strictly_bigger_power_of_two(n: usize) -> (r: usize)
    ensures
        r == saturated_pow2_above(n as int),
{
    let mut m = n;
    m = m | (m >> 1usize);
    m = m | (m >> 2usize);
    m = m | (m >> 4usize);
    m = m | (m >> 8usize);
    m = m | (m >> 16usize);
    if usize::BITS == 64 {
        m = m | (m >> 32usize);
    }
    let r = m.saturating_add(1);
    proof {
        lemma_smear(n);
        lemma_pow2_above(n as int);
        lemma2_to64();
        lemma2_to64_rest();
        let top: usize = (usize::BITS - 1) as usize;
        lemma_usize_shr_is_div(n, top);
        lemma_usize_shr_is_div(m, top);
        lemma_pow2_above_of_pow2(top as nat);
        if n >> top == 0 {
            assert(m < usize::MAX);
            if n > 0 {
                lemma_half_plus_one(m);
            }
            assert(r == m + 1);
            assert(((r - 1) as usize) == m);
            lemma_pow2_from_bits(r);
            lemma_pow2_above_unique(r as int, n as int);
        } else {
            lemma_pow2_pos(top as nat);
            if (n as int) < pow2(top as nat) {
                lemma_basic_div(n as int, pow2(top as nat) as int);
            }
            assert(n >= pow2(top as nat));
            lemma_pow2_above_monotone(pow2(top as nat) as int, n as int);
        }
    }
    r
}

/// `2^k` is a power of two.
pub proof fn lemma_pow2_is_pow2(k: nat)
    ensures
        is_pow2(pow2(k) as int),
    decreases k,
{
    lemma_pow2_pos(k);
    if k > 0 {
        lemma_pow2_unfold(k);
        lemma_pow2_is_pow2((k - 1) as nat);
        assert(pow2(k) as int / 2 == pow2((k - 1) as nat));
    } else {
        lemma2_to64();
    }
}

/// Facts about `usize::MAX` in terms of powers of two.
pub proof fn lemma_usize_max_pow2()
    ensures
        usize::BITS == 32 || usize::BITS == 64,
        usize::MAX + 1 == pow2(usize::BITS as nat),
        usize::MAX / 2 + 1 == pow2((usize::BITS - 1) as nat),
{
    lemma2_to64();
    lemma2_to64_rest();
}

/// Calls std's `usize::leading_zeros`, which std documents as the number of leading
/// zeros in the binary representation: `usize::BITS` minus the bit length.
#[verifier::external_body]
pub(crate) fn usize_leading_zeros(x: usize) -> (r: u32)
    ensures
        r as int == usize::BITS - bit_length(x as nat),
{
    x.leading_zeros()
}

/// Returns the smallest power of two that is strictly greater than the given size.
pub fn get_strictly_bigger_power_of_two_clz(size: usize) -> (r: usize)
    requires
        size <= usize::MAX / 2,
    ensures
        r == pow2_above(size as int),
{
    proof {
        lemma_pow2_above(size as int);
        lemma_usize_max_pow2();
        let bl = bit_length(size as nat);
        if bl >= usize::BITS {
            if bl - 1 > usize::BITS - 1 {
                vstd::arithmetic::power2::lemma_pow2_strictly_increases((usize::BITS - 1) as nat, (bl - 1) as nat);
            }
            lemma_pow2_unfold(bl);
        }
    }
    let lz = usize_leading_zeros(size);
    let shift = (usize::BITS - lz) as usize;
    proof {
        lemma_usize_shl_is_mul(1, shift);
    }
    1usize << shift
}

/// Returns the smallest power of two that is strictly greater than the given size.
pub fn get_strictly_bigger_power_of_two_loop(size: usize) -> (r: usize)
    requires
        size <= usize::MAX / 2,
    ensures
        r == pow2_above(size as int),
{
    let mut n: usize = 1;
    let ghost mut k: nat = 0;
    proof {
        lemma2_to64();
    }
    while n <= size
        invariant
            size <= usize::MAX / 2,
            n == pow2(k),
            n >= 1,
            k == 0 || pow2((k - 1) as nat) <= size,
        decreases usize::MAX - n,
    {
        proof {
            lemma_pow2_unfold(k + 1);
        }
        n = n * 2;
        proof {
            k = k + 1;
        }
    }
    proof {
        lemma_pow2_is_pow2(k);
        if k > 0 {
            lemma_pow2_unfold(k);
        }
        lemma_pow2_above_unique(n as int, size as int);
    }
    n
}

/// Returns the largest power of two that is smaller than or equal to `n`.
pub fn get_smaller_or_equal_power_of_two(n: usize) -> (r: usize)
    requires
        n >= 1,
    ensures
        r == pow2_above(n as int) / 2,
{
    proof {
        lemma_usize_max_pow2();
    }
    if n > usize::MAX / 2 {
        proof {
            lemma_pow2_is_pow2(usize::BITS as nat);
            lemma_pow2_above_unique(usize::MAX + 1, n as int);
        }
        usize::MAX / 2 + 1
    } else {
        let p = get_strictly_bigger_power_of_two(n);
        proof {
            lemma_pow2_above(n as int);
        }
        p / 2
    }
}

/// Base-two logarithm of a power of two.
pub fn log2_of_pow2(x: usize) -> (k: usize)
    requires
        is_pow2(x as int),
    ensures
        pow2(k as nat) == x,
        k < usize::BITS,
{
    proof {
        lemma_pow2_above_unique(x as int, x - 1);
        lemma_pow2_above((x - 1) as int);
        lemma_usize_max_pow2();
        let bl = bit_length((x - 1) as nat);
        if bl >= usize::BITS {
            if bl > usize::BITS {
                vstd::arithmetic::power2::lemma_pow2_strictly_increases(usize::BITS as nat, bl);
            }
        }
    }
    let lz = usize_leading_zeros(x - 1);
    (usize::BITS - lz) as usize
}

} // verus!
