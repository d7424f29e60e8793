//! Traits for conditional move and swap operations.
use vstd::prelude::*;

verus! {

/// Result of a conditional move: `other` when `choice`, else the old value.
pub open spec fn cmov_result<T>(old_value: T, other: T, choice: bool) -> T {
    if choice {
        other
    } else {
        old_value
    }
}

/// A trait for conditionally moving values with a constant memory trace.
pub trait Cmov: Sized {
    /// Conditionally move `other` into `self` based on `choice`.
    fn cmov(&mut self, other: &Self, choice: bool)
        ensures
            *final(self) == cmov_result(*old(self), *other, choice),
    ;

    /// Conditionally exchange `other` and `self` based on `choice`.
    fn cxchg(&mut self, other: &mut Self, choice: bool)
        ensures
            *final(self) == cmov_result(*old(self), *old(other), choice),
            *final(other) == cmov_result(*old(other), *old(self), choice),
    ;

    /// Conditionally set `self` to either `val_false` or `val_true` based on `choice`.
    fn cset(&mut self, val_false: &Self, val_true: &Self, choice: bool)
        ensures
            *final(self) == cmov_result(*val_false, *val_true, choice),
    {
        self.cmov(val_true, choice);
        self.cmov(val_false, !choice);
    }
}

proof fn lemma_select_u64(a: u64, b: u64, m: u64)
    by (bit_vector)
    requires
        m == 0 || m == 0xffff_ffff_ffff_ffffu64,
    ensures
        m == 0 ==> (a & !m) | (b & m) == a,
        m == 0xffff_ffff_ffff_ffffu64 ==> (a & !m) | (b & m) == b,
{
}

proof fn lemma_select_u128(a: u128, b: u128, m: u128)
    by (bit_vector)
    requires
        m == 0 || m == 0xffff_ffff_ffff_ffff_ffff_ffff_ffff_ffffu128,
    ensures
        m == 0 ==> (a & !m) | (b & m) == a,
        m == 0xffff_ffff_ffff_ffff_ffff_ffff_ffff_ffffu128 ==> (a & !m) | (b & m) == b,
{
}

proof fn lemma_select_i64(a: i64, b: i64, m: i64)
    by (bit_vector)
    requires
        m == 0 || m == -1i64,
    ensures
        m == 0 ==> (a & !m) | (b & m) == a,
        m == -1i64 ==> (a & !m) | (b & m) == b,
{
}

proof fn lemma_select_i128(a: i128, b: i128, m: i128)
    by (bit_vector)
    requires
        m == 0 || m == -1i128,
    ensures
        m == 0 ==> (a & !m) | (b & m) == a,
        m == -1i128 ==> (a & !m) | (b & m) == b,
{
}

impl Cmov for u64 {
    fn cmov(&mut self, other: &Self, choice: bool) {
        let mask: u64 = 0u64.wrapping_sub(choice as u64);
        proof {
            lemma_select_u64(*self, *other, mask);
        }
        *self = (*self & !mask) | (*other & mask);
    }

    fn cxchg(&mut self, other: &mut Self, choice: bool) {
        let c = *self;
        self.cmov(other, choice);
        other.cmov(&c, choice);
    }
}

impl Cmov for u128 {
    fn cmov(&mut self, other: &Self, choice: bool) {
        let mask: u128 = 0u128.wrapping_sub(choice as u128);
        proof {
            lemma_select_u128(*self, *other, mask);
        }
        *self = (*self & !mask) | (*other & mask);
    }

    fn cxchg(&mut self, other: &mut Self, choice: bool) {
        let c = *self;
        self.cmov(other, choice);
        other.cmov(&c, choice);
    }
}

impl Cmov for i64 {
    fn cmov(&mut self, other: &Self, choice: bool) {
        let mask: i64 = 0i64.wrapping_sub(choice as i64);
        proof {
            lemma_select_i64(*self, *other, mask);
        }
        *self = (*self & !mask) | (*other & mask);
    }

    fn cxchg(&mut self, other: &mut Self, choice: bool) {
        let c = *self;
        self.cmov(other, choice);
        other.cmov(&c, choice);
    }
}

impl Cmov for i128 {
    fn cmov(&mut self, other: &Self, choice: bool) {
        let mask: i128 = 0i128.wrapping_sub(choice as i128);
        proof {
            lemma_select_i128(*self, *other, mask);
        }
        *self = (*self & !mask) | (*other & mask);
    }

    fn cxchg(&mut self, other: &mut Self, choice: bool) {
        let c = *self;
        self.cmov(other, choice);
        other.cmov(&c, choice);
    }
}

impl Cmov for u32 {
    fn cmov(&mut self, other: &Self, choice: bool) {
        let mut wide = *self as u64;
        wide.cmov(&(*other as u64), choice);
        *self = wide as u32;
    }

    fn cxchg(&mut self, other: &mut Self, choice: bool) {
        let c = *self;
        self.cmov(other, choice);
        other.cmov(&c, choice);
    }
}

impl Cmov for u16 {
    fn cmov(&mut self, other: &Self, choice: bool) {
        let mut wide = *self as u64;
        wide.cmov(&(*other as u64), choice);
        *self = wide as u16;
    }

    fn cxchg(&mut self, other: &mut Self, choice: bool) {
        let c = *self;
        self.cmov(other, choice);
        other.cmov(&c, choice);
    }
}

impl Cmov for u8 {
    fn cmov(&mut self, other: &Self, choice: bool) {
        let mut wide = *self as u64;
        wide.cmov(&(*other as u64), choice);
        *self = wide as u8;
    }

    fn cxchg(&mut self, other: &mut Self, choice: bool) {
        let c = *self;
        self.cmov(other, choice);
        other.cmov(&c, choice);
    }
}

impl Cmov for usize {
    fn cmov(&mut self, other: &Self, choice: bool) {
        let mut wide = *self as u64;
        wide.cmov(&(*other as u64), choice);
        *self = wide as usize;
    }

    fn cxchg(&mut self, other: &mut Self, choice: bool) {
        let c = *self;
        self.cmov(other, choice);
        other.cmov(&c, choice);
    }
}

impl Cmov for i32 {
    fn cmov(&mut self, other: &Self, choice: bool) {
        let mut wide = *self as i64;
        wide.cmov(&(*other as i64), choice);
        *self = wide as i32;
    }

    fn cxchg(&mut self, other: &mut Self, choice: bool) {
        let c = *self;
        self.cmov(other, choice);
        other.cmov(&c, choice);
    }
}

impl Cmov for i16 {
    fn cmov(&mut self, other: &Self, choice: bool) {
        let mut wide = *self as i64;
        wide.cmov(&(*other as i64), choice);
        *self = wide as i16;
    }

    fn cxchg(&mut self, other: &mut Self, choice: bool) {
        let c = *self;
        self.cmov(other, choice);
        other.cmov(&c, choice);
    }
}

impl Cmov for i8 {
    fn cmov(&mut self, other: &Self, choice: bool) {
        let mut wide = *self as i64;
        wide.cmov(&(*other as i64), choice);
        *self = wide as i8;
    }

    fn cxchg(&mut self, other: &mut Self, choice: bool) {
        let c = *self;
        self.cmov(other, choice);
        other.cmov(&c, choice);
    }
}

impl Cmov for bool {
    fn cmov(&mut self, other: &Self, choice: bool) {
        if choice {
            *self = *other;
        }
    }

    fn cxchg(&mut self, other: &mut Self, choice: bool) {
        let c = *self;
        self.cmov(other, choice);
        other.cmov(&c, choice);
    }
}

/// Value of `s` after conditionally swapping positions `i` and `j`.
pub open spec fn swap_spec<T>(s: Seq<T>, i: int, j: int, choice: bool) -> Seq<T> {
    if choice {
        s.update(i, s[j]).update(j, s[i])
    } else {
        s
    }
}

/// A conditional swap keeps the multiset of elements.
pub proof fn lemma_swap_spec_multiset<T>(s: Seq<T>, i: int, j: int, choice: bool)
    requires
        0 <= i < s.len(),
        0 <= j < s.len(),
    ensures
        swap_spec(s, i, j, choice).to_multiset() == s.to_multiset(),
        swap_spec(s, i, j, choice).len() == s.len(),
{
    if choice {
        let s1 = s.update(i, s[j]);
        vstd::seq_lib::to_multiset_update(s, i, s[j]);
        vstd::seq_lib::to_multiset_update(s1, j, s[i]);
        broadcast use {vstd::multiset::group_multiset_properties, vstd::multiset::group_multiset_axioms};
        assert(s1[j] == s[j]);
        vstd::seq_lib::to_multiset_contains(s, s[i]);
        vstd::seq_lib::to_multiset_contains(s, s[j]);
        assert(s.contains(s[i]));
        assert(s.contains(s[j]));
        assert(s.to_multiset().insert(s[j]).remove(s[i]).insert(s[i]).remove(s[j]) =~= s.to_multiset());
    }
}

/// Conditionally swaps two values with a constant memory trace.
pub fn cswap<T: Cmov + Copy>(first: &mut T, second: &mut T, choice: bool)
    ensures
        *final(first) == cmov_result(*old(first), *old(second), choice),
        *final(second) == cmov_result(*old(second), *old(first), choice),
{
    let tmp = *first;
    first.cmov(second, choice);
    second.cmov(&tmp, choice);
}

/// Adds cswap for indexable containers of cswap-able types.
pub trait CswapIndex<T>: View<V = Seq<T>> {
    /// Conditionally swap the elements at `i` and `j` based on `choice`.
    fn cswap(&mut self, i: usize, j: usize, choice: bool)
        requires
            i < old(self)@.len(),
            j < old(self)@.len(),
        ensures
            final(self)@ == swap_spec(old(self)@, i as int, j as int, choice),
    ;
}

impl<T: Cmov + Copy> CswapIndex<T> for [T] {
    fn cswap(&mut self, i: usize, j: usize, choice: bool) {
        let mut left = self[i];
        let mut right = self[j];
        cswap(&mut left, &mut right, choice);
        self[i] = left;
        self[j] = right;
        proof {
            assert(self@ =~= swap_spec(old(self)@, i as int, j as int, choice));
        }
    }
}

impl<T: Cmov + Copy> CswapIndex<T> for Vec<T> {
    fn cswap(&mut self, i: usize, j: usize, choice: bool) {
        let mut left = self[i];
        let mut right = self[j];
        cswap(&mut left, &mut right, choice);
        self.set(i, left);
        self.set(j, right);
        proof {
            assert(self@ =~= swap_spec(old(self)@, i as int, j as int, choice));
        }
    }
}

} // verus!
