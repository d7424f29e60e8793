//! Linear-scan ORAM: every access touches every element.
use vstd::prelude::*;
use vstd::arithmetic::div_mod::{lemma_small_mod, lemma_mod_bound, lemma_add_mod_noop, lemma_mod_twice, lemma_mod_multiples_basic, lemma_mod_equivalence, lemma_fundamental_div_mod};
use crate::oram::prelude::K;
use crate::primitives::traits::Cmov;
use crate::sort::rotate::{rotate_left, rotate_left_spec};

verus! {

/// Performs an oblivious read and update at `index`: `ret` receives the old element and
/// the element becomes `value`. If `index` is out of bounds nothing changes. The access
/// pattern depends only on `data.len()`.
pub fn oblivious_read_update_index<T: Cmov + Copy>(data: &mut [T], index: usize, ret: &mut T, value: T)
    ensures
        index < old(data)@.len() ==> *final(ret) == old(data)@[index as int] && final(data)@ == old(data)@.update(
            index as int,
            value,
        ),
        index >= old(data)@.len() ==> *final(ret) == *old(ret) && final(data)@ == old(data)@,
{
    let ghost orig = data@;
    let n = data.len();
    let mut i: usize = 0;
    while i < n
        invariant
            n == orig.len(),
            data@.len() == n,
            i <= n,
            forall|j: int| 0 <= j < n ==> #[trigger] data@[j] == (if j < i && j == index { value } else { orig[j] }),
            (index < i ==> *ret == orig[index as int]) && (index >= i ==> *ret == *old(ret)),
        decreases n - i,
    {
        let choice = i == index;
        let item = data[i];
        ret.cmov(&item, choice);
        let mut updated = item;
        updated.cmov(&value, choice);
        data[i] = updated;
        i += 1;
    }
    proof {
        if index < n {
            assert(data@ =~= orig.update(index as int, value));
        } else {
            assert(data@ =~= orig);
        }
    }
}

/// Performs an oblivious read at `index` into `out`; if `index` is out of bounds `out`
/// is not modified. The access pattern depends only on `data.len()`.
pub fn oblivious_read_index<T: Cmov>(data: &[T], index: usize, out: &mut T)
    ensures
        index < data@.len() ==> *final(out) == data@[index as int],
        index >= data@.len() ==> *final(out) == *old(out),
{
    let n = data.len();
    let mut i: usize = 0;
    while i < n
        invariant
            n == data@.len(),
            i <= n,
            (index < i ==> *out == data@[index as int]) && (index >= i ==> *out == *old(out)),
        decreases n - i,
    {
        let choice = i == index;
        out.cmov(&data[i], choice);
        i += 1;
    }
}

/// Performs an oblivious write of `value` at `index`; if `index` is out of bounds `data`
/// is not modified. The access pattern depends only on `data.len()`.
pub fn oblivious_write_index<T: Cmov + Copy>(data: &mut [T], index: usize, value: T)
    ensures
        index < old(data)@.len() ==> final(data)@ == old(data)@.update(index as int, value),
        index >= old(data)@.len() ==> final(data)@ == old(data)@,
{
    let ghost orig = data@;
    let n = data.len();
    let mut i: usize = 0;
    while i < n
        invariant
            n == orig.len(),
            data@.len() == n,
            i <= n,
            forall|j: int| 0 <= j < n ==> #[trigger] data@[j] == (if j < i && j == index { value } else { orig[j] }),
        decreases n - i,
    {
        let choice = i == index;
        let mut item = data[i];
        item.cmov(&value, choice);
        data[i] = item;
        i += 1;
    }
    proof {
        if index < n {
            assert(data@ =~= orig.update(index as int, value));
        } else {
            assert(data@ =~= orig);
        }
    }
}

/// The index of `src` that `oblivious_memcpy` scatters to position `p` of a destination
/// of length `len`: the one index in `[off, off + len)` that is `p` modulo `len`.
pub open spec fn scatter_source(p: int, off: int, len: int) -> int {
    off + (p + len - off % len) % len
}

/// The destination after the scatter pass of `oblivious_memcpy` over the first `upto`
/// source elements.
pub open spec fn scatter_spec<T>(dst: Seq<T>, src: Seq<T>, off: int, upto: int) -> Seq<T> {
    Seq::new(
        dst.len(),
        |p: int|
            if scatter_source(p, off, dst.len() as int) < upto {
                src[scatter_source(p, off, dst.len() as int)]
            } else {
                dst[p]
            },
    )
}

/// What `oblivious_memcpy` leaves in `dst`: nothing changes when `off` is past the end
/// of `src`; otherwise the scattered window, rotated so that it starts at index 0.
pub open spec fn memcpy_spec<T>(dst: Seq<T>, src: Seq<T>, off: int) -> Seq<T> {
    if off >= src.len() {
        dst
    } else {
        rotate_left_spec(scatter_spec(dst, src, off, src.len() as int), off % (dst.len() as int))
    }
}

/// An integer congruent to `y` modulo `len`, with `y` in `[0, len)`, has remainder `y`.
proof fn lemma_mod_of_multiple_shift(x: int, y: int, k: int, len: int)
    requires
        len > 0,
        0 <= y < len,
        x - y == k * len,
    ensures
        x % len == y,
{
    lemma_mod_multiples_basic(k, len);
    lemma_mod_equivalence(x, y, len);
    lemma_small_mod(y as nat, len as nat);
}

/// `scatter_source` lands in the window `[off, off + len)` on an index congruent to `q`.
proof fn lemma_scatter_source_window(q: int, off: int, len: int)
    requires
        len > 0,
        off >= 0,
        0 <= q < len,
    ensures
        off <= scatter_source(q, off, len) < off + len,
        scatter_source(q, off, len) % len == q,
{
    let a = off % len;
    let x = q + len - a;
    let r = x % len;
    lemma_mod_bound(off, len);
    lemma_mod_bound(x, len);
    lemma_fundamental_div_mod(x, len);
    lemma_fundamental_div_mod(off, len);
    let k = off / len + 1 - x / len;
    assert(off + r - q == k * len) by (nonlinear_arith)
        requires
            x == len * (x / len) + r,
            off == len * (off / len) + a,
            x == q + len - a,
            k == off / len + 1 - x / len,
    ;
    lemma_mod_of_multiple_shift(off + r, q, k, len);
}

/// Within the window `[off, off + len)`, `scatter_source` inverts reduction modulo `len`.
proof fn lemma_scatter_source_inverse(i: int, off: int, len: int)
    requires
        len > 0,
        off >= 0,
        off <= i < off + len,
    ensures
        scatter_source(i % len, off, len) == i,
{
    let a = off % len;
    let b = i % len;
    let x = b + len - a;
    let d = i - off;
    lemma_mod_bound(off, len);
    lemma_mod_bound(i, len);
    lemma_fundamental_div_mod(i, len);
    lemma_fundamental_div_mod(off, len);
    let k = 1 - i / len + off / len;
    assert(x - d == k * len) by (nonlinear_arith)
        requires
            i == len * (i / len) + b,
            off == len * (off / len) + a,
            x == b + len - a,
            d == i - off,
            k == 1 - i / len + off / len,
    ;
    lemma_mod_of_multiple_shift(x, d, k, len);
}

/// One step of the scatter pass of `oblivious_memcpy`.
proof fn lemma_scatter_step<T>(dst: Seq<T>, src: Seq<T>, off: int, i: int, cur: Seq<T>, next: Seq<T>)
    requires
        dst.len() > 0,
        off >= 0,
        0 <= i < src.len(),
        cur == scatter_spec(dst, src, off, i),
        next == cur.update(
            i % (dst.len() as int),
            if off <= i < off + dst.len() { src[i] } else { cur[i % (dst.len() as int)] },
        ),
    ensures
        next =~= scatter_spec(dst, src, off, i + 1),
{
    let len = dst.len() as int;
    lemma_mod_bound(i, len);
    assert forall|q: int| 0 <= q < len implies #[trigger] next[q] == scatter_spec(dst, src, off, i + 1)[q] by {
        lemma_scatter_source_window(q, off, len);
        if off <= i < off + len {
            lemma_scatter_source_inverse(i, off, len);
        }
    }
}

/// The result of `oblivious_memcpy` starts with the copied window.
proof fn lemma_memcpy_window<T>(dst: Seq<T>, src: Seq<T>, off: int, j: int)
    requires
        dst.len() > 0,
        0 <= off < src.len(),
        0 <= j < dst.len(),
        off + j < src.len(),
    ensures
        memcpy_spec(dst, src, off)[j] == src[off + j],
{
    let len = dst.len() as int;
    reveal(rotate_left_spec);
    lemma_mod_bound(off, len);
    lemma_add_mod_noop(j, off, len);
    lemma_small_mod(j as nat, len as nat);
    lemma_mod_twice(off, len);
    lemma_mod_bound(j + off % len, len);
    lemma_scatter_source_inverse(off + j, off, len);
    assert((j + off % len) % len == (off + j) % len);
}

/// Copies the window of `dst.len()` elements of `src` that starts at `src_offset` into
/// `dst`. Positions past the end of `src` receive other elements of the old `dst`; if
/// `src_offset >= src.len()`, `dst` is unchanged. The access pattern depends only on
/// `dst.len()` and `src.len()`.
pub fn oblivious_memcpy<T: Cmov + Copy>(dst: &mut [T], src: &[T], src_offset: usize)
    requires
        old(dst)@.len() > 0,
        old(dst)@.len() <= usize::MAX / 2,
        src_offset + old(dst)@.len() <= usize::MAX,
    ensures
        final(dst)@ == memcpy_spec(old(dst)@, src@, src_offset as int),
        final(dst)@.len() == old(dst)@.len(),
        forall|j: int|
            0 <= j < old(dst)@.len() && src_offset + j < src@.len() ==> #[trigger] final(dst)@[j] == src@[src_offset + j],
{
    let ghost orig = dst@;
    let len = dst.len();
    let n = src.len();
    let mut i: usize = 0;
    while i < n
        invariant
            len == orig.len(),
            len > 0,
            n == src@.len(),
            src_offset + len <= usize::MAX,
            i <= n,
            dst@ == scatter_spec(orig, src@, src_offset as int, i as int),
        decreases n - i,
    {
        let choice = (i >= src_offset) && (i < src_offset + len);
        let p = i % len;
        let mut item = dst[p];
        item.cmov(&src[i], choice);
        let ghost cur = dst@;
        dst[p] = item;
        proof {
            lemma_scatter_step(orig, src@, src_offset as int, i as int, cur, dst@);
        }
        i += 1;
    }
    let mut shift_amount = src_offset % len;
    shift_amount.cmov(&0, src_offset >= n);
    proof {
        assert(scatter_spec(orig, src@, src_offset as int, n as int).len() == len);
    }
    rotate_left(dst, shift_amount);
    proof {
        if src_offset >= n {
            assert(scatter_spec(orig, src@, src_offset as int, n as int) =~= orig) by {
                assert forall|q: int| 0 <= q < len implies #[trigger] scatter_spec(orig, src@, src_offset as int, n as int)[q] == orig[q] by {
                    lemma_scatter_source_window(q, src_offset as int, len as int);
                }
            }
            reveal(rotate_left_spec);
            assert forall|q: int| 0 <= q < len implies #[trigger] rotate_left_spec(orig, 0)[q] == orig[q] by {
                lemma_small_mod(q as nat, len as nat);
            }
            assert(rotate_left_spec(orig, 0) =~= orig);
        } else {
            assert forall|j: int| 0 <= j < len && src_offset + j < n implies #[trigger] dst@[j] == src@[src_offset + j] by {
                lemma_memcpy_window(orig, src@, src_offset as int, j);
            }
        }
    }
}

/// A simple indexable ORAM that does a linear scan for each access.
#[derive(Debug)]
pub struct LinearORAM<T> {
    /// The actual data storage array.
    pub data: Vec<T>,
}

impl<T: Cmov + Copy + Default> LinearORAM<T> {
    /// Creates an ORAM of `max_n` elements, each `T::default()`.
    pub fn new(max_n: usize) -> (r: Self)
        ensures
            r.data@.len() == max_n,
            forall|i: int, j: int| 0 <= i < max_n && 0 <= j < max_n ==> r.data@[i] == r.data@[j],
    {
        let d = T::default();
        let mut data: Vec<T> = Vec::with_capacity(max_n);
        let mut i: usize = 0;
        while i < max_n
            invariant
                i <= max_n,
                data@.len() == i,
                forall|j: int| 0 <= j < i ==> data@[j] == d,
            decreases max_n - i,
        {
            data.push(d);
            i += 1;
        }
        LinearORAM { data }
    }

    /// Scans the entire array and moves the element at `index` into `ret`; an index out of
    /// bounds leaves `ret` unchanged.
    pub fn read(&self, index: K, ret: &mut T)
        ensures
            index < self.data@.len() ==> *final(ret) == self.data@[index as int],
            index >= self.data@.len() ==> *final(ret) == *old(ret),
    {
        let n = self.data.len();
        let mut i: usize = 0;
        while i < n
            invariant
                n == self.data@.len(),
                i <= n,
                (index < i ==> *ret == self.data@[index as int]) && (index >= i ==> *ret == *old(ret)),
            decreases n - i,
        {
            let choice = i == index;
            ret.cmov(&self.data[i], choice);
            i += 1;
        }
    }

    /// Scans the entire array and writes `value` at `index`; an index out of bounds leaves
    /// the array unchanged.
    pub fn write(&mut self, index: K, value: T)
        ensures
            index < old(self).data@.len() ==> final(self).data@ == old(self).data@.update(index as int, value),
            index >= old(self).data@.len() ==> final(self).data@ == old(self).data@,
    {
        let ghost orig = self.data@;
        let n = self.data.len();
        let mut i: usize = 0;
        while i < n
            invariant
                n == orig.len(),
                self.data@.len() == n,
                i <= n,
                forall|j: int| 0 <= j < n ==> #[trigger] self.data@[j] == (if j < i && j == index { value } else { orig[j] }),
            decreases n - i,
        {
            let choice = i == index;
            let mut item = self.data[i];
            item.cmov(&value, choice);
            self.data.set(i, item);
            i += 1;
        }
        proof {
            if index < n {
                assert(self.data@ =~= orig.update(index as int, value));
            } else {
                assert(self.data@ =~= orig);
            }
        }
    }

    /// Scans the entire array, reads the element at `index` into `ret` and writes `value`
    /// there; an index out of bounds changes nothing.
    pub fn read_update(&mut self, index: K, value: T, ret: &mut T)
        ensures
            index < old(self).data@.len() ==> *final(ret) == old(self).data@[index as int] && final(self).data@
                == old(self).data@.update(index as int, value),
            index >= old(self).data@.len() ==> *final(ret) == *old(ret) && final(self).data@ == old(self).data@,
    {
        oblivious_read_update_index(self.data.as_mut_slice(), index, ret, value);
    }
}

/// Reading a linear ORAM after writing `value` at `index` gives back `value`, and leaves
/// every other index as it was.
pub proof fn lemma_linear_oram_read_after_write<T>(data: Seq<T>, index: int, value: T, other: int)
    requires
        0 <= index < data.len(),
        0 <= other < data.len(),
        other != index,
    ensures
        data.update(index, value)[index] == value,
        data.update(index, value)[other] == data[other],
{
}

} // verus!
