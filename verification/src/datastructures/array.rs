//! Oblivious arrays: the access pattern does not reveal which index is accessed.
use vstd::prelude::*;
use rand::rngs::ThreadRng;
use crate::oram::circuit_oram::{CircuitORAM, stash_room};
use crate::oram::linear_oram::{oblivious_read_index, oblivious_write_index};
use crate::oram::prelude::PositionType;
use crate::oram::recursive_oram::RecursivePositionMap;
use crate::primitives::indexable::Length;
use crate::primitives::traits::Cmov;
use crate::random::{thread_rng, random_below};

verus! {

/// A fixed-size oblivious array, optimal for small sizes: every access scans all `N`
/// elements. The size of the array is public.
#[derive(Debug)]
pub struct ShortArray<T, const N: usize> {
    /// The underlying data storage.
    pub data: [T; N],
}

impl<T: Cmov + Copy + Default, const N: usize> ShortArray<T, N> {
    /// Creates a new `ShortArray` of `N` elements, each `T::default()`.
    pub fn new() -> (r: Self)
        ensures
            forall|i: int, j: int| 0 <= i < N && 0 <= j < N ==> r.data@[i] == r.data@[j],
    {
        ShortArray { data: [T::default(); N] }
    }
}

impl<T: Cmov + Copy, const N: usize> ShortArray<T, N> {
    /// Reads the element at `index` into `out`; an index out of bounds leaves `out`
    /// unchanged.
    pub fn read(&self, index: usize, out: &mut T)
        ensures
            index < N ==> *final(out) == self.data@[index as int],
            index >= N ==> *final(out) == *old(out),
    {
        oblivious_read_index(&self.data, index, out);
    }

    /// Writes `value` at `index`; an index out of bounds leaves the array unchanged.
    pub fn write(&mut self, index: usize, value: T)
        ensures
            index < N ==> final(self).data@ == old(self).data@.update(index as int, value),
            index >= N ==> final(self).data@ == old(self).data@,
    {
        oblivious_write_index(&mut self.data, index, value);
    }
}

impl<T, const N: usize> Length for ShortArray<T, N> {
    open spec fn len_spec(&self) -> nat {
        N as nat
    }

    fn len(&self) -> (r: usize) {
        N
    }
}

impl<T: Cmov + Copy + Default, const N: usize> Default for ShortArray<T, N> {
    fn default() -> (r: Self)
        ensures
            forall|i: int, j: int| 0 <= i < N && 0 <= j < N ==> r.data@[i] == r.data@[j],
    {
        Self::new()
    }
}

/// A fixed-size oblivious array, optimal for large sizes: a Circuit ORAM with a recursive
/// position map. The size of the array is public.
#[derive(Debug)]
pub struct LongArray<T, const N: usize> {
    /// The actual data storage ORAM.
    data: CircuitORAM<T>,
    /// The position map for the ORAM.
    pos_map: RecursivePositionMap,
    /// Random source for new positions.
    rng: ThreadRng,
}

impl<T, const N: usize> LongArray<T, N> {
    /// The ORAM and its position map are well formed and sized for `N` elements.
    pub closed spec fn wf(&self) -> bool {
        &&& self.data.wf()
        &&& self.pos_map.wf()
        &&& self.pos_map.size() == N
        &&& N <= self.data.max_n
        &&& 1 < N
    }

    /// Well formed, the ORAM and the position map valid, and every element held at the
    /// position that the map records for its index, when the map holds that record.
    pub closed spec fn valid(&self) -> bool {
        &&& self.wf()
        &&& self.data.valid()
        &&& self.pos_map.valid()
        &&& forall|i: usize| #[trigger] self.data.contents().contains_key(i) ==> i < N && (self.pos_map.has_position(i as int)
            ==> self.data.contents()[i].0 == self.pos_map.position(i as int))
    }

    /// The elements written so far, by index.
    pub closed spec fn view(&self) -> Map<usize, T> {
        Map::new(|i: usize| self.data.contents().contains_key(i), |i: usize| self.data.contents()[i].1)
    }

    /// The position map holds the position of `index`.
    pub closed spec fn mapped(&self, index: int) -> bool {
        self.pos_map.has_position(index)
    }

    /// Every level of the position map has room for the node on the way to `index`.
    pub closed spec fn map_room(&self, index: int) -> bool {
        self.pos_map.room(index)
    }

    /// The stash proper of the ORAM has room for the element at `index`.
    pub closed spec fn data_room(&self, index: usize) -> bool {
        stash_room(self.data, index)
    }
}

impl<T: Cmov + Copy + Default, const N: usize> LongArray<T, N> {
    /// Creates a new `LongArray` of `N` elements.
    pub fn new() -> (r: Self)
        requires
            1 < N <= 0x1000_0000,
        ensures
            r.wf(),
            r.valid(),
            r@ == Map::<usize, T>::empty(),
    {
        let data = CircuitORAM::new(N);
        proof {
            crate::primitives::utils::lemma_pow2_above((N - 1) as int);
        }
        let r = LongArray { data, pos_map: RecursivePositionMap::new(N), rng: thread_rng() };
        proof {
            assert(r@ =~= Map::<usize, T>::empty());
        }
        r
    }

    /// Reads the element at `index` into `out`.
    ///
    /// On a valid array whose position map holds `index`: the array stays valid, `out`
    /// receives the element written at `index`, and is untouched when nothing was written
    /// there. The elements stay the same, except that the one at `index` is lost when the
    /// stash proper of the ORAM has no room for it; and when every level of the position
    /// map has room, every index it held stays held.
    pub fn read(&mut self, index: usize, out: &mut T)
        requires
            old(self).wf(),
        ensures
            final(self).wf(),
            old(self).valid() && index < N && old(self).mapped(index as int) ==> {
                &&& final(self).valid()
                &&& old(self)@.contains_key(index) ==> *final(out) == old(self)@[index]
                &&& !old(self)@.contains_key(index) ==> *final(out) == *old(out)
                &&& final(self)@ == (if old(self).data_room(index) || !old(self)@.contains_key(index) {
                    old(self)@
                } else {
                    old(self)@.remove(index)
                })
                &&& old(self).map_room(index as int) ==> forall|i: int| #[trigger] old(self).mapped(i) ==> final(self).mapped(i)
            },
    {
        let ghost o = *self;
        let new_pos = random_below(&mut self.rng, N);
        let old_pos = self.pos_map.access_position(index, new_pos);
        proof {
            if o.valid() && index < N && o.mapped(index as int) {
                assert(crate::oram::circuit_oram::access_pre(self.data, old_pos, index, new_pos));
            }
        }
        self.data.read(old_pos, new_pos, index, out);
        proof {
            if o.valid() && index < N && o.mapped(index as int) {
                lemma_array_access_valid(o.data, o.pos_map, self.data, self.pos_map, index, new_pos, N as nat);
                if o.data_room(index) || !o@.contains_key(index) {
                    assert(self@ =~= o@);
                } else {
                    assert(self@ =~= o@.remove(index));
                }
            }
        }
    }

    /// Writes `value` at `index`.
    ///
    /// On a valid array whose position map holds `index`: the array stays valid and holds
    /// `value` at `index`, unless the stash proper of the ORAM has no room for it, in which
    /// case the element at `index` is lost; every other element stays the same; and when
    /// every level of the position map has room, every index it held stays held.
    pub fn write(&mut self, index: usize, value: T)
        requires
            old(self).wf(),
        ensures
            final(self).wf(),
            old(self).valid() && index < N && old(self).mapped(index as int) ==> {
                &&& final(self).valid()
                &&& final(self)@ == (if old(self).data_room(index) {
                    old(self)@.insert(index, value)
                } else {
                    old(self)@.remove(index)
                })
                &&& old(self).map_room(index as int) ==> forall|i: int| #[trigger] old(self).mapped(i) ==> final(self).mapped(i)
            },
    {
        let ghost o = *self;
        let new_pos = random_below(&mut self.rng, N);
        let old_pos = self.pos_map.access_position(index, new_pos);
        proof {
            if o.valid() && index < N && o.mapped(index as int) {
                assert(crate::oram::circuit_oram::access_pre(self.data, old_pos, index, new_pos));
            }
        }
        self.data.write_or_insert(old_pos, new_pos, index, value);
        proof {
            if o.valid() && index < N && o.mapped(index as int) {
                lemma_array_access_valid(o.data, o.pos_map, self.data, self.pos_map, index, new_pos, N as nat);
                if o.data_room(index) {
                    assert(self@ =~= o@.insert(index, value));
                } else {
                    assert(self@ =~= o@.remove(index));
                }
            }
        }
    }
}

impl<T, const N: usize> Length for LongArray<T, N> {
    open spec fn len_spec(&self) -> nat {
        N as nat
    }

    fn len(&self) -> (r: usize) {
        N
    }
}

/// After an access at `index` that remapped its element to `new_pos` in the position map
/// and in the ORAM, or dropped it from either, the elements of the ORAM are still held at
/// the positions that the map records for them.
proof fn lemma_array_access_valid<T>(
    od: CircuitORAM<T>,
    om: RecursivePositionMap,
    fd: CircuitORAM<T>,
    fm: RecursivePositionMap,
    index: usize,
    new_pos: PositionType,
    n: nat,
)
    requires
        forall|i: usize| #[trigger] od.contents().contains_key(i) ==> i < n && (om.has_position(i as int) ==> od.contents()[i].0
            == om.position(i as int)),
        index < n,
        fm.has_position(index as int) ==> fm.position(index as int) == new_pos,
        forall|k2: int| k2 != index && #[trigger] fm.has_position(k2) ==> om.has_position(k2) && fm.position(k2) == om.position(k2),
        forall|i: usize|
            i != index ==> (#[trigger] fd.contents().contains_key(i) == od.contents().contains_key(i)) && (fd.contents().contains_key(i)
                ==> fd.contents()[i] == od.contents()[i]),
        fd.contents().contains_key(index) ==> fd.contents()[index].0 == new_pos,
    ensures
        forall|i: usize| #[trigger] fd.contents().contains_key(i) ==> i < n && (fm.has_position(i as int) ==> fd.contents()[i].0
            == fm.position(i as int)),
{
    assert forall|i: usize| #[trigger] fd.contents().contains_key(i) implies i < n && (fm.has_position(i as int) ==> fd.contents()[i].0
        == fm.position(i as int)) by {
        if i != index {
            assert(od.contents().contains_key(i));
        }
    }
}

/// Arrays up to this size are short arrays; larger ones are long arrays.
pub const SHORT_ARRAY_THRESHOLD: usize = 128;

/// A fixed-size array that is a `ShortArray` when `N <= SHORT_ARRAY_THRESHOLD` and a
/// `LongArray` otherwise. The size of the array is public.
#[derive(Debug)]
pub enum FixedArray<T, const N: usize> {
    /// Short variant, linear scan.
    Short(ShortArray<T, N>),
    /// Long variant, ORAM.
    Long(LongArray<T, N>),
}

impl<T, const N: usize> FixedArray<T, N> {
    /// The variant matches the size and is well formed.
    pub closed spec fn wf(&self) -> bool {
        match self {
            FixedArray::Short(_) => N <= SHORT_ARRAY_THRESHOLD,
            FixedArray::Long(a) => N > SHORT_ARRAY_THRESHOLD && a.wf(),
        }
    }

    /// Well formed and, for the long variant, valid.
    pub closed spec fn valid(&self) -> bool {
        match self {
            FixedArray::Short(_) => N <= SHORT_ARRAY_THRESHOLD,
            FixedArray::Long(a) => N > SHORT_ARRAY_THRESHOLD && a.valid(),
        }
    }

    /// The elements by index: every index of a short array, the written ones of a long
    /// array.
    pub closed spec fn view(&self) -> Map<usize, T> {
        match self {
            FixedArray::Short(a) => Map::new(|i: usize| i < N, |i: usize| a.data@[i as int]),
            FixedArray::Long(a) => a@,
        }
    }

    /// The array can reach the element at `index`: always for a short array, when the
    /// position map holds `index` for a long one.
    pub closed spec fn mapped(&self, index: int) -> bool {
        match self {
            FixedArray::Short(_) => true,
            FixedArray::Long(a) => a.mapped(index),
        }
    }

    /// An access at `index` keeps every index reachable: always for a short array, when
    /// every level of the position map has room for a long one.
    pub closed spec fn map_room(&self, index: int) -> bool {
        match self {
            FixedArray::Short(_) => true,
            FixedArray::Long(a) => a.map_room(index),
        }
    }

    /// An access at `index` keeps its element: always for a short array, when the stash
    /// proper of the ORAM has room for a long one.
    pub closed spec fn data_room(&self, index: usize) -> bool {
        match self {
            FixedArray::Short(_) => true,
            FixedArray::Long(a) => a.data_room(index),
        }
    }

    /// The array is the short variant.
    pub closed spec fn is_short(&self) -> bool {
        self is Short
    }
}

impl<T: Cmov + Copy + Default, const N: usize> FixedArray<T, N> {
    /// Creates a new `FixedArray` of `N` elements: a short array of equal elements, or an
    /// empty long array.
    pub fn new() -> (r: Self)
        requires
            N <= 0x1000_0000,
        ensures
            r.wf(),
            r.valid(),
            r.is_short() == (N <= SHORT_ARRAY_THRESHOLD),
            r.is_short() ==> r@.dom() == Set::new(|i: usize| i < N) && forall|i: usize, j: usize| i < N && j < N ==> r@[i] == r@[j],
            !r.is_short() ==> r@ == Map::<usize, T>::empty(),
    {
        if N <= SHORT_ARRAY_THRESHOLD {
            let r = FixedArray::Short(ShortArray::new());
            proof {
                assert(r@.dom() =~= Set::new(|i: usize| i < N));
            }
            r
        } else {
            FixedArray::Long(LongArray::new())
        }
    }

    /// Reads the element at `index` into `out`.
    ///
    /// On a valid array that can reach `index < N`: the array stays valid, `out` receives
    /// the element at `index`, and is untouched when there is none. The elements stay the
    /// same, except that the one at `index` of a long array is lost when its ORAM has no
    /// room for it.
    pub fn read(&mut self, index: usize, out: &mut T)
        requires
            old(self).wf(),
        ensures
            final(self).wf(),
            final(self).is_short() == old(self).is_short(),
            old(self).valid() && index < N && old(self).mapped(index as int) ==> {
                &&& final(self).valid()
                &&& old(self)@.contains_key(index) ==> *final(out) == old(self)@[index]
                &&& !old(self)@.contains_key(index) ==> *final(out) == *old(out)
                &&& final(self)@ == (if old(self).data_room(index) || !old(self)@.contains_key(index) {
                    old(self)@
                } else {
                    old(self)@.remove(index)
                })
                &&& old(self).map_room(index as int) ==> forall|i: int| #[trigger] old(self).mapped(i) ==> final(self).mapped(i)
            },
    {
        match self {
            FixedArray::Short(a) => a.read(index, out),
            FixedArray::Long(a) => a.read(index, out),
        }
    }

    /// Writes `value` at `index`.
    ///
    /// On a valid array that can reach `index < N`: the array stays valid and holds `value`
    /// at `index`, unless a long array's ORAM has no room for it, in which case the element
    /// at `index` is lost; every other element stays the same.
    pub fn write(&mut self, index: usize, value: T)
        requires
            old(self).wf(),
        ensures
            final(self).wf(),
            final(self).is_short() == old(self).is_short(),
            old(self).valid() && index < N && old(self).mapped(index as int) ==> {
                &&& final(self).valid()
                &&& final(self)@ == (if old(self).data_room(index) {
                    old(self)@.insert(index, value)
                } else {
                    old(self)@.remove(index)
                })
                &&& old(self).map_room(index as int) ==> forall|i: int| #[trigger] old(self).mapped(i) ==> final(self).mapped(i)
            },
    {
        match self {
            FixedArray::Short(a) => {
                let ghost o = a.data@;
                a.write(index, value);
                proof {
                    let m = Map::new(|i: usize| i < N, |i: usize| o[i as int]);
                    let m2 = Map::new(|i: usize| i < N, |i: usize| a.data@[i as int]);
                    if index < N {
                        assert(m2 =~= m.insert(index, value));
                    }
                }
            },
            FixedArray::Long(a) => a.write(index, value),
        }
    }
}

impl<T, const N: usize> Length for FixedArray<T, N> {
    open spec fn len_spec(&self) -> nat {
        N as nat
    }

    fn len(&self) -> (r: usize) {
        N
    }
}

/// An array whose size is chosen at runtime: a Circuit ORAM with a recursive position
/// map. The size of the array is public.
#[derive(Debug)]
pub struct DynamicArray<T> {
    /// The actual data storage ORAM.
    data: CircuitORAM<T>,
    /// The position map for the ORAM.
    pos_map: RecursivePositionMap,
    /// Random source for new positions.
    rng: ThreadRng,
}

impl<T> DynamicArray<T> {
    /// The ORAM and its position map are well formed and sized alike.
    pub closed spec fn wf(&self) -> bool {
        &&& self.data.wf()
        &&& self.pos_map.wf()
        &&& 1 < self.pos_map.size() <= 0x1000_0000
        &&& self.pos_map.size() <= self.data.max_n
    }

    /// Number of elements.
    pub closed spec fn size(&self) -> nat {
        self.pos_map.size()
    }

    /// Well formed, the ORAM and the position map valid, and every element held at the
    /// position that the map records for its index, when the map holds that record.
    pub closed spec fn valid(&self) -> bool {
        &&& self.wf()
        &&& self.data.valid()
        &&& self.pos_map.valid()
        &&& forall|i: usize| #[trigger] self.data.contents().contains_key(i) ==> i < self.size() && (self.pos_map.has_position(
            i as int,
        ) ==> self.data.contents()[i].0 == self.pos_map.position(i as int))
    }

    /// The elements written so far, by index.
    pub closed spec fn view(&self) -> Map<usize, T> {
        Map::new(|i: usize| self.data.contents().contains_key(i), |i: usize| self.data.contents()[i].1)
    }

    /// The position map holds the position of `index`.
    pub closed spec fn mapped(&self, index: int) -> bool {
        self.pos_map.has_position(index)
    }

    /// Every level of the position map has room for the node on the way to `index`.
    pub closed spec fn map_room(&self, index: int) -> bool {
        self.pos_map.room(index)
    }

    /// The stash proper of the ORAM has room for the element at `index`.
    pub closed spec fn data_room(&self, index: usize) -> bool {
        stash_room(self.data, index)
    }
}

impl<T: Cmov + Copy + Default> DynamicArray<T> {
    /// Creates a new `DynamicArray` of `n` elements.
    pub fn new(n: usize) -> (r: Self)
        requires
            1 < n <= 0x1000_0000,
        ensures
            r.wf(),
            r.size() == n,
            r.valid(),
            r@ == Map::<usize, T>::empty(),
    {
        let data = CircuitORAM::new(n);
        proof {
            crate::primitives::utils::lemma_pow2_above((n - 1) as int);
        }
        let r = DynamicArray { data, pos_map: RecursivePositionMap::new(n), rng: thread_rng() };
        proof {
            assert(r@ =~= Map::<usize, T>::empty());
        }
        r
    }

    /// Resizes the array to `n` elements, copying the elements of the old array that fit.
    pub fn resize(&mut self, n: usize)
        requires
            old(self).wf(),
            1 < n <= 0x1000_0000,
        ensures
            final(self).wf(),
            final(self).size() == n,
    {
        let mut new_array = Self::new(n);
        let len = self.len();
        let mut i: usize = 0;
        while i < len
            invariant
                self.wf(),
                new_array.wf(),
                new_array.size() == n,
                len == self.size(),
                i <= len,
            decreases len - i,
        {
            let mut value = T::default();
            self.read(i, &mut value);
            new_array.write(i, value);
            i += 1;
        }
        *self = new_array;
    }

    /// Reads the element at `index` into `out`.
    ///
    /// On a valid array whose position map holds `index`: the array stays valid, `out`
    /// receives the element written at `index`, and is untouched when nothing was written
    /// there. The elements stay the same, except that the one at `index` is lost when the
    /// stash proper of the ORAM has no room for it; and when every level of the position
    /// map has room, every index it held stays held.
    pub fn read(&mut self, index: usize, out: &mut T)
        requires
            old(self).wf(),
        ensures
            final(self).wf(),
            final(self).size() == old(self).size(),
            old(self).valid() && index < old(self).size() && old(self).mapped(index as int) ==> {
                &&& final(self).valid()
                &&& old(self)@.contains_key(index) ==> *final(out) == old(self)@[index]
                &&& !old(self)@.contains_key(index) ==> *final(out) == *old(out)
                &&& final(self)@ == (if old(self).data_room(index) || !old(self)@.contains_key(index) {
                    old(self)@
                } else {
                    old(self)@.remove(index)
                })
                &&& old(self).map_room(index as int) ==> forall|i: int| #[trigger] old(self).mapped(i) ==> final(self).mapped(i)
            },
    {
        let ghost o = *self;
        let n = self.len();
        let new_pos = random_below(&mut self.rng, n);
        let old_pos = self.pos_map.access_position(index, new_pos);
        self.data.read(old_pos, new_pos, index, out);
        proof {
            if o.valid() && index < o.size() && o.mapped(index as int) {
                lemma_array_access_valid(o.data, o.pos_map, self.data, self.pos_map, index, new_pos, o.size());
                if o.data_room(index) || !o@.contains_key(index) {
                    assert(self@ =~= o@);
                } else {
                    assert(self@ =~= o@.remove(index));
                }
            }
        }
    }

    /// Writes `value` at `index`.
    ///
    /// On a valid array whose position map holds `index`: the array stays valid and holds
    /// `value` at `index`, unless the stash proper of the ORAM has no room for it, in which
    /// case the element at `index` is lost; every other element stays the same; and when
    /// every level of the position map has room, every index it held stays held.
    pub fn write(&mut self, index: usize, value: T)
        requires
            old(self).wf(),
        ensures
            final(self).wf(),
            final(self).size() == old(self).size(),
            old(self).valid() && index < old(self).size() && old(self).mapped(index as int) ==> {
                &&& final(self).valid()
                &&& final(self)@ == (if old(self).data_room(index) {
                    old(self)@.insert(index, value)
                } else {
                    old(self)@.remove(index)
                })
                &&& old(self).map_room(index as int) ==> forall|i: int| #[trigger] old(self).mapped(i) ==> final(self).mapped(i)
            },
    {
        let ghost o = *self;
        let n = self.len();
        let new_pos = random_below(&mut self.rng, n);
        let old_pos = self.pos_map.access_position(index, new_pos);
        self.data.write_or_insert(old_pos, new_pos, index, value);
        proof {
            if o.valid() && index < o.size() && o.mapped(index as int) {
                lemma_array_access_valid(o.data, o.pos_map, self.data, self.pos_map, index, new_pos, o.size());
                if o.data_room(index) {
                    assert(self@ =~= o@.insert(index, value));
                } else {
                    assert(self@ =~= o@.remove(index));
                }
            }
        }
    }

    /// Updates the element at `index` with `update_func`, returning whether the element
    /// had been written before and what `update_func` returned.
    ///
    /// On a valid array whose position map holds `index`: the array stays valid;
    /// `update_func` is applied to the element at `index` (to `T::default()` when nothing
    /// was written there) and the array holds what it left, unless the stash proper of the
    /// ORAM has no room for it, in which case the element at `index` is lost; every other
    /// element stays the same.
    pub fn update<R, F: FnOnce(&mut T) -> R>(&mut self, index: usize, update_func: F) -> (r: (bool, R))
        requires
            old(self).wf(),
            forall|x: &mut T| update_func.requires((x,)),
        ensures
            final(self).wf(),
            final(self).size() == old(self).size(),
            old(self).valid() && index < old(self).size() && old(self).mapped(index as int) ==> {
                &&& final(self).valid()
                &&& r.0 == old(self)@.contains_key(index)
                &&& exists|x: &mut T|
                    #![trigger update_func.ensures((x,), r.1)]
                    {
                        &&& r.0 ==> *x == old(self)@[index]
                        &&& update_func.ensures((x,), r.1)
                        &&& final(self)@ == (if old(self).data_room(index) {
                            old(self)@.insert(index, *final(x))
                        } else {
                            old(self)@.remove(index)
                        })
                    }
                &&& old(self).map_room(index as int) ==> forall|i: int| #[trigger] old(self).mapped(i) ==> final(self).mapped(i)
            },
    {
        let ghost o = *self;
        let n = self.len();
        let new_pos = random_below(&mut self.rng, n);
        let old_pos = self.pos_map.access_position(index, new_pos);
        let ghost od = self.data;
        let r = self.data.update(old_pos, new_pos, index, update_func);
        proof {
            if o.valid() && index < o.size() && o.mapped(index as int) {
                assert(crate::oram::circuit_oram::access_pre(od, old_pos, index, new_pos));
                let x = choose|x: &mut T|
                    #![trigger update_func.ensures((x,), r.1)]
                    {
                        &&& r.0 ==> *x == od.contents()[index].1
                        &&& update_func.ensures((x,), r.1)
                        &&& self.data.contents() == (if stash_room(od, index) {
                            od.contents().insert(index, (new_pos, *final(x)))
                        } else {
                            od.contents().remove(index)
                        })
                    };
                lemma_array_access_valid(o.data, o.pos_map, self.data, self.pos_map, index, new_pos, o.size());
                if o.data_room(index) {
                    assert(self@ =~= o@.insert(index, *final(x)));
                } else {
                    assert(self@ =~= o@.remove(index));
                }
            }
        }
        r
    }
}

impl<T> Length for DynamicArray<T> {
    open spec fn len_spec(&self) -> nat {
        self.size()
    }

    fn len(&self) -> (r: usize) {
        proof {
            crate::oram::recursive_oram::lemma_position_map_len(self.pos_map);
        }
        self.pos_map.len()
    }
}

/// `W` subarrays that share one ORAM and a fixed number of elements chosen at `new` time.
/// Which subarray is accessed is leaked; the index within it is not.
#[derive(Debug)]
pub struct MultiWayArray<T, const W: usize> {
    /// The actual data storage ORAM.
    data: CircuitORAM<T>,
    /// The position maps, one per subarray.
    pos_map: Vec<RecursivePositionMap>,
    /// Random source for new positions.
    rng: ThreadRng,
}

impl<T, const W: usize> MultiWayArray<T, W> {
    /// One well-formed position map of the common size per subarray.
    pub closed spec fn wf(&self) -> bool {
        &&& self.data.wf()
        &&& 1 <= W <= 64
        &&& self.pos_map@.len() == W
        &&& 1 < self.pos_map@[0].size() <= 0x1000_0000
        &&& self.pos_map@[0].size() * W < usize::MAX
        &&& forall|i: int| 0 <= i < W ==> #[trigger] self.pos_map@[i].wf()
        &&& forall|i: int| 0 <= i < W ==> #[trigger] self.pos_map@[i].size() == self.pos_map@[0].size()
    }

    /// Number of elements of each subarray.
    pub closed spec fn size(&self) -> nat {
        self.len_spec()
    }

    /// Well formed, the ORAM and every position map valid, and every element held at the
    /// position that the map of its subarray records for it, when that map holds the
    /// record. Element `index` of subarray `s` is held under `index * W + s`.
    pub closed spec fn valid(&self) -> bool {
        &&& self.wf()
        &&& self.data.valid()
        &&& forall|s: int| 0 <= s < W ==> #[trigger] self.pos_map@[s].valid()
        &&& forall|k: usize|
            #[trigger] self.data.contents().contains_key(k) ==> k < self.size() * W && (self.pos_map@[(k as int) % (W as int)].has_position(
                (k as int) / (W as int),
            ) ==> self.data.contents()[k].0 == self.pos_map@[(k as int) % (W as int)].position((k as int) / (W as int)))
    }

    /// The elements written so far, keyed by subarray and index.
    pub closed spec fn view(&self) -> Map<(usize, usize), T> {
        Map::new(
            |p: (usize, usize)| p.0 < W && p.1 < self.size() && self.data.contents().contains_key(shared_key(p, W as nat)),
            |p: (usize, usize)| self.data.contents()[shared_key(p, W as nat)].1,
        )
    }

    /// The position map of `subarray` holds the position of `index`.
    pub closed spec fn mapped(&self, subarray: int, index: int) -> bool {
        self.pos_map@[subarray].has_position(index)
    }

    /// Every level of the position map of `subarray` has room for the node on the way to
    /// `index`.
    pub closed spec fn map_room(&self, subarray: int, index: int) -> bool {
        self.pos_map@[subarray].room(index)
    }

    /// The stash proper of the ORAM has room for element `index` of `subarray`.
    pub closed spec fn data_room(&self, subarray: usize, index: usize) -> bool {
        stash_room(self.data, (index * W + subarray) as usize)
    }
}

/// After an access at element `index` of subarray `sub` that remapped it to `new_pos` in
/// the map of `sub` and kept, remapped or dropped it in the ORAM, the array is valid; when
/// every level of that map had room, every index held by a map stays held.
proof fn lemma_multiway_done<T, const W: usize>(o: MultiWayArray<T, W>, f: MultiWayArray<T, W>, sub: usize, index: usize, new_pos: PositionType)
    requires
        o.valid(),
        o.mapped(sub as int, index as int),
        sub < W,
        index < o.size(),
        f.wf(),
        f.size() == o.size(),
        f.data.valid(),
        forall|s: int| 0 <= s < W && s != sub ==> #[trigger] f.pos_map@[s] == o.pos_map@[s],
        ({
            let om = o.pos_map@[sub as int];
            let fm = f.pos_map@[sub as int];
            &&& fm.valid()
            &&& om.room(index as int) ==> fm.has_position(index as int)
            &&& fm.has_position(index as int) ==> fm.position(index as int) == new_pos
            &&& om.room(index as int) ==> forall|k2: int| #[trigger] om.has_position(k2) ==> fm.has_position(k2)
            &&& forall|k2: int| k2 != index && #[trigger] fm.has_position(k2) ==> om.has_position(k2) && fm.position(k2) == om.position(k2)
        }),
        forall|k: usize|
            k != index * W + sub ==> (#[trigger] f.data.contents().contains_key(k) == o.data.contents().contains_key(k)) && (
            f.data.contents().contains_key(k) ==> f.data.contents()[k] == o.data.contents()[k]),
        f.data.contents().contains_key((index * W + sub) as usize) ==> f.data.contents()[(index * W + sub) as usize].0 == new_pos,
    ensures
        f.valid(),
        o.map_room(sub as int, index as int) ==> forall|s: int, i: int| #[trigger] o.mapped(s, i) && 0 <= s < W ==> f.mapped(s, i),
{
    assert(index * W + sub < o.size() * W) by (nonlinear_arith)
        requires
            index < o.size(),
            sub < W,
    ;
    lemma_multiway_access_valid(o.data, o.pos_map@, f.data, f.pos_map@, sub, index, new_pos, o.size(), W as nat);
    assert forall|s: int| 0 <= s < W implies #[trigger] f.pos_map@[s].valid() by {
        if s != sub {
            assert(o.pos_map@[s].valid());
        }
    }
}

/// The key in the shared ORAM of element `p.1` of subarray `p.0`, with `w` subarrays.
pub open spec fn shared_key(p: (usize, usize), w: nat) -> usize {
    (p.1 * w + p.0) as usize
}

/// Distinct elements of the subarrays have distinct keys in the shared ORAM.
proof fn lemma_other_keys(sub: usize, index: usize, n: nat, w: nat)
    requires
        sub < w,
        index < n,
        n * w < usize::MAX,
    ensures
        shared_key((sub, index), w) == index * w + sub,
        forall|p: (usize, usize)|
            p != (sub, index) && p.0 < w && p.1 < n ==> #[trigger] shared_key(p, w) != index * w + sub && shared_key(p, w) < n * w,
{
    assert(index * w + sub < n * w) by (nonlinear_arith)
        requires
            index < n,
            sub < w,
    ;
    assert forall|p: (usize, usize)|
        p != (sub, index) && p.0 < w && p.1 < n implies #[trigger] shared_key(p, w) != index * w + sub && shared_key(p, w) < n * w by {
        assert(p.1 * w + p.0 < n * w) by (nonlinear_arith)
            requires
                p.1 < n,
                p.0 < w,
        ;
        lemma_real_index(p.1 as int, p.0 as int, w as int);
        lemma_real_index(index as int, sub as int, w as int);
        if shared_key(p, w) == index * w + sub {
            assert(p.0 == sub && p.1 == index);
        }
    }
}

/// The key `index * w + s` of the shared ORAM splits back into `s` and `index`.
proof fn lemma_real_index(index: int, s: int, w: int)
    requires
        0 <= index,
        0 <= s < w,
    ensures
        (index * w + s) % w == s,
        (index * w + s) / w == index,
{
    vstd::arithmetic::div_mod::lemma_fundamental_div_mod_converse(index * w + s, w, index, s);
}

/// After an access at element `index` of subarray `sub` that remapped it to `new_pos` in
/// the position map of `sub` and in the ORAM, or dropped it from either, the elements of
/// the ORAM are still held at the positions that the maps record for them.
proof fn lemma_multiway_access_valid<T>(
    od: CircuitORAM<T>,
    om: Seq<RecursivePositionMap>,
    fd: CircuitORAM<T>,
    fm: Seq<RecursivePositionMap>,
    sub: usize,
    index: usize,
    new_pos: PositionType,
    n: nat,
    w: nat,
)
    requires
        om.len() == w,
        fm.len() == w,
        sub < w,
        index < n,
        forall|s: int| 0 <= s < w && s != sub ==> #[trigger] fm[s] == om[s],
        forall|k: usize|
            #[trigger] od.contents().contains_key(k) ==> k < n * w && (om[(k as int) % (w as int)].has_position((k as int) / (w as int)) ==> od.contents()[k].0
                == om[(k as int) % (w as int)].position((k as int) / (w as int))),
        fm[sub as int].has_position(index as int) ==> fm[sub as int].position(index as int) == new_pos,
        forall|k2: int|
            k2 != index && #[trigger] fm[sub as int].has_position(k2) ==> om[sub as int].has_position(k2) && fm[sub as int].position(k2)
                == om[sub as int].position(k2),
        forall|k: usize|
            k != index * w + sub ==> (#[trigger] fd.contents().contains_key(k) == od.contents().contains_key(k)) && (
            fd.contents().contains_key(k) ==> fd.contents()[k] == od.contents()[k]),
        fd.contents().contains_key((index * w + sub) as usize) ==> fd.contents()[(index * w + sub) as usize].0 == new_pos,
        index * w + sub < n * w,
    ensures
        forall|k: usize|
            #[trigger] fd.contents().contains_key(k) ==> k < n * w && (fm[(k as int) % (w as int)].has_position((k as int) / (w as int)) ==> fd.contents()[k].0
                == fm[(k as int) % (w as int)].position((k as int) / (w as int))),
{
    lemma_real_index(index as int, sub as int, w as int);
    assert forall|k: usize| #[trigger] fd.contents().contains_key(k) implies k < n * w && (fm[(k as int) % (w as int)].has_position((k as int) / (w as int))
        ==> fd.contents()[k].0 == fm[(k as int) % (w as int)].position((k as int) / (w as int))) by {
        if k != index * w + sub {
            assert(od.contents().contains_key(k));
            if (k as int) % (w as int) == sub {
                vstd::arithmetic::div_mod::lemma_fundamental_div_mod(k as int, w as int);
                if (k as int) / (w as int) == index {
                    vstd::arithmetic::mul::lemma_mul_is_commutative(w as int, index as int);
                    assert(k as int == index * w + sub);
                }
            }
        }
    }
}

impl<T: Cmov + Copy + Default, const W: usize> MultiWayArray<T, W> {
    /// Creates a `MultiWayArray` of `W` subarrays of `n` elements each; `W` must be a
    /// power of two.
    pub fn new(n: usize) -> (r: Self)
        requires
            1 < n <= 0x1000_0000,
            1 <= W <= 64,
            crate::primitives::utils::is_pow2(W as int),
            n * W < usize::MAX,
        ensures
            r.wf(),
            r.size() == n,
            r.valid(),
            r@ == Map::<(usize, usize), T>::empty(),
    {
        let mut pos_map: Vec<RecursivePositionMap> = Vec::with_capacity(W);
        let mut i: usize = 0;
        while i < W
            invariant
                1 < n <= 0x1000_0000,
                1 <= W,
                i <= W,
                pos_map@.len() == i,
                forall|j: int| 0 <= j < i ==> #[trigger] pos_map@[j].wf(),
                forall|j: int| 0 <= j < i ==> #[trigger] pos_map@[j].size() == n,
                forall|j: int| 0 <= j < i ==> #[trigger] pos_map@[j].valid(),
            decreases W - i,
        {
            pos_map.push(RecursivePositionMap::new(n));
            i += 1;
        }
        proof {
            assert(pos_map@[0].wf() && pos_map@[0].size() == n);
        }
        let r = MultiWayArray { data: CircuitORAM::new(n), pos_map, rng: thread_rng() };
        proof {
            assert(r@ =~= Map::<(usize, usize), T>::empty());
        }
        r
    }

    /// The index in the shared ORAM of element `index` of subarray `subarray`.
    fn get_real_index(&self, subarray: usize, index: usize) -> (r: usize)
        requires
            subarray < W <= 64,
            crate::primitives::utils::is_pow2(W as int),
            index * W + subarray < usize::MAX,
        ensures
            r == index * W + subarray,
    {
        let l = crate::primitives::utils::log2_of_pow2(W);
        proof {
            vstd::arithmetic::power2::lemma2_to64();
            assert(l <= 6) by {
                if l > 6 {
                    vstd::arithmetic::power2::lemma_pow2_strictly_increases(6, l as nat);
                }
            }
            vstd::bits::lemma_usize_shl_is_mul(index, l);
            vstd::bits::lemma_usize_shl_is_mul(1, l);
            assert((index << l) | subarray == (index << l) + subarray) by (bit_vector)
                requires
                    subarray < (1usize << l),
                    l <= 6,
            ;
        }
        (index << l) | subarray
    }
}

impl<T: Cmov + Copy + Default, const W: usize> MultiWayArray<T, W> {
    /// Remaps element `index` of `subarray` to a fresh random position and returns its
    /// previous position and its key in the shared ORAM; the other position maps are
    /// untouched.
    fn remap(&mut self, subarray: usize, index: usize) -> (r: (PositionType, usize, PositionType))
        requires
            old(self).wf(),
            crate::primitives::utils::is_pow2(W as int),
            subarray < W,
            index < old(self).size(),
        ensures
            final(self).wf(),
            final(self).size() == old(self).size(),
            final(self).data == old(self).data,
            r.1 == index * W + subarray,
            r.2 < old(self).size(),
            forall|s: int| 0 <= s < W && s != subarray ==> #[trigger] final(self).pos_map@[s] == old(self).pos_map@[s],
            old(self).pos_map@[subarray as int].valid() && old(self).pos_map@[subarray as int].has_position(index as int) ==> {
                let om = old(self).pos_map@[subarray as int];
                let fm = final(self).pos_map@[subarray as int];
                &&& fm.valid()
                &&& r.0 == om.position(index as int)
                &&& om.room(index as int) ==> fm.has_position(index as int)
                &&& fm.has_position(index as int) ==> fm.position(index as int) == r.2
                &&& om.room(index as int) ==> forall|k2: int| #[trigger] om.has_position(k2) ==> fm.has_position(k2)
                &&& forall|k2: int| k2 != index && #[trigger] fm.has_position(k2) ==> om.has_position(k2) && fm.position(k2) == om.position(k2)
            },
    {
        let n = self.len();
        let new_pos = random_below(&mut self.rng, n);
        let ghost maps = self.pos_map@;
        let old_pos = self.pos_map[subarray].access_position(index, new_pos);
        proof {
            assert forall|i: int| 0 <= i < W implies #[trigger] self.pos_map@[i].wf() by {
                if i != subarray {
                    assert(self.pos_map@[i] == maps[i]);
                }
            }
            assert forall|i: int| 0 <= i < W implies #[trigger] self.pos_map@[i].size() == self.pos_map@[0].size() by {
                assert(maps[i].size() == maps[0].size());
            }
            assert(index * W + subarray < usize::MAX) by (nonlinear_arith)
                requires
                    index < n,
                    subarray < W,
                    n * W < usize::MAX,
            ;
        }
        let real_index = self.get_real_index(subarray, index);
        (old_pos, real_index, new_pos)
    }

    /// Reads element `index` of subarray `subarray` into `out`.
    ///
    /// On a valid array whose map for `subarray` holds `index`: the array stays valid,
    /// `out` receives the element written there, and is untouched when nothing was
    /// written. The elements stay the same, except that this one is lost when the stash
    /// proper of the ORAM has no room for it; and when every level of the map has room,
    /// every index it held stays held.
    pub fn read(&mut self, subarray: usize, index: usize, out: &mut T)
        requires
            old(self).wf(),
            crate::primitives::utils::is_pow2(W as int),
            subarray < W,
            index < old(self).size(),
        ensures
            final(self).wf(),
            final(self).size() == old(self).size(),
            old(self).valid() && old(self).mapped(subarray as int, index as int) ==> {
                &&& final(self).valid()
                &&& old(self)@.contains_key((subarray, index)) ==> *final(out) == old(self)@[(subarray, index)]
                &&& !old(self)@.contains_key((subarray, index)) ==> *final(out) == *old(out)
                &&& final(self)@ == (if old(self).data_room(subarray, index) || !old(self)@.contains_key((subarray, index)) {
                    old(self)@
                } else {
                    old(self)@.remove((subarray, index))
                })
                &&& old(self).map_room(subarray as int, index as int) ==> forall|s: int, i: int|
                    #[trigger] old(self).mapped(s, i) && 0 <= s < W ==> final(self).mapped(s, i)
            },
    {
        let ghost o = *self;
        let (old_pos, real_index, new_pos) = self.remap(subarray, index);
        proof {
            if o.valid() && o.mapped(subarray as int, index as int) {
                lemma_real_index(index as int, subarray as int, W as int);
                assert(crate::oram::circuit_oram::access_pre(self.data, old_pos, real_index, new_pos));
            }
        }
        self.data.read(old_pos, new_pos, real_index, out);
        proof {
            if o.valid() && o.mapped(subarray as int, index as int) {
                lemma_multiway_done(o, *self, subarray, index, new_pos);
                lemma_other_keys(subarray, index, o.size(), W as nat);
                if o.data_room(subarray, index) || !o@.contains_key((subarray, index)) {
                    assert(self@ =~= o@);
                } else {
                    assert(self@ =~= o@.remove((subarray, index)));
                }
            }
        }
    }

    /// Writes `value` at element `index` of subarray `subarray`.
    ///
    /// On a valid array whose map for `subarray` holds `index`: the array stays valid and
    /// holds `value` there, unless the stash proper of the ORAM has no room for it, in
    /// which case that element is lost; every other element stays the same; and when every
    /// level of the map has room, every index it held stays held.
    pub fn write(&mut self, subarray: usize, index: usize, value: T)
        requires
            old(self).wf(),
            crate::primitives::utils::is_pow2(W as int),
            subarray < W,
            index < old(self).size(),
        ensures
            final(self).wf(),
            final(self).size() == old(self).size(),
            old(self).valid() && old(self).mapped(subarray as int, index as int) ==> {
                &&& final(self).valid()
                &&& final(self)@ == (if old(self).data_room(subarray, index) {
                    old(self)@.insert((subarray, index), value)
                } else {
                    old(self)@.remove((subarray, index))
                })
                &&& old(self).map_room(subarray as int, index as int) ==> forall|s: int, i: int|
                    #[trigger] old(self).mapped(s, i) && 0 <= s < W ==> final(self).mapped(s, i)
            },
    {
        let ghost o = *self;
        let (old_pos, real_index, new_pos) = self.remap(subarray, index);
        proof {
            if o.valid() && o.mapped(subarray as int, index as int) {
                lemma_real_index(index as int, subarray as int, W as int);
                assert(crate::oram::circuit_oram::access_pre(self.data, old_pos, real_index, new_pos));
            }
        }
        self.data.write_or_insert(old_pos, new_pos, real_index, value);
        proof {
            if o.valid() && o.mapped(subarray as int, index as int) {
                lemma_multiway_done(o, *self, subarray, index, new_pos);
                lemma_other_keys(subarray, index, o.size(), W as nat);
                if o.data_room(subarray, index) {
                    assert(self@ =~= o@.insert((subarray, index), value));
                } else {
                    assert(self@ =~= o@.remove((subarray, index)));
                }
            }
        }
    }

    /// Updates element `index` of subarray `subarray` with `update_func`, returning
    /// whether it had been written before and what `update_func` returned.
    ///
    /// On a valid array whose map for `subarray` holds `index`: the array stays valid;
    /// `update_func` is applied to the element (to `T::default()` when nothing was written
    /// there) and the array holds what it left, unless the stash proper of the ORAM has no
    /// room for it, in which case that element is lost; every other element stays the
    /// same.
    pub fn update<R, F: FnOnce(&mut T) -> R>(&mut self, subarray: usize, index: usize, update_func: F) -> (r: (bool, R))
        requires
            old(self).wf(),
            crate::primitives::utils::is_pow2(W as int),
            subarray < W,
            index < old(self).size(),
            forall|x: &mut T| update_func.requires((x,)),
        ensures
            final(self).wf(),
            final(self).size() == old(self).size(),
            old(self).valid() && old(self).mapped(subarray as int, index as int) ==> {
                &&& final(self).valid()
                &&& r.0 == old(self)@.contains_key((subarray, index))
                &&& exists|x: &mut T|
                    #![trigger update_func.ensures((x,), r.1)]
                    {
                        &&& r.0 ==> *x == old(self)@[(subarray, index)]
                        &&& update_func.ensures((x,), r.1)
                        &&& final(self)@ == (if old(self).data_room(subarray, index) {
                            old(self)@.insert((subarray, index), *final(x))
                        } else {
                            old(self)@.remove((subarray, index))
                        })
                    }
                &&& old(self).map_room(subarray as int, index as int) ==> forall|s: int, i: int|
                    #[trigger] old(self).mapped(s, i) && 0 <= s < W ==> final(self).mapped(s, i)
            },
    {
        let ghost o = *self;
        let (old_pos, real_index, new_pos) = self.remap(subarray, index);
        proof {
            if o.valid() && o.mapped(subarray as int, index as int) {
                lemma_real_index(index as int, subarray as int, W as int);
                assert(crate::oram::circuit_oram::access_pre(self.data, old_pos, real_index, new_pos));
            }
        }
        let ghost od = self.data;
        let r = self.data.update(old_pos, new_pos, real_index, update_func);
        proof {
            if o.valid() && o.mapped(subarray as int, index as int) {
                lemma_multiway_done(o, *self, subarray, index, new_pos);
                lemma_other_keys(subarray, index, o.size(), W as nat);
                let x = choose|x: &mut T|
                    #![trigger update_func.ensures((x,), r.1)]
                    {
                        &&& r.0 ==> *x == od.contents()[real_index].1
                        &&& update_func.ensures((x,), r.1)
                        &&& self.data.contents() == (if stash_room(od, real_index) {
                            od.contents().insert(real_index, (new_pos, *final(x)))
                        } else {
                            od.contents().remove(real_index)
                        })
                    };
                if o.data_room(subarray, index) {
                    assert(self@ =~= o@.insert((subarray, index), *final(x)));
                } else {
                    assert(self@ =~= o@.remove((subarray, index)));
                }
            }
        }
        r
    }
}

impl<T, const W: usize> Length for MultiWayArray<T, W> {
    closed spec fn len_spec(&self) -> nat {
        if self.pos_map@.len() > 0 { self.pos_map@[0].size() } else { 0 }
    }

    fn len(&self) -> (r: usize) {
        if self.pos_map.len() > 0 {
            proof {
                crate::oram::recursive_oram::lemma_position_map_len(self.pos_map@[0]);
            }
            self.pos_map[0].len()
        } else {
            0
        }
    }
}

} // verus!
