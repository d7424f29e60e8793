//! Variable-length oblivious vectors.
use vstd::prelude::*;
use crate::datastructures::array::DynamicArray;
use crate::primitives::indexable::Length;
use crate::primitives::traits::Cmov;

verus! {

/// A variable-length vector; leaks the length rounded up to a power of two.
pub type Vector<T> = EagerVector<T>;

/// A variable-length vector on top of a `DynamicArray` that doubles when full. Leaks the
/// length rounded up to a power of two; the accessed index is oblivious.
#[derive(Debug)]
pub struct EagerVector<T> {
    /// The number of elements.
    n: usize,
    /// The underlying storage.
    data: DynamicArray<T>,
}

impl<T> EagerVector<T> {
    /// The storage is well formed and holds at least `n` elements.
    pub closed spec fn wf(&self) -> bool {
        &&& self.data.wf()
        &&& self.n <= self.data.size()
        &&& 1 < self.data.size() <= 0x1000_0000
    }

    /// Number of elements.
    pub closed spec fn size(&self) -> nat {
        self.n as nat
    }

    /// Number of elements the storage holds.
    pub closed spec fn capacity_spec(&self) -> nat {
        self.data.size()
    }

    /// Well formed, with valid storage.
    pub closed spec fn valid(&self) -> bool {
        &&& self.wf()
        &&& self.data.valid()
    }

    /// The elements below the length that the storage holds, by index.
    pub closed spec fn view(&self) -> Map<usize, T> {
        Map::new(|i: usize| i < self.n && self.data@.contains_key(i), |i: usize| self.data@[i])
    }

    /// The storage can reach the element at `index`.
    pub closed spec fn mapped(&self, index: int) -> bool {
        self.data.mapped(index)
    }

    /// An access at `index` keeps every reachable index reachable.
    pub closed spec fn map_room(&self, index: int) -> bool {
        self.data.map_room(index)
    }

    /// An access at `index` keeps its element.
    pub closed spec fn data_room(&self, index: usize) -> bool {
        self.data.data_room(index)
    }
}

impl<T: Cmov + Copy + Default> EagerVector<T> {
    /// Creates a new empty vector with capacity 2.
    pub fn new() -> (r: Self)
        ensures
            r.wf(),
            r.valid(),
            r.size() == 0,
            r.capacity_spec() == 2,
            r@ == Map::<usize, T>::empty(),
    {
        let r = EagerVector { n: 0, data: DynamicArray::new(2) };
        proof {
            assert(r@ =~= Map::<usize, T>::empty());
        }
        r
    }

    /// Reads element `index` into `out`.
    ///
    /// On a valid vector whose storage can reach `index`: the vector stays valid, `out`
    /// receives the element at `index`, and is untouched when the storage lost it. The
    /// elements stay the same, except that the one at `index` is lost when the storage has
    /// no room for it.
    pub fn read(&mut self, index: usize, out: &mut T)
        requires
            old(self).wf(),
            index < old(self).size(),
        ensures
            final(self).wf(),
            final(self).size() == old(self).size(),
            final(self).capacity_spec() == old(self).capacity_spec(),
            old(self).valid() && old(self).mapped(index as int) ==> {
                &&& final(self).valid()
                &&& old(self)@.contains_key(index) ==> *final(out) == old(self)@[index]
                &&& !old(self)@.contains_key(index) ==> *final(out) == *old(out)
                &&& final(self)@ == (if old(self).data_room(index) || !old(self)@.contains_key(index) {
                    old(self)@
                } else {
                    old(self)@.remove(index)
                })
                &&& old(self).map_room(index as int) ==> forall|i: int| #[trigger] old(self).mapped(i) ==> final(self).mapped(i)
            },
    {
        let ghost o = *self;
        self.data.read(index, out);
        proof {
            if o.valid() && o.mapped(index as int) {
                if o.data_room(index) || !o@.contains_key(index) {
                    assert(self@ =~= o@);
                } else {
                    assert(self@ =~= o@.remove(index));
                }
            }
        }
    }

    /// Writes `value` at `index`.
    ///
    /// On a valid vector whose storage can reach `index`: the vector stays valid and holds
    /// `value` at `index`, unless the storage has no room for it, in which case the element
    /// at `index` is lost; every other element stays the same.
    pub fn write(&mut self, index: usize, value: T)
        requires
            old(self).wf(),
            index < old(self).size(),
        ensures
            final(self).wf(),
            final(self).size() == old(self).size(),
            final(self).capacity_spec() == old(self).capacity_spec(),
            old(self).valid() && old(self).mapped(index as int) ==> {
                &&& final(self).valid()
                &&& final(self)@ == (if old(self).data_room(index) {
                    old(self)@.insert(index, value)
                } else {
                    old(self)@.remove(index)
                })
                &&& old(self).map_room(index as int) ==> forall|i: int| #[trigger] old(self).mapped(i) ==> final(self).mapped(i)
            },
    {
        let ghost o = *self;
        self.data.write(index, value);
        proof {
            if o.valid() && o.mapped(index as int) {
                if o.data_room(index) {
                    assert(self@ =~= o@.insert(index, value));
                } else {
                    assert(self@ =~= o@.remove(index));
                }
            }
        }
    }

    /// Appends `value`, doubling the capacity first when the vector is full.
    ///
    /// On a valid vector that is not full and whose storage can reach the new index: the
    /// vector stays valid and holds `value` at the end, unless the storage has no room for
    /// it, in which case the new element is lost; every other element stays the same.
    pub fn push_back(&mut self, value: T)
        requires
            old(self).wf(),
            old(self).size() < 0x0800_0000,
        ensures
            final(self).wf(),
            final(self).size() == old(self).size() + 1,
            final(self).capacity_spec() == (if old(self).size() == old(self).capacity_spec() {
                2 * old(self).size()
            } else {
                old(self).capacity_spec()
            }),
            old(self).valid() && old(self).size() < old(self).capacity_spec() && old(self).mapped(old(self).size() as int) ==> {
                &&& final(self).valid()
                &&& final(self)@ == (if old(self).data_room(old(self).size() as usize) {
                    old(self)@.insert(old(self).size() as usize, value)
                } else {
                    old(self)@
                })
            },
    {
        let ghost o = *self;
        if self.n == self.data.len() {
            self.data.resize(2 * self.n);
        }
        self.data.write(self.n, value);
        self.n += 1;
        proof {
            if o.valid() && o.size() < o.capacity_spec() && o.mapped(o.size() as int) {
                if o.data_room(o.size() as usize) {
                    assert(self@ =~= o@.insert(o.size() as usize, value));
                } else {
                    assert(self@ =~= o@);
                }
            }
        }
    }

    /// Removes the last element and returns it.
    ///
    /// On a valid vector whose storage can reach the last index: the vector stays valid,
    /// the result is the last element when the storage still holds it, and the
    /// other elements stay the same.
    pub fn pop_back(&mut self) -> (r: T)
        requires
            old(self).wf(),
            old(self).size() > 0,
        ensures
            final(self).wf(),
            final(self).size() == old(self).size() - 1,
            final(self).capacity_spec() == old(self).capacity_spec(),
            old(self).valid() && old(self).mapped(old(self).size() - 1) ==> {
                &&& final(self).valid()
                &&& old(self)@.contains_key((old(self).size() - 1) as usize) ==> r == old(self)@[(old(self).size() - 1) as usize]
                &&& final(self)@ == old(self)@.remove((old(self).size() - 1) as usize)
            },
    {
        let ghost o = *self;
        self.n -= 1;
        let mut value = T::default();
        self.data.read(self.n, &mut value);
        proof {
            if o.valid() && o.mapped(o.size() - 1) {
                assert(self@ =~= o@.remove((o.size() - 1) as usize));
            }
        }
        value
    }

    /// Returns the current capacity of the vector: `len() <= capacity()`.
    pub fn capacity(&self) -> (r: usize)
        ensures
            r == self.capacity_spec(),
    {
        self.data.len()
    }
}

impl<T> Length for EagerVector<T> {
    closed spec fn len_spec(&self) -> nat {
        self.n as nat
    }

    fn len(&self) -> (r: usize) {
        self.n
    }
}

impl<T: Cmov + Copy + Default> Default for EagerVector<T> {
    fn default() -> (r: Self)
        ensures
            r.wf(),
            r.size() == 0,
    {
        Self::new()
    }
}

} // verus!
