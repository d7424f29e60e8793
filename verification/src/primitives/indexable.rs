//! Traits for indexable types.
use vstd::prelude::*;

verus! {

/// Anything that has length.
pub trait Length {
    /// The length, as the contracts see it.
    spec fn len_spec(&self) -> nat;

    /// Returns the length of the indexable.
    fn len(&self) -> (r: usize)
        ensures
            r == self.len_spec(),
    ;
}

impl<T> Length for [T] {
    open spec fn len_spec(&self) -> nat {
        self@.len()
    }

    fn len(&self) -> (r: usize) {
        <[T]>::len(self)
    }
}

impl<T> Length for Vec<T> {
    open spec fn len_spec(&self) -> nat {
        self@.len()
    }

    fn len(&self) -> (r: usize) {
        Vec::len(self)
    }
}

/// A container of `T` that the algorithms of this library can work on: it has a length
/// and its contents are a sequence.
pub trait Indexable<T>: Length + View<V = Seq<T>> {
}

impl<T> Indexable<T> for [T] {
}

impl<T> Indexable<T> for Vec<T> {
}

} // verus!
