//! An option type with constant-time conditional move operations.
use vstd::prelude::*;
use crate::primitives::traits::{Cmov, cmov_result};

verus! {

/// An alternative option implementation that is easier to use in constant-time algorithms.
/// Both the value and the presence flag are always stored, so moving between two options
/// does not leak which one holds a value.
#[derive(Debug, Default, Clone, Copy, PartialEq, Eq, PartialOrd, Ord)]
pub struct OOption<T> {
    /// The underlying value of the option.
    pub value: T,
    /// A boolean flag indicating whether the option contains a value.
    pub is_some: bool,
}

impl<T: Cmov + Copy> OOption<T> {
    /// Creates a new `OOption` with the given value and presence flag.
    pub fn new(value: T, is_some: bool) -> (r: Self)
        ensures
            r.value == value,
            r.is_some == is_some,
    {
        OOption { value, is_some }
    }

    /// Returns whether the option contains a value.
    pub fn is_some(&self) -> (b: bool)
        ensures
            b == self.is_some,
    {
        self.is_some
    }

    /// Returns `value`; the option must hold one.
    pub fn unwrap(&self) -> (r: T)
        requires
            self.is_some,
        ensures
            r == self.value,
    {
        let mut ret = self.value;
        ret.cmov(&self.value, self.is_some);
        ret
    }
}

impl<T: Cmov + Copy + Default> OOption<T> {
    /// Returns the contained value if present, otherwise returns `T::default()`.
    pub fn unwrap_or_default(&self) -> (r: T)
        ensures
            self.is_some ==> r == self.value,
    {
        let mut ret = T::default();
        ret.cmov(&self.value, self.is_some);
        ret
    }
}

impl<T: Cmov + Copy> Cmov for OOption<T> {
    fn cmov(&mut self, other: &Self, choice: bool) {
        self.value.cmov(&other.value, choice);
        self.is_some.cmov(&other.is_some, choice);
    }

    fn cxchg(&mut self, other: &mut Self, choice: bool) {
        let tmp = *self;
        self.cmov(other, choice);
        other.cmov(&tmp, choice);
    }
}

} // verus!
