//! A wrapper whose values never compare equal.
//!
//! Reactive hosts skip work when a new value equals the old one; wrapping
//! a value in [`Distinct`] defeats that comparison, so every update is
//! propagated.

use vstd::prelude::*;

verus! {

/// A value of which no two instances are equal, not even to itself.
#[derive(Clone, Copy, Debug)]
pub struct Distinct<T>(pub T);

impl<T> PartialEq for Distinct<T> {
    fn eq(&self, _other: &Self) -> (r: bool)
        ensures
            r == false,
    {
        false
    }
}

impl<T> vstd::std_specs::cmp::PartialEqSpecImpl for Distinct<T> {
    open spec fn obeys_eq_spec() -> bool {
        true
    }

    open spec fn eq_spec(&self, _other: &Self) -> bool {
        false
    }
}

impl<T> Distinct<T> {
    /// The wrapped value.
    pub fn get(&self) -> (r: &T)
        ensures
            *r == self.0,
    {
        &self.0
    }
}

/// Wraps values in [`Distinct`] when mapped over a signal.
#[derive(Clone, Copy, Debug, PartialEq, Eq, Structural)]
pub struct MapDistinct;

impl MapDistinct {
    /// Wrap one value.
    pub fn map_value<T>(&self, from: T) -> (r: Distinct<T>)
        ensures
            r.0 == from,
    {
        Distinct(from)
    }
}

} // verus!
