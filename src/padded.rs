//! A value kept in a wrapper of its own, so that the two ends of a queue are
//! stored as separate fields.
use vstd::prelude::*;

verus! {

pub struct CachePadded<T> {
    value: T,
}

impl<T> CachePadded<T> {
    /// The wrapped value.
    pub closed spec fn inner(&self) -> T {
        self.value
    }

    pub fn new(t: T) -> (r: Self)
        ensures
            r.inner() == t,
    {
        CachePadded { value: t }
    }

    /// Gives the wrapped value back.
    pub fn into_inner(self) -> (r: T)
        ensures
            r == self.inner(),
    {
        self.value
    }

    /// Borrows the wrapped value.
    pub fn get(&self) -> (r: &T)
        ensures
            *r == self.inner(),
    {
        &self.value
    }
}

} // verus!
