//! The variadic wrapper: a parameter that collected every remaining
//! positional argument.

use vstd::prelude::*;

verus! {

/// The values a variadic parameter collected, in source order.
pub struct Variadic<T> {
    inner: Vec<T>,
}

impl<T> Variadic<T> {
    /// The collected values.
    pub closed spec fn vals(&self) -> Seq<T> {
        self.inner@
    }

    pub fn new(inner: Vec<T>) -> (r: Self)
        ensures
            r.vals() == inner@,
    {
        Self { inner }
    }

    /// Borrow the collected values.
    pub fn inner(&self) -> (r: &[T])
        ensures
            r@ == self.vals(),
    {
        self.inner.as_slice()
    }

    /// Surrender the collected values.
    pub fn into_inner(self) -> (r: Vec<T>)
        ensures
            r@ == self.vals(),
    {
        self.inner
    }
}

} // verus!
