//! A small reference-counted shared handle.
//!
//! `MyRc<T>` hands out shared ownership of one value: cloning the handle
//! shares the same value rather than copying it, and the value is dropped
//! when the last handle goes away.  Reference counting itself is delegated
//! to `std::rc::Rc`.

use std::rc::Rc;
use vstd::prelude::*;

verus! {

/// A shared, reference-counted handle to one value of type `T`.
pub struct MyRc<T> {
    inner: Rc<T>,
}

impl<T> View for MyRc<T> {
    type V = T;

    closed spec fn view(&self) -> T {
        *self.inner
    }
}

impl<T> MyRc<T> {
    /// Wraps `value` in a fresh handle with a reference count of one.
    pub fn new(value: T) -> (r: MyRc<T>)
        ensures
            r@ == value,
    {
        MyRc { inner: Rc::new(value) }
    }

    /// Relies on `Rc`'s `Deref` impl: borrowing the handle yields the
    /// shared value.
    #[verifier::external_body]
    pub fn get(&self) -> (r: &T)
        ensures
            *r == self@,
    {
        &*self.inner
    }
}

impl<T> Clone for MyRc<T> {
    /// Relies on `Rc::clone`: the new handle shares the same value.
    #[verifier::external_body]
    fn clone(&self) -> (r: Self)
        ensures
            r@ == self@,
    {
        MyRc { inner: Rc::clone(&self.inner) }
    }
}

} // verus!
