//! Functional streams: a closure-like source that yields a value for any
//! probed index. It has no end of its own, so it is only meaningful inside a
//! combinator whose other side supplies the termination.

use vstd::prelude::*;

verus! {

/// A stream defined by its value at every index; its specification function
/// pins the value each probe returns.
pub trait FunStream: Sized {
    type V;

    /// The value this stream holds at `index`.
    spec fn value_spec(&self, index: usize) -> Self::V;

    /// Yield the value at `index`; idempotent.
    fn value(&self, index: &usize) -> (r: Self::V)
        ensures
            r == self.value_spec(*index),
    ;
}

/// A broadcast source: the same value at every index. Used as the trailing
/// dimension of an outer product.
#[derive(Debug, Clone)]
pub struct Broadcast<V> {
    pub value: V,
}

impl<V: Copy> Broadcast<V> {
    /// A stream holding `value` at every index.
    pub fn new(value: V) -> (r: Self)
        ensures
            r == (Broadcast { value }),
    {
        Broadcast { value }
    }
}

impl<V: Copy> FunStream for Broadcast<V> {
    type V = V;

    open spec fn value_spec(&self, index: usize) -> V {
        self.value
    }

    fn value(&self, _index: &usize) -> V {
        self.value
    }
}

} // verus!
