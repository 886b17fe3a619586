//! Contraction as a stream: collapse a stream's index dimension to the unit
//! index, leaving only its values to be summed by a scalar collector.

use vstd::prelude::*;
use crate::stream_defs::{advanced_to, IndexedStream};

verus! {

/// A stream over the unit index: it forwards validity, readiness and values
/// of its child and erases the child's indices, so that a scalar collector
/// can sum the values.
pub struct ContractStream<S> {
    pub stream: S,
}

impl<S: IndexedStream> ContractStream<S> {
    /// Collapse a stream's index dimension.
    pub fn contract(s: S) -> (r: Self)
        requires
            s.inv(),
        ensures
            r == (ContractStream { stream: s }),
    {
        ContractStream { stream: s }
    }

    /// Whether the child still has output.
    pub fn valid(&self) -> (r: bool)
        requires
            self.stream.inv(),
        ensures
            r == self.stream.valid_spec(),
    {
        self.stream.valid()
    }

    /// Whether the child is ready to emit.
    pub fn ready(&self) -> (r: bool)
        requires
            self.stream.inv(),
            self.stream.valid_spec(),
        ensures
            r == self.stream.ready_spec(),
    {
        self.stream.ready()
    }

    /// Advance the child past its current position; the unit index carries
    /// no order, so the request is re-issued at the child's own frontier.
    pub fn skip(&mut self, _index: &(), strict: bool)
        requires
            old(self).stream.inv(),
            old(self).stream.valid_spec(),
        ensures
            final(self).stream.inv(),
            advanced_to(
                final(self).stream.remaining(),
                old(self).stream.remaining(),
                old(self).stream.index_spec(),
                strict,
            ),
            final(self).stream.size() < old(self).stream.size() || (!strict
                && old(self).stream.ready_spec() && final(self).stream.size()
                <= old(self).stream.size()),
    {
        let i = self.stream.index();
        self.stream.seek(i, strict);
    }

    /// The unit index.
    pub fn index(&self) -> (r: ())
        requires
            self.stream.inv(),
            self.stream.valid_spec(),
    {
    }

    /// The child's current value.
    pub fn value(&self) -> (r: S::V)
        requires
            self.stream.inv(),
            self.stream.valid_spec(),
            self.stream.ready_spec(),
        ensures
            r == self.stream.value_spec(),
    {
        self.stream.value()
    }
}

} // verus!
