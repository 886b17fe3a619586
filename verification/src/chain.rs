//! Chaining two streams that occupy disjoint, ordered key ranges: a fixed
//! chain over two existing streams, and a deferred chain whose second stream
//! is built by a closure once the first is exhausted.

use vstd::prelude::*;
use crate::stream_defs::{
    key_passed, sorted_keys, seek_covers, advanced_to, IndexedStream, EagerStream,
};

verus! {

/// Relies on replace_with::replace_with_or_abort: it moves the value out
/// from behind `dest`, applies `f`, and stores the result back; on unwind it
/// aborts instead of leaving `dest` invalid.
#[verifier::external_body]
fn replace_in_place<T, F: FnOnce(T) -> T>(dest: &mut T, f: F)
    requires
        call_requires(f, (*old(dest),)),
    ensures
        call_ensures(f, (*old(dest),), *final(dest)),
{
    replace_with::replace_with_or_abort(dest, f)
}

/// Concatenate two streams whose key ranges are known to be ordered and
/// disjoint: every key of the first lies strictly before every key of the
/// second. Emits the first stream, then the second.
#[derive(Debug, Clone)]
pub struct FixedChainStream<A, B> {
    pub first: A,
    pub second: B,
}

impl<A, B> FixedChainStream<A, B> where A: EagerStream, B: IndexedStream<V = A::V> {
    /// The disjoint-range side condition: all keys still in `first` lie
    /// strictly before all keys still in `second`.
    pub open spec fn ranges_disjoint(first: A, second: B) -> bool {
        forall|i: int, k: int|
            0 <= i < first.remaining().len() && 0 <= k < second.remaining().len()
                ==> (#[trigger] first.remaining()[i]).0 < (#[trigger] second.remaining()[k]).0
    }

    /// Chain two streams over disjoint, ordered key ranges.
    pub fn new(first: A, second: B) -> (r: Self)
        requires
            first.inv(),
            second.inv(),
            Self::ranges_disjoint(first, second),
        ensures
            r == (FixedChainStream { first, second }),
            r.inv(),
            r.remaining() == first.remaining() + second.remaining(),
    {
        FixedChainStream { first, second }
    }
}

impl<A, B> IndexedStream for FixedChainStream<A, B> where
    A: EagerStream,
    B: IndexedStream<V = A::V>,
 {
    type V = A::V;

    open spec fn inv(&self) -> bool {
        self.first.inv() && self.second.inv() && Self::ranges_disjoint(self.first, self.second)
    }

    open spec fn remaining(&self) -> Seq<(usize, A::V)> {
        self.first.remaining() + self.second.remaining()
    }

    open spec fn size(&self) -> nat {
        self.first.size() + self.second.size()
    }

    open spec fn valid_spec(&self) -> bool {
        self.first.valid_spec() || self.second.valid_spec()
    }

    open spec fn ready_spec(&self) -> bool {
        if self.first.valid_spec() {
            self.first.ready_spec()
        } else {
            self.second.ready_spec()
        }
    }

    open spec fn index_spec(&self) -> usize {
        if self.first.valid_spec() {
            self.first.index_spec()
        } else {
            self.second.index_spec()
        }
    }

    open spec fn value_spec(&self) -> A::V {
        if self.first.valid_spec() {
            self.first.value_spec()
        } else {
            self.second.value_spec()
        }
    }

    proof fn lemma_inv(&self) {
        self.first.lemma_inv();
        self.second.lemma_inv();
        self.first.lemma_eager();
        let a = self.first.remaining();
        let b = self.second.remaining();
        let s = a + b;
        assert forall|i: int, j: int| 0 <= i < j < s.len() implies (#[trigger] s[i]).0
            < (#[trigger] s[j]).0 by {
            if j < a.len() {
                assert(s[i] == a[i] && s[j] == a[j]);
            } else if i >= a.len() {
                assert(s[i] == b[i - a.len()] && s[j] == b[j - a.len()]);
            } else {
                assert(s[i] == a[i] && s[j] == b[j - a.len()]);
            }
        }
        if !self.first.valid_spec() {
            assert(s =~= b);
        }
        if self.valid_spec() {
            assert forall|k: int| 0 <= k < s.len() implies (#[trigger] s[k]).0
                >= self.index_spec() by {
                if self.first.valid_spec() {
                    if k < a.len() {
                        assert(s[k] == a[k]);
                    } else {
                        assert(s[k] == b[k - a.len()]);
                        assert(a[0].0 >= self.first.index_spec());
                    }
                } else {
                    assert(s[k] == b[k - a.len()]);
                }
            }
        }
    }

    fn valid(&self) -> bool {
        self.first.valid() || self.second.valid()
    }

    fn ready(&self) -> bool {
        if self.first.valid() {
            self.first.ready()
        } else {
            self.second.ready()
        }
    }

    fn index(&self) -> usize {
        if self.first.valid() {
            self.first.index()
        } else {
            self.second.index()
        }
    }

    fn value(&self) -> A::V {
        if self.first.valid() {
            self.first.value()
        } else {
            self.second.value()
        }
    }

    fn seek(&mut self, target: usize, strict: bool) {
        proof {
            old(self).first.lemma_inv();
            old(self).first.lemma_eager();
            old(self).second.lemma_inv();
        }
        if self.first.valid() {
            self.first.seek(target, strict);
            proof {
                let a = old(self).first.remaining();
                let b = old(self).second.remaining();
                let a2 = self.first.remaining();
                let d = a.len() - a2.len();
                assert(a2 + b == (a + b).skip(d)) by {
                    assert(a2 + b =~= (a + b).skip(d));
                }
                assert forall|j: int| 0 <= j < d implies key_passed(
                    (#[trigger] (a + b)[j]).0,
                    target,
                    strict,
                ) by {
                    assert((a + b)[j] == a[j]);
                }
                if strict && old(self).ready_spec() && target == old(self).index_spec() {
                    assert(a.len() > 0);
                    assert(a2 == a.drop_first());
                    assert(a2 + b =~= (a + b).drop_first());
                }
            }
        } else {
            self.second.seek(target, strict);
            proof {
                let a = old(self).first.remaining();
                let b = old(self).second.remaining();
                let b2 = self.second.remaining();
                assert(a.len() == 0);
                assert(a + b =~= b);
                assert(a + b2 =~= b2);
            }
        }
    }
}

impl<A, B> EagerStream for FixedChainStream<A, B> where
    A: EagerStream,
    B: EagerStream<V = A::V>,
 {
    proof fn lemma_eager(&self) {
        self.first.lemma_inv();
        self.first.lemma_eager();
        self.second.lemma_inv();
        self.second.lemma_eager();
    }
}

/// Chain a stream with a deferred second stream, built by a closure the
/// moment the first is exhausted. While the variant is `First`, the first
/// stream is valid; any operation that may exhaust it checks validity and,
/// if it is spent, applies the closure and moves to `Second`.
#[derive(Clone)]
pub enum ChainStream<A: IndexedStream, B, F> {
    First { stream: A, f: F, tail: Ghost<(Seq<(usize, A::V)>, nat)> },
    Second { stream: B },
}

impl<A, B, F> ChainStream<A, B, F> where
    A: EagerStream,
    B: IndexedStream<V = A::V>,
    F: FnOnce(A) -> B,
 {
    /// What the closure promises: from any exhausted well-formed first
    /// stream, it builds a second stream with the model `p.0` and the
    /// measure `p.1`.
    pub open spec fn handoff_ok(f: F, p: (Seq<(usize, A::V)>, nat)) -> bool {
        forall|x: A, y: B|
            call_ensures(f, (x,), y) && x.inv() && !x.valid_spec() ==> y.inv() && y.remaining()
                == p.0 && y.size() == p.1
    }

    /// The closure may be applied to any exhausted well-formed first stream.
    pub open spec fn handoff_callable(f: F) -> bool {
        forall|x: A| x.inv() && !x.valid_spec() ==> call_requires(f, (x,))
    }

    /// The full promise a deferred chain is built on: a sorted tail model
    /// whose keys lie strictly beyond every key the first stream can emit.
    pub open spec fn chain_promise(first: A, f: F, p: (Seq<(usize, A::V)>, nat)) -> bool {
        &&& Self::handoff_ok(f, p)
        &&& sorted_keys(p.0)
        &&& forall|i: int, k: int|
            0 <= i < first.remaining().len() && 0 <= k < p.0.len()
                ==> (#[trigger] first.remaining()[i]).0 < (#[trigger] p.0[k]).0
    }

    /// Chain `first` with the stream that `f` will build from it once it is
    /// exhausted.
    pub fn chain(first: A, f: F) -> (r: Self)
        requires
            first.inv(),
            Self::handoff_callable(f),
            exists|p: (Seq<(usize, A::V)>, nat)| Self::chain_promise(first, f, p),
        ensures
            r.inv(),
            exists|p: (Seq<(usize, A::V)>, nat)|
                Self::chain_promise(first, f, p) && r.remaining() == first.remaining() + p.0,
    {
        let ghost p = choose|p: (Seq<(usize, A::V)>, nat)| Self::chain_promise(first, f, p);
        proof {
            first.lemma_inv();
        }
        if first.valid() {
            ChainStream::First { stream: first, f, tail: Ghost(p) }
        } else {
            let second = f(first);
            proof {
                assert(first.remaining() + p.0 =~= p.0);
            }
            ChainStream::Second { stream: second }
        }
    }
}

impl<A, B, F> IndexedStream for ChainStream<A, B, F> where
    A: EagerStream,
    B: IndexedStream<V = A::V>,
    F: FnOnce(A) -> B,
 {
    type V = A::V;

    open spec fn inv(&self) -> bool {
        match self {
            ChainStream::First { stream, f, tail } => {
                &&& stream.inv()
                &&& stream.valid_spec()
                &&& Self::handoff_ok(*f, tail@)
                &&& Self::handoff_callable(*f)
                &&& sorted_keys(tail@.0)
                &&& forall|i: int, k: int|
                    0 <= i < stream.remaining().len() && 0 <= k < tail@.0.len()
                        ==> (#[trigger] stream.remaining()[i]).0 < (#[trigger] tail@.0[k]).0
            },
            ChainStream::Second { stream } => stream.inv(),
        }
    }

    open spec fn remaining(&self) -> Seq<(usize, A::V)> {
        match self {
            ChainStream::First { stream, tail, .. } => stream.remaining() + tail@.0,
            ChainStream::Second { stream } => stream.remaining(),
        }
    }

    open spec fn size(&self) -> nat {
        match self {
            ChainStream::First { stream, tail, .. } => stream.size() + tail@.1,
            ChainStream::Second { stream } => stream.size(),
        }
    }

    open spec fn valid_spec(&self) -> bool {
        match self {
            ChainStream::First { .. } => true,
            ChainStream::Second { stream } => stream.valid_spec(),
        }
    }

    open spec fn ready_spec(&self) -> bool {
        match self {
            ChainStream::First { stream, .. } => stream.ready_spec(),
            ChainStream::Second { stream } => stream.ready_spec(),
        }
    }

    open spec fn index_spec(&self) -> usize {
        match self {
            ChainStream::First { stream, .. } => stream.index_spec(),
            ChainStream::Second { stream } => stream.index_spec(),
        }
    }

    open spec fn value_spec(&self) -> A::V {
        match self {
            ChainStream::First { stream, .. } => stream.value_spec(),
            ChainStream::Second { stream } => stream.value_spec(),
        }
    }

    proof fn lemma_inv(&self) {
        match self {
            ChainStream::First { stream, f, tail } => {
                stream.lemma_inv();
                stream.lemma_eager();
                let a = stream.remaining();
                let b = tail@.0;
                let s = a + b;
                assert(a.len() > 0);
                assert forall|i: int, j: int| 0 <= i < j < s.len() implies (#[trigger] s[i]).0
                    < (#[trigger] s[j]).0 by {
                    if j < a.len() {
                        assert(s[i] == a[i] && s[j] == a[j]);
                    } else if i >= a.len() {
                        assert(s[i] == b[i - a.len()] && s[j] == b[j - a.len()]);
                    } else {
                        assert(s[i] == a[i] && s[j] == b[j - a.len()]);
                    }
                }
                assert forall|k: int| 0 <= k < s.len() implies (#[trigger] s[k]).0
                    >= self.index_spec() by {
                    if k < a.len() {
                        assert(s[k] == a[k]);
                    } else {
                        assert(s[k] == b[k - a.len()]);
                        assert(a[0].0 >= stream.index_spec());
                    }
                }
                assert(s[0] == a[0]);
            },
            ChainStream::Second { stream } => {
                stream.lemma_inv();
            },
        }
    }

    fn valid(&self) -> bool {
        match self {
            ChainStream::First { .. } => true,
            ChainStream::Second { stream } => stream.valid(),
        }
    }

    fn ready(&self) -> bool {
        match self {
            ChainStream::First { stream, .. } => stream.ready(),
            ChainStream::Second { stream } => stream.ready(),
        }
    }

    fn index(&self) -> usize {
        match self {
            ChainStream::First { stream, .. } => stream.index(),
            ChainStream::Second { stream } => stream.index(),
        }
    }

    fn value(&self) -> A::V {
        match self {
            ChainStream::First { stream, .. } => stream.value(),
            ChainStream::Second { stream } => stream.value(),
        }
    }

    fn seek(&mut self, target: usize, strict: bool) {
        let clos = |me: Self| -> (out: Self)
            requires
                me.inv(),
                me.valid_spec(),
            ensures
                Self::chain_seek_post(me, out, target, strict),
            {
                match me {
                    ChainStream::First { stream, f, tail } => {
                        let ghost pre = stream;
                        let mut a = stream;
                        proof {
                            a.lemma_inv();
                            a.lemma_eager();
                        }
                        a.seek(target, strict);
                        proof {
                            a.lemma_inv();
                        }
                        if !a.valid() {
                            let second = f(a);
                            proof {
                                let prev = pre.remaining() + tail@.0;
                                let d = pre.remaining().len() as int;
                                assert(second.remaining() == prev.skip(d)) by {
                                    assert(tail@.0 =~= prev.skip(d));
                                }
                                assert forall|j: int| 0 <= j < d implies key_passed(
                                    (#[trigger] prev[j]).0,
                                    target,
                                    strict,
                                ) by {
                                    assert(prev[j] == pre.remaining()[j]);
                                }
                                if strict && pre.ready_spec() && target == pre.index_spec() {
                                    assert(a.remaining() == pre.remaining().drop_first());
                                    assert(pre.remaining().len() == 1);
                                    assert(second.remaining() =~= prev.drop_first());
                                }
                            }
                            ChainStream::Second { stream: second }
                        } else {
                            proof {
                                let prev = pre.remaining() + tail@.0;
                                let a2 = a.remaining();
                                let d = pre.remaining().len() - a2.len();
                                assert(a2 + tail@.0 == prev.skip(d)) by {
                                    assert(a2 + tail@.0 =~= prev.skip(d));
                                }
                                assert forall|j: int| 0 <= j < d implies key_passed(
                                    (#[trigger] prev[j]).0,
                                    target,
                                    strict,
                                ) by {
                                    assert(prev[j] == pre.remaining()[j]);
                                }
                                assert forall|i: int, k: int|
                                    0 <= i < a2.len() && 0 <= k < tail@.0.len() implies (
                                #[trigger] a2[i]).0 < (#[trigger] tail@.0[k]).0 by {
                                    assert(a2[i] == pre.remaining()[d + i]);
                                }
                                if strict && pre.ready_spec() && target == pre.index_spec() {
                                    assert(a2 == pre.remaining().drop_first());
                                    assert(pre.remaining().len() > 0);
                                    assert(a2 + tail@.0 =~= prev.drop_first());
                                }
                            }
                            ChainStream::First { stream: a, f, tail }
                        }
                    },
                    ChainStream::Second { stream } => {
                        let mut b = stream;
                        b.seek(target, strict);
                        ChainStream::Second { stream: b }
                    },
                }
            };
        replace_in_place(self, clos);
    }
}

impl<A, B, F> ChainStream<A, B, F> where
    A: EagerStream,
    B: IndexedStream<V = A::V>,
    F: FnOnce(A) -> B,
 {
    /// The seek contract, as a relation between the state before and after.
    pub open spec fn chain_seek_post(pre: Self, post: Self, target: usize, strict: bool) -> bool {
        &&& post.inv()
        &&& post.size() <= pre.size()
        &&& advanced_to(post.remaining(), pre.remaining(), target, strict)
        &&& (seek_covers(target, strict, pre.index_spec(), pre.ready_spec()) ==> post.size()
            < pre.size())
        &&& (strict && pre.ready_spec() && target == pre.index_spec() ==> post.remaining()
            == pre.remaining().drop_first())
    }
}

} // verus!
