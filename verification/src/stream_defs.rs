//! The indexed-stream protocol: a cursor over an ordered sequence of
//! (index, value) pairs, with the combinator-friendly ready/not-ready split,
//! and the terminal operations that drain such a cursor.

use vstd::prelude::*;

verus! {

/// A request to advance to `target` (strictly past it when `strict` is set)
/// makes the key `k` unreachable exactly when this predicate holds.
pub open spec fn key_passed(k: usize, target: usize, strict: bool) -> bool {
    k < target || (strict && k == target)
}

/// The keys of an emission sequence are strictly increasing.
pub open spec fn sorted_keys<V>(s: Seq<(usize, V)>) -> bool {
    forall|i: int, j: int| 0 <= i < j < s.len() ==> (#[trigger] s[i]).0 < (#[trigger] s[j]).0
}

/// The keys of an emission sequence, in order.
pub open spec fn keys_of<V>(s: Seq<(usize, V)>) -> Seq<usize> {
    s.map_values(|p: (usize, V)| p.0)
}

/// `cur` is what an emission sequence `prev` may become under a request to
/// advance to `(target, strict)`: a suffix of `prev` missing only passed keys.
pub open spec fn advanced_to<V>(
    cur: Seq<(usize, V)>,
    prev: Seq<(usize, V)>,
    target: usize,
    strict: bool,
) -> bool {
    &&& cur.len() <= prev.len()
    &&& cur == prev.skip(prev.len() - cur.len())
    &&& forall|j: int|
        0 <= j < prev.len() - cur.len() ==> key_passed((#[trigger] prev[j]).0, target, strict)
}

/// Lexicographic domination `(target, strict) >= (index, ready)` with
/// `false < true`: a seek whose request covers the current position must make
/// observable progress, which is what makes the fused fold terminate.
pub open spec fn seek_covers(target: usize, strict: bool, index: usize, ready: bool) -> bool {
    index < target || (index == target && (strict || !ready))
}

/// Advancement is reflexive: dropping nothing is a legal outcome of any seek.
pub proof fn lemma_advance_refl<W>(s: Seq<(usize, W)>, target: usize, strict: bool)
    ensures
        advanced_to(s, s, target, strict),
{
    assert(s.skip(0) =~= s);
}

/// Advancement past a dropped head: if `prev` lost at least its head, the
/// rest of the drop is an advancement of `prev` without that head, and the
/// head's key was passed.
pub proof fn lemma_advance_uncons<W>(
    cur: Seq<(usize, W)>,
    prev: Seq<(usize, W)>,
    target: usize,
    strict: bool,
)
    requires
        advanced_to(cur, prev, target, strict),
        cur.len() < prev.len(),
    ensures
        advanced_to(cur, prev.drop_first(), target, strict),
        key_passed(prev[0].0, target, strict),
{
    let d = prev.len() - cur.len();
    assert(key_passed(prev[0].0, target, strict));
    assert(cur == prev.drop_first().skip(d - 1)) by {
        assert(prev.skip(d) =~= prev.drop_first().skip(d - 1));
    }
    assert(forall|j: int|
        0 <= j < d - 1 ==> key_passed((#[trigger] prev.drop_first()[j]).0, target, strict));
}

/// Advancement survives prepending a passed head to the previous model.
pub proof fn lemma_advance_prepend<W>(
    head: (usize, W),
    rest: Seq<(usize, W)>,
    cur: Seq<(usize, W)>,
    target: usize,
    strict: bool,
)
    requires
        advanced_to(cur, rest, target, strict),
        key_passed(head.0, target, strict),
    ensures
        advanced_to(cur, seq![head] + rest, target, strict),
{
    let prev = seq![head] + rest;
    let d = rest.len() - cur.len();
    assert(cur == prev.skip(d + 1)) by {
        assert(prev.skip(d + 1) =~= rest.skip(d));
    }
    assert forall|j: int| 0 <= j < d + 1 implies key_passed(
        (#[trigger] prev[j]).0,
        target,
        strict,
    ) by {
        if j > 0 {
            assert(prev[j] == rest[j - 1]);
        }
    }
}

/// A stateful cursor over an ordered sequence of (index, value) pairs.
///
/// The mathematical model of a cursor is `remaining()`: the ordered pairs it
/// can still emit when driven by ready-emit-advance iteration. `seek` may
/// drop only a prefix of passed keys from that model, and an advance issued
/// at the current ready position drops exactly the head.
pub trait IndexedStream: Sized {
    type V;

    /// Internal well-formedness of the cursor.
    spec fn inv(&self) -> bool;

    /// The ordered (index, value) pairs this cursor can still emit.
    spec fn remaining(&self) -> Seq<(usize, Self::V)>;

    /// Termination measure: strictly decreases on every covered seek.
    spec fn size(&self) -> nat;

    /// Whether the cursor has remaining output.
    spec fn valid_spec(&self) -> bool;

    /// Whether the current index carries an emittable value.
    spec fn ready_spec(&self) -> bool;

    /// The current index.
    spec fn index_spec(&self) -> usize;

    /// The current value.
    spec fn value_spec(&self) -> Self::V;

    /// Facts every well-formed cursor maintains: the model's keys are strictly
    /// increasing (monotonicity of emission), an invalid cursor emits nothing,
    /// a valid one still has work to account for, a ready cursor stands
    /// exactly at the head of its model, and no remaining key lies behind the
    /// current index.
    proof fn lemma_inv(&self)
        requires
            self.inv(),
        ensures
            sorted_keys(self.remaining()),
            !self.valid_spec() ==> self.remaining().len() == 0,
            self.valid_spec() ==> self.size() > 0,
            self.valid_spec() && self.ready_spec() ==> self.remaining().len() > 0
                && self.remaining()[0] == (self.index_spec(), self.value_spec()),
            self.valid_spec() ==> forall|k: int|
                0 <= k < self.remaining().len() ==> (#[trigger] self.remaining()[k]).0
                    >= self.index_spec(),
    ;

    /// Whether the cursor has been exhausted. Safe to call at any time.
    fn valid(&self) -> (r: bool)
        requires
            self.inv(),
        ensures
            r == self.valid_spec(),
    ;

    /// Whether the cursor should yield an element in its current state.
    fn ready(&self) -> (r: bool)
        requires
            self.inv(),
            self.valid_spec(),
        ensures
            r == self.ready_spec(),
    ;

    /// The current index of the cursor.
    fn index(&self) -> (r: usize)
        requires
            self.inv(),
            self.valid_spec(),
        ensures
            r == self.index_spec(),
    ;

    /// The current value of the cursor; idempotent.
    fn value(&self) -> (r: Self::V)
        requires
            self.inv(),
            self.valid_spec(),
            self.ready_spec(),
        ensures
            r == self.value_spec(),
    ;

    /// Advance as far as possible up to `target` (skipping `target` itself
    /// when `strict`). Only passed keys may be dropped from the model, a
    /// covered request makes progress, and an advance issued at the current
    /// ready position consumes exactly the head of the model.
    fn seek(&mut self, target: usize, strict: bool)
        requires
            old(self).inv(),
            old(self).valid_spec(),
        ensures
            final(self).inv(),
            final(self).size() <= old(self).size(),
            advanced_to(final(self).remaining(), old(self).remaining(), target, strict),
            seek_covers(target, strict, old(self).index_spec(), old(self).ready_spec())
                ==> final(self).size() < old(self).size(),
            strict && old(self).ready_spec() && target == old(self).index_spec()
                ==> final(self).remaining() == old(self).remaining().drop_first(),
    ;
}

/// A cursor that is ready whenever it is valid, and valid exactly while its
/// model is non-empty. Source cursors over materialized data are of this
/// kind; chaining relies on it.
pub trait EagerStream: IndexedStream {
    proof fn lemma_eager(&self)
        requires
            self.inv(),
        ensures
            self.valid_spec() <==> self.remaining().len() > 0,
            self.valid_spec() ==> self.ready_spec(),
    ;
}

/// Advancement composes: two successive advances under one request are one.
pub proof fn lemma_advance_trans<W>(
    c: Seq<(usize, W)>,
    b: Seq<(usize, W)>,
    a: Seq<(usize, W)>,
    target: usize,
    strict: bool,
)
    requires
        advanced_to(c, b, target, strict),
        advanced_to(b, a, target, strict),
    ensures
        advanced_to(c, a, target, strict),
{
    let d1 = b.len() - c.len();
    let d2 = a.len() - b.len();
    assert(c == a.skip(d1 + d2)) by {
        assert(a.skip(d2 + d1) =~= b.skip(d1));
    }
    assert forall|j: int| 0 <= j < d1 + d2 implies key_passed(
        (#[trigger] a[j]).0,
        target,
        strict,
    ) by {
        if j >= d2 {
            assert(b[j - d2] == a[j]);
        }
    }
}

/// Whether a cursor still stands at a position that the request
/// `(target, strict)` covers, so that another seek is obliged to advance it.
fn still_covered<S: IndexedStream>(s: &S, target: usize, strict: bool) -> (r: bool)
    requires
        s.inv(),
    ensures
        r == (s.valid_spec() && seek_covers(target, strict, s.index_spec(), s.ready_spec())),
{
    if s.valid() {
        let i = s.index();
        i < target || (i == target && (strict || !s.ready()))
    } else {
        false
    }
}

/// Seek to completion: advance until the request no longer covers the
/// position. Afterwards no passed key remains in the model, so the model is
/// exactly the old one with its passed prefix removed.
pub fn seek_fully<S: IndexedStream>(s: &mut S, target: usize, strict: bool)
    requires
        old(s).inv(),
        old(s).valid_spec(),
    ensures
        final(s).inv(),
        final(s).size() <= old(s).size(),
        advanced_to(final(s).remaining(), old(s).remaining(), target, strict),
        seek_covers(target, strict, old(s).index_spec(), old(s).ready_spec())
            ==> final(s).size() < old(s).size(),
        forall|k: int|
            0 <= k < final(s).remaining().len() ==> !key_passed(
                (#[trigger] final(s).remaining()[k]).0,
                target,
                strict,
            ),
        strict && old(s).ready_spec() && target == old(s).index_spec()
            ==> final(s).remaining() == old(s).remaining().drop_first(),
{
    let ghost orig = *old(s);
    proof {
        orig.lemma_inv();
    }
    s.seek(target, strict);
    let ghost mid_size = s.size();
    while still_covered(s, target, strict)
        invariant
            s.inv(),
            orig.inv(),
            orig.valid_spec(),
            s.size() <= mid_size,
            advanced_to(s.remaining(), orig.remaining(), target, strict),
            (strict && orig.ready_spec() && target == orig.index_spec()) ==> s.remaining()
                == orig.remaining().drop_first(),
        decreases s.size(),
    {
        let ghost before = *s;
        proof {
            before.lemma_inv();
        }
        s.seek(target, strict);
        proof {
            lemma_advance_trans(
                s.remaining(),
                before.remaining(),
                orig.remaining(),
                target,
                strict,
            );
            if strict && orig.ready_spec() && target == orig.index_spec() {
                // the head was already consumed; everything left lies past the
                // target, so this seek dropped nothing
                orig.lemma_inv();
                assert forall|k: int|
                    0 <= k < before.remaining().len() implies (#[trigger] before.remaining()[k]).0
                    > target by {
                    assert(before.remaining()[k] == orig.remaining()[k + 1]);
                    assert(orig.remaining()[0].0 == target);
                }
                let d = before.remaining().len() - s.remaining().len();
                if d > 0 {
                    assert(key_passed(before.remaining()[0].0, target, strict));
                    assert(false);
                }
                assert(s.remaining() == before.remaining().skip(0));
                assert(before.remaining().skip(0) =~= before.remaining());
            }
        }
    }
    proof {
        s.lemma_inv();
        if s.valid_spec() {
            assert forall|k: int|
                0 <= k < s.remaining().len() implies !key_passed(
                (#[trigger] s.remaining()[k]).0,
                target,
                strict,
            ) by {
                assert(s.remaining()[k].0 >= s.index_spec());
            }
        }
    }
}

/// One step of ready-emit-advance iteration: equivalent to
/// `seek(index(), ready())`. When the cursor was ready this consumes exactly
/// the head of the model; otherwise the model is untouched but the cursor
/// still makes internal progress.
pub fn stream_next<S: IndexedStream>(s: &mut S)
    requires
        old(s).inv(),
        old(s).valid_spec(),
    ensures
        final(s).inv(),
        final(s).size() < old(s).size(),
        old(s).ready_spec() ==> final(s).remaining() == old(s).remaining().drop_first(),
        !old(s).ready_spec() ==> final(s).remaining() == old(s).remaining(),
{
    proof {
        s.lemma_inv();
    }
    let r = s.ready();
    let i = s.index();
    s.seek(i, r);
    proof {
        if !old(s).ready_spec() {
            // nothing behind the current index remains, so nothing was dropped
            let prev = old(s).remaining();
            let cur = s.remaining();
            assert(forall|j: int| 0 <= j < prev.len() ==> (#[trigger] prev[j]).0 >= i);
            if cur.len() < prev.len() {
                assert(key_passed(prev[0].0, i, false));
                assert(false);
            }
            assert(cur == prev.skip(0));
            assert(prev.skip(0) =~= prev);
        }
    }
}

/// A stream that can be duplicated into independent cursors over the same
/// immutable source; required wherever a nested stream is consumed more than
/// once.
pub trait CloneableIndexedStream: IndexedStream + Clone {

}

impl<S: IndexedStream + Clone> CloneableIndexedStream for S {

}

/// A pointwise value transform: validity, readiness, indices and iteration
/// order pass through untouched; only the values change. The mapping
/// closure must accept every pair and be deterministic, so that the mapped
/// model is well defined.
pub struct MappedStream<S, F, O> {
    pub stream: S,
    pub map: F,
    pub _output: core::marker::PhantomData<O>,
}

impl<S: IndexedStream, O, F: Fn(usize, S::V) -> O> MappedStream<S, F, O> {
    /// The closure accepts every (index, value) pair.
    pub open spec fn fun_callable(f: F) -> bool {
        forall|i: usize, v: S::V| call_requires(f, (i, v))
    }

    /// The closure determines one output per (index, value) pair.
    pub open spec fn fun_deterministic(f: F) -> bool {
        forall|i: usize, v: S::V, o1: O, o2: O|
            call_ensures(f, (i, v), o1) && call_ensures(f, (i, v), o2) ==> o1 == o2
    }

    /// The one output the closure yields on (i, v).
    pub open spec fn apply_spec(f: F, i: usize, v: S::V) -> O {
        choose|o: O| call_ensures(f, (i, v), o)
    }

    /// A model with every value transformed, keys kept.
    pub open spec fn mapped_model(f: F, s: Seq<(usize, S::V)>) -> Seq<(usize, O)> {
        s.map_values(|p: (usize, S::V)| (p.0, Self::apply_spec(f, p.0, p.1)))
    }

    proof fn lemma_mapped_skip(f: F, s: Seq<(usize, S::V)>, d: int)
        requires
            0 <= d <= s.len(),
        ensures
            Self::mapped_model(f, s.skip(d)) == Self::mapped_model(f, s).skip(d),
    {
        assert(Self::mapped_model(f, s.skip(d)) =~= Self::mapped_model(f, s).skip(d));
    }

    /// Transform a stream's values with `map`.
    pub fn map(stream: S, map: F) -> (r: Self)
        requires
            stream.inv(),
            Self::fun_callable(map),
            Self::fun_deterministic(map),
        ensures
            r.inv(),
            r.stream == stream,
            r.map == map,
            r.remaining() == Self::mapped_model(map, stream.remaining()),
    {
        MappedStream { stream, map, _output: core::marker::PhantomData }
    }
}

impl<S: IndexedStream, O, F: Fn(usize, S::V) -> O> IndexedStream for MappedStream<S, F, O> {
    type V = O;

    open spec fn inv(&self) -> bool {
        self.stream.inv() && Self::fun_callable(self.map) && Self::fun_deterministic(self.map)
    }

    open spec fn remaining(&self) -> Seq<(usize, O)> {
        Self::mapped_model(self.map, self.stream.remaining())
    }

    open spec fn size(&self) -> nat {
        self.stream.size()
    }

    open spec fn valid_spec(&self) -> bool {
        self.stream.valid_spec()
    }

    open spec fn ready_spec(&self) -> bool {
        self.stream.ready_spec()
    }

    open spec fn index_spec(&self) -> usize {
        self.stream.index_spec()
    }

    open spec fn value_spec(&self) -> O {
        Self::apply_spec(self.map, self.stream.index_spec(), self.stream.value_spec())
    }

    proof fn lemma_inv(&self) {
        self.stream.lemma_inv();
        let a = self.stream.remaining();
        let s = self.remaining();
        assert(forall|k: int| 0 <= k < s.len() ==> (#[trigger] s[k]).0 == a[k].0);
        if self.valid_spec() && self.ready_spec() {
            assert(a[0] == (self.stream.index_spec(), self.stream.value_spec()));
            assert(s[0] == (self.index_spec(), self.value_spec()));
        }
    }

    fn valid(&self) -> bool {
        self.stream.valid()
    }

    fn ready(&self) -> bool {
        self.stream.ready()
    }

    fn index(&self) -> usize {
        self.stream.index()
    }

    fn value(&self) -> O {
        let i = self.stream.index();
        let v = self.stream.value();
        let o = (self.map)(i, v);
        proof {
            let picked = Self::apply_spec(self.map, i, v);
            assert(call_ensures(self.map, (i, v), o));
            assert(call_ensures(self.map, (i, v), picked));
        }
        o
    }

    fn seek(&mut self, target: usize, strict: bool) {
        proof {
            old(self).stream.lemma_inv();
        }
        self.stream.seek(target, strict);
        proof {
            let pre = *old(self);
            let a = pre.stream.remaining();
            let a2 = self.stream.remaining();
            let d = a.len() - a2.len();
            assert(self.map == pre.map);
            Self::lemma_mapped_skip(pre.map, a, d);
            assert(a2 == a.skip(d));
            assert(forall|j: int|
                0 <= j < d ==> (#[trigger] Self::mapped_model(pre.map, a)[j]).0 == a[j].0);
            if strict && pre.ready_spec() && target == pre.index_spec() {
                assert(a2 == a.drop_first());
                Self::lemma_mapped_skip(pre.map, a, 1);
                assert(a.skip(1) =~= a.drop_first());
                assert(Self::mapped_model(pre.map, a).skip(1) =~= Self::mapped_model(
                    pre.map,
                    a,
                ).drop_first());
            }
        }
    }
}

/// Whether some entry of `s` carries the key `i`.
pub open spec fn has_key<V>(s: Seq<(usize, V)>, i: int) -> bool {
    exists|k: int| 0 <= k < s.len() && (#[trigger] s[k]).0 == i
}

/// A key occurs in a non-empty sequence exactly when it is the head's key
/// or occurs in the tail.
pub proof fn lemma_has_key_uncons<W>(s: Seq<(usize, W)>, i: int)
    requires
        s.len() > 0,
    ensures
        has_key(s, i) <==> (s[0].0 == i || has_key(s.drop_first(), i)),
{
    if has_key(s, i) && s[0].0 != i {
        let k = choose|k: int| 0 <= k < s.len() && (#[trigger] s[k]).0 == i;
        assert(s.drop_first()[k - 1].0 == i);
    }
    if has_key(s.drop_first(), i) {
        let k = choose|k: int| 0 <= k < s.drop_first().len() && (#[trigger] s.drop_first()[k]).0
            == i;
        assert(s[k + 1].0 == i);
    }
}

/// Monotonicity, for every stream in the combinator family: the indices a
/// well-formed stream emits under repeated ready-emit-advance iteration are
/// strictly increasing, because they are the keys of its model in order.
pub proof fn lemma_stream_monotone<S: IndexedStream>(s: &S)
    requires
        s.inv(),
    ensures
        sorted_keys(s.remaining()),
{
    s.lemma_inv();
}

/// The dense form of a sparse scalar model: one slot per position up to the
/// largest key, stored values in their slots, zeros in between.
pub open spec fn dense_of(s: Seq<(usize, i64)>) -> Seq<i64>
    decreases s.len(),
{
    if s.len() == 0 {
        Seq::empty()
    } else {
        let prev = dense_of(s.drop_last());
        prev + Seq::new((s.last().0 - prev.len()) as nat, |x: int| 0i64).push(s.last().1)
    }
}

/// The dense form of a sorted model emits exactly largest-key-plus-one
/// values: each stored key holds its value and every other slot holds zero.
pub proof fn lemma_dense_of_props(s: Seq<(usize, i64)>)
    requires
        sorted_keys(s),
    ensures
        dense_of(s).len() == (if s.len() == 0 {
            0int
        } else {
            s.last().0 + 1
        }),
        forall|k: int| 0 <= k < s.len() ==> dense_of(s)[(#[trigger] s[k]).0 as int] == s[k].1,
        forall|i: int|
            0 <= i < dense_of(s).len() && !has_key(s, i) ==> #[trigger] dense_of(s)[i] == 0i64,
    decreases s.len(),
{
    if s.len() == 0 {
    } else {
        let t = s.drop_last();
        assert(sorted_keys(t)) by {
            assert(forall|i: int| 0 <= i < t.len() ==> (#[trigger] t[i]) == s[i]);
        }
        lemma_dense_of_props(t);
        let prev = dense_of(t);
        if s.len() >= 2 {
            assert(t.last() == s[s.len() - 2]);
            assert(s[s.len() - 2].0 < s.last().0);
        }
        let d = dense_of(s);
        assert forall|k: int| 0 <= k < s.len() implies d[(#[trigger] s[k]).0 as int] == s[k].1 by {
            if k < s.len() - 1 {
                assert(t[k] == s[k]);
                assert(s[k].0 < s[s.len() - 2].0 || k == s.len() - 2);
                assert(s[k].0 < prev.len());
                assert(d[s[k].0 as int] == prev[s[k].0 as int]);
            } else {
                assert(d[s.last().0 as int] == s.last().1);
            }
        }
        assert forall|i: int| 0 <= i < d.len() && !has_key(s, i) implies #[trigger] d[i]
            == 0i64 by {
            if i < prev.len() {
                assert(!has_key(t, i)) by {
                    if has_key(t, i) {
                        let k = choose|k: int| 0 <= k < t.len() && (#[trigger] t[k]).0 == i;
                        assert(s[k].0 == i);
                    }
                }
            } else {
                assert(s.last().0 != i);
                assert(i < s.last().0);
            }
        }
    }
}

/// Drain a sparse scalar cursor into its dense form, padding skipped
/// positions with zero.
pub fn to_dense<S: IndexedStream<V = i64>>(s: S) -> (r: Vec<i64>)
    requires
        s.inv(),
    ensures
        r@ == dense_of(s.remaining()),
{
    let ghost orig = s.remaining();
    proof {
        s.lemma_inv();
    }
    let mut st = s;
    let mut out: Vec<i64> = Vec::new();
    while st.valid()
        invariant
            st.inv(),
            sorted_keys(orig),
            st.remaining().len() <= orig.len(),
            st.remaining() == orig.skip(orig.len() - st.remaining().len()),
            out@ == dense_of(orig.take(orig.len() - st.remaining().len())),
        decreases st.size(),
    {
        proof {
            st.lemma_inv();
        }
        if st.ready() {
            let i = st.index();
            let v = st.value();
            let ghost k = orig.len() - st.remaining().len();
            let ghost pre = orig.take(k);
            proof {
                assert(st.remaining()[0] == orig[k]);
                assert(orig[k] == (i, v));
                assert(sorted_keys(pre)) by {
                    assert(forall|j: int| 0 <= j < pre.len() ==> (#[trigger] pre[j]) == orig[j]);
                }
                lemma_dense_of_props(pre);
                if k > 0 {
                    assert(pre.last() == orig[k - 1]);
                    assert(orig[k - 1].0 < i);
                }
            }
            while out.len() < i
                invariant
                    out@.len() <= i,
                    dense_of(pre).len() <= out@.len(),
                    out@ == dense_of(pre) + Seq::new(
                        (out@.len() - dense_of(pre).len()) as nat,
                        |x: int| 0i64,
                    ),
                decreases i - out.len(),
            {
                out.push(0);
                proof {
                    assert(out@ =~= dense_of(pre) + Seq::new(
                        (out@.len() - dense_of(pre).len()) as nat,
                        |x: int| 0i64,
                    ));
                }
            }
            out.push(v);
            stream_next(&mut st);
            proof {
                let nxt = orig.take(k + 1);
                assert(nxt.drop_last() =~= pre);
                assert(nxt.last() == (i, v));
                assert(out@ =~= dense_of(nxt));
                assert(st.remaining() =~= orig.skip(orig.len() - st.remaining().len()));
            }
        } else {
            stream_next(&mut st);
        }
    }
    proof {
        st.lemma_inv();
        assert(orig.take(orig.len() - st.remaining().len()) =~= orig);
    }
    out
}

/// A stateful adapter that walks a sparse scalar stream as a dense sequence,
/// handing back zero for every position the stream skips.
pub struct DenseStreamIterator<S> {
    pub index: usize,
    pub stream: S,
}

impl<S: IndexedStream<V = i64>> DenseStreamIterator<S> {
    /// Start the dense walk at position zero.
    pub fn from_stream_iterator(stream: S) -> (r: Self)
        ensures
            r == (DenseStreamIterator { index: 0usize, stream }),
    {
        DenseStreamIterator { index: 0, stream }
    }

    /// One dense step: nothing once the stream is spent; zero while the
    /// stream's frontier lies ahead of the dense position; the stream's
    /// value when it is ready at the position; otherwise the stream is asked
    /// to advance and no value is produced yet.
    pub fn next(&mut self) -> (r: Option<i64>)
        requires
            old(self).stream.inv(),
            old(self).index < usize::MAX,
        ensures
            final(self).stream.inv(),
            !old(self).stream.valid_spec() ==> r is None && *final(self) == *old(self),
            old(self).stream.valid_spec() && old(self).index < old(self).stream.index_spec()
                ==> r == Some(0i64) && final(self).stream == old(self).stream && final(self).index
                == old(self).index + 1,
            old(self).stream.valid_spec() && old(self).stream.index_spec() <= old(self).index
                && old(self).stream.ready_spec() ==> r == Some(old(self).stream.value_spec())
                && final(self).index == old(self).index + 1 && final(self).stream.remaining()
                == old(self).stream.remaining().drop_first(),
            old(self).stream.valid_spec() && old(self).stream.index_spec() <= old(self).index
                && !old(self).stream.ready_spec() ==> r is None && final(self).index == old(
                self,
            ).index && advanced_to(
                final(self).stream.remaining(),
                old(self).stream.remaining(),
                old(self).index,
                false,
            ),
    {
        if self.stream.valid() {
            let i = self.stream.index();
            if self.index < i {
                self.index = self.index + 1;
                Some(0)
            } else if self.stream.ready() {
                self.index = self.index + 1;
                let v = self.stream.value();
                proof {
                    self.stream.lemma_inv();
                }
                stream_next(&mut self.stream);
                Some(v)
            } else {
                self.stream.seek(self.index, false);
                None
            }
        } else {
            None
        }
    }
}

/// Drain a cursor onto the end of a vector of (index, value) pairs.
pub fn extend_from_stream_iterator<S: IndexedStream>(out: &mut Vec<(usize, S::V)>, s: S)
    requires
        s.inv(),
    ensures
        final(out)@ == old(out)@ + s.remaining(),
{
    let ghost base = old(out)@;
    let ghost orig = s.remaining();
    let mut st = s;
    while st.valid()
        invariant
            st.inv(),
            out@ + st.remaining() == base + orig,
        decreases st.size(),
    {
        proof {
            st.lemma_inv();
        }
        if st.ready() {
            let i = st.index();
            let v = st.value();
            stream_next(&mut st);
            out.push((i, v));
            proof {
                assert(out@ + st.remaining() =~= base + orig);
            }
        } else {
            stream_next(&mut st);
        }
    }
    proof {
        st.lemma_inv();
        assert(out@ + st.remaining() =~= out@);
    }
}

/// Drain a cursor, collecting every emitted (index, value) pair in order.
/// The result is exactly the cursor's model.
pub fn collect_pairs<S: IndexedStream>(s: S) -> (r: Vec<(usize, S::V)>)
    requires
        s.inv(),
    ensures
        r@ == s.remaining(),
{
    let ghost orig = s.remaining();
    let mut st = s;
    let mut out: Vec<(usize, S::V)> = Vec::new();
    while st.valid()
        invariant
            st.inv(),
            out@ + st.remaining() == orig,
        decreases st.size(),
    {
        proof {
            st.lemma_inv();
        }
        if st.ready() {
            let i = st.index();
            let v = st.value();
            stream_next(&mut st);
            out.push((i, v));
            proof {
                assert(out@ + st.remaining() =~= orig);
            }
        } else {
            stream_next(&mut st);
        }
    }
    proof {
        st.lemma_inv();
        assert(out@ + st.remaining() =~= out@);
    }
    out
}

/// Drain a cursor, collecting the emitted indices in order: exactly the keys
/// of the cursor's model.
pub fn collect_indices<S: IndexedStream>(s: S) -> (r: Vec<usize>)
    requires
        s.inv(),
    ensures
        r@ == keys_of(s.remaining()),
{
    let ghost orig = s.remaining();
    let mut st = s;
    let mut out: Vec<usize> = Vec::new();
    while st.valid()
        invariant
            st.inv(),
            out@ + keys_of(st.remaining()) == keys_of(orig),
        decreases st.size(),
    {
        proof {
            st.lemma_inv();
        }
        if st.ready() {
            let i = st.index();
            stream_next(&mut st);
            out.push(i);
            proof {
                assert(out@ + keys_of(st.remaining()) =~= keys_of(orig));
            }
        } else {
            stream_next(&mut st);
        }
    }
    proof {
        st.lemma_inv();
        assert(out@ + keys_of(st.remaining()) =~= out@);
    }
    out
}

/// The wrapping sum of the values of `s`, accumulated onto `acc` in emission
/// order.
pub open spec fn sum_values_from(acc: i64, s: Seq<(usize, i64)>) -> i64
    decreases s.len(),
{
    if s.len() == 0 {
        acc
    } else {
        sum_values_from(acc.wrapping_add(s[0].1), s.drop_first())
    }
}

/// The wrapping sum of the values of `s`, in emission order.
pub open spec fn sum_values(s: Seq<(usize, i64)>) -> i64 {
    sum_values_from(0i64, s)
}

/// Contraction: drain a scalar cursor and sum its values (wrapping).
pub fn contract<S: IndexedStream<V = i64>>(s: S) -> (r: i64)
    requires
        s.inv(),
    ensures
        r == sum_values(s.remaining()),
{
    let ghost orig = s.remaining();
    let mut st = s;
    let mut acc: i64 = 0;
    while st.valid()
        invariant
            st.inv(),
            sum_values_from(acc, st.remaining()) == sum_values(orig),
        decreases st.size(),
    {
        proof {
            st.lemma_inv();
        }
        if st.ready() {
            let v = st.value();
            stream_next(&mut st);
            acc = acc.wrapping_add(v);
        } else {
            stream_next(&mut st);
        }
    }
    proof {
        st.lemma_inv();
    }
    acc
}

/// Drain a scalar cursor and report whether any emitted value is non-zero.
pub fn any_nonzero<S: IndexedStream<V = i64>>(s: S) -> (r: bool)
    requires
        s.inv(),
    ensures
        r == exists|k: int| 0 <= k < s.remaining().len() && (#[trigger] s.remaining()[k]).1 != 0i64,
{
    let ghost orig = s.remaining();
    let mut st = s;
    let mut found = false;
    while !found && st.valid()
        invariant
            st.inv(),
            found ==> exists|k: int| 0 <= k < orig.len() && (#[trigger] orig[k]).1 != 0i64,
            !found ==> st.remaining().len() <= orig.len()
                && st.remaining() == orig.skip(orig.len() - st.remaining().len())
                && forall|j: int|
                    0 <= j < orig.len() - st.remaining().len() ==> (#[trigger] orig[j]).1 == 0i64,
        decreases st.size() + (if found { 0int } else { 1int }),
    {
        proof {
            st.lemma_inv();
        }
        if st.ready() {
            let v = st.value();
            let ghost k = orig.len() - st.remaining().len();
            proof {
                assert(st.remaining()[0] == orig[k]);
            }
            if v != 0 {
                found = true;
                proof {
                    assert(0 <= k < orig.len() && (#[trigger] orig[k]).1 != 0i64);
                }
            } else {
                stream_next(&mut st);
                proof {
                    assert(st.remaining() =~= orig.skip(orig.len() - st.remaining().len()));
                }
            }
        } else {
            stream_next(&mut st);
        }
    }
    proof {
        if !found {
            st.lemma_inv();
            assert(st.remaining().len() == 0);
        }
    }
    found
}

} // verus!
