use vstd::prelude::*;

verus! {

/// The mathematical description of a rolling hash: the states it moves through.
pub trait RollingState: Sized {
    /// The abstract state: everything that later digests depend on.
    type Model;

    /// The representation invariant.
    spec fn wf(&self) -> bool;

    /// The abstract state that a well-formed engine is in.
    spec fn model(&self) -> Self::Model;

    /// Whether the engine presents to an observer what an engine in state `m` presents.
    spec fn shows(&self, m: Self::Model) -> bool;

    /// The state after one more byte.
    spec fn step(m: Self::Model, byte: u8) -> Self::Model;

    /// The state after a reset: the configuration of `m`, with no history.
    spec fn cleared(m: Self::Model) -> Self::Model;

    /// A well-formed engine shows its own state.
    proof fn lemma_shows_own_model(&self)
        requires
            self.wf(),
        ensures
            self.shows(self.model()),
    ;
}

/// The state reached from `m` by rolling `data` byte by byte, in order.
pub open spec fn rolled<E: RollingState>(m: E::Model, data: Seq<u8>) -> E::Model
    decreases data.len(),
{
    if data.len() == 0 {
        m
    } else {
        E::step(rolled::<E>(m, data.drop_last()), data.last())
    }
}

/// Whether `cond` may answer `verdict` when asked about an engine that shows the state `m`.
pub open spec fn answers<E: RollingState, F: Fn(&E) -> bool>(
    cond: F,
    m: E::Model,
    verdict: bool,
) -> bool {
    exists|e: E| #[trigger] e.shows(m) && cond.ensures((&e,), verdict)
}

/// Whether `cond` decides `edge`: asked about an engine that shows a state, it answers
/// what `edge` says of that state.
pub open spec fn decides<E: RollingState, F: Fn(&E) -> bool>(
    cond: F,
    edge: spec_fn(E::Model) -> bool,
) -> bool {
    forall|e: E, m: E::Model, verdict: bool|
        #[trigger] e.shows(m) && #[trigger] cond.ensures((&e,), verdict) ==> verdict == edge(m)
}

/// A rolling hash: it takes bytes one by one and reports a digest of the last of them.
pub trait Engine: RollingState {
    /// The digest: a fixed-width unsigned integer.
    type Digest;

    /// The digest that an engine in state `m` reports.
    spec fn digest_of(m: Self::Model) -> Self::Digest;

    /// Rolls over one byte.
    fn roll_byte(&mut self, byte: u8)
        requires
            old(self).wf(),
        ensures
            final(self).wf(),
            final(self).model() == Self::step(old(self).model(), byte),
    ;

    /// Rolls over the bytes of `buf`, in order. An engine may take a shorter way to the
    /// state that this reaches.
    fn roll(&mut self, buf: &[u8])
        requires
            old(self).wf(),
        ensures
            final(self).wf(),
            final(self).model() == rolled::<Self>(old(self).model(), buf@),
    {
        let mut i: usize = 0;
        while i < buf.len()
            invariant
                i <= buf.len(),
                self.wf(),
                self.model() == rolled::<Self>(old(self).model(), buf@.take(i as int)),
            decreases buf.len() - i,
        {
            self.roll_byte(buf[i]);
            proof {
                assert(buf@.take(i + 1).drop_last() =~= buf@.take(i as int));
            }
            i = i + 1;
        }
        proof {
            assert(buf@.take(i as int) =~= buf@);
        }
    }

    /// The current digest.
    fn digest(&self) -> (d: Self::Digest)
        ensures
            self.wf() ==> d == Self::digest_of(self.model()),
            forall|m: Self::Model| #[trigger] self.shows(m) ==> d == Self::digest_of(m),
    ;

    /// Forgets all that was rolled; the configuration stays.
    fn reset(&mut self)
        requires
            old(self).wf(),
        ensures
            final(self).wf(),
            final(self).model() == Self::cleared(old(self).model()),
    ;

    /// Rolls over the bytes of `buf` and asks `cond` after each, up to the first byte
    /// after which it answers `true`.
    ///
    /// There, returns the number of bytes taken and the digest, and the engine is reset.
    /// Where `cond` never answers `true`, returns `None`, and the engine is as after
    /// `roll(buf)`.
    fn find_chunk_edge_cond<F>(&mut self, buf: &[u8], cond: F) -> (edge: Option<
        (usize, Self::Digest),
    >) where F: Fn(&Self) -> bool
        requires
            old(self).wf(),
            forall|e: &Self| #[trigger] cond.requires((e,)),
        ensures
            final(self).wf(),
            match edge {
                Some((end, digest)) => {
                    &&& 0 < end <= buf.len()
                    &&& answers::<Self, F>(
                        cond,
                        rolled::<Self>(old(self).model(), buf@.take(end as int)),
                        true,
                    )
                    &&& forall|j: int|
                        0 < j < end ==> answers::<Self, F>(
                            cond,
                            #[trigger] rolled::<Self>(old(self).model(), buf@.take(j)),
                            false,
                        )
                    &&& digest == Self::digest_of(
                        rolled::<Self>(old(self).model(), buf@.take(end as int)),
                    )
                    &&& final(self).model() == Self::cleared(
                        rolled::<Self>(old(self).model(), buf@.take(end as int)),
                    )
                },
                None => {
                    &&& forall|j: int|
                        0 < j <= buf.len() ==> answers::<Self, F>(
                            cond,
                            #[trigger] rolled::<Self>(old(self).model(), buf@.take(j)),
                            false,
                        )
                    &&& final(self).model() == rolled::<Self>(old(self).model(), buf@)
                },
            },
    {
        let mut i: usize = 0;
        while i < buf.len()
            invariant
                i <= buf.len(),
                self.wf(),
                forall|e: &Self| #[trigger] cond.requires((e,)),
                self.model() == rolled::<Self>(old(self).model(), buf@.take(i as int)),
                forall|j: int|
                    0 < j <= i ==> answers::<Self, F>(
                        cond,
                        #[trigger] rolled::<Self>(old(self).model(), buf@.take(j)),
                        false,
                    ),
            decreases buf.len() - i,
        {
            self.roll_byte(buf[i]);
            proof {
                assert(buf@.take(i + 1).drop_last() =~= buf@.take(i as int));
                self.lemma_shows_own_model();
            }
            if cond(&*self) {
                let digest = self.digest();
                self.reset();
                return Some((i + 1, digest));
            }
            i = i + 1;
        }
        proof {
            assert(buf@.take(i as int) =~= buf@);
        }
        None
    }
}

/// Rolls the last `window_size` bytes of `data`, or all of it where it is shorter.
pub fn roll_windowed<E: Engine>(engine: &mut E, window_size: usize, data: &[u8])
    requires
        old(engine).wf(),
        window_size > 0,
    ensures
        final(engine).wf(),
        final(engine).model() == rolled::<E>(
            old(engine).model(),
            last_window(data@, window_size as int),
        ),
{
    let start: usize = if data.len() > window_size {
        data.len() - window_size
    } else {
        0
    };
    let mut i: usize = start;
    while i < data.len()
        invariant
            start <= i <= data.len(),
            engine.wf(),
            engine.model() == rolled::<E>(
                old(engine).model(),
                data@.subrange(start as int, i as int),
            ),
        decreases data.len() - i,
    {
        engine.roll_byte(data[i]);
        proof {
            assert(data@.subrange(start as int, i + 1).drop_last() =~= data@.subrange(
                start as int,
                i as int,
            ));
        }
        i = i + 1;
    }
    proof {
        assert(data@.subrange(start as int, i as int) =~= last_window(data@, window_size as int));
    }
}

/// The last `width` items of `data`, or all of `data` where it holds fewer.
pub open spec fn last_window(data: Seq<u8>, width: int) -> Seq<u8> {
    if data.len() > width {
        data.subrange(data.len() - width, data.len() as int)
    } else {
        data
    }
}

/// Whether `end` is the first count of bytes of `data` after which a state reached from `m`
/// satisfies `edge`.
pub open spec fn first_edge<E: RollingState>(
    m: E::Model,
    data: Seq<u8>,
    edge: spec_fn(E::Model) -> bool,
    end: int,
) -> bool {
    &&& 0 < end <= data.len()
    &&& edge(rolled::<E>(m, data.take(end)))
    &&& forall|j: int| 0 < j < end ==> !edge(#[trigger] rolled::<E>(m, data.take(j)))
}

/// Whether no state reached from `m` while rolling `data` satisfies `edge`.
pub open spec fn no_edge<E: RollingState>(
    m: E::Model,
    data: Seq<u8>,
    edge: spec_fn(E::Model) -> bool,
) -> bool {
    forall|j: int| 0 < j <= data.len() ==> !edge(#[trigger] rolled::<E>(m, data.take(j)))
}

/// Rolling `a` and then `b` reaches the state that rolling their concatenation reaches.
pub proof fn lemma_rolled_concat<E: RollingState>(m: E::Model, a: Seq<u8>, b: Seq<u8>)
    ensures
        rolled::<E>(m, a + b) == rolled::<E>(rolled::<E>(m, a), b),
    decreases b.len(),
{
    if b.len() == 0 {
        assert(a + b =~= a);
    } else {
        lemma_rolled_concat::<E>(m, a, b.drop_last());
        assert((a + b).drop_last() =~= a + b.drop_last());
    }
}

/// Rolling on from the state after `pos` bytes of `buf` reaches the states that rolling
/// `buf` from the start reaches.
pub proof fn lemma_rolled_resume<E: RollingState>(m: E::Model, buf: Seq<u8>, pos: int, n: int, k: int)
    requires
        0 <= pos,
        0 <= k <= n,
        pos + n <= buf.len(),
    ensures
        rolled::<E>(m, buf.take(pos + k)) == rolled::<E>(
            rolled::<E>(m, buf.take(pos)),
            buf.subrange(pos, pos + n).take(k),
        ),
{
    assert(buf.take(pos + k) =~= buf.take(pos) + buf.subrange(pos, pos + n).take(k));
    lemma_rolled_concat::<E>(m, buf.take(pos), buf.subrange(pos, pos + n).take(k));
}

/// A buffer may be handed over in two parts. A boundary in the first part is the boundary
/// of the whole; without one there, the second part, taken from the state that the first
/// left, gives the boundary of the whole, counted from the start of its own bytes; and
/// where neither part has one, the whole has none.
pub proof fn lemma_edge_split<E: RollingState>(
    m: E::Model,
    a: Seq<u8>,
    b: Seq<u8>,
    edge: spec_fn(E::Model) -> bool,
    end: int,
)
    ensures
        first_edge::<E>(m, a, edge, end) ==> first_edge::<E>(m, a + b, edge, end),
        no_edge::<E>(m, a, edge) && first_edge::<E>(rolled::<E>(m, a), b, edge, end)
            ==> first_edge::<E>(m, a + b, edge, a.len() + end),
        no_edge::<E>(m, a, edge) && no_edge::<E>(rolled::<E>(m, a), b, edge) ==> no_edge::<E>(
            m,
            a + b,
            edge,
        ),
        rolled::<E>(m, a + b) == rolled::<E>(rolled::<E>(m, a), b),
{
    let whole = a + b;
    assert(whole.take(a.len() as int) =~= a);
    assert(a.take(a.len() as int) =~= a);
    assert(whole.subrange(a.len() as int, whole.len() as int) =~= b);
    assert forall|j: int| 0 <= j <= a.len() implies #[trigger] whole.take(j) == a.take(j) by {
        assert(whole.take(j) =~= a.take(j));
    }
    assert forall|k: int| 0 <= k <= b.len() implies #[trigger] rolled::<E>(
        m,
        whole.take(a.len() + k),
    ) == rolled::<E>(rolled::<E>(m, a), b.take(k)) by {
        lemma_rolled_resume::<E>(m, whole, a.len() as int, b.len() as int, k);
    }
    if first_edge::<E>(m, a, edge, end) {
        assert(whole.take(end) == a.take(end));
        assert forall|j: int| 0 < j < end implies !edge(#[trigger] rolled::<E>(m, whole.take(j))) by {
            assert(whole.take(j) == a.take(j));
        }
    }
    if no_edge::<E>(m, a, edge) {
        if first_edge::<E>(rolled::<E>(m, a), b, edge, end) {
            assert(rolled::<E>(m, whole.take(a.len() + end)) == rolled::<E>(
                rolled::<E>(m, a),
                b.take(end),
            ));
            assert forall|j: int| 0 < j < a.len() + end implies !edge(
                #[trigger] rolled::<E>(m, whole.take(j)),
            ) by {
                if j <= a.len() {
                    assert(whole.take(j) == a.take(j));
                } else {
                    assert(rolled::<E>(m, whole.take(a.len() + (j - a.len()))) == rolled::<E>(
                        rolled::<E>(m, a),
                        b.take(j - a.len()),
                    ));
                }
            }
        }
        if no_edge::<E>(rolled::<E>(m, a), b, edge) {
            assert forall|j: int| 0 < j <= whole.len() implies !edge(
                #[trigger] rolled::<E>(m, whole.take(j)),
            ) by {
                if j <= a.len() {
                    assert(whole.take(j) == a.take(j));
                } else {
                    assert(rolled::<E>(m, whole.take(a.len() + (j - a.len()))) == rolled::<E>(
                        rolled::<E>(m, a),
                        b.take(j - a.len()),
                    ));
                }
            }
        }
    }
    lemma_rolled_concat::<E>(m, a, b);
}

/// Where `cond` decides `edge`, what `find_chunk_edge_cond` says of `cond`'s answers says
/// whether `edge` holds of the states on the way.
pub proof fn lemma_answers_decided<E: RollingState, F: Fn(&E) -> bool>(
    cond: F,
    edge: spec_fn(E::Model) -> bool,
    m: E::Model,
    verdict: bool,
)
    requires
        decides::<E, F>(cond, edge),
        answers::<E, F>(cond, m, verdict),
    ensures
        edge(m) == verdict,
{
    let e = choose|e: E| #[trigger] e.shows(m) && cond.ensures((&e,), verdict);
    assert(e.shows(m) && cond.ensures((&e,), verdict));
}

/// A boundary is unique: the first count of bytes after which the condition holds.
pub proof fn lemma_first_edge_unique<E: RollingState>(
    m: E::Model,
    data: Seq<u8>,
    edge: spec_fn(E::Model) -> bool,
    end1: int,
    end2: int,
)
    requires
        first_edge::<E>(m, data, edge, end1),
        first_edge::<E>(m, data, edge, end2),
    ensures
        end1 == end2,
        !no_edge::<E>(m, data, edge),
{
    if end1 < end2 {
        assert(!edge(rolled::<E>(m, data.take(end1))));
    }
    if end2 < end1 {
        assert(!edge(rolled::<E>(m, data.take(end2))));
    }
    if no_edge::<E>(m, data, edge) {
        assert(!edge(rolled::<E>(m, data.take(end1))));
    }
}

/// Two engines that have rolled the same bytes from the same state report the same digest.
pub proof fn lemma_same_bytes_same_digest<E: Engine>(
    first: &E,
    second: &E,
    m: E::Model,
    data: Seq<u8>,
)
    requires
        first.wf(),
        second.wf(),
        first.model() == rolled::<E>(m, data),
        second.model() == rolled::<E>(m, data),
    ensures
        E::digest_of(first.model()) == E::digest_of(second.model()),
{
}

} // verus!
