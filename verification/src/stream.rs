use crate::engine::{first_edge, no_edge, rolled, RollingState};
use vstd::prelude::*;

verus! {

/// The state after all of a stream: each byte is rolled, and after a byte that brings a
/// state of which `edge` holds, the engine is reset.
pub open spec fn fed<E: RollingState>(
    m: E::Model,
    data: Seq<u8>,
    edge: spec_fn(E::Model) -> bool,
) -> E::Model
    decreases data.len(),
{
    if data.len() == 0 {
        m
    } else {
        let s = E::step(fed::<E>(m, data.drop_last(), edge), data.last());
        if edge(s) {
            E::cleared(s)
        } else {
            s
        }
    }
}

/// The boundaries of a stream: for each byte that brings a state of which `edge` holds,
/// the number of bytes up to and with it, counted from `base`, and that state.
pub open spec fn boundaries<E: RollingState>(
    m: E::Model,
    data: Seq<u8>,
    edge: spec_fn(E::Model) -> bool,
    base: int,
) -> Seq<(int, E::Model)>
    decreases data.len(),
{
    if data.len() == 0 {
        Seq::empty()
    } else {
        let s = E::step(fed::<E>(m, data.drop_last(), edge), data.last());
        let before = boundaries::<E>(m, data.drop_last(), edge, base);
        if edge(s) {
            before.push((base + data.len(), s))
        } else {
            before
        }
    }
}

/// The boundaries of a stream do not depend on how it is cut into pieces: those of two
/// pieces, the second taken from the state that the first left, are those of the whole.
pub proof fn lemma_boundaries_concat<E: RollingState>(
    m: E::Model,
    a: Seq<u8>,
    b: Seq<u8>,
    edge: spec_fn(E::Model) -> bool,
    base: int,
)
    ensures
        fed::<E>(m, a + b, edge) == fed::<E>(fed::<E>(m, a, edge), b, edge),
        boundaries::<E>(m, a + b, edge, base) == boundaries::<E>(m, a, edge, base)
            + boundaries::<E>(fed::<E>(m, a, edge), b, edge, base + a.len()),
    decreases b.len(),
{
    if b.len() == 0 {
        assert(a + b =~= a);
        assert(boundaries::<E>(m, a, edge, base) + Seq::<(int, E::Model)>::empty()
            =~= boundaries::<E>(m, a, edge, base));
    } else {
        lemma_boundaries_concat::<E>(m, a, b.drop_last(), edge, base);
        assert((a + b).drop_last() =~= a + b.drop_last());
        let s = E::step(fed::<E>(m, (a + b).drop_last(), edge), b.last());
        let first = boundaries::<E>(m, a, edge, base);
        let second = boundaries::<E>(fed::<E>(m, a, edge), b.drop_last(), edge, base + a.len());
        if edge(s) {
            assert((first + second).push((base + a.len() + b.len(), s)) =~= first + second.push(
                (base + a.len() + b.len(), s),
            ));
        }
    }
}

/// Where the boundary finder finds nothing in a piece, the piece holds no boundary, and
/// the stream goes on from the state that rolling the piece reaches.
pub proof fn lemma_boundaries_none<E: RollingState>(
    m: E::Model,
    data: Seq<u8>,
    edge: spec_fn(E::Model) -> bool,
    base: int,
)
    requires
        no_edge::<E>(m, data, edge),
    ensures
        fed::<E>(m, data, edge) == rolled::<E>(m, data),
        boundaries::<E>(m, data, edge, base) == Seq::<(int, E::Model)>::empty(),
    decreases data.len(),
{
    if data.len() > 0 {
        let init = data.drop_last();
        assert forall|j: int| 0 < j <= init.len() implies !edge(
            #[trigger] rolled::<E>(m, init.take(j)),
        ) by {
            assert(init.take(j) =~= data.take(j));
        }
        lemma_boundaries_none::<E>(m, init, edge, base);
        assert(data.take(data.len() as int) =~= data);
    }
}

/// Where the boundary finder finds the boundary `end` in a piece, the bytes up to it hold
/// that boundary and no other, and the stream goes on from a reset engine.
pub proof fn lemma_boundaries_found<E: RollingState>(
    m: E::Model,
    data: Seq<u8>,
    edge: spec_fn(E::Model) -> bool,
    end: int,
    base: int,
)
    requires
        first_edge::<E>(m, data, edge, end),
    ensures
        fed::<E>(m, data.take(end), edge) == E::cleared(rolled::<E>(m, data.take(end))),
        boundaries::<E>(m, data.take(end), edge, base) == seq![
            (base + end, rolled::<E>(m, data.take(end))),
        ],
{
    let taken = data.take(end);
    let init = taken.drop_last();
    assert(init =~= data.take(end - 1));
    assert forall|j: int| 0 < j <= init.len() implies !edge(
        #[trigger] rolled::<E>(m, init.take(j)),
    ) by {
        assert(init.take(j) =~= data.take(j));
    }
    lemma_boundaries_none::<E>(m, init, edge, base);
    assert(Seq::<(int, E::Model)>::empty().push((base + end, rolled::<E>(m, taken))) =~= seq![
        (base + end, rolled::<E>(m, taken)),
    ]);
}

} // verus!
