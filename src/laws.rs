//! Properties of the container that relate several calls.
use crate::untyped::{pop_model, UntypedVec};
use vstd::prelude::*;

verus! {

/// The elements after pushing each of `vs`, in order, onto `s`.
pub open spec fn pushes(s: Seq<Seq<u8>>, vs: Seq<Seq<u8>>) -> Seq<Seq<u8>>
    decreases vs.len(),
{
    if vs.len() == 0 {
        s
    } else {
        pushes(s.push(vs[0]), vs.drop_first())
    }
}

/// What `k` successive pops on the elements `s` hand out, in order.
pub open spec fn pops(s: Seq<Seq<u8>>, k: nat) -> Seq<Option<Seq<u8>>>
    decreases k,
{
    if k == 0 {
        Seq::empty()
    } else {
        seq![pop_model(s).1] + pops(pop_model(s).0, (k - 1) as nat)
    }
}

/// `vs` backwards, each present, then one empty result.
pub open spec fn reversed_then_none(vs: Seq<Seq<u8>>) -> Seq<Option<Seq<u8>>> {
    Seq::new(vs.len(), |j: int| Some(vs[vs.len() - 1 - j])).push(None)
}

proof fn lemma_pushes_append(s: Seq<Seq<u8>>, vs: Seq<Seq<u8>>)
    ensures
        pushes(s, vs) == s + vs,
    decreases vs.len(),
{
    if vs.len() == 0 {
        assert(s + vs =~= s);
    } else {
        lemma_pushes_append(s.push(vs[0]), vs.drop_first());
        assert(s.push(vs[0]) + vs.drop_first() =~= s + vs);
    }
}

/// Pushing values in order and reading them back by index gives each value
/// at its own position.
pub proof fn law_push_get_round_trip(vs: Seq<Seq<u8>>)
    ensures
        pushes(Seq::empty(), vs).len() == vs.len(),
        forall|i: int| 0 <= i < vs.len() ==> #[trigger] pushes(Seq::empty(), vs)[i] == vs[i],
{
    lemma_pushes_append(Seq::empty(), vs);
    assert(Seq::<Seq<u8>>::empty() + vs =~= vs);
}

/// Popping every element of `s` and then once more hands out the elements
/// last first, then nothing.
pub proof fn law_pop_all(s: Seq<Seq<u8>>)
    ensures
        pops(s, s.len() + 1) == reversed_then_none(s),
    decreases s.len(),
{
    if s.len() == 0 {
        assert(pops(s, 0) == Seq::<Option<Seq<u8>>>::empty());
        assert(pops(s, 1) == seq![None::<Seq<u8>>] + pops(s, 0));
        assert(pops(s, 1) =~= reversed_then_none(s));
    } else {
        let rest = s.drop_last();
        law_pop_all(rest);
        assert(pops(s, s.len() + 1) == seq![Some(s.last())] + pops(rest, rest.len() + 1));
        assert(pops(s, s.len() + 1) =~= reversed_then_none(s));
    }
}

/// Popping after pushing `v0 .. vn-1` onto an empty container hands out
/// `vn-1 .. v0`, then nothing.
pub proof fn law_pop_reverses_push(vs: Seq<Seq<u8>>)
    ensures
        pops(pushes(Seq::empty(), vs), vs.len() + 1) == reversed_then_none(vs),
{
    lemma_pushes_append(Seq::empty(), vs);
    assert(Seq::<Seq<u8>>::empty() + vs =~= vs);
    law_pop_all(vs);
}

/// A container never holds more elements than its capacity, and making
/// room never lowers the capacity.
pub proof fn law_len_within_capacity(v: &UntypedVec, amount: nat)
    requires
        v.wf(),
    ensures
        v@.len() <= v.cap(),
        v.reserved_capacity(amount) >= v.cap(),
{
    v.lemma_wf();
}

/// A container of a zero-sized shape reports `usize::MAX` as its capacity,
/// and pushing onto it never grows the storage.
pub proof fn law_zero_sized(v: &UntypedVec)
    requires
        v.wf(),
        v.elem_size() == 0,
    ensures
        v.cap() == usize::MAX,
        v@.len() < usize::MAX ==> v.reserved_capacity(1) == v.cap(),
{
    v.lemma_wf();
}

} // verus!
