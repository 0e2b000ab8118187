//! Sequences of sequences, laid end to end.

use vstd::prelude::*;

verus! {

/// The parts laid end to end.
pub open spec fn concat<A>(parts: Seq<Seq<A>>) -> Seq<A>
    decreases parts.len(),
{
    if parts.len() == 0 {
        Seq::empty()
    } else {
        concat(parts.drop_last()) + parts.last()
    }
}

/// The views of a sequence of vectors.
pub open spec fn nested<A>(v: Seq<Vec<A>>) -> Seq<Seq<A>> {
    v.map_values(|x: Vec<A>| x@)
}

pub proof fn lemma_concat_push<A>(parts: Seq<Seq<A>>, last: Seq<A>)
    ensures
        concat(parts.push(last)) == concat(parts) + last,
{
    assert(parts.push(last).drop_last() =~= parts);
}

pub proof fn lemma_concat_one<A>(part: Seq<A>)
    ensures
        concat(seq![part]) == part,
{
    let one = seq![part];
    assert(one.drop_last() =~= Seq::<Seq<A>>::empty());
    assert(concat(one.drop_last()) =~= Seq::<A>::empty());
    assert(concat(one) == concat(one.drop_last()) + one.last());
    assert(Seq::<A>::empty() + part =~= part);
}

pub proof fn lemma_concat_add<A>(x: Seq<Seq<A>>, y: Seq<Seq<A>>)
    ensures
        concat(x + y) == concat(x) + concat(y),
    decreases y.len(),
{
    if y.len() == 0 {
        assert(x + y =~= x);
        assert(concat(x) + Seq::<A>::empty() =~= concat(x));
    } else {
        lemma_concat_add(x, y.drop_last());
        assert((x + y).drop_last() =~= x + y.drop_last());
        assert(concat(x) + concat(y.drop_last()) + y.last() =~= concat(x) + (concat(y.drop_last())
            + y.last()));
    }
}

/// The first part, and then the others.
pub proof fn lemma_concat_first<A>(parts: Seq<Seq<A>>)
    requires
        parts.len() > 0,
    ensures
        concat(parts) == parts[0] + concat(parts.drop_first()),
{
    assert(parts =~= seq![parts[0]] + parts.drop_first());
    lemma_concat_add(seq![parts[0]], parts.drop_first());
    lemma_concat_one(parts[0]);
}

} // verus!
