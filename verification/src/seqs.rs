use vstd::prelude::*;

verus! {

/// Filtering a sequence none of whose items pass gives the empty sequence.
pub proof fn lemma_filter_none<A>(s: Seq<A>, pred: spec_fn(A) -> bool)
    requires
        forall|i: int| 0 <= i < s.len() ==> !pred(#[trigger] s[i]),
    ensures
        s.filter(pred) == Seq::<A>::empty(),
    decreases s.len(),
{
    reveal(Seq::filter);
    if s.len() > 0 {
        lemma_filter_none(s.drop_last(), pred);
    }
}

/// Filtering after pushing one item.
pub proof fn lemma_filter_push<A>(s: Seq<A>, x: A, pred: spec_fn(A) -> bool)
    ensures
        s.push(x).filter(pred) == (if pred(x) { s.filter(pred).push(x) } else { s.filter(pred) }),
{
    reveal(Seq::filter);
    assert(s.push(x).drop_last() =~= s);
}

/// Filtering a sequence with one item inserted.
pub proof fn lemma_filter_insert<A>(s: Seq<A>, p: int, x: A, pred: spec_fn(A) -> bool)
    requires
        0 <= p <= s.len(),
    ensures
        s.insert(p, x).filter(pred) == s.take(p).filter(pred) + (if pred(x) { seq![x] } else { Seq::<A>::empty() })
            + s.skip(p).filter(pred),
        s.filter(pred) == s.take(p).filter(pred) + s.skip(p).filter(pred),
{
    reveal(Seq::filter);
    assert(s.insert(p, x) =~= s.take(p) + seq![x] + s.skip(p));
    assert(s =~= s.take(p) + s.skip(p));
    Seq::filter_distributes_over_add(s.take(p) + seq![x], s.skip(p), pred);
    Seq::filter_distributes_over_add(s.take(p), seq![x], pred);
    Seq::filter_distributes_over_add(s.take(p), s.skip(p), pred);
    lemma_filter_push(Seq::<A>::empty(), x, pred);
    assert(Seq::<A>::empty().push(x) =~= seq![x]);
    assert(Seq::<A>::empty().filter(pred) =~= Seq::<A>::empty());
}

} // verus!

verus! {

/// Filtering with two predicates that agree on every item gives the same
/// result.
pub proof fn lemma_filter_congruent<A>(s: Seq<A>, p1: spec_fn(A) -> bool, p2: spec_fn(A) -> bool)
    requires
        forall|i: int| 0 <= i < s.len() ==> p1(#[trigger] s[i]) == p2(s[i]),
    ensures
        s.filter(p1) == s.filter(p2),
    decreases s.len(),
{
    reveal(Seq::filter);
    if s.len() > 0 {
        let t = s.drop_last();
        assert forall|i: int| 0 <= i < t.len() implies p1(#[trigger] t[i]) == p2(t[i]) by {
            assert(t[i] == s[i]);
        }
        lemma_filter_congruent(t, p1, p2);
        assert(p1(s[s.len() - 1]) == p2(s[s.len() - 1]));
    }
}

} // verus!
