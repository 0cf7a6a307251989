//! Facts about filtered sequences that the rest of the crate builds on.
use vstd::prelude::*;

verus! {

/// Filtering a sequence that ends in `x` filters the front and then decides on `x`.
pub proof fn lemma_filter_push<A>(s: Seq<A>, x: A, pred: spec_fn(A) -> bool)
    ensures
        s.push(x).filter(pred) == if pred(x) {
            s.filter(pred).push(x)
        } else {
            s.filter(pred)
        },
{
    reveal(Seq::filter);
    assert(s.push(x).drop_last() == s);
}

/// Nothing passes the filter exactly when no element satisfies the predicate.
pub proof fn lemma_filter_none<A>(s: Seq<A>, pred: spec_fn(A) -> bool)
    ensures
        s.filter(pred).len() == 0 <==> forall|i: int| 0 <= i < s.len() ==> !pred(#[trigger] s[i]),
    decreases s.len(),
{
    reveal(Seq::filter);
    if s.len() > 0 {
        let front = s.drop_last();
        lemma_filter_none(front, pred);
        if forall|i: int| 0 <= i < s.len() ==> !pred(#[trigger] s[i]) {
            assert forall|i: int| 0 <= i < front.len() implies !pred(#[trigger] front[i]) by {
                assert(front[i] == s[i]);
            }
            assert(!pred(s[s.len() - 1]));
        }
        if s.filter(pred).len() == 0 {
            assert forall|i: int| 0 <= i < s.len() implies !pred(#[trigger] s[i]) by {
                if i < front.len() {
                    assert(front[i] == s[i]);
                }
            }
        }
    }
}

/// Everything passes the filter exactly when every element satisfies the predicate.
pub proof fn lemma_filter_all<A>(s: Seq<A>, pred: spec_fn(A) -> bool)
    ensures
        s.filter(pred).len() == s.len() <==> forall|i: int|
            0 <= i < s.len() ==> pred(#[trigger] s[i]),
    decreases s.len(),
{
    reveal(Seq::filter);
    if s.len() > 0 {
        let front = s.drop_last();
        lemma_filter_all(front, pred);
        front.lemma_filter_len(pred);
        if forall|i: int| 0 <= i < s.len() ==> pred(#[trigger] s[i]) {
            assert forall|i: int| 0 <= i < front.len() implies pred(#[trigger] front[i]) by {
                assert(front[i] == s[i]);
            }
            assert(pred(s[s.len() - 1]));
        }
        if s.filter(pred).len() == s.len() {
            assert forall|i: int| 0 <= i < s.len() implies pred(#[trigger] s[i]) by {
                if i < front.len() {
                    assert(front[i] == s[i]);
                }
            }
        }
    }
}

/// A predicate and its negation part a sequence: every element lands on exactly
/// one side, as often as it occurs.
pub proof fn lemma_filter_parts<A>(s: Seq<A>, pred: spec_fn(A) -> bool, neg: spec_fn(A) -> bool)
    requires
        forall|x: A| #[trigger] neg(x) == !pred(x),
    ensures
        s.filter(pred).len() + s.filter(neg).len() == s.len(),
        s.filter(pred).to_multiset().add(s.filter(neg).to_multiset()) == s.to_multiset(),
    decreases s.len(),
{
    broadcast use vstd::seq_lib::group_to_multiset_ensures;

    reveal(Seq::filter);
    if s.len() == 0 {
        assert(s.filter(pred).to_multiset().add(s.filter(neg).to_multiset()) =~= s.to_multiset());
    } else {
        let front = s.drop_last();
        let x = s.last();
        lemma_filter_parts(front, pred, neg);
        assert(s == front.push(x));
        assert(neg(x) == !pred(x));
        assert(s.filter(pred).to_multiset().add(s.filter(neg).to_multiset()) =~= s.to_multiset());
    }
}

/// An element of the sequence that satisfies the predicate keeps the filtered
/// sequence from being empty.
pub proof fn lemma_filter_witness<A>(s: Seq<A>, pred: spec_fn(A) -> bool, i: int)
    requires
        0 <= i < s.len(),
        pred(s[i]),
    ensures
        s.filter(pred).len() > 0,
{
    lemma_filter_none(s, pred);
}

} // verus!
