//! Questions, and the enumeration of every candidate question for a group.
use vstd::prelude::*;
use permutator::Combination;
use crate::records::{
    facet_vals, facet_values, lemma_values_listed, observed, strictly_increasing, Mush,
    MAX_FACET_VALUES, MAX_RECORDS, NUM_FACETS,
};
use crate::split::{lemma_nontrivial_splits, splits};

verus! {

/// A yes/no test on one facet: "is the record's code at `facet` one of `vals`?"
#[derive(Clone, Debug, PartialEq, Eq)]
pub struct Question {
    pub facet: usize,
    pub vals: Vec<char>,
}

/// The model of a [`Question`].
pub struct QuestionView {
    pub facet: int,
    pub vals: Seq<char>,
}

impl View for Question {
    type V = QuestionView;

    open spec fn view(&self) -> QuestionView {
        QuestionView { facet: self.facet as int, vals: self.vals@ }
    }
}

impl DeepView for Question {
    type V = QuestionView;

    open spec fn deep_view(&self) -> QuestionView {
        self@
    }
}

impl QuestionView {
    /// The record answers yes.
    pub open spec fn accepts(self, m: Mush) -> bool {
        self.vals.contains(m.attrs[self.facet])
    }

    /// The question is about a facet that exists, and its values are a set:
    /// they stand in increasing order, none of them twice.
    pub open spec fn wf(self) -> bool {
        &&& 0 <= self.facet < NUM_FACETS
        &&& strictly_increasing(self.vals)
    }
}

/// `c` is one of `vals`.
pub fn contains_code(vals: &Vec<char>, c: char) -> (r: bool)
    ensures
        r == vals@.contains(c),
{
    let mut i: usize = 0;
    while i < vals.len()
        invariant
            i <= vals.len(),
            forall|k: int| 0 <= k < i ==> vals@[k] != c,
        decreases vals.len() - i,
    {
        if vals[i] == c {
            return true;
        }
        i += 1;
    }
    false
}

/// `pos` names increasing positions of `vals`, and `c` holds what stands there.
pub open spec fn picks(pos: Seq<int>, c: Seq<char>, vals: Seq<char>) -> bool {
    &&& pos.len() == c.len()
    &&& forall|i: int| 0 <= i < pos.len() ==> 0 <= #[trigger] pos[i] < vals.len()
    &&& forall|i: int| 0 <= i < pos.len() ==> #[trigger] c[i] == vals[pos[i]]
    &&& forall|i: int, j: int| 0 <= i < j < pos.len() ==> #[trigger] pos[i] < #[trigger] pos[j]
}

/// `c` is drawn from `vals`: some of its elements, in the order in which they
/// stand there.
pub open spec fn is_selection(c: Seq<char>, vals: Seq<char>) -> bool {
    exists|pos: Seq<int>| picks(pos, c, vals)
}

/// The value set of `q` is a non-empty selection of the values that its facet
/// takes within `group`, and leaves at least one of them out.
pub open spec fn nontrivial(q: QuestionView, group: Seq<Mush>) -> bool {
    &&& 0 <= q.facet < NUM_FACETS
    &&& is_selection(q.vals, facet_values(group, q.facet))
    &&& 0 < q.vals.len() < facet_values(group, q.facet).len()
}

/// The values of a question drawn from the values of its facet are a set.
pub proof fn lemma_nontrivial_wf(q: QuestionView, group: Seq<Mush>)
    requires
        nontrivial(q, group),
    ensures
        q.wf(),
{
    let vals = facet_values(group, q.facet);
    lemma_values_listed(group, q.facet);
    let pos = choose|pos: Seq<int>| picks(pos, q.vals, vals);
    assert forall|i: int, j: int| 0 <= i < j < q.vals.len() implies q.vals[i] < q.vals[j] by {
        assert(q.vals[i] == vals[pos[i]]);
        assert(q.vals[j] == vals[pos[j]]);
        assert(pos[i] < pos[j]);
    }
}

/// The selections of `k` elements of `vals`, in the order in which
/// `permutator`'s combination iterator yields them.
pub uninterp spec fn combinations_of(vals: Seq<char>, k: nat) -> Seq<Seq<char>>;

/// Collects what `permutator::Combination::combination` yields for `vals` and
/// `k`. Trusted: the result is a function of the two arguments; every item is a
/// selection of `k` elements of `vals`; and every such selection is among the
/// items. Nothing is claimed of the order of the items beyond its being fixed:
/// the crate's documentation calls it lexicographic and lists an example in
/// another order. The iterator panics for `k == 0` and for `k > vals.len()`, and
/// it computes the number of combinations from factorials up to that of
/// `vals.len()` in `usize`, which is why the length is bounded: the factorial
/// of `MAX_FACET_VALUES` is the largest that fits in 32 bits.
#[verifier::external_body]
fn combinations(vals: &Vec<char>, k: usize) -> (r: Vec<Vec<char>>)
    requires
        1 <= k <= vals.len() <= MAX_FACET_VALUES,
    ensures
        r.deep_view() == combinations_of(vals@, k as nat),
        forall|i: int|
            0 <= i < r.len() ==> (#[trigger] r[i])@.len() == k && is_selection(r[i]@, vals@),
        forall|c: Seq<char>|
            c.len() == k && is_selection(c, vals@) ==> #[trigger] r.deep_view().contains(c),
{
    vals.combination(k).map(|c| c.into_iter().cloned().collect()).collect()
}

/// One question about `facet` for each value set of `sets`, in their order.
pub open spec fn asks(facet: int, sets: Seq<Seq<char>>) -> Seq<QuestionView> {
    Seq::new(sets.len(), |i: int| QuestionView { facet, vals: sets[i] })
}

/// The questions about `facet` whose value sets are the selections of fewer than
/// `k` elements of `vals`, smaller sets first.
pub open spec fn questions_below(vals: Seq<char>, facet: int, k: nat) -> Seq<QuestionView>
    decreases k,
{
    if k <= 1 {
        Seq::empty()
    } else {
        questions_below(vals, facet, (k - 1) as nat) + asks(
            facet,
            combinations_of(vals, (k - 1) as nat),
        )
    }
}

/// Every candidate question about `facet` for `group`: one for each selection of
/// its values that is neither empty nor all of them.
pub open spec fn facet_candidates(group: Seq<Mush>, facet: int) -> Seq<QuestionView> {
    questions_below(facet_values(group, facet), facet, facet_values(group, facet).len())
}

/// The candidate questions about the facets below `facet`, lower facets first.
pub open spec fn candidates_below(group: Seq<Mush>, facet: nat) -> Seq<QuestionView>
    decreases facet,
{
    if facet == 0 {
        Seq::empty()
    } else {
        candidates_below(group, (facet - 1) as nat) + facet_candidates(group, facet - 1)
    }
}

/// Every candidate question for `group`: facets ascending, within a facet the
/// smaller value sets first.
pub open spec fn candidates(group: Seq<Mush>) -> Seq<QuestionView> {
    candidates_below(group, NUM_FACETS as nat)
}

/// No facet takes more than `MAX_FACET_VALUES` distinct values within `group`.
pub open spec fn values_within_limit(group: Seq<Mush>) -> bool {
    forall|facet: int|
        0 <= facet < NUM_FACETS ==> (#[trigger] facet_values(group, facet)).len()
            <= MAX_FACET_VALUES
}

/// A facet that takes the same value in every record of the group has no
/// candidate question, neither on its own nor among the candidates for the
/// group as a whole.
pub proof fn lemma_single_value_no_question(group: Seq<Mush>, facet: int)
    requires
        0 <= facet < NUM_FACETS,
        forall|i: int, j: int|
            0 <= i < group.len() && 0 <= j < group.len() ==> group[i].attrs[facet]
                == group[j].attrs[facet],
    ensures
        facet_values(group, facet).len() <= 1,
        facet_candidates(group, facet).len() == 0,
        forall|i: int|
            0 <= i < candidates(group).len() ==> (#[trigger] candidates(group)[i]).facet != facet,
{
    let vals = facet_values(group, facet);
    lemma_values_listed(group, facet);
    if vals.len() >= 2 {
        assert(vals.contains(vals[0]));
        assert(vals.contains(vals[1]));
        assert(observed(group, facet, vals[0]));
        assert(observed(group, facet, vals[1]));
        let i = choose|i: int|
            0 <= i < group.len() && i < group.len() && (#[trigger] group[i]).attrs[facet]
                == vals[0];
        let j = choose|j: int|
            0 <= j < group.len() && j < group.len() && (#[trigger] group[j]).attrs[facet]
                == vals[1];
        assert(group[i].attrs[facet] == group[j].attrs[facet]);
        assert(vals[0] < vals[1]);
    }
    lemma_candidate_facets(group, NUM_FACETS as nat);
}

/// Every question of `questions_below` is about the facet asked for.
proof fn lemma_question_facets(vals: Seq<char>, facet: int, k: nat)
    ensures
        forall|i: int|
            0 <= i < questions_below(vals, facet, k).len() ==> (#[trigger] questions_below(
                vals,
                facet,
                k,
            )[i]).facet == facet,
    decreases k,
{
    if k > 1 {
        lemma_question_facets(vals, facet, (k - 1) as nat);
        let front = questions_below(vals, facet, (k - 1) as nat);
        let back = asks(facet, combinations_of(vals, (k - 1) as nat));
        let all = questions_below(vals, facet, k);
        assert(all == front + back);
        assert forall|i: int| 0 <= i < all.len() implies (#[trigger] all[i]).facet == facet by {
            if i < front.len() {
                assert(all[i] == front[i]);
            } else {
                assert(all[i] == back[i - front.len()]);
            }
        }
    }
}

/// Every candidate below `n` is about a facet below `n` that has candidates.
proof fn lemma_candidate_facets(group: Seq<Mush>, n: nat)
    ensures
        forall|i: int|
            0 <= i < candidates_below(group, n).len() ==> 0 <= (#[trigger] candidates_below(
                group,
                n,
            )[i]).facet < n && facet_candidates(group, candidates_below(group, n)[i].facet).len()
                > 0,
    decreases n,
{
    if n > 0 {
        lemma_candidate_facets(group, (n - 1) as nat);
        let vals = facet_values(group, n - 1);
        lemma_question_facets(vals, n - 1, vals.len());
        let front = candidates_below(group, (n - 1) as nat);
        let back = facet_candidates(group, n - 1);
        let all = candidates_below(group, n);
        assert(all == front + back);
        assert forall|i: int| 0 <= i < all.len() implies 0 <= (#[trigger] all[i]).facet < n
            && facet_candidates(group, all[i].facet).len() > 0 by {
            if i < front.len() {
                assert(all[i] == front[i]);
            } else {
                assert(all[i] == back[i - front.len()]);
            }
        }
    }
}

/// Where no facet takes two values within the group, there is no candidate.
proof fn lemma_no_candidates(group: Seq<Mush>, n: nat)
    requires
        forall|facet: int|
            0 <= facet < n ==> (#[trigger] facet_values(group, facet)).len() <= 1,
    ensures
        candidates_below(group, n).len() == 0,
    decreases n,
{
    if n > 0 {
        lemma_no_candidates(group, (n - 1) as nat);
        assert(facet_values(group, n - 1).len() <= 1);
    }
}

/// One question about `facet` for each of `sets`, in their order.
pub fn facet_questions(facet: usize, sets: Vec<Vec<char>>) -> (qs: Vec<Question>)
    ensures
        qs.deep_view() == asks(facet as int, sets.deep_view()),
        qs.len() == sets.len(),
        forall|i: int|
            0 <= i < qs.len() ==> (#[trigger] qs[i]).facet == facet && qs[i].vals@ == sets[i]@,
{
    let ghost all = sets.deep_view();
    let mut qs: Vec<Question> = Vec::new();
    for vals in it: sets
        invariant
            it.seq().len() == all.len(),
            forall|j: int| 0 <= j < all.len() ==> (#[trigger] it.seq()[j])@ == all[j],
            qs.len() == it.index(),
            forall|j: int|
                0 <= j < qs.len() ==> (#[trigger] qs[j])@ == (QuestionView {
                    facet: facet as int,
                    vals: all[j],
                }),
    {
        qs.push(Question { facet, vals });
    }
    assert(qs.deep_view() =~= asks(facet as int, all));
    qs
}

/// Every candidate question for `group`: for each facet in turn, one question
/// for each selection of the facet's values that is neither empty nor all of
/// them, smaller selections first.
pub fn questions(group: &[Mush]) -> (qs: Vec<Question>)
    requires
        values_within_limit(group@),
    ensures
        qs.deep_view() == candidates(group@),
        forall|i: int|
            0 <= i < qs.len() ==> nontrivial((#[trigger] qs[i])@, group@) && qs[i]@.wf(),
        forall|q: QuestionView| nontrivial(q, group@) ==> #[trigger] qs.deep_view().contains(q),
        qs.len() == 0 <==> forall|facet: int|
            0 <= facet < NUM_FACETS ==> (#[trigger] facet_values(group@, facet)).len() <= 1,
        group.len() <= MAX_RECORDS ==> forall|i: int|
            0 <= i < qs.len() ==> splits((#[trigger] qs[i])@, group@),
{
    let mut out: Vec<Question> = Vec::new();
    let mut facet: usize = 0;
    while facet < NUM_FACETS
        invariant
            facet <= NUM_FACETS,
            values_within_limit(group@),
            out.deep_view() == candidates_below(group@, facet as nat),
            forall|i: int|
                0 <= i < out.len() ==> nontrivial(#[trigger] out.deep_view()[i], group@),
            forall|q: QuestionView|
                nontrivial(q, group@) && q.facet < facet ==> #[trigger] out.deep_view().contains(
                    q,
                ),
        decreases NUM_FACETS - facet,
    {
        let vals = facet_vals(group, facet);
        assert(facet_values(group@, facet as int).len() <= MAX_FACET_VALUES);
        let mut k: usize = 1;
        while k < vals.len()
            invariant
                facet < NUM_FACETS,
                1 <= k,
                k <= vals.len() || k == 1,
                vals.len() <= MAX_FACET_VALUES,
                vals@ == facet_values(group@, facet as int),
                out.deep_view() == candidates_below(group@, facet as nat) + questions_below(
                    vals@,
                    facet as int,
                    k as nat,
                ),
                forall|i: int|
                    0 <= i < out.len() ==> nontrivial(#[trigger] out.deep_view()[i], group@),
                forall|q: QuestionView|
                    nontrivial(q, group@) && (q.facet < facet || (q.facet == facet
                        && q.vals.len() < k)) ==> #[trigger] out.deep_view().contains(q),
            decreases vals.len() - k,
        {
            let sets = combinations(&vals, k);
            let mut asked = facet_questions(facet, sets);
            let ghost before = out.deep_view();
            let ghost added = asked.deep_view();
            out.append(&mut asked);
            proof {
                let after = out.deep_view();
                assert(after =~= before + added);
                assert(added == asks(facet as int, combinations_of(vals@, k as nat)));
                assert forall|i: int| 0 <= i < after.len() implies nontrivial(
                    #[trigger] after[i],
                    group@,
                ) by {
                    if i >= before.len() {
                        let j = i - before.len();
                        assert(after[i] == added[j]);
                        assert(added[j].vals == sets[j]@);
                    } else {
                        assert(after[i] == before[i]);
                    }
                }
                assert forall|q: QuestionView|
                    nontrivial(q, group@) && (q.facet < facet || (q.facet == facet
                        && q.vals.len() < k + 1)) implies #[trigger] after.contains(q) by {
                    if q.facet == facet && q.vals.len() == k {
                        assert(sets.deep_view().contains(q.vals));
                        let j = choose|j: int|
                            0 <= j < sets.deep_view().len() && sets.deep_view()[j] == q.vals;
                        assert(added[j] == q);
                        assert(after[before.len() + j] == q);
                    } else {
                        assert(before.contains(q));
                        let j = choose|j: int| 0 <= j < before.len() && before[j] == q;
                        assert(after[j] == q);
                    }
                }
                assert(questions_below(vals@, facet as int, (k + 1) as nat) == questions_below(
                    vals@,
                    facet as int,
                    k as nat,
                ) + added);
                assert(after =~= candidates_below(group@, facet as nat) + questions_below(
                    vals@,
                    facet as int,
                    (k + 1) as nat,
                ));
            }
            k += 1;
        }
        proof {
            if vals.len() == 0 {
                assert(questions_below(vals@, facet as int, 1) == Seq::<QuestionView>::empty());
                assert(questions_below(vals@, facet as int, 0) == Seq::<QuestionView>::empty());
            }
            assert(questions_below(vals@, facet as int, k as nat) == facet_candidates(
                group@,
                facet as int,
            ));
            assert(candidates_below(group@, (facet + 1) as nat) == candidates_below(
                group@,
                facet as nat,
            ) + facet_candidates(group@, facet as int));
        }
        facet += 1;
    }
    proof {
        let asked = out.deep_view();
        if forall|facet: int|
            0 <= facet < NUM_FACETS ==> (#[trigger] facet_values(group@, facet)).len() <= 1 {
            lemma_no_candidates(group@, NUM_FACETS as nat);
        }
        if asked.len() == 0 {
            assert forall|facet: int| 0 <= facet < NUM_FACETS implies (#[trigger] facet_values(
                group@,
                facet,
            )).len() <= 1 by {
                let vals = facet_values(group@, facet);
                if vals.len() >= 2 {
                    let q = QuestionView { facet, vals: seq![vals[0]] };
                    assert(picks(seq![0int], q.vals, vals));
                    assert(nontrivial(q, group@));
                    assert(asked.contains(q));
                }
            }
        }
        assert forall|i: int| 0 <= i < out.len() implies nontrivial(
            (#[trigger] out[i])@,
            group@,
        ) && out[i]@.wf() by {
            assert(out[i]@ == asked[i]);
            lemma_nontrivial_wf(asked[i], group@);
        }
        if group.len() <= MAX_RECORDS {
            assert forall|i: int| 0 <= i < out.len() implies splits(
                (#[trigger] out[i])@,
                group@,
            ) by {
                lemma_nontrivial_splits(out[i]@, group@);
            }
        }
    }
    out
}

} // verus!
