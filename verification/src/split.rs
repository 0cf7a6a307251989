//! Applying a question to a group: the two sides and the impurity of the split.
use vstd::prelude::*;
use crate::impurity::{impurity, lemma_gini_extremes, Impurity, Node};
use crate::question::{contains_code, nontrivial, picks, Question, QuestionView};
use crate::records::{
    facet_values, lemma_values_listed, observed, Mush, MAX_RECORDS, NUM_FACETS,
};
use crate::seqs::{lemma_filter_parts, lemma_filter_push, lemma_filter_witness};

verus! {

/// The test that `q` puts to a record.
pub open spec fn accepting(q: QuestionView) -> spec_fn(Mush) -> bool {
    |m: Mush| q.accepts(m)
}

/// The negation of the test that `q` puts to a record.
pub open spec fn rejecting(q: QuestionView) -> spec_fn(Mush) -> bool {
    |m: Mush| !q.accepts(m)
}

/// The records of `group` that answer yes to `q`, in their order.
pub open spec fn yes_side(group: Seq<Mush>, q: QuestionView) -> Seq<Mush> {
    group.filter(accepting(q))
}

/// The records of `group` that answer no to `q`, in their order.
pub open spec fn no_side(group: Seq<Mush>, q: QuestionView) -> Seq<Mush> {
    group.filter(rejecting(q))
}

/// `q` can be put to `group`: its facet exists, the group is within the size
/// that the impurity arithmetic covers, and neither side of the split is empty.
pub open spec fn splits(q: QuestionView, group: Seq<Mush>) -> bool {
    &&& 0 <= q.facet < NUM_FACETS
    &&& group.len() <= MAX_RECORDS
    &&& yes_side(group, q).len() > 0
    &&& no_side(group, q).len() > 0
}

/// The impurity of the split of `group` by `q`.
pub open spec fn split_impurity(group: Seq<Mush>, q: QuestionView) -> crate::impurity::Ratio {
    impurity(yes_side(group, q), no_side(group, q))
}

/// Every record of the group lands on exactly one side of a split: the sizes of
/// the two sides add up to the size of the group, and the two sides together
/// hold each record as often as the group does.
pub proof fn lemma_sides_part_group(group: Seq<Mush>, q: QuestionView)
    ensures
        yes_side(group, q).len() + no_side(group, q).len() == group.len(),
        yes_side(group, q).to_multiset().add(no_side(group, q).to_multiset())
            == group.to_multiset(),
        forall|i: int|
            0 <= i < yes_side(group, q).len() ==> q.accepts(#[trigger] yes_side(group, q)[i]),
        forall|i: int|
            0 <= i < no_side(group, q).len() ==> !q.accepts(#[trigger] no_side(group, q)[i]),
{
    lemma_filter_parts(group, accepting(q), rejecting(q));
    assert forall|i: int| 0 <= i < yes_side(group, q).len() implies q.accepts(
        #[trigger] yes_side(group, q)[i],
    ) by {
        group.lemma_filter_pred(accepting(q), i);
    }
    assert forall|i: int| 0 <= i < no_side(group, q).len() implies !q.accepts(
        #[trigger] no_side(group, q)[i],
    ) by {
        group.lemma_filter_pred(rejecting(q), i);
    }
}

/// Fewer than `n` increasing positions below `n` leave one position out.
proof fn lemma_position_left_out(pos: Seq<int>, n: int) -> (j: int)
    requires
        pos.len() < n,
        forall|i: int| 0 <= i < pos.len() ==> 0 <= #[trigger] pos[i] < n,
        forall|i: int, k: int| 0 <= i < k < pos.len() ==> #[trigger] pos[i] < #[trigger] pos[k],
    ensures
        0 <= j < n,
        forall|i: int| 0 <= i < pos.len() ==> #[trigger] pos[i] != j,
    decreases n,
{
    if pos.len() == 0 {
        0
    } else if pos.last() < n - 1 {
        assert forall|i: int| 0 <= i < pos.len() implies #[trigger] pos[i] != n - 1 by {
            if i < pos.len() - 1 {
                assert(pos[i] < pos[pos.len() - 1]);
            }
        }
        n - 1
    } else {
        let front = pos.drop_last();
        assert forall|i: int| 0 <= i < front.len() implies 0 <= #[trigger] front[i] < n - 1 by {
            assert(pos[i] < pos[pos.len() - 1]);
        }
        let j = lemma_position_left_out(front, n - 1);
        assert forall|i: int| 0 <= i < pos.len() implies #[trigger] pos[i] != j by {
            if i < front.len() {
                assert(front[i] == pos[i]);
            }
        }
        j
    }
}

/// A question whose value set is a non-empty selection of the observed values
/// of its facet, and not all of them, leaves neither side of the split empty.
pub proof fn lemma_nontrivial_splits(q: QuestionView, group: Seq<Mush>)
    requires
        nontrivial(q, group),
        group.len() <= MAX_RECORDS,
    ensures
        splits(q, group),
{
    let vals = facet_values(group, q.facet);
    lemma_values_listed(group, q.facet);
    let pos = choose|pos: Seq<int>| picks(pos, q.vals, vals);
    // The first chosen value is observed, so some record answers yes.
    let c = q.vals[0];
    assert(c == vals[pos[0]]);
    assert(vals.contains(c));
    assert(observed(group, q.facet, c));
    let i = choose|i: int|
        0 <= i < group.len() && i < group.len() && (#[trigger] group[i]).attrs[q.facet] == c;
    assert(q.accepts(group[i]));
    lemma_filter_witness(group, accepting(q), i);
    // A value that was not chosen is observed too, so some record answers no.
    let j = lemma_position_left_out(pos, vals.len() as int);
    let d = vals[j];
    assert(vals.contains(d));
    assert(observed(group, q.facet, d));
    let k = choose|k: int|
        0 <= k < group.len() && k < group.len() && (#[trigger] group[k]).attrs[q.facet] == d;
    assert(!q.vals.contains(d)) by {
        if q.vals.contains(d) {
            let e = choose|e: int| 0 <= e < q.vals.len() && q.vals[e] == d;
            assert(q.vals[e] == vals[pos[e]]);
            assert(pos[e] != j);
            if pos[e] < j {
                assert(vals[pos[e]] < vals[j]);
            } else {
                assert(vals[j] < vals[pos[e]]);
            }
        }
    }
    assert(!q.accepts(group[k]));
    lemma_filter_witness(group, rejecting(q), k);
}

/// The two sides of a split, each with its count and impurity, and the impurity
/// of the split as a whole.
#[derive(Debug)]
pub struct Answer {
    pub yes: Node,
    pub no: Node,
    pub impurity: Impurity,
}

impl Answer {
    /// Both sides are scored, and the impurity is the sum of theirs.
    pub open spec fn wf(&self) -> bool {
        &&& self.yes.wf()
        &&& self.no.wf()
        &&& self.impurity@ == impurity(self.yes.rows@, self.no.rows@)
    }

    /// Scores both sides and adds their impurities.
    pub fn new(yes: Vec<Mush>, no: Vec<Mush>) -> (a: Answer)
        requires
            0 < yes.len() <= MAX_RECORDS,
            0 < no.len() <= MAX_RECORDS,
        ensures
            a.wf(),
            a.yes.rows@ == yes@,
            a.no.rows@ == no@,
    {
        let yes_node = Node::new(yes);
        let no_node = Node::new(no);
        let a: u64 = yes_node.impurity.num;
        let b: u64 = yes_node.impurity.den;
        let c: u64 = no_node.impurity.num;
        let d: u64 = no_node.impurity.den;
        proof {
            lemma_gini_extremes(yes_node.rows@);
            lemma_gini_extremes(no_node.rows@);
            let ny = yes_node.rows.len() as int;
            let nn = no_node.rows.len() as int;
            assert(b == ny * ny && d == nn * nn);
            assert(b <= 65_535 * 65_535 && d <= 65_535 * 65_535) by (nonlinear_arith)
                requires
                    b == ny * ny,
                    d == nn * nn,
                    0 <= ny <= 65_535,
                    0 <= nn <= 65_535,
            ;
            assert(0 <= a * d && 0 <= c * b && 2 * (a * d) <= 4_294_836_225 * 4_294_836_225 && 2
                * (c * b) <= 4_294_836_225 * 4_294_836_225 && b * d <= 4_294_836_225
                * 4_294_836_225) by (nonlinear_arith)
                requires
                    0 <= 2 * a <= b,
                    0 <= 2 * c <= d,
                    b <= 4_294_836_225,
                    d <= 4_294_836_225,
            ;
        }
        let num: u64 = a * d + c * b;
        let den: u64 = b * d;
        Answer { yes: yes_node, no: no_node, impurity: Impurity { num, den } }
    }
}

impl Question {
    /// Parts `input` into the records that answer yes and those that answer no,
    /// each side in the order of `input`.
    pub fn partition(&self, input: &[Mush]) -> (sides: (Vec<Mush>, Vec<Mush>))
        requires
            self.facet < NUM_FACETS,
        ensures
            sides.0@ == yes_side(input@, self@),
            sides.1@ == no_side(input@, self@),
            sides.0.len() + sides.1.len() == input.len(),
            sides.0@.to_multiset().add(sides.1@.to_multiset()) == input@.to_multiset(),
    {
        let ghost q = self@;
        let mut yes: Vec<Mush> = Vec::new();
        let mut no: Vec<Mush> = Vec::new();
        let mut i: usize = 0;
        while i < input.len()
            invariant
                i <= input.len(),
                self.facet < NUM_FACETS,
                q == self@,
                yes@ == yes_side(input@.take(i as int), q),
                no@ == no_side(input@.take(i as int), q),
            decreases input.len() - i,
        {
            let m: Mush = input[i];
            proof {
                let front = input@.take(i as int);
                assert(input@.take(i + 1) == front.push(m));
                lemma_filter_push(front, m, accepting(q));
                lemma_filter_push(front, m, rejecting(q));
            }
            if contains_code(&self.vals, m.attrs[self.facet]) {
                yes.push(m);
            } else {
                no.push(m);
            }
            i += 1;
        }
        proof {
            assert(input@.take(i as int) == input@);
            lemma_sides_part_group(input@, q);
        }
        (yes, no)
    }

    /// Applies the question to the group, separating it into two, and scores the
    /// split. Every record of `input` is on exactly one side of the answer.
    pub fn answer(&self, input: &[Mush]) -> (a: Answer)
        requires
            splits(self@, input@),
        ensures
            a.wf(),
            a.yes.rows@ == yes_side(input@, self@),
            a.no.rows@ == no_side(input@, self@),
            a.impurity@ == split_impurity(input@, self@),
            a.yes.rows.len() + a.no.rows.len() == input.len(),
            a.yes.rows@.to_multiset().add(a.no.rows@.to_multiset()) == input@.to_multiset(),
    {
        let (yes, no) = self.partition(input);
        Answer::new(yes, no)
    }

    /// Applies the question where it can be put to the group, and says so where
    /// it cannot: `None` for a facet that does not exist, for a group beyond
    /// `MAX_RECORDS`, and for a split with an empty side.
    pub fn try_answer(&self, input: &[Mush]) -> (r: Option<Answer>)
        ensures
            r.is_some() == splits(self@, input@),
            r matches Some(a) ==> {
                &&& a.wf()
                &&& a.yes.rows@ == yes_side(input@, self@)
                &&& a.no.rows@ == no_side(input@, self@)
                &&& a.impurity@ == split_impurity(input@, self@)
            },
    {
        if self.facet >= NUM_FACETS || input.len() > MAX_RECORDS {
            return None;
        }
        let (yes, no) = self.partition(input);
        if yes.len() == 0 || no.len() == 0 {
            return None;
        }
        Some(Answer::new(yes, no))
    }
}

} // verus!
