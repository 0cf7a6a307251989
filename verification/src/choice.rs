//! Choosing among candidate questions: the first one of least impurity.
use vstd::prelude::*;
use crate::impurity::{lemma_impurity_range, Ratio};
use crate::question::{Question, QuestionView};
use crate::records::Mush;
use crate::split::{no_side, split_impurity, splits, yes_side, Answer};

verus! {

/// Among the first `n` questions of `qs`, the one at `i` can be put to the
/// group, none that can be put to it scores lower, and each one before it that
/// can be put to it scores higher.
pub open spec fn is_best_among(group: Seq<Mush>, qs: Seq<QuestionView>, n: int, i: int) -> bool {
    &&& 0 <= i < n <= qs.len()
    &&& splits(qs[i], group)
    &&& forall|j: int|
        0 <= j < n && splits(#[trigger] qs[j], group) ==> !split_impurity(group, qs[j]).less(
            split_impurity(group, qs[i]),
        )
    &&& forall|j: int|
        0 <= j < i && splits(#[trigger] qs[j], group) ==> split_impurity(group, qs[i]).less(
            split_impurity(group, qs[j]),
        )
}

/// The question at `i` is the first of least impurity among those of `qs` that
/// can be put to the group.
pub open spec fn is_best(group: Seq<Mush>, qs: Seq<QuestionView>, i: int) -> bool {
    is_best_among(group, qs, qs.len() as int, i)
}

/// The index of the winning question, if any question of `qs` can be put to the
/// group: ties go to the question that comes first.
pub open spec fn best(group: Seq<Mush>, qs: Seq<QuestionView>) -> Option<int> {
    if exists|i: int| is_best(group, qs, i) {
        Some(choose|i: int| is_best(group, qs, i))
    } else {
        None
    }
}

/// At most one question is the best.
pub proof fn lemma_best_unique(group: Seq<Mush>, qs: Seq<QuestionView>, i: int, j: int)
    requires
        is_best(group, qs, i),
        is_best(group, qs, j),
    ensures
        i == j,
{
    if i < j {
        assert(split_impurity(group, qs[j]).less(split_impurity(group, qs[i])));
    } else if j < i {
        assert(split_impurity(group, qs[i]).less(split_impurity(group, qs[j])));
    }
}

/// Where no question can be put to the group, there is no best one.
pub proof fn lemma_best_none(group: Seq<Mush>, qs: Seq<QuestionView>)
    requires
        forall|j: int| 0 <= j < qs.len() ==> !splits(#[trigger] qs[j], group),
    ensures
        best(group, qs) is None,
{
}

/// Whatever is below something that is not above a third is below the third.
proof fn lemma_less_chain(x: Ratio, b: Ratio, j: Ratio)
    requires
        x.den > 0,
        b.den > 0,
        j.den > 0,
        x.num >= 0,
        b.num >= 0,
        j.num >= 0,
        x.less(b),
        !j.less(b),
    ensures
        x.less(j),
{
    let xn = x.num;
    let xd = x.den;
    let bn = b.num;
    let bd = b.den;
    let jn = j.num;
    let jd = j.den;
    assert((xn * bd) * jd < (bn * xd) * jd) by (nonlinear_arith)
        requires
            xn * bd < bn * xd,
            jd > 0,
    ;
    assert((jn * bd) * xd >= (bn * jd) * xd) by (nonlinear_arith)
        requires
            jn * bd >= bn * jd,
            xd > 0,
    ;
    assert((bn * xd) * jd == (bn * jd) * xd) by (nonlinear_arith);
    assert((xn * bd) * jd == (xn * jd) * bd) by (nonlinear_arith);
    assert((jn * bd) * xd == (jn * xd) * bd) by (nonlinear_arith);
    assert(xn * jd < jn * xd) by (nonlinear_arith)
        requires
            (xn * jd) * bd < (jn * xd) * bd,
            bd > 0,
    ;
}

/// Scores every question of `qs` that can be put to `group` and returns the
/// index of the first one of least impurity, with its answer; `None` where no
/// question of `qs` can be put to the group.
pub fn best_answer(group: &[Mush], qs: &Vec<Question>) -> (r: Option<(usize, Answer)>)
    ensures
        match r {
            Some((i, a)) => {
                &&& best(group@, qs.deep_view()) == Some(i as int)
                &&& is_best(group@, qs.deep_view(), i as int)
                &&& a.wf()
                &&& a.yes.rows@ == yes_side(group@, qs.deep_view()[i as int])
                &&& a.no.rows@ == no_side(group@, qs.deep_view()[i as int])
            },
            None => {
                &&& best(group@, qs.deep_view()) is None
                &&& forall|j: int| 0 <= j < qs.len() ==> !splits(#[trigger] qs.deep_view()[j], group@)
            },
        },
{
    let ghost asked = qs.deep_view();
    let mut winner: Option<(usize, Answer)> = None;
    let mut i: usize = 0;
    while i < qs.len()
        invariant
            i <= qs.len(),
            asked == qs.deep_view(),
            match winner {
                Some((b, a)) => {
                    &&& is_best_among(group@, asked, i as int, b as int)
                    &&& a.wf()
                    &&& a.yes.rows@ == yes_side(group@, asked[b as int])
                    &&& a.no.rows@ == no_side(group@, asked[b as int])
                },
                None => forall|j: int| 0 <= j < i ==> !splits(#[trigger] asked[j], group@),
            },
        decreases qs.len() - i,
    {
        assert(asked[i as int] == qs[i as int]@);
        let tried = qs[i].try_answer(group);
        match tried {
            None => {},
            Some(answer) => {
                let replace = match &winner {
                    None => true,
                    Some((_, held)) => answer.impurity.less_than(&held.impurity),
                };
                proof {
                    let new = split_impurity(group@, asked[i as int]);
                    lemma_impurity_range(
                        yes_side(group@, asked[i as int]),
                        no_side(group@, asked[i as int]),
                    );
                    match winner {
                        None => {},
                        Some((b, _)) => {
                            let old = split_impurity(group@, asked[b as int]);
                            lemma_impurity_range(
                                yes_side(group@, asked[b as int]),
                                no_side(group@, asked[b as int]),
                            );
                            if replace {
                                assert forall|j: int|
                                    0 <= j < i && splits(
                                        #[trigger] asked[j],
                                        group@,
                                    ) implies new.less(split_impurity(group@, asked[j])) by {
                                    lemma_impurity_range(
                                        yes_side(group@, asked[j]),
                                        no_side(group@, asked[j]),
                                    );
                                    lemma_less_chain(new, old, split_impurity(group@, asked[j]));
                                }
                                assert(!new.less(new));
                            }
                        },
                    }
                }
                if replace {
                    winner = Some((i, answer));
                }
            },
        }
        i += 1;
    }
    proof {
        match winner {
            Some((b, _)) => {
                assert(is_best(group@, asked, b as int));
                let c = choose|c: int| is_best(group@, asked, c);
                lemma_best_unique(group@, asked, b as int, c);
            },
            None => {
                lemma_best_none(group@, asked);
            },
        }
    }
    winner
}

} // verus!
