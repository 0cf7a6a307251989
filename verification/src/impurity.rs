//! Two-class Gini impurity, kept as an exact fraction.
use vstd::prelude::*;
use crate::records::{poison_count, pure, Mush, MAX_RECORDS};
use crate::seqs::{lemma_filter_all, lemma_filter_none, lemma_filter_push};

verus! {

/// A non-negative fraction `num / den`; the model of an impurity score.
pub struct Ratio {
    pub num: int,
    pub den: int,
}

impl Ratio {
    /// `self < other`, for fractions with positive denominators.
    pub open spec fn less(self, other: Ratio) -> bool {
        self.num * other.den < other.num * self.den
    }

    pub open spec fn is_zero(self) -> bool {
        self.num == 0
    }

    /// The sum of the two fractions, over the product of their denominators.
    pub open spec fn plus(self, other: Ratio) -> Ratio {
        Ratio { num: self.num * other.den + other.num * self.den, den: self.den * other.den }
    }
}

/// Gini impurity of one side: `2 * (p / n) * ((n - p) / n)` for `p` positive
/// records among `n`.
pub open spec fn gini(group: Seq<Mush>) -> Ratio {
    let p = poison_count(group) as int;
    let n = group.len() as int;
    Ratio { num: 2 * p * (n - p), den: n * n }
}

/// Impurity of a two-way split: the Gini impurities of both sides, added.
pub open spec fn impurity(yes: Seq<Mush>, no: Seq<Mush>) -> Ratio {
    gini(yes).plus(gini(no))
}

/// An impurity score as it is held at run time: a fraction that is not
/// reduced. The derived `==` compares numerator and denominator, not the value.
#[derive(Clone, Copy, Debug, PartialEq, Eq)]
pub struct Impurity {
    pub num: u64,
    pub den: u64,
}

impl View for Impurity {
    type V = Ratio;

    open spec fn view(&self) -> Ratio {
        Ratio { num: self.num as int, den: self.den as int }
    }
}

impl Impurity {
    /// The score is exactly zero.
    pub fn is_zero(&self) -> (r: bool)
        ensures
            r == self@.is_zero(),
    {
        self.num == 0
    }

    /// `self` is strictly the smaller score.
    pub fn less_than(&self, other: &Impurity) -> (r: bool)
        ensures
            r == self@.less(other@),
    {
        proof {
            lemma_product_fits(self.num, other.den);
            lemma_product_fits(other.num, self.den);
        }
        let left: u128 = (self.num as u128) * (other.den as u128);
        let right: u128 = (other.num as u128) * (self.den as u128);
        left < right
    }
}

proof fn lemma_product_fits(a: u64, b: u64)
    ensures
        a * b <= u128::MAX,
{
    assert(a * b <= 0xffff_ffff_ffff_ffff * 0xffff_ffff_ffff_ffff) by (nonlinear_arith)
        requires
            0 <= a <= 0xffff_ffff_ffff_ffff,
            0 <= b <= 0xffff_ffff_ffff_ffff,
    ;
}

/// `4 * p * (n - p) <= n * n`, with equality exactly at `2 * p == n`.
proof fn lemma_half_bound(p: int, n: int)
    requires
        0 <= p <= n,
    ensures
        0 <= 2 * p * (n - p),
        2 * (2 * p * (n - p)) <= n * n,
        2 * (2 * p * (n - p)) == n * n <==> 2 * p == n,
        2 * p * (n - p) == 0 <==> (p == 0 || p == n),
{
    assert(n * n - 2 * (2 * p * (n - p)) == (n - 2 * p) * (n - 2 * p)) by (nonlinear_arith);
    assert((n - 2 * p) * (n - 2 * p) >= 0) by (nonlinear_arith);
    assert((n - 2 * p) * (n - 2 * p) == 0 <==> n - 2 * p == 0) by (nonlinear_arith);
    assert(2 * p * (n - p) == 0 <==> (p == 0 || p == n)) by (nonlinear_arith)
        requires
            0 <= p <= n,
    ;
    assert(0 <= 2 * p * (n - p)) by (nonlinear_arith)
        requires
            0 <= p <= n,
    ;
}

proof fn lemma_square_bound(n: int, m: int)
    requires
        0 <= n <= m,
    ensures
        0 <= n * n <= m * m,
{
    assert(0 <= n * n <= m * m) by (nonlinear_arith)
        requires
            0 <= n <= m,
    ;
}

/// The positive-class count never exceeds the size of the group.
pub proof fn lemma_poison_count_bound(group: Seq<Mush>)
    ensures
        poison_count(group) <= group.len(),
{
    group.lemma_filter_len(|m: Mush| m.is_poisonous());
}

/// A group is pure exactly when all its records carry the same class label.
pub proof fn lemma_pure_same_label(group: Seq<Mush>)
    ensures
        pure(group) <==> forall|i: int, j: int|
            0 <= i < group.len() && 0 <= j < group.len() ==> group[i].is_poisonous()
                == group[j].is_poisonous(),
{
    let pred = |m: Mush| m.is_poisonous();
    lemma_filter_none(group, pred);
    lemma_filter_all(group, pred);
    let same = forall|i: int, j: int|
        0 <= i < group.len() && 0 <= j < group.len() ==> group[i].is_poisonous()
            == group[j].is_poisonous();
    if pure(group) {
        assert forall|i: int, j: int|
            0 <= i < group.len() && 0 <= j < group.len() implies group[i].is_poisonous()
            == group[j].is_poisonous() by {
            assert(pred(group[i]) == group[i].is_poisonous());
            assert(pred(group[j]) == group[j].is_poisonous());
        }
    }
    if same {
        if group.len() > 0 {
            if group[0].is_poisonous() {
                assert forall|i: int| 0 <= i < group.len() implies pred(#[trigger] group[i]) by {
                    assert(group[i].is_poisonous() == group[0].is_poisonous());
                }
            } else {
                assert forall|i: int| 0 <= i < group.len() implies !pred(#[trigger] group[i]) by {
                    assert(group[i].is_poisonous() == group[0].is_poisonous());
                }
            }
        }
    }
}

/// The Gini impurity of a non-empty group is zero exactly when all its records
/// carry the same class label. It never exceeds one half, and it is one half
/// exactly when the two classes are equally frequent.
pub proof fn lemma_gini_extremes(group: Seq<Mush>)
    requires
        group.len() > 0,
    ensures
        gini(group).den > 0,
        gini(group).num >= 0,
        gini(group).is_zero() <==> pure(group),
        gini(group).is_zero() <==> forall|i: int, j: int|
            0 <= i < group.len() && 0 <= j < group.len() ==> group[i].is_poisonous()
                == group[j].is_poisonous(),
        2 * gini(group).num <= gini(group).den,
        2 * gini(group).num == gini(group).den <==> 2 * poison_count(group) == group.len(),
{
    lemma_poison_count_bound(group);
    lemma_pure_same_label(group);
    let p = poison_count(group) as int;
    let n = group.len() as int;
    lemma_half_bound(p, n);
    assert(n * n > 0) by (nonlinear_arith)
        requires
            n > 0,
    ;
}

/// Swapping the two sides of a split leaves its impurity unchanged.
pub proof fn lemma_impurity_symmetric(yes: Seq<Mush>, no: Seq<Mush>)
    ensures
        impurity(yes, no) == impurity(no, yes),
{
    let a = gini(yes);
    let b = gini(no);
    assert(a.den * b.den == b.den * a.den) by (nonlinear_arith);
}

/// The impurity of a split of two non-empty sides lies between zero and one,
/// and it is zero exactly when both sides are pure.
pub proof fn lemma_impurity_range(yes: Seq<Mush>, no: Seq<Mush>)
    requires
        yes.len() > 0,
        no.len() > 0,
    ensures
        impurity(yes, no).den > 0,
        0 <= impurity(yes, no).num <= impurity(yes, no).den,
        impurity(yes, no).is_zero() <==> pure(yes) && pure(no),
{
    lemma_gini_extremes(yes);
    lemma_gini_extremes(no);
    let a = gini(yes);
    let b = gini(no);
    assert(a.den * b.den > 0 && 0 <= a.num * b.den + b.num * a.den <= a.den * b.den && (a.num
        * b.den + b.num * a.den == 0 <==> a.num == 0 && b.num == 0)) by (nonlinear_arith)
        requires
            a.den > 0,
            b.den > 0,
            0 <= 2 * a.num <= a.den,
            0 <= 2 * b.num <= b.den,
    ;
}

/// A group of records together with its positive-class count and Gini impurity.
#[derive(Debug)]
pub struct Node {
    pub rows: Vec<Mush>,
    pub poison_cnt: usize,
    pub impurity: Impurity,
}

impl Node {
    /// The count and the impurity are those of the rows.
    pub open spec fn wf(&self) -> bool {
        &&& 0 < self.rows.len() <= MAX_RECORDS
        &&& self.poison_cnt == poison_count(self.rows@)
        &&& self.impurity@ == gini(self.rows@)
    }

    /// Counts the positive class in `mushs` and scores the group.
    pub fn new(mushs: Vec<Mush>) -> (node: Node)
        requires
            0 < mushs.len() <= MAX_RECORDS,
        ensures
            node.wf(),
            node.rows@ == mushs@,
    {
        let n: usize = mushs.len();
        let p: usize = count_poisonous(&mushs);
        proof {
            lemma_half_bound(p as int, n as int);
            lemma_square_bound(n as int, MAX_RECORDS as int);
            assert(0 <= p * (n - p) <= 65_535 * 65_535) by (nonlinear_arith)
                requires
                    0 <= p <= n <= 65_535,
            ;
        }
        let spread: u64 = (p as u64) * ((n - p) as u64);
        let num: u64 = 2 * spread;
        let den: u64 = (n as u64) * (n as u64);
        assert(num == 2 * p * (n - p)) by (nonlinear_arith)
            requires
                num == 2 * spread,
                spread == p * (n - p),
        ;
        Node { rows: mushs, poison_cnt: p, impurity: Impurity { num, den } }
    }
}

/// Number of positive-class records in `mushs`.
pub fn count_poisonous(mushs: &Vec<Mush>) -> (p: usize)
    ensures
        p == poison_count(mushs@),
        p <= mushs.len(),
{
    let ghost pred = |m: Mush| m.is_poisonous();
    let mut p: usize = 0;
    let mut i: usize = 0;
    while i < mushs.len()
        invariant
            i <= mushs.len(),
            p <= i,
            p == mushs@.take(i as int).filter(pred).len(),
            pred == |m: Mush| m.is_poisonous(),
        decreases mushs.len() - i,
    {
        proof {
            lemma_filter_push(mushs@.take(i as int), mushs@[i as int], pred);
            assert(mushs@.take(i + 1) == mushs@.take(i as int).push(mushs@[i as int]));
        }
        if mushs[i].poisonous() {
            p += 1;
        }
        i += 1;
    }
    assert(mushs@.take(i as int) == mushs@);
    p
}

} // verus!
