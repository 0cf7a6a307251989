//! The tree builder: a work stack of groups, each split by its best question
//! until every leaf is pure.
use vstd::prelude::*;
use crate::choice::{best, best_answer, is_best};
use crate::impurity::{count_poisonous, gini, lemma_gini_extremes, Impurity, Ratio};
use crate::question::{candidates, questions, values_within_limit, Question, QuestionView};
use crate::records::{
    facet_vals, facet_values, lemma_subgroup_values, poison_count, pure, Mush, MAX_FACET_VALUES,
    MAX_RECORDS, NUM_FACETS,
};
use crate::split::{accepting, lemma_sides_part_group, no_side, rejecting, splits, yes_side, Answer};

verus! {

/// One side of a decision: how many records it holds, how many of them are of
/// the positive class, its Gini impurity, and the page on which the side is
/// split further, if it is not a leaf.
#[derive(Clone, Copy, Debug, PartialEq, Eq)]
pub struct Branch {
    pub poison_cnt: usize,
    pub total: usize,
    pub impurity: Impurity,
    pub goto: Option<usize>,
}

/// The model of a [`Branch`].
pub struct BranchView {
    pub poison_cnt: nat,
    pub total: nat,
    pub impurity: Ratio,
    pub goto: Option<nat>,
}

impl View for Branch {
    type V = BranchView;

    open spec fn view(&self) -> BranchView {
        BranchView {
            poison_cnt: self.poison_cnt as nat,
            total: self.total as nat,
            impurity: self.impurity@,
            goto: match self.goto {
                Some(p) => Some(p as nat),
                None => None,
            },
        }
    }
}

/// One decision of the tree: the page number of the group, the question that
/// splits it, and what becomes of each side.
#[derive(Debug, PartialEq, Eq)]
pub struct Page {
    pub page: usize,
    pub question: Question,
    pub yes: Branch,
    pub no: Branch,
}

/// The model of a [`Page`].
pub struct PageView {
    pub page: nat,
    pub question: QuestionView,
    pub yes: BranchView,
    pub no: BranchView,
}

impl View for Page {
    type V = PageView;

    open spec fn view(&self) -> PageView {
        PageView {
            page: self.page as nat,
            question: self.question@,
            yes: self.yes@,
            no: self.no@,
        }
    }
}

impl DeepView for Page {
    type V = PageView;

    open spec fn deep_view(&self) -> PageView {
        self@
    }
}

/// Why no tree was built.
#[derive(Clone, Copy, Debug, PartialEq, Eq)]
pub enum BuildError {
    /// The group of this page holds both classes, and no question parts it.
    NoQuestion { page: usize },
    /// There are more than `MAX_RECORDS` records.
    TooManyRecords,
    /// This facet takes more than `MAX_FACET_VALUES` distinct values.
    TooManyValues { facet: usize },
}

/// The model of a [`BuildError`].
pub enum Failure {
    NoQuestion { page: nat },
    TooManyRecords,
    TooManyValues { facet: nat },
}

impl View for BuildError {
    type V = Failure;

    open spec fn view(&self) -> Failure {
        match *self {
            BuildError::NoQuestion { page } => Failure::NoQuestion { page: page as nat },
            BuildError::TooManyRecords => Failure::TooManyRecords,
            BuildError::TooManyValues { facet } => Failure::TooManyValues { facet: facet as nat },
        }
    }
}

/// The pages of some part of the tree, with the page counter after them.
pub type Grown = Result<(Seq<PageView>, nat), Failure>;

/// What is recorded of one side of a decision.
pub open spec fn branch(side: Seq<Mush>, goto: Option<nat>) -> BranchView {
    BranchView { poison_cnt: poison_count(side), total: side.len(), impurity: gini(side), goto }
}

/// The page counter after a side was looked at: a side that is not pure takes
/// the next number.
pub open spec fn counter_after(side: Seq<Mush>, next: nat) -> nat {
    if pure(side) {
        next
    } else {
        next + 1
    }
}

/// The page on which a side is split further: none for a pure side, else the
/// number that the side has just taken.
pub open spec fn goto_of(side: Seq<Mush>, next: nat) -> Option<nat> {
    if pure(side) {
        None
    } else {
        Some(next + 1)
    }
}

/// The decision that splits `group` by `q` on page `page`, when the page counter
/// stands at `next`: the yes side is numbered before the no side.
pub open spec fn decision(group: Seq<Mush>, q: QuestionView, page: nat, next: nat) -> PageView {
    let yes = yes_side(group, q);
    let no = no_side(group, q);
    PageView {
        page,
        question: q,
        yes: branch(yes, goto_of(yes, next)),
        no: branch(no, goto_of(no, counter_after(yes, next))),
    }
}

/// Puts `done` in front of the pages of `grown`.
pub open spec fn after(done: Seq<PageView>, grown: Grown) -> Grown {
    match grown {
        Ok((pages, next)) => Ok((done + pages, next)),
        Err(e) => Err(e),
    }
}

/// The pages that `group` gives rise to as page `page`, when the page counter
/// stands at `next`, in the order in which they are written: none for a pure
/// group; else the decision by the best candidate question, then the pages of
/// the no side, then those of the yes side. A group that holds both classes and
/// that no candidate question parts ends the building.
pub open spec fn subtree(group: Seq<Mush>, page: nat, next: nat) -> Grown
    decreases group.len(),
{
    if pure(group) {
        Ok((Seq::empty(), next))
    } else {
        match best(group, candidates(group)) {
            None => Err(Failure::NoQuestion { page }),
            Some(i) => {
                let q = candidates(group)[i];
                let yes = yes_side(group, q);
                let no = no_side(group, q);
                let next1 = counter_after(yes, next);
                let next2 = counter_after(no, next1);
                proof {
                    lemma_sides_part_group(group, q);
                }
                match subtree(no, next2, next2) {
                    Err(e) => Err(e),
                    Ok((no_pages, next3)) => after(
                        seq![decision(group, q, page, next)] + no_pages,
                        subtree(yes, next1, next3),
                    ),
                }
            },
        }
    }
}

/// The first facet from `facet` on that takes more than `MAX_FACET_VALUES`
/// distinct values within `group`.
pub open spec fn wide_facet_from(group: Seq<Mush>, facet: nat) -> Option<nat>
    decreases NUM_FACETS - facet,
{
    if facet >= NUM_FACETS {
        None
    } else if facet_values(group, facet as int).len() > MAX_FACET_VALUES {
        Some(facet)
    } else {
        wide_facet_from(group, facet + 1)
    }
}

/// The decision tree for `records`, as the sequence of its pages. The root is
/// page 1 and the page counter starts at 2; it is advanced before a number is
/// given out, so the first side that is split further is page 3.
pub open spec fn tree(records: Seq<Mush>) -> Result<Seq<PageView>, Failure> {
    if records.len() > MAX_RECORDS {
        Err(Failure::TooManyRecords)
    } else {
        match wide_facet_from(records, 0) {
            Some(facet) => Err(Failure::TooManyValues { facet }),
            None => match subtree(records, 1, 2) {
                Ok((pages, _)) => Ok(pages),
                Err(e) => Err(e),
            },
        }
    }
}

/// A group whose records all carry the same class label is a leaf as it
/// stands: it gets no page and takes no page number, however many of its facets
/// still vary.
pub proof fn lemma_pure_group_is_leaf(group: Seq<Mush>, page: nat, next: nat)
    requires
        pure(group),
    ensures
        subtree(group, page, next) == Ok::<(Seq<PageView>, nat), Failure>((Seq::empty(), next)),
        group.len() <= MAX_RECORDS && wide_facet_from(group, 0) is None ==> tree(group) == Ok::<
            Seq<PageView>,
            Failure,
        >(Seq::empty()),
{
}

/// A tree has fewer pages than its group has records, and it gives out at most
/// two page numbers for each page.
pub proof fn lemma_subtree_size(group: Seq<Mush>, page: nat, next: nat)
    ensures
        subtree(group, page, next) matches Ok((pages, last)) ==> {
            &&& pages.len() == 0 || pages.len() < group.len()
            &&& next <= last <= next + 2 * pages.len()
        },
    decreases group.len(),
{
    if !pure(group) {
        match best(group, candidates(group)) {
            None => {},
            Some(i) => {
                let q = candidates(group)[i];
                let yes = yes_side(group, q);
                let no = no_side(group, q);
                let next1 = counter_after(yes, next);
                let next2 = counter_after(no, next1);
                assert(is_best(group, candidates(group), i));
                lemma_sides_part_group(group, q);
                lemma_subtree_size(no, next2, next2);
                match subtree(no, next2, next2) {
                    Err(e) => {},
                    Ok((no_pages, next3)) => {
                        lemma_subtree_size(yes, next1, next3);
                        lemma_pure_group_is_leaf_or_grows(yes, next1, next3);
                        lemma_pure_group_is_leaf_or_grows(no, next2, next2);
                    },
                }
            },
        }
    }
}

impl PageView {
    /// The page asks about a facet that exists, neither side of it is empty, and
    /// a side is a leaf exactly when its impurity is zero.
    pub open spec fn sound(self) -> bool {
        &&& 0 <= self.question.facet < NUM_FACETS
        &&& 0 < self.yes.total
        &&& 0 < self.no.total
        &&& self.yes.goto is None <==> self.yes.impurity.is_zero()
        &&& self.no.goto is None <==> self.no.impurity.is_zero()
    }
}

/// Every page of a tree is sound.
pub proof fn lemma_subtree_pages(group: Seq<Mush>, page: nat, next: nat)
    ensures
        subtree(group, page, next) matches Ok((pages, last)) ==> forall|k: int|
            0 <= k < pages.len() ==> (#[trigger] pages[k]).sound(),
    decreases group.len(),
{
    if !pure(group) {
        match best(group, candidates(group)) {
            None => {},
            Some(i) => {
                let q = candidates(group)[i];
                let yes = yes_side(group, q);
                let no = no_side(group, q);
                let next1 = counter_after(yes, next);
                let next2 = counter_after(no, next1);
                let this = decision(group, q, page, next);
                assert(is_best(group, candidates(group), i));
                lemma_sides_part_group(group, q);
                lemma_gini_extremes(yes);
                lemma_gini_extremes(no);
                assert(this.sound());
                lemma_subtree_pages(no, next2, next2);
                match subtree(no, next2, next2) {
                    Err(e) => {},
                    Ok((no_pages, next3)) => {
                        lemma_subtree_pages(yes, next1, next3);
                        match subtree(yes, next1, next3) {
                            Err(e) => {},
                            Ok((yes_pages, next4)) => {
                                let pages = seq![this] + no_pages + yes_pages;
                                assert forall|k: int| 0 <= k < pages.len() implies (
                                #[trigger] pages[k]).sound() by {
                                    if k == 0 {
                                        assert(pages[k] == this);
                                    } else if k < 1 + no_pages.len() {
                                        assert(pages[k] == no_pages[k - 1]);
                                    } else {
                                        assert(pages[k] == yes_pages[k - 1 - no_pages.len()]);
                                    }
                                }
                            },
                        }
                    },
                }
            },
        }
    }
}

/// A group that is not pure gets a page, unless the building ends on it.
proof fn lemma_pure_group_is_leaf_or_grows(group: Seq<Mush>, page: nat, next: nat)
    ensures
        subtree(group, page, next) matches Ok((pages, last)) ==> (pages.len() == 0 <==> pure(
            group,
        )),
{
    if !pure(group) {
        match best(group, candidates(group)) {
            None => {},
            Some(i) => {
                let q = candidates(group)[i];
                let yes = yes_side(group, q);
                let no = no_side(group, q);
                let next1 = counter_after(yes, next);
                let next2 = counter_after(no, next1);
                match subtree(no, next2, next2) {
                    Err(e) => {},
                    Ok((no_pages, next3)) => {
                        match subtree(yes, next1, next3) {
                            Err(e) => {},
                            Ok((yes_pages, next4)) => {
                                assert((seq![decision(group, q, page, next)] + no_pages
                                    + yes_pages).len() > 0);
                            },
                        }
                    },
                }
            },
        }
    }
}

/// A group that waits on the work stack, with its page number.
pub struct Work {
    pub group: Seq<Mush>,
    pub page: nat,
}

/// The pages that the groups on the work stack give rise to, the top of the
/// stack first.
pub open spec fn pending(stack: Seq<Work>, next: nat) -> Grown
    decreases stack.len(),
{
    if stack.len() == 0 {
        Ok((Seq::empty(), next))
    } else {
        match subtree(stack.last().group, stack.last().page, next) {
            Err(e) => Err(e),
            Ok((pages, next1)) => after(pages, pending(stack.drop_last(), next1)),
        }
    }
}

/// What a group on the stack still costs: splitting lowers the sum.
pub open spec fn cost(len: nat) -> nat {
    if len == 0 {
        1
    } else {
        (2 * len - 1) as nat
    }
}

/// The cost of all groups on the stack.
pub open spec fn load(stack: Seq<Work>) -> nat
    decreases stack.len(),
{
    if stack.len() == 0 {
        0
    } else {
        load(stack.drop_last()) + cost(stack.last().group.len())
    }
}

/// The model of the work stack.
pub open spec fn stack_view(stack: Seq<(Vec<Mush>, usize)>) -> Seq<Work> {
    Seq::new(stack.len(), |i: int| Work { group: stack[i].0@, page: stack[i].1 as nat })
}

/// Every group on the stack is within the limits.
pub open spec fn stack_within_limits(stack: Seq<Work>) -> bool {
    forall|i: int|
        0 <= i < stack.len() ==> (#[trigger] stack[i]).group.len() <= MAX_RECORDS
            && values_within_limit(stack[i].group)
}

proof fn lemma_push(stack: Seq<Work>, w: Work, next: nat)
    ensures
        load(stack.push(w)) == load(stack) + cost(w.group.len()),
        pending(stack.push(w), next) == match subtree(w.group, w.page, next) {
            Err(e) => Err(e),
            Ok((pages, next1)) => after(pages, pending(stack, next1)),
        },
{
    assert(stack.push(w).drop_last() == stack);
    assert(stack.push(w).last() == w);
}

/// A side of a split stays within the limits of its group.
proof fn lemma_side_within_limits(group: Seq<Mush>, q: QuestionView)
    requires
        group.len() <= MAX_RECORDS,
        values_within_limit(group),
    ensures
        yes_side(group, q).len() <= MAX_RECORDS,
        values_within_limit(yes_side(group, q)),
        no_side(group, q).len() <= MAX_RECORDS,
        values_within_limit(no_side(group, q)),
{
    lemma_sides_part_group(group, q);
    let yes = yes_side(group, q);
    let no = no_side(group, q);
    assert forall|i: int| 0 <= i < yes.len() implies group.contains(#[trigger] yes[i]) by {
        assert(yes.contains(yes[i]));
        group.lemma_filter_contains_rev(accepting(q), yes[i]);
    }
    assert forall|i: int| 0 <= i < no.len() implies group.contains(#[trigger] no[i]) by {
        assert(no.contains(no[i]));
        group.lemma_filter_contains_rev(rejecting(q), no[i]);
    }
    assert forall|facet: int| 0 <= facet < NUM_FACETS implies (#[trigger] facet_values(
        yes,
        facet,
    )).len() <= MAX_FACET_VALUES by {
        lemma_subgroup_values(yes, group, facet);
        assert(facet_values(group, facet).len() <= MAX_FACET_VALUES);
    }
    assert forall|facet: int| 0 <= facet < NUM_FACETS implies (#[trigger] facet_values(
        no,
        facet,
    )).len() <= MAX_FACET_VALUES by {
        lemma_subgroup_values(no, group, facet);
        assert(facet_values(group, facet).len() <= MAX_FACET_VALUES);
    }
}

/// Splitting the group on top of the stack: the decision is written, and what is
/// left to do is the rest of the stack with the sides that are not pure on top.
proof fn lemma_split_top(rest: Seq<Work>, group: Seq<Mush>, page: nat, next: nat, i: int)
    requires
        !pure(group),
        best(group, candidates(group)) == Some(i),
    ensures
        ({
            let q = candidates(group)[i];
            let yes = yes_side(group, q);
            let no = no_side(group, q);
            let next1 = counter_after(yes, next);
            let next2 = counter_after(no, next1);
            let with_yes = if pure(yes) {
                rest
            } else {
                rest.push(Work { group: yes, page: next1 })
            };
            let with_no = if pure(no) {
                with_yes
            } else {
                with_yes.push(Work { group: no, page: next2 })
            };
            &&& pending(rest.push(Work { group, page }), next) == after(
                seq![decision(group, q, page, next)],
                pending(with_no, next2),
            )
            &&& load(with_no) + 1 + (if pure(yes) { 1nat } else { 0 }) + (if pure(no) { 1nat } else { 0 })
                <= load(rest.push(Work { group, page }))
        }),
{
    let q = candidates(group)[i];
    let yes = yes_side(group, q);
    let no = no_side(group, q);
    let next1 = counter_after(yes, next);
    let next2 = counter_after(no, next1);
    let this = decision(group, q, page, next);
    assert(is_best(group, candidates(group), i));
    lemma_sides_part_group(group, q);
    lemma_push(rest, Work { group, page }, next);
    let with_yes = if pure(yes) {
        rest
    } else {
        rest.push(Work { group: yes, page: next1 })
    };
    let with_no = if pure(no) {
        with_yes
    } else {
        with_yes.push(Work { group: no, page: next2 })
    };
    lemma_push(rest, Work { group: yes, page: next1 }, next);
    lemma_push(with_yes, Work { group: no, page: next2 }, next2);
    match subtree(no, next2, next2) {
        Err(e) => {},
        Ok((no_pages, next3)) => {
            if !pure(yes) {
                lemma_push(rest, Work { group: yes, page: next1 }, next3);
            }
            match subtree(yes, next1, next3) {
                Err(e) => {},
                Ok((yes_pages, next4)) => {
                    match pending(rest, next4) {
                        Err(e) => {},
                        Ok((more, next5)) => {
                            assert((seq![this] + no_pages + yes_pages) + more =~= seq![this] + (
                            no_pages + (yes_pages + more)));
                            assert(Seq::<PageView>::empty() + (yes_pages + more) =~= yes_pages
                                + more);
                            assert(Seq::<PageView>::empty() + more =~= more);
                            assert(no_pages + (Seq::<PageView>::empty() + more) =~= no_pages
                                + more);
                            assert(yes_pages + more =~= Seq::<PageView>::empty() + (yes_pages
                                + more));
                        },
                    }
                },
            }
        },
    }
}

/// All records of `group` carry the same class label.
pub fn is_pure(group: &Vec<Mush>) -> (r: bool)
    ensures
        r == pure(group@),
{
    let p = count_poisonous(group);
    p == 0 || p == group.len()
}

/// The first facet that takes more than `MAX_FACET_VALUES` distinct values
/// within `records`.
pub fn first_wide_facet(records: &Vec<Mush>) -> (r: Option<usize>)
    ensures
        match r {
            Some(f) => wide_facet_from(records@, 0) == Some(f as nat),
            None => wide_facet_from(records@, 0) is None && values_within_limit(records@),
        },
{
    let mut facet: usize = 0;
    while facet < NUM_FACETS
        invariant
            facet <= NUM_FACETS,
            wide_facet_from(records@, 0) == wide_facet_from(records@, facet as nat),
            forall|f: int|
                0 <= f < facet ==> (#[trigger] facet_values(records@, f)).len()
                    <= MAX_FACET_VALUES,
        decreases NUM_FACETS - facet,
    {
        let vals = facet_vals(records.as_slice(), facet);
        if vals.len() > MAX_FACET_VALUES {
            return Some(facet);
        }
        facet += 1;
    }
    None
}

/// Grows the decision tree for `records` and returns its pages in the order in
/// which the groups are split. A group that is pure is a leaf and gets no page;
/// any other group is split by the first candidate question of least impurity.
/// The same records always give the same pages.
pub fn build_tree(records: Vec<Mush>) -> (r: Result<Vec<Page>, BuildError>)
    ensures
        match r {
            Ok(pages) => tree(records@) == Ok::<Seq<PageView>, Failure>(pages.deep_view()),
            Err(e) => tree(records@) == Err::<Seq<PageView>, Failure>(e@),
        },
        r matches Ok(pages) ==> forall|k: int|
            0 <= k < pages.len() ==> (#[trigger] pages[k])@.sound() && pages[k].question@.wf(),
{
    if records.len() > MAX_RECORDS {
        return Err(BuildError::TooManyRecords);
    }
    match first_wide_facet(&records) {
        Some(facet) => {
            return Err(BuildError::TooManyValues { facet });
        },
        None => {},
    }
    let ghost all = records@;
    let ghost goal = subtree(all, 1, 2);
    let mut pages: Vec<Page> = Vec::new();
    let mut stack: Vec<(Vec<Mush>, usize)> = Vec::new();
    let mut next_page: usize = 2;
    stack.push((records, 1));
    proof {
        let w = Work { group: records@, page: 1 };
        assert(stack_view(stack@) =~= Seq::<Work>::empty().push(w));
        lemma_push(Seq::<Work>::empty(), w, 2);
        match subtree(records@, 1, 2) {
            Ok((ps, n)) => {
                assert(ps + Seq::<PageView>::empty() =~= ps);
                assert(Seq::<PageView>::empty() + ps =~= ps);
            },
            Err(e) => {},
        }
        assert(pages.deep_view() =~= Seq::<PageView>::empty());
    }
    while stack.len() > 0
        invariant
            stack_within_limits(stack_view(stack@)),
            goal == after(pages.deep_view(), pending(stack_view(stack@), next_page as nat)),
            all == records@,
            forall|k: int| 0 <= k < pages.len() ==> (#[trigger] pages[k]).question@.wf(),
            tree(all) == match goal {
                Ok((grown, _)) => Ok::<Seq<PageView>, Failure>(grown),
                Err(e) => Err(e),
            },
            // each number given out is paid for by the load falling
            next_page + 2 * load(stack_view(stack@)) <= 4 * (MAX_RECORDS + 1),
        decreases load(stack_view(stack@)),
    {
        let ghost before = stack_view(stack@);
        let ghost done = pages.deep_view();
        let (group, page) = stack.pop().unwrap();
        let ghost rest = stack_view(stack@);
        let ghost top = Work { group: group@, page: page as nat };
        proof {
            assert(rest =~= before.drop_last());
            assert(before.last() == top);
            assert(before =~= rest.push(top));
            lemma_push(rest, top, next_page as nat);
            assert(stack_within_limits(rest)) by {
                assert forall|i: int| 0 <= i < rest.len() implies (#[trigger] rest[i]).group.len()
                    <= MAX_RECORDS && values_within_limit(rest[i].group) by {
                    assert(rest[i] == before[i]);
                }
            }
            assert(group@.len() <= MAX_RECORDS && values_within_limit(group@));
        }
        if is_pure(&group) {
            proof {
                match pending(rest, next_page as nat) {
                    Ok((more, n)) => {
                        assert(Seq::<PageView>::empty() + more =~= more);
                    },
                    Err(e) => {},
                }
            }
        } else {
            let mut qs = questions(group.as_slice());
            match best_answer(group.as_slice(), &qs) {
                None => {
                    return Err(BuildError::NoQuestion { page });
                },
                Some((i, answer)) => {
                    let ghost q = qs.deep_view()[i as int];
                    let question = qs.remove(i);
                    let Answer { yes, no, impurity: _ } = answer;
                    proof {
                        assert(question@ == q);
                        lemma_split_top(rest, group@, page as nat, next_page as nat, i as int);
                        lemma_side_within_limits(group@, q);
                        lemma_sides_part_group(group@, q);
                        lemma_gini_extremes(yes.rows@);
                        lemma_gini_extremes(no.rows@);
                    }
                    let ghost next0 = next_page as nat;
                    let yes_pure = yes.impurity.is_zero();
                    let no_pure = no.impurity.is_zero();
                    let mut yes_goto: Option<usize> = None;
                    if !yes_pure {
                        next_page += 1;
                        yes_goto = Some(next_page);
                    }
                    let yes_page: usize = next_page;
                    let mut no_goto: Option<usize> = None;
                    if !no_pure {
                        next_page += 1;
                        no_goto = Some(next_page);
                    }
                    let no_page: usize = next_page;
                    let decided = Page {
                        page,
                        question,
                        yes: Branch {
                            poison_cnt: yes.poison_cnt,
                            total: yes.rows.len(),
                            impurity: yes.impurity,
                            goto: yes_goto,
                        },
                        no: Branch {
                            poison_cnt: no.poison_cnt,
                            total: no.rows.len(),
                            impurity: no.impurity,
                            goto: no_goto,
                        },
                    };
                    proof {
                        assert(decided@ == decision(group@, q, page as nat, next0));
                    }
                    pages.push(decided);
                    let ghost with_yes = if yes_pure {
                        rest
                    } else {
                        rest.push(Work { group: yes.rows@, page: yes_page as nat })
                    };
                    if !yes_pure {
                        stack.push((yes.rows, yes_page));
                    }
                    proof {
                        assert(stack_view(stack@) =~= with_yes);
                        if !yes_pure {
                            lemma_push(rest, Work { group: yes.rows@, page: yes_page as nat }, 0);
                        }
                    }
                    let ghost with_no = if no_pure {
                        with_yes
                    } else {
                        with_yes.push(Work { group: no.rows@, page: no_page as nat })
                    };
                    if !no_pure {
                        stack.push((no.rows, no_page));
                    }
                    proof {
                        assert(stack_view(stack@) =~= with_no);
                        if !no_pure {
                            lemma_push(with_yes, Work { group: no.rows@, page: no_page as nat }, 0);
                        }
                        assert(pages.deep_view() =~= done.push(decided@));
                        assert(done.push(decided@) =~= done + seq![decided@]);
                        match pending(with_no, next_page as nat) {
                            Ok((more, n)) => {
                                assert((done + seq![decided@]) + more =~= done + (seq![decided@]
                                    + more));
                            },
                            Err(e) => {},
                        }
                        assert forall|k: int| 0 <= k < with_no.len() implies (
                        #[trigger] with_no[k]).group.len() <= MAX_RECORDS && values_within_limit(
                            with_no[k].group,
                        ) by {
                            if k < rest.len() {
                                assert(with_no[k] == rest[k]);
                            }
                        }
                    }
                },
            }
        }
    }
    proof {
        assert(stack_view(stack@) =~= Seq::<Work>::empty());
        assert(pages.deep_view() + Seq::<PageView>::empty() =~= pages.deep_view());
        lemma_subtree_pages(all, 1, 2);
        assert forall|k: int| 0 <= k < pages.len() implies (#[trigger] pages[k])@.sound()
            && pages[k].question@.wf() by {
            assert(pages.deep_view()[k] == pages[k]@);
        }
    }
    Ok(pages)
}

} // verus!
