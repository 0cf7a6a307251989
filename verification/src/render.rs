//! Text for questions, groups, answers and pages.
use vstd::prelude::*;
use vstd::string::StringExecFns;
use crate::impurity::{Impurity, Node};
use crate::names::{FACET_NAMES, NUM_VALUE_NAMES, VALUE_NAMES};
use crate::question::{contains_code, Question, QuestionView};
use crate::records::NUM_FACETS;
use crate::split::Answer;
use crate::tree::{Branch, Page};

verus! {

/// The text of one decimal digit.
pub open spec fn digit_text(d: nat) -> Seq<char> {
    if d == 0 {
        "0"@
    } else if d == 1 {
        "1"@
    } else if d == 2 {
        "2"@
    } else if d == 3 {
        "3"@
    } else if d == 4 {
        "4"@
    } else if d == 5 {
        "5"@
    } else if d == 6 {
        "6"@
    } else if d == 7 {
        "7"@
    } else if d == 8 {
        "8"@
    } else {
        "9"@
    }
}

/// The decimal text of `n`, without leading zeros.
pub open spec fn decimal_text(n: nat) -> Seq<char>
    decreases n,
{
    if n < 10 {
        digit_text(n)
    } else {
        decimal_text(n / 10) + digit_text(n % 10)
    }
}

fn digit(d: u64) -> (s: &'static str)
    requires
        d < 10,
    ensures
        s@ == digit_text(d as nat),
{
    if d == 0 {
        "0"
    } else if d == 1 {
        "1"
    } else if d == 2 {
        "2"
    } else if d == 3 {
        "3"
    } else if d == 4 {
        "4"
    } else if d == 5 {
        "5"
    } else if d == 6 {
        "6"
    } else if d == 7 {
        "7"
    } else if d == 8 {
        "8"
    } else {
        "9"
    }
}

/// Writes `n` in decimal.
pub fn decimal(n: u64) -> (s: String)
    ensures
        s@ == decimal_text(n as nat),
    decreases n,
{
    if n < 10 {
        String::from_str(digit(n))
    } else {
        let mut s = decimal(n / 10);
        s.append(digit(n % 10));
        s
    }
}

/// The names, in the order of the table, of those among its first `n` entries
/// that belong to `facet` and whose code is one of `vals`.
pub open spec fn chosen_names(facet: int, vals: Seq<char>, n: nat) -> Seq<Seq<char>>
    decreases n,
{
    if n == 0 || n > NUM_VALUE_NAMES {
        Seq::empty()
    } else {
        let entry = VALUE_NAMES[n - 1];
        let before = chosen_names(facet, vals, (n - 1) as nat);
        if entry.0 == facet && vals.contains(entry.1) {
            before.push(entry.2@)
        } else {
            before
        }
    }
}

/// The texts of `names` with `", "` between them.
pub open spec fn listed(names: Seq<Seq<char>>) -> Seq<char>
    decreases names.len(),
{
    if names.len() == 0 {
        Seq::empty()
    } else if names.len() == 1 {
        names[0]
    } else {
        listed(names.drop_last()) + ", "@ + names.last()
    }
}

/// The text of a question about a facet that exists: the name of the facet and
/// the names of the values asked for. A code without a name is left out.
pub open spec fn question_text(q: QuestionView) -> Seq<char> {
    "Examine '"@ + FACET_NAMES[q.facet]@ + "'.  Is it "@ + (if q.vals.len() > 1 {
        "one of "@
    } else {
        Seq::empty()
    }) + listed(chosen_names(q.facet, q.vals, NUM_VALUE_NAMES as nat)) + "?"@
}

/// The text of a group: `p/n poisonous (imp a/b)`, the impurity as the fraction
/// that it is held as.
pub open spec fn group_text(poison_cnt: nat, total: nat, num: nat, den: nat) -> Seq<char> {
    decimal_text(poison_cnt) + "/"@ + decimal_text(total) + " poisonous (imp "@ + decimal_text(num)
        + "/"@ + decimal_text(den) + ")"@
}

fn group_string(poison_cnt: usize, total: usize, impurity: &Impurity) -> (s: String)
    ensures
        s@ == group_text(
            poison_cnt as nat,
            total as nat,
            impurity.num as nat,
            impurity.den as nat,
        ),
{
    let mut s = decimal(poison_cnt as u64);
    s.append("/");
    s.append(decimal(total as u64).as_str());
    s.append(" poisonous (imp ");
    s.append(decimal(impurity.num).as_str());
    s.append("/");
    s.append(decimal(impurity.den).as_str());
    s.append(")");
    s
}

impl Question {
    /// The question in words.
    pub fn fmt(&self) -> (s: String)
        requires
            self.facet < NUM_FACETS,
        ensures
            s@ == question_text(self@),
    {
        let mut s = String::from_str("Examine '");
        s.append(FACET_NAMES[self.facet]);
        s.append("'.  Is it ");
        if self.vals.len() > 1 {
            s.append("one of ");
        }
        let ghost head = s@;
        let mut count: usize = 0;
        let mut n: usize = 0;
        while n < NUM_VALUE_NAMES
            invariant
                n <= NUM_VALUE_NAMES,
                count <= n,
                count == chosen_names(self.facet as int, self.vals@, n as nat).len(),
                s@ == head + listed(chosen_names(self.facet as int, self.vals@, n as nat)),
            decreases NUM_VALUE_NAMES - n,
        {
            let entry = VALUE_NAMES[n];
            let ghost before = chosen_names(self.facet as int, self.vals@, n as nat);
            if entry.0 == self.facet && contains_code(&self.vals, entry.1) {
                if count > 0 {
                    s.append(", ");
                }
                s.append(entry.2);
                count += 1;
                proof {
                    let now = before.push(entry.2@);
                    assert(now.drop_last() == before);
                    assert(chosen_names(self.facet as int, self.vals@, (n + 1) as nat) == now);
                    if before.len() == 0 {
                        assert(listed(before) == Seq::<char>::empty());
                        assert(head + listed(before) + entry.2@ =~= head + listed(now));
                    } else {
                        assert(head + listed(before) + ", "@ + entry.2@ =~= head + listed(now));
                    }
                }
            }
            n += 1;
        }
        s.append("?");
        s
    }
}

impl Node {
    /// The group in words: its counts and its impurity.
    pub fn fmt(&self) -> (s: String)
        ensures
            s@ == group_text(
                self.poison_cnt as nat,
                self.rows.len() as nat,
                self.impurity.num as nat,
                self.impurity.den as nat,
            ),
    {
        group_string(self.poison_cnt, self.rows.len(), &self.impurity)
    }
}

impl Branch {
    /// The side in words: its counts and its impurity.
    pub fn fmt(&self) -> (s: String)
        ensures
            s@ == group_text(
                self.poison_cnt as nat,
                self.total as nat,
                self.impurity.num as nat,
                self.impurity.den as nat,
            ),
    {
        group_string(self.poison_cnt, self.total, &self.impurity)
    }
}

/// The text of an answer: both sides and the impurity of the split.
pub open spec fn answer_text(yes: Seq<char>, no: Seq<char>, num: nat, den: nat) -> Seq<char> {
    "yes: "@ + yes + ", no "@ + no + ", imp: "@ + decimal_text(num) + "/"@ + decimal_text(den)
}

impl Answer {
    /// The answer in words.
    pub fn fmt(&self) -> (s: String)
        ensures
            s@ == answer_text(
                group_text(
                    self.yes.poison_cnt as nat,
                    self.yes.rows.len() as nat,
                    self.yes.impurity.num as nat,
                    self.yes.impurity.den as nat,
                ),
                group_text(
                    self.no.poison_cnt as nat,
                    self.no.rows.len() as nat,
                    self.no.impurity.num as nat,
                    self.no.impurity.den as nat,
                ),
                self.impurity.num as nat,
                self.impurity.den as nat,
            ),
    {
        let mut s = String::from_str("yes: ");
        s.append(self.yes.fmt().as_str());
        s.append(", no ");
        s.append(self.no.fmt().as_str());
        s.append(", imp: ");
        s.append(decimal(self.impurity.num).as_str());
        s.append("/");
        s.append(decimal(self.impurity.den).as_str());
        s
    }
}

/// The line for one side of a decision: a leaf is done, any other side names the
/// page on which it is split.
pub open spec fn branch_line(label: Seq<char>, side: Seq<char>, goto: Option<nat>) -> Seq<char> {
    match goto {
        None => "\tif "@ + label + ", done. "@ + side,
        Some(p) => "\tif "@ + label + ", "@ + side + ", goto page "@ + decimal_text(p),
    }
}

fn branch_string(label: &str, branch: &Branch) -> (s: String)
    ensures
        s@ == branch_line(
            label@,
            group_text(
                branch.poison_cnt as nat,
                branch.total as nat,
                branch.impurity.num as nat,
                branch.impurity.den as nat,
            ),
            branch@.goto,
        ),
{
    let mut s = String::from_str("\tif ");
    s.append(label);
    match branch.goto {
        None => {
            s.append(", done. ");
            s.append(branch.fmt().as_str());
        },
        Some(p) => {
            s.append(", ");
            s.append(branch.fmt().as_str());
            s.append(", goto page ");
            s.append(decimal(p as u64).as_str());
        },
    }
    s
}

impl Page {
    /// The three lines of the page: the question, then what follows a yes and
    /// what follows a no.
    pub open spec fn text(self) -> Seq<char> {
        "page "@ + decimal_text(self.page as nat) + ": "@ + question_text(self.question@) + "\n"@
            + branch_line(
            "yes"@,
            group_text(
                self.yes.poison_cnt as nat,
                self.yes.total as nat,
                self.yes.impurity.num as nat,
                self.yes.impurity.den as nat,
            ),
            self.yes@.goto,
        ) + "\n"@ + branch_line(
            "no"@,
            group_text(
                self.no.poison_cnt as nat,
                self.no.total as nat,
                self.no.impurity.num as nat,
                self.no.impurity.den as nat,
            ),
            self.no@.goto,
        )
    }

    /// The page in words.
    pub fn fmt(&self) -> (s: String)
        requires
            self.question.facet < NUM_FACETS,
        ensures
            s@ == self.text(),
    {
        let mut s = String::from_str("page ");
        s.append(decimal(self.page as u64).as_str());
        s.append(": ");
        s.append(self.question.fmt().as_str());
        s.append("\n");
        s.append(branch_string("yes", &self.yes).as_str());
        s.append("\n");
        s.append(branch_string("no", &self.no).as_str());
        s
    }
}

} // verus!
