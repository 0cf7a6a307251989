//! Records, groups of records, and the values a facet takes within a group.
use vstd::prelude::*;

verus! {

/// Number of categorical attributes carried by every record.
pub const NUM_FACETS: usize = 22;

/// Largest group the impurity arithmetic is carried out for: with at most this
/// many records on each side of a split, every product formed when two
/// impurities are compared fits in 128 bits.
pub const MAX_RECORDS: usize = 65_535;

/// Largest number of distinct values per facet for which candidate questions are
/// enumerated.
pub const MAX_FACET_VALUES: usize = 12;

/// One labelled record: a class label and one categorical code per facet.
#[derive(Clone, Copy, Debug, PartialEq, Eq)]
pub struct Mush {
    pub poison: char,
    pub attrs: [char; NUM_FACETS],
}

impl Mush {
    /// The record belongs to the positive class.
    pub open spec fn is_poisonous(self) -> bool {
        self.poison == 'p'
    }

    pub fn poisonous(&self) -> (r: bool)
        ensures
            r == self.is_poisonous(),
    {
        self.poison == 'p'
    }
}

/// Number of positive-class records in `group`.
pub open spec fn poison_count(group: Seq<Mush>) -> nat {
    group.filter(|m: Mush| m.is_poisonous()).len()
}

/// All records of `group` carry the same class label.
pub open spec fn pure(group: Seq<Mush>) -> bool {
    poison_count(group) == 0 || poison_count(group) == group.len()
}

/// One of the first `n` records of `group` has code `c` at `facet`.
pub open spec fn observed_before(group: Seq<Mush>, facet: int, n: int, c: char) -> bool {
    exists|i: int| 0 <= i < n && i < group.len() && (#[trigger] group[i]).attrs[facet] == c
}

/// Some record of `group` has code `c` at `facet`.
pub open spec fn observed(group: Seq<Mush>, facet: int, c: char) -> bool {
    observed_before(group, facet, group.len() as int, c)
}

pub open spec fn strictly_increasing(s: Seq<char>) -> bool {
    forall|i: int, j: int| 0 <= i < j < s.len() ==> s[i] < s[j]
}

/// `vals` holds, in increasing order and once each, exactly the codes that
/// `facet` takes among the first `n` records of `group`.
pub open spec fn lists_values_before(vals: Seq<char>, group: Seq<Mush>, facet: int, n: int) -> bool {
    &&& strictly_increasing(vals)
    &&& forall|c: char| #[trigger] vals.contains(c) <==> observed_before(group, facet, n, c)
}

/// `vals` holds, in increasing order and once each, exactly the codes that
/// `facet` takes within `group`.
pub open spec fn lists_values(vals: Seq<char>, group: Seq<Mush>, facet: int) -> bool {
    lists_values_before(vals, group, facet, group.len() as int)
}

/// The distinct values of `facet` within `group`, in increasing order.
pub open spec fn facet_values(group: Seq<Mush>, facet: int) -> Seq<char> {
    choose|vals: Seq<char>| lists_values(vals, group, facet)
}

/// Two increasing sequences with the same elements are the same sequence.
pub proof fn lemma_increasing_unique(a: Seq<char>, b: Seq<char>)
    requires
        strictly_increasing(a),
        strictly_increasing(b),
        forall|c: char| #[trigger] a.contains(c) <==> b.contains(c),
    ensures
        a == b,
    decreases a.len(),
{
    if a.len() == 0 {
        if b.len() > 0 {
            assert(b.contains(b[0]));
            assert(a.contains(b[0]));
        }
        assert(a =~= b);
    } else {
        let x = a.last();
        assert(a.contains(x));
        assert(b.contains(x));
        let y = b.last();
        assert(b.contains(y));
        assert(a.contains(y));
        let ix = choose|i: int| 0 <= i < b.len() && b[i] == x;
        let iy = choose|i: int| 0 <= i < a.len() && a[i] == y;
        assert(x == y);
        let a0 = a.drop_last();
        let b0 = b.drop_last();
        assert forall|c: char| #[trigger] a0.contains(c) <==> b0.contains(c) by {
            if a0.contains(c) {
                let i = choose|i: int| 0 <= i < a0.len() && a0[i] == c;
                assert(a[i] == c);
                assert(a.contains(c));
                let j = choose|j: int| 0 <= j < b.len() && b[j] == c;
                assert(j < b.len() - 1);
                assert(b0[j] == c);
            }
            if b0.contains(c) {
                let i = choose|i: int| 0 <= i < b0.len() && b0[i] == c;
                assert(b[i] == c);
                assert(b.contains(c));
                assert(a.contains(c));
                let j = choose|j: int| 0 <= j < a.len() && a[j] == c;
                assert(j < a.len() - 1);
                assert(a0[j] == c);
            }
        }
        lemma_increasing_unique(a0, b0);
        assert(a =~= a0.push(x));
        assert(b =~= b0.push(y));
    }
}

/// An increasing sequence with `c` added in its place, if it is not there yet.
proof fn insert_witness(s: Seq<char>, c: char) -> (r: Seq<char>)
    requires
        strictly_increasing(s),
    ensures
        strictly_increasing(r),
        forall|d: char| #[trigger] r.contains(d) <==> (s.contains(d) || d == c),
    decreases s.len(),
{
    if s.len() == 0 {
        let r = seq![c];
        assert(r[0] == c);
        r
    } else if s.last() < c {
        let r = s.push(c);
        assert(r[s.len() as int] == c);
        assert forall|d: char| s.contains(d) implies #[trigger] r.contains(d) by {
            let i = choose|i: int| 0 <= i < s.len() && s[i] == d;
            assert(r[i] == d);
        }
        r
    } else if s.last() == c {
        assert(s[s.len() - 1] == c);
        s
    } else {
        let front = s.drop_last();
        let inner = insert_witness(front, c);
        let r = inner.push(s.last());
        assert forall|i: int, j: int| 0 <= i < j < r.len() implies r[i] < r[j] by {
            if j == r.len() - 1 {
                assert(inner.contains(r[i]));
                if r[i] != c {
                    assert(front.contains(r[i]));
                    let k = choose|k: int| 0 <= k < front.len() && front[k] == r[i];
                    assert(s[k] < s[s.len() - 1]);
                }
            }
        }
        assert forall|d: char| #[trigger] r.contains(d) <==> (s.contains(d) || d == c) by {
            if r.contains(d) {
                let i = choose|i: int| 0 <= i < r.len() && r[i] == d;
                if i < inner.len() {
                    assert(inner.contains(d));
                    if d != c {
                        assert(front.contains(d));
                        let k = choose|k: int| 0 <= k < front.len() && front[k] == d;
                        assert(s[k] == d);
                    }
                } else {
                    assert(s[s.len() - 1] == d);
                }
            }
            if s.contains(d) || d == c {
                if d == c {
                    assert(inner.contains(d));
                    let k = choose|k: int| 0 <= k < inner.len() && inner[k] == d;
                    assert(r[k] == d);
                } else {
                    let i = choose|i: int| 0 <= i < s.len() && s[i] == d;
                    if i < front.len() {
                        assert(front[i] == d);
                        assert(front.contains(d));
                        assert(inner.contains(d));
                        let k = choose|k: int| 0 <= k < inner.len() && inner[k] == d;
                        assert(r[k] == d);
                    } else {
                        assert(r[r.len() - 1] == d);
                    }
                }
            }
        }
        r
    }
}

/// A list of the values that `facet` takes among the first `n` records.
proof fn values_witness(group: Seq<Mush>, facet: int, n: nat) -> (vals: Seq<char>)
    requires
        n <= group.len(),
    ensures
        lists_values_before(vals, group, facet, n as int),
    decreases n,
{
    if n == 0 {
        let vals = Seq::<char>::empty();
        assert forall|c: char| #[trigger]
            vals.contains(c) <==> observed_before(group, facet, 0, c) by {}
        vals
    } else {
        let prev = values_witness(group, facet, (n - 1) as nat);
        let c = group[n - 1].attrs[facet];
        let vals = insert_witness(prev, c);
        assert forall|d: char| #[trigger]
            vals.contains(d) <==> observed_before(group, facet, n as int, d) by {
            if vals.contains(d) {
                if d != c {
                    assert(prev.contains(d));
                    assert(observed_before(group, facet, n - 1, d));
                    let k = choose|k: int|
                        0 <= k < n - 1 && k < group.len() && (#[trigger] group[k]).attrs[facet]
                            == d;
                    assert(0 <= k < n && group[k].attrs[facet] == d);
                } else {
                    assert(group[n - 1].attrs[facet] == d);
                }
            }
            if observed_before(group, facet, n as int, d) {
                let k = choose|k: int|
                    0 <= k < n && k < group.len() && (#[trigger] group[k]).attrs[facet] == d;
                if k < n - 1 {
                    assert(observed_before(group, facet, n - 1, d));
                    assert(prev.contains(d));
                }
            }
        }
        vals
    }
}

/// `facet_values` does list the values of the facet: they are increasing, each
/// of them is observed in the group, and each observed value is among them.
pub proof fn lemma_values_listed(group: Seq<Mush>, facet: int)
    ensures
        lists_values(facet_values(group, facet), group, facet),
{
    let vals = values_witness(group, facet, group.len());
    assert(lists_values(vals, group, facet));
}

/// An increasing sequence whose elements all occur in another increasing
/// sequence is not the longer one.
pub proof fn lemma_increasing_subset_len(a: Seq<char>, b: Seq<char>)
    requires
        strictly_increasing(a),
        strictly_increasing(b),
        forall|c: char| #[trigger] a.contains(c) ==> b.contains(c),
    ensures
        a.len() <= b.len(),
    decreases a.len(),
{
    if a.len() > 0 {
        let x = a.last();
        assert(a.contains(x));
        let j = choose|j: int| 0 <= j < b.len() && b[j] == x;
        let a0 = a.drop_last();
        let b0 = b.take(j);
        assert forall|c: char| #[trigger] a0.contains(c) implies b0.contains(c) by {
            let i = choose|i: int| 0 <= i < a0.len() && a0[i] == c;
            assert(a[i] == c);
            assert(a.contains(c));
            assert(a[i] < a[a.len() - 1]);
            let k = choose|k: int| 0 <= k < b.len() && b[k] == c;
            if k >= j {
                if k > j {
                    assert(b[j] < b[k]);
                }
            }
            assert(b0[k] == c);
        }
        lemma_increasing_subset_len(a0, b0);
    }
}

/// A group drawn from another takes no more distinct values at any facet.
pub proof fn lemma_subgroup_values(sub: Seq<Mush>, group: Seq<Mush>, facet: int)
    requires
        forall|i: int| 0 <= i < sub.len() ==> group.contains(#[trigger] sub[i]),
    ensures
        facet_values(sub, facet).len() <= facet_values(group, facet).len(),
{
    lemma_values_listed(sub, facet);
    lemma_values_listed(group, facet);
    let a = facet_values(sub, facet);
    let b = facet_values(group, facet);
    assert forall|c: char| #[trigger] a.contains(c) implies b.contains(c) by {
        assert(observed(sub, facet, c));
        let i = choose|i: int|
            0 <= i < sub.len() && i < sub.len() && (#[trigger] sub[i]).attrs[facet] == c;
        assert(group.contains(sub[i]));
        let k = choose|k: int| 0 <= k < group.len() && group[k] == sub[i];
        assert(group[k].attrs[facet] == c);
        assert(observed(group, facet, c));
    }
    lemma_increasing_subset_len(a, b);
}

/// The values that `facet` takes within `mushs`, each once, in increasing order.
pub fn facet_vals(mushs: &[Mush], facet: usize) -> (vals: Vec<char>)
    requires
        facet < NUM_FACETS,
    ensures
        lists_values(vals@, mushs@, facet as int),
        vals@ == facet_values(mushs@, facet as int),
{
    let mut vals: Vec<char> = Vec::new();
    let mut i: usize = 0;
    while i < mushs.len()
        invariant
            facet < NUM_FACETS,
            i <= mushs.len(),
            lists_values_before(vals@, mushs@, facet as int, i as int),
        decreases mushs.len() - i,
    {
        let c: char = mushs[i].attrs[facet];
        let mut p: usize = 0;
        while p < vals.len() && vals[p] < c
            invariant
                p <= vals.len(),
                forall|k: int| 0 <= k < p ==> vals@[k] < c,
            decreases vals.len() - p,
        {
            p += 1;
        }
        let ghost before = vals@;
        let ghost f = facet as int;
        if p < vals.len() && vals[p] == c {
            assert(before.contains(c));
            assert forall|d: char| #[trigger]
                before.contains(d) <==> observed_before(mushs@, facet as int, i + 1, d) by {
                if observed_before(mushs@, facet as int, i + 1, d) {
                    let k = choose|k: int|
                        0 <= k < i + 1 && k < mushs@.len() && (#[trigger] mushs@[k]).attrs[f] == d;
                    if k < i {
                        assert(observed_before(mushs@, facet as int, i as int, d));
                    }
                }
                if before.contains(d) {
                    assert(observed_before(mushs@, facet as int, i as int, d));
                }
            }
        } else {
            vals.insert(p, c);
            proof {
                let after = vals@;
                assert(after == before.insert(p as int, c));
                assert forall|a: int, b: int| 0 <= a < b < after.len() implies after[a]
                    < after[b] by {
                    if a < p && b == p {
                    } else if a < p && b > p {
                        assert(after[b] == before[b - 1]);
                    } else if a == p {
                        assert(after[b] == before[b - 1]);
                        assert(before[p as int] >= c);
                    } else if a > p {
                        assert(after[a] == before[a - 1]);
                        assert(after[b] == before[b - 1]);
                    }
                }
                assert forall|d: char| #[trigger]
                    after.contains(d) <==> observed_before(mushs@, facet as int, i + 1, d) by {
                    if after.contains(d) {
                        let k = choose|k: int| 0 <= k < after.len() && after[k] == d;
                        if k < p {
                            assert(before[k] == d);
                            assert(before.contains(d));
                            assert(observed_before(mushs@, facet as int, i as int, d));
                        } else if k == p {
                            assert(mushs@[i as int].attrs[facet as int] == d);
                        } else {
                            assert(before[k - 1] == d);
                            assert(before.contains(d));
                            assert(observed_before(mushs@, facet as int, i as int, d));
                        }
                    }
                    if observed_before(mushs@, facet as int, i + 1, d) {
                        let k = choose|k: int|
                            0 <= k < i + 1 && k < mushs@.len() && (#[trigger] mushs@[k]).attrs[f]
                                == d;
                        if k < i {
                            assert(observed_before(mushs@, facet as int, i as int, d));
                            assert(before.contains(d));
                            let q = choose|q: int| 0 <= q < before.len() && before[q] == d;
                            if q < p {
                                assert(after[q] == d);
                            } else {
                                assert(after[q + 1] == d);
                            }
                        } else {
                            assert(after[p as int] == d);
                        }
                    }
                }
            }
        }
        i += 1;
    }
    proof {
        lemma_facet_values(vals@, mushs@, facet as int);
    }
    vals
}

/// Whatever lists the values of a facet is the list `facet_values` names.
pub proof fn lemma_facet_values(vals: Seq<char>, group: Seq<Mush>, facet: int)
    requires
        lists_values(vals, group, facet),
    ensures
        vals == facet_values(group, facet),
{
    let other = facet_values(group, facet);
    assert(lists_values(other, group, facet));
    lemma_increasing_unique(vals, other);
}

} // verus!
