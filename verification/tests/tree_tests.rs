use mushroom_tree::choice::best_answer;
use mushroom_tree::impurity::Impurity;
use mushroom_tree::question::{contains_code, facet_questions, questions, Question};
use mushroom_tree::records::{Mush, MAX_RECORDS};
use mushroom_tree::tree::{build_tree, first_wide_facet, is_pure, Branch, BuildError, Page};

fn mush(poison: char, first: char) -> Mush {
    let mut attrs = ['k'; 22];
    attrs[0] = first;
    Mush { poison, attrs }
}

fn mush2(poison: char, first: char, second: char) -> Mush {
    let mut attrs = ['k'; 22];
    attrs[0] = first;
    attrs[1] = second;
    Mush { poison, attrs }
}

fn ask(facet: usize, vals: &[char]) -> Question {
    Question { facet, vals: vals.to_vec() }
}

#[test]
fn questions_for_three_values() {
    let rows = vec![mush('p', 'c'), mush('e', 'a'), mush('e', 'b'), mush('p', 'a')];
    let qs = questions(&rows);
    assert_eq!(
        qs,
        vec![
            ask(0, &['a']),
            ask(0, &['b']),
            ask(0, &['c']),
            ask(0, &['a', 'b']),
            ask(0, &['a', 'c']),
            ask(0, &['b', 'c']),
        ]
    );
}

#[test]
fn questions_cover_every_facet_in_order() {
    let mut rows: Vec<Mush> = Vec::new();
    for (a, b) in [('x', 'm'), ('y', 'n'), ('x', 'n')] {
        let mut attrs = ['k'; 22];
        attrs[4] = a;
        attrs[21] = b;
        rows.push(Mush { poison: 'p', attrs });
    }
    let qs = questions(&rows);
    assert_eq!(qs, vec![ask(4, &['x']), ask(4, &['y']), ask(21, &['m']), ask(21, &['n'])]);
}

#[test]
fn questions_for_four_values_are_all_proper_subsets() {
    let rows: Vec<Mush> = ['d', 'b', 'a', 'c'].iter().map(|c| mush('p', *c)).collect();
    let qs = questions(&rows);
    // 4 of size one, 6 of size two, 4 of size three
    assert_eq!(qs.len(), 14);
    let sizes: Vec<usize> = qs.iter().map(|q| q.vals.len()).collect();
    assert_eq!(sizes, vec![1, 1, 1, 1, 2, 2, 2, 2, 2, 2, 3, 3, 3, 3]);
    for q in &qs {
        assert_eq!(q.facet, 0);
        for w in q.vals.windows(2) {
            assert!(w[0] < w[1]);
        }
        for c in &q.vals {
            assert!(['a', 'b', 'c', 'd'].contains(c));
        }
    }
    for (i, a) in qs.iter().enumerate() {
        for b in &qs[i + 1..] {
            assert_ne!(a, b);
        }
    }
    assert_eq!(qs[4], ask(0, &['a', 'b']));
    assert_eq!(qs[13], ask(0, &['b', 'c', 'd']));
}

#[test]
fn single_valued_facet_yields_no_question() {
    let rows = vec![mush('p', 'a'), mush('e', 'a'), mush('e', 'a')];
    assert!(questions(&rows).is_empty());
    let none: Vec<Mush> = Vec::new();
    assert!(questions(&none).is_empty());
    let two = vec![mush2('p', 'a', 'x'), mush2('e', 'a', 'y')];
    let qs = questions(&two);
    assert_eq!(qs, vec![ask(1, &['x']), ask(1, &['y'])]);
}

#[test]
fn questions_at_the_value_limit() {
    let codes = ['a', 'b', 'c', 'd', 'e', 'f', 'g', 'h', 'i', 'j', 'k', 'l'];
    let rows: Vec<Mush> = codes.iter().map(|c| mush('p', *c)).collect();
    assert_eq!(first_wide_facet(&rows), None);
    let qs = questions(&rows);
    // every subset of twelve values but the empty one and the full one
    assert_eq!(qs.len(), 4094);
    assert_eq!(qs[0], ask(0, &['a']));
    assert_eq!(qs[4093].vals.len(), 11);
}

#[test]
fn facet_questions_keep_the_order_of_the_sets() {
    let sets = vec![vec!['b'], vec!['a', 'c'], vec![]];
    assert_eq!(facet_questions(7, sets), vec![ask(7, &['b']), ask(7, &['a', 'c']), ask(7, &[])]);
    assert!(facet_questions(0, Vec::new()).is_empty());
}

#[test]
fn contains_code_finds_members_only() {
    assert!(contains_code(&vec!['a', 'c'], 'c'));
    assert!(!contains_code(&vec!['a', 'c'], 'b'));
    assert!(!contains_code(&Vec::new(), 'a'));
}

#[test]
fn best_answer_takes_the_first_of_the_least() {
    let rows = vec![mush('p', 'a'), mush('p', 'a'), mush('e', 'b'), mush('e', 'b')];
    // {a} and {b} part the group equally well: the first one wins
    let qs = vec![ask(0, &['a']), ask(0, &['b'])];
    let (i, a) = best_answer(&rows, &qs).unwrap();
    assert_eq!(i, 0);
    assert!(a.impurity.is_zero());
    assert_eq!(a.yes.rows, vec![rows[0], rows[1]]);
    let swapped = vec![ask(0, &['b']), ask(0, &['a'])];
    let (i, a) = best_answer(&rows, &swapped).unwrap();
    assert_eq!(i, 0);
    assert_eq!(a.yes.rows, vec![rows[2], rows[3]]);
}

#[test]
fn best_answer_prefers_lower_impurity() {
    let rows = vec![
        mush2('p', 'a', 'x'),
        mush2('p', 'a', 'y'),
        mush2('e', 'b', 'x'),
        mush2('e', 'b', 'y'),
    ];
    let qs = vec![ask(1, &['x']), ask(0, &['z']), ask(0, &['a']), ask(0, &['b'])];
    let (i, a) = best_answer(&rows, &qs).unwrap();
    assert_eq!(i, 2);
    assert_eq!(a.impurity, Impurity { num: 0, den: 16 });
    let only_mixed = vec![ask(1, &['x'])];
    let (i, a) = best_answer(&rows, &only_mixed).unwrap();
    assert_eq!(i, 0);
    // 2/4 + 2/4 over 4 * 4
    assert_eq!(a.impurity, Impurity { num: 16, den: 16 });
}

#[test]
fn best_answer_of_nothing_askable_is_none() {
    let rows = vec![mush('p', 'a'), mush('e', 'a')];
    assert!(best_answer(&rows, &Vec::new()).is_none());
    assert!(best_answer(&rows, &vec![ask(0, &['a']), ask(0, &['z']), ask(30, &['a'])]).is_none());
}

#[test]
fn four_records_one_facet() {
    let rows = vec![mush('p', 'a'), mush('p', 'a'), mush('e', 'b'), mush('e', 'b')];
    assert_eq!(questions(&rows), vec![ask(0, &['a']), ask(0, &['b'])]);
    let pages = build_tree(rows).unwrap();
    assert_eq!(
        pages,
        vec![Page {
            page: 1,
            question: ask(0, &['a']),
            yes: Branch {
                poison_cnt: 2,
                total: 2,
                impurity: Impurity { num: 0, den: 4 },
                goto: None,
            },
            no: Branch { poison_cnt: 0, total: 2, impurity: Impurity { num: 0, den: 4 }, goto: None },
        }]
    );
}

#[test]
fn uniform_label_is_a_leaf_at_once() {
    let rows = vec![
        mush2('e', 'a', 'x'),
        mush2('e', 'b', 'y'),
        mush2('e', 'c', 'x'),
        mush2('e', 'a', 'z'),
    ];
    assert!(is_pure(&rows));
    assert!(!questions(&rows).is_empty());
    assert_eq!(build_tree(rows), Ok(Vec::new()));
    let poisonous = vec![mush('p', 'a'), mush('p', 'b')];
    assert_eq!(build_tree(poisonous), Ok(Vec::new()));
    assert_eq!(build_tree(Vec::new()), Ok(Vec::new()));
    assert_eq!(build_tree(vec![mush('p', 'a')]), Ok(Vec::new()));
}

#[test]
fn is_pure_tells_mixed_groups() {
    assert!(is_pure(&Vec::new()));
    assert!(is_pure(&vec![mush('p', 'a'), mush('p', 'b')]));
    assert!(is_pure(&vec![mush('e', 'a'), mush('x', 'b')]));
    assert!(!is_pure(&vec![mush('e', 'a'), mush('p', 'b')]));
}

#[test]
fn building_twice_gives_the_same_tree() {
    let mut rows: Vec<Mush> = Vec::new();
    for i in 0..40u32 {
        let mut attrs = ['k'; 22];
        attrs[0] = ['a', 'b', 'c', 'd'][(i % 4) as usize];
        attrs[1] = ['x', 'y', 'z'][(i % 3) as usize];
        attrs[2] = ['m', 'n'][((i / 5) % 2) as usize];
        attrs[3] = ['s', 't', 'u', 'v', 'w'][(i % 5) as usize];
        let poison = if (i * 7 + i / 3) % 5 < 2 { 'p' } else { 'e' };
        rows.push(Mush { poison, attrs });
    }
    let first = build_tree(rows.clone());
    let second = build_tree(rows.clone());
    assert_eq!(first, second);
    let pages = first.unwrap();
    assert!(!pages.is_empty());
    assert!(pages.len() < rows.len());
    assert_eq!(pages[0].page, 1);
    assert_eq!(pages[0].yes.total + pages[0].no.total, 40);
}

#[test]
fn pages_are_numbered_as_they_are_given_out() {
    // facet 0 parts the labels only after a second question on each side
    let rows = vec![
        mush2('p', 'a', 'x'),
        mush2('e', 'a', 'y'),
        mush2('e', 'b', 'x'),
        mush2('p', 'b', 'y'),
    ];
    let pages = build_tree(rows).unwrap();
    let half = Impurity { num: 2, den: 4 };
    let zero = Impurity { num: 0, den: 1 };
    assert_eq!(
        pages,
        vec![
            Page {
                page: 1,
                question: ask(0, &['a']),
                yes: Branch { poison_cnt: 1, total: 2, impurity: half, goto: Some(3) },
                no: Branch { poison_cnt: 1, total: 2, impurity: half, goto: Some(4) },
            },
            Page {
                page: 4,
                question: ask(1, &['x']),
                yes: Branch { poison_cnt: 0, total: 1, impurity: zero, goto: None },
                no: Branch { poison_cnt: 1, total: 1, impurity: zero, goto: None },
            },
            Page {
                page: 3,
                question: ask(1, &['x']),
                yes: Branch { poison_cnt: 1, total: 1, impurity: zero, goto: None },
                no: Branch { poison_cnt: 0, total: 1, impurity: zero, goto: None },
            },
        ]
    );
}

#[test]
fn one_side_split_further() {
    let rows = vec![
        mush2('p', 'a', 'x'),
        mush2('p', 'a', 'y'),
        mush2('e', 'b', 'x'),
        mush2('p', 'b', 'y'),
        mush2('p', 'b', 'y'),
    ];
    let pages = build_tree(rows).unwrap();
    assert_eq!(pages.len(), 2);
    assert_eq!(pages[0].page, 1);
    // {x} leaves 1 of 2 against 3 of 3: 2/4; {a} leaves 2 of 2 against 2 of 3: 4/9
    assert_eq!(pages[0].question, ask(0, &['a']));
    assert_eq!(pages[0].yes.goto, None);
    assert_eq!(pages[0].no.goto, Some(3));
    assert_eq!(pages[0].no.impurity, Impurity { num: 4, den: 9 });
    assert_eq!(pages[1].page, 3);
    assert_eq!(pages[1].question, ask(1, &['x']));
    assert_eq!(pages[1].yes.goto, None);
    assert_eq!(pages[1].no.goto, None);
}

#[test]
fn mixed_group_without_a_question_is_an_error() {
    let rows = vec![mush('p', 'a'), mush('e', 'a')];
    assert_eq!(build_tree(rows), Err(BuildError::NoQuestion { page: 1 }));
    let deeper = vec![mush('p', 'a'), mush('e', 'a'), mush('e', 'b')];
    assert_eq!(build_tree(deeper), Err(BuildError::NoQuestion { page: 3 }));
}

#[test]
fn too_many_records_is_an_error() {
    let mut rows: Vec<Mush> = (0..MAX_RECORDS).map(|_| mush('p', 'a')).collect();
    assert_eq!(build_tree(rows.clone()), Ok(Vec::new()));
    rows.push(mush('p', 'a'));
    assert_eq!(build_tree(rows), Err(BuildError::TooManyRecords));
}

#[test]
fn too_many_values_is_an_error() {
    let codes = ['a', 'b', 'c', 'd', 'e', 'f', 'g', 'h', 'i', 'j', 'k', 'l', 'm'];
    let mut rows: Vec<Mush> = Vec::new();
    for c in codes {
        let mut attrs = ['k'; 22];
        attrs[5] = c;
        attrs[9] = c;
        rows.push(Mush { poison: 'p', attrs });
    }
    assert_eq!(first_wide_facet(&rows), Some(5));
    assert_eq!(build_tree(rows.clone()), Err(BuildError::TooManyValues { facet: 5 }));
    rows.pop();
    assert_eq!(first_wide_facet(&rows), None);
    assert_eq!(build_tree(rows), Ok(Vec::new()));
}
