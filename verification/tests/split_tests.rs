use mushroom_tree::impurity::{count_poisonous, Impurity, Node};
use mushroom_tree::question::Question;
use mushroom_tree::records::{facet_vals, Mush, MAX_RECORDS};
use mushroom_tree::split::Answer;

fn value(imp: &Impurity) -> f64 {
    imp.num as f64 / imp.den as f64
}

#[test]
fn test_question_fmt() {
    let q = Question {
        facet: 0,
        vals: ['b', 'c', 'x'].iter().cloned().collect(),
    };
    format!("{}", q.fmt());
}

#[test]
fn test_answer() {
    let q = Question {
        facet: 0,
        vals: ['a', 'b', 'c'].iter().cloned().collect(),
    };
    let mushs = [
        Mush {
            poison: 'p',
            attrs: ['a'; 22],
        },
        Mush {
            poison: 'p',
            attrs: ['b'; 22],
        },
        Mush {
            poison: 'p',
            attrs: ['c'; 22],
        },
        Mush {
            poison: 'p',
            attrs: ['d'; 22],
        },
        Mush {
            poison: 'p',
            attrs: ['e'; 22],
        },
    ];
    let a = q.answer(&mushs);
    assert_eq!(a.yes.rows.len(), 3);
    assert_eq!(a.no.rows.len(), 2);
}

#[test]
fn test_impurity() {
    let poisons: Vec<_> = (0..10)
        .map(|_| Mush {
            poison: 'p',
            attrs: ['a'; 22],
        })
        .collect();
    let edibles: Vec<_> = (0..10)
        .map(|_| Mush {
            poison: 'e',
            attrs: ['a'; 22],
        })
        .collect();
    let mixed: Vec<_> = (0..10)
        .map(|i| Mush {
            poison: if i % 2 == 0 { 'e' } else { 'p' },
            attrs: ['a'; 22],
        })
        .collect();

    assert!(
        value(&Answer::new(poisons.clone(), edibles.clone()).impurity)
            < value(&Answer::new(poisons.clone(), mixed.clone()).impurity)
    );
    assert!(
        (value(&Answer::new(poisons.clone(), mixed.clone()).impurity)
            - value(&Answer::new(mixed.clone(), poisons.clone()).impurity))
        .abs()
            < std::f64::EPSILON
    );
    assert!(
        value(&Answer::new(edibles.clone(), poisons.clone()).impurity)
            < value(&Answer::new(poisons.clone(), mixed.clone()).impurity)
    );
}

#[test]
fn impurity_order_is_exact() {
    let poisons: Vec<Mush> = (0..10).map(|_| Mush { poison: 'p', attrs: ['a'; 22] }).collect();
    let edibles: Vec<Mush> = (0..10).map(|_| Mush { poison: 'e', attrs: ['a'; 22] }).collect();
    let mixed: Vec<Mush> = (0..10)
        .map(|i| Mush { poison: if i % 2 == 0 { 'e' } else { 'p' }, attrs: ['a'; 22] })
        .collect();
    let perfect = Answer::new(poisons.clone(), edibles.clone()).impurity;
    let half = Answer::new(poisons.clone(), mixed.clone()).impurity;
    let flipped = Answer::new(mixed.clone(), poisons.clone()).impurity;
    assert!(perfect.is_zero());
    assert!(perfect.less_than(&half));
    assert!(!half.less_than(&perfect));
    assert!(!half.less_than(&flipped));
    assert!(!flipped.less_than(&half));
    assert!(!half.is_zero());
    // 0/100 + 50/100 over the common denominator 100 * 100
    assert_eq!(half, Impurity { num: 5000, den: 10000 });
    assert_eq!(flipped, Impurity { num: 5000, den: 10000 });
    assert_eq!(value(&half), 0.5);
}

#[test]
fn less_than_compares_values_not_parts() {
    let third = Impurity { num: 1, den: 3 };
    let two_sixths = Impurity { num: 2, den: 6 };
    let half = Impurity { num: 5, den: 10 };
    assert!(!third.less_than(&two_sixths));
    assert!(!two_sixths.less_than(&third));
    assert!(third.less_than(&half));
    assert!(!half.less_than(&third));
    let big = Impurity { num: u64::MAX - 1, den: u64::MAX };
    let bigger = Impurity { num: u64::MAX, den: u64::MAX };
    assert!(big.less_than(&bigger));
    assert!(!bigger.less_than(&big));
}

#[test]
fn gini_of_a_node() {
    let mut rows: Vec<Mush> = Vec::new();
    for i in 0..10 {
        rows.push(Mush { poison: if i < 3 { 'p' } else { 'e' }, attrs: ['a'; 22] });
    }
    let node = Node::new(rows.clone());
    assert_eq!(node.poison_cnt, 3);
    assert_eq!(node.rows, rows);
    // 2 * 3 * 7 over 10 * 10
    assert_eq!(node.impurity, Impurity { num: 42, den: 100 });
    assert_eq!(count_poisonous(&rows), 3);
}

#[test]
fn gini_is_zero_for_one_label_and_half_for_even_mix() {
    let pure: Vec<Mush> = (0..7).map(|_| Mush { poison: 'e', attrs: ['a'; 22] }).collect();
    assert!(Node::new(pure).impurity.is_zero());
    let even: Vec<Mush> =
        (0..8).map(|i| Mush { poison: if i % 2 == 0 { 'e' } else { 'p' }, attrs: ['a'; 22] }).collect();
    let node = Node::new(even);
    assert_eq!(node.impurity, Impurity { num: 32, den: 64 });
    assert_eq!(value(&node.impurity), 0.5);
    let single = Node::new(vec![Mush { poison: 'p', attrs: ['a'; 22] }]);
    assert_eq!(single.impurity, Impurity { num: 0, den: 1 });
}

#[test]
fn node_at_the_size_limit() {
    let rows: Vec<Mush> = (0..MAX_RECORDS)
        .map(|i| Mush { poison: if i % 2 == 0 { 'e' } else { 'p' }, attrs: ['a'; 22] })
        .collect();
    let node = Node::new(rows);
    assert_eq!(node.poison_cnt, 32767);
    assert_eq!(node.impurity, Impurity { num: 2 * 32767 * 32768, den: 65535 * 65535 });
}

#[test]
fn poisonous_is_the_label_p() {
    assert!(Mush { poison: 'p', attrs: ['a'; 22] }.poisonous());
    assert!(!Mush { poison: 'e', attrs: ['p'; 22] }.poisonous());
}

#[test]
fn facet_vals_are_sorted_and_distinct() {
    let mut rows: Vec<Mush> = Vec::new();
    for c in ['x', 'b', 'x', 'a', 'b', 'z', 'a'] {
        let mut attrs = ['q'; 22];
        attrs[3] = c;
        rows.push(Mush { poison: 'e', attrs });
    }
    assert_eq!(facet_vals(&rows, 3), vec!['a', 'b', 'x', 'z']);
    assert_eq!(facet_vals(&rows, 0), vec!['q']);
    assert_eq!(facet_vals(&rows, 21), vec!['q']);
    let none: Vec<Mush> = Vec::new();
    assert_eq!(facet_vals(&none, 5), Vec::<char>::new());
}

#[test]
fn answer_keeps_every_record_on_one_side() {
    let q = Question { facet: 1, vals: vec!['b', 'd'] };
    let mut rows: Vec<Mush> = Vec::new();
    for (i, c) in ['a', 'b', 'c', 'd', 'b', 'a'].iter().enumerate() {
        let mut attrs = ['q'; 22];
        attrs[1] = *c;
        attrs[2] = (b'0' + i as u8) as char;
        rows.push(Mush { poison: if i % 2 == 0 { 'p' } else { 'e' }, attrs });
    }
    let (yes, no) = q.partition(&rows);
    assert_eq!(yes, vec![rows[1], rows[3], rows[4]]);
    assert_eq!(no, vec![rows[0], rows[2], rows[5]]);
    let a = q.answer(&rows);
    assert_eq!(a.yes.rows, yes);
    assert_eq!(a.no.rows, no);
    assert_eq!(a.yes.rows.len() + a.no.rows.len(), rows.len());
    assert_eq!(a.yes.poison_cnt, 1);
    assert_eq!(a.no.poison_cnt, 2);
    // yes: 2 * 1 * 2 / 9, no: 2 * 2 * 1 / 9
    assert_eq!(a.yes.impurity, Impurity { num: 4, den: 9 });
    assert_eq!(a.no.impurity, Impurity { num: 4, den: 9 });
    assert_eq!(a.impurity, Impurity { num: 72, den: 81 });
}

#[test]
fn try_answer_refuses_an_empty_side() {
    let rows: Vec<Mush> = ['a', 'b'].iter().map(|c| Mush { poison: 'p', attrs: [*c; 22] }).collect();
    let all = Question { facet: 0, vals: vec!['a', 'b'] };
    assert!(all.try_answer(&rows).is_none());
    let none = Question { facet: 0, vals: vec!['z'] };
    assert!(none.try_answer(&rows).is_none());
    let no_values = Question { facet: 0, vals: vec![] };
    assert!(no_values.try_answer(&rows).is_none());
    let no_facet = Question { facet: 22, vals: vec!['a'] };
    assert!(no_facet.try_answer(&rows).is_none());
    let empty: Vec<Mush> = Vec::new();
    assert!(Question { facet: 0, vals: vec!['a'] }.try_answer(&empty).is_none());
    let one = Question { facet: 0, vals: vec!['a'] };
    let a = one.try_answer(&rows).unwrap();
    assert_eq!(a.yes.rows, vec![rows[0]]);
    assert_eq!(a.no.rows, vec![rows[1]]);
    assert!(a.impurity.is_zero());
}

#[test]
fn try_answer_refuses_a_group_beyond_the_limit() {
    let mut rows: Vec<Mush> =
        (0..MAX_RECORDS).map(|_| Mush { poison: 'p', attrs: ['a'; 22] }).collect();
    rows.push(Mush { poison: 'e', attrs: ['b'; 22] });
    let q = Question { facet: 0, vals: vec!['a'] };
    assert!(q.try_answer(&rows).is_none());
    rows.remove(0);
    assert!(q.try_answer(&rows).is_some());
}
