use mushroom_tree::impurity::{Impurity, Node};
use mushroom_tree::names::{FACET_NAMES, NUM_VALUE_NAMES, VALUE_NAMES};
use mushroom_tree::question::Question;
use mushroom_tree::records::{Mush, NUM_FACETS};
use mushroom_tree::render::decimal;
use mushroom_tree::split::Answer;
use mushroom_tree::tree::{Branch, Page};

#[test]
fn decimal_writes_numbers() {
    assert_eq!(decimal(0), "0");
    assert_eq!(decimal(7), "7");
    assert_eq!(decimal(10), "10");
    assert_eq!(decimal(1234567890), "1234567890");
    assert_eq!(decimal(u64::MAX), "18446744073709551615");
}

#[test]
fn question_in_words() {
    let q = Question { facet: 0, vals: vec!['b', 'c', 'x'] };
    assert_eq!(q.fmt(), "Examine 'cap-shape'.  Is it one of bell, conical, convex?");
    let one = Question { facet: 4, vals: vec!['n'] };
    assert_eq!(one.fmt(), "Examine 'odor'.  Is it none?");
    let last = Question { facet: 21, vals: vec!['d', 'g'] };
    assert_eq!(last.fmt(), "Examine 'habitat'.  Is it one of grasses, woods?");
    let missing = Question { facet: 10, vals: vec!['?'] };
    assert_eq!(missing.fmt(), "Examine 'stalk-root'.  Is it missing?");
}

#[test]
fn question_leaves_out_codes_without_a_name() {
    let q = Question { facet: 3, vals: vec!['f', 'q'] };
    assert_eq!(q.fmt(), "Examine 'bruises?'.  Is it one of no?");
    let none = Question { facet: 3, vals: vec![] };
    assert_eq!(none.fmt(), "Examine 'bruises?'.  Is it ?");
}

#[test]
fn name_tables_are_complete() {
    assert_eq!(FACET_NAMES.len(), NUM_FACETS);
    assert_eq!(VALUE_NAMES.len(), NUM_VALUE_NAMES);
    for f in 0..NUM_FACETS {
        assert!(VALUE_NAMES.iter().filter(|e| e.0 == f).count() >= 2);
    }
    assert_eq!(VALUE_NAMES.iter().filter(|e| e.0 == 8).count(), 12);
    assert_eq!(VALUE_NAMES[0], (0, 'b', "bell"));
    assert_eq!(VALUE_NAMES[125], (21, 'd', "woods"));
}

#[test]
fn node_and_answer_in_words() {
    let yes: Vec<Mush> =
        (0..3).map(|i| Mush { poison: if i == 0 { 'p' } else { 'e' }, attrs: ['a'; 22] }).collect();
    let no: Vec<Mush> = (0..2).map(|_| Mush { poison: 'p', attrs: ['b'; 22] }).collect();
    assert_eq!(Node::new(yes.clone()).fmt(), "1/3 poisonous (imp 4/9)");
    let a = Answer::new(yes, no);
    assert_eq!(a.fmt(), "yes: 1/3 poisonous (imp 4/9), no 2/2 poisonous (imp 0/4), imp: 16/36");
}

#[test]
fn page_in_words() {
    let page = Page {
        page: 4,
        question: Question { facet: 7, vals: vec!['n'] },
        yes: Branch { poison_cnt: 5, total: 5, impurity: Impurity { num: 0, den: 25 }, goto: None },
        no: Branch {
            poison_cnt: 1,
            total: 4,
            impurity: Impurity { num: 6, den: 16 },
            goto: Some(12),
        },
    };
    assert_eq!(
        page.fmt(),
        "page 4: Examine 'gill-size'.  Is it narrow?\n\tif yes, done. 5/5 poisonous (imp 0/25)\n\tif no, 1/4 poisonous (imp 6/16), goto page 12"
    );
    assert_eq!(page.no.fmt(), "1/4 poisonous (imp 6/16)");
}
