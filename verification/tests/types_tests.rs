use regex_nfa::parser::Parser;
use regex_nfa::types::{State, Transition};

fn transition_this(raw_pattern: &str) -> (Transition, State) {
    let p = Parser::parse(raw_pattern).unwrap();
    p.to_transition(0, 1).unwrap()
}

/// The transition tables hold one entry per edge; their order is an artifact
/// of the lowering, so tables are compared as sorted edge lists.
fn canon(t: &Transition) -> (Vec<(State, Option<char>, State)>, Vec<(State, Vec<char>, State)>) {
    let mut base = t.base.clone();
    base.sort();
    let mut negated = t.negated.clone();
    negated.sort();
    (base, negated)
}

fn assert_table(
    actual: &Transition,
    base: Vec<(State, Option<char>, State)>,
    negated: Vec<(State, Vec<char>, State)>,
) {
    let mut base = base;
    base.sort();
    let mut negated = negated;
    negated.sort();
    assert_eq!(canon(actual), (base, negated));
}

#[test]
fn types_test_empty() {
    let (t, end) = transition_this("");
    assert_table(&t, vec![], vec![]);
    assert_eq!(end, 0);
}

#[test]
fn types_test_and() {
    let (t, end) = transition_this("abc");
    assert_table(
        &t,
        vec![
            (0, Some('a'), 1),
            (1, Some('b'), 2),
            (2, Some('c'), 3),
        ],
        vec![],
    );
    assert_eq!(end, 3);
}

#[test]
fn types_test_or() {
    let (t, end) = transition_this("a|b.|3");
    assert_table(
        &t,
        vec![
            (0, Some('a'), 1),
            (0, Some('b'), 2),
            (2, Some('.'), 3),
            (0, Some('3'), 4),
            (1, None, 5),
            (3, None, 5),
            (4, None, 5),
        ],
        vec![],
    );
    assert_eq!(end, 5);
}

#[test]
fn test_mods() {
    let (t, end) = transition_this("a+");
    assert_table(&t, vec![(0, Some('a'), 1), (1, None, 0)], vec![]);
    assert_eq!(end, 1);

    let (t, end) = transition_this("a?");
    assert_table(&t, vec![(0, Some('a'), 1), (0, None, 1)], vec![]);
    assert_eq!(end, 1);

    let (t, end) = transition_this("a*");
    assert_table(
        &t,
        vec![(0, Some('a'), 1), (1, None, 0), (0, None, 2)],
        vec![],
    );
    assert_eq!(end, 2);
}

#[test]
fn test_groups() {
    let (t, end) = transition_this("[ab]");
    assert_table(
        &t,
        vec![(0, Some('b'), 1), (0, Some('a'), 1)],
        vec![],
    );
    assert_eq!(end, 1);

    let (t, end) = transition_this("[^ab]");
    assert_table(&t, vec![], vec![(0, vec!['a', 'b'], 1)]);
    assert_eq!(end, 1);
}
