use regex_nfa::parser::Parser;
use regex_nfa::types::{Mod, PatternSection};

#[test]
fn parser_test_empty() {
    assert_eq!(
        PatternSection::And(vec![], Mod::One),
        Parser::parse("").unwrap()
    );
}

#[test]
fn parser_test_and() {
    assert_eq!(
        PatternSection::And(
            vec![
                PatternSection::Char('a', Mod::One),
                PatternSection::Char('b', Mod::OneOrMore),
                PatternSection::Char('c', Mod::ZeroOrOne),
                PatternSection::Char('d', Mod::Any),
            ],
            Mod::One
        ),
        Parser::parse("ab+c?d*").unwrap()
    );
}

#[test]
fn parser_test_or() {
    assert_eq!(
        PatternSection::Or(
            vec![
                PatternSection::Char('a', Mod::One),
                PatternSection::Char('b', Mod::Any),
            ],
            Mod::One
        ),
        Parser::parse("a|b*").unwrap()
    );
}

#[test]
fn parser_test_char_group() {
    assert_eq!(
        PatternSection::And(
            vec![
                PatternSection::Char('a', Mod::One),
                PatternSection::CharGroup(vec!['b', 'c'], Mod::One, false),
                PatternSection::Char('d', Mod::One),
            ],
            Mod::One
        ),
        Parser::parse("a[bc]d").unwrap(),
    );
    assert_eq!(
        PatternSection::Or(
            vec![
                PatternSection::Char('a', Mod::One),
                PatternSection::CharGroup(vec!['b', 'c'], Mod::One, true),
            ],
            Mod::One
        ),
        Parser::parse("a|[^bc]").unwrap(),
    );
    assert_eq!(
        PatternSection::And(
            vec![
                PatternSection::CharGroup(vec!['b', 'c'], Mod::Any, true),
                PatternSection::Char('a', Mod::One),
            ],
            Mod::One
        ),
        Parser::parse("[^bc]*a").unwrap(),
    );
}

#[test]
fn test_mod_range() {
    assert_eq!(
        PatternSection::Char('a', Mod::Range(3, 3)),
        Parser::parse("a{3}").unwrap(),
    );

    assert_eq!(
        PatternSection::Char('a', Mod::Range(3, 6)),
        Parser::parse("a{3,6}").unwrap(),
    );
}

#[test]
fn test_mixed() {
    assert_eq!(
        PatternSection::Or(
            vec![
                PatternSection::And(
                    vec![
                        PatternSection::Char('a', Mod::One),
                        PatternSection::Char('b', Mod::ZeroOrOne),
                    ],
                    Mod::One
                ),
                PatternSection::Or(
                    vec![
                        PatternSection::And(
                            vec![
                                PatternSection::Char('c', Mod::One),
                                PatternSection::Char('d', Mod::One),
                            ],
                            Mod::One
                        ),
                        PatternSection::Or(
                            vec![
                                PatternSection::And(
                                    vec![
                                        PatternSection::Char('1', Mod::One),
                                        PatternSection::Char('f', Mod::One),
                                    ],
                                    Mod::One,
                                ),
                                PatternSection::And(
                                    vec![
                                        PatternSection::Char('g', Mod::One),
                                        PatternSection::Char('h', Mod::One),
                                    ],
                                    Mod::One,
                                ),
                                PatternSection::And(
                                    vec![
                                        PatternSection::Char('i', Mod::One),
                                        PatternSection::Char('j', Mod::One),
                                    ],
                                    Mod::One,
                                ),
                            ],
                            Mod::ZeroOrOne,
                        ),
                    ],
                    Mod::Any,
                ),
            ],
            Mod::One,
        ),
        Parser::parse("ab?|(cd|(1f|gh|ij)?)*").unwrap(),
    );
}
