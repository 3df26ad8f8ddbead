use regex_nfa::engine::{Engine, EngineError};
use regex_nfa::parser::{Parser, SyntaxError};
use regex_nfa::types::Mod;

fn engine(pattern: &str) -> Engine {
    Engine::new(pattern).unwrap()
}

#[test]
fn test_literal_concatenation_exact() {
    assert!(engine("abc").is_match("abc"));
    assert!(!engine("abc").is_match(""));
    assert!(!engine("abc").is_match("ab"));
    assert!(!engine("abc").is_match("abcd"));
    assert!(!engine("abc").is_match("abd"));
}

#[test]
fn test_bounded_range_counts() {
    assert!(engine("a{2,3}").is_match("aa"));
    assert!(engine("a{2,3}").is_match("aaa"));
    assert!(!engine("a{2,3}").is_match("a"));
    assert!(!engine("a{2,3}").is_match("aaaa"));
    assert!(!engine("a{2,3}").is_match(""));

    assert!(engine("a{3}").is_match("aaa"));
    assert!(!engine("a{3}").is_match("aa"));
    assert!(!engine("a{3}").is_match("aaaa"));

    assert!(engine("a{0,2}").is_match(""));
    assert!(engine("a{0,2}").is_match("a"));
    assert!(engine("a{0,2}").is_match("aa"));
    assert!(!engine("a{0,2}").is_match("aaa"));
}

#[test]
fn test_range_on_group() {
    assert!(engine("(ab){2}").is_match("abab"));
    assert!(!engine("(ab){2}").is_match("ab"));
    assert!(!engine("(ab){2}").is_match("ababab"));
}

#[test]
fn test_wildcard() {
    assert!(engine("a.c").is_match("abc"));
    assert!(engine("a.c").is_match("axc"));
    assert!(engine("a.c").is_match("a.c"));
    assert!(!engine("a.c").is_match("ac"));
    assert!(!engine("a.c").is_match("abbc"));

    assert!(engine(".").is_match("z"));
    assert!(engine(".").is_match("."));
    assert!(!engine(".").is_match(""));
    assert!(!engine(".").is_match("zz"));
}

#[test]
fn test_unicode_class_member() {
    assert!(engine("[\u{e9}x]").is_match("\u{e9}"));
    assert!(engine("[\u{e9}x]").is_match("x"));
    assert!(!engine("[\u{e9}x]").is_match("e"));
}

#[test]
fn test_empty_class() {
    // An empty enumerated class matches nothing; its negation matches any
    // single character.
    assert!(!engine("[]").is_match(""));
    assert!(!engine("[]").is_match("a"));
    assert!(engine("[^]").is_match("a"));
    assert!(engine("[^]").is_match("^"));
    assert!(!engine("[^]").is_match(""));
    assert!(!engine("[^]").is_match("ab"));
}

#[test]
fn test_alternation_union() {
    assert!(engine("a|b").is_match("a"));
    assert!(engine("a|b").is_match("b"));
    assert!(!engine("a|b").is_match("c"));
    assert!(engine("ab|cd|ef").is_match("cd"));
    assert!(!engine("ab|cd|ef").is_match("ce"));
}

#[test]
fn test_syntax_errors() {
    assert_eq!(
        Parser::parse("&").unwrap_err(),
        SyntaxError::UnexpectedChar
    );
    assert_eq!(
        Parser::parse("^a").unwrap_err(),
        SyntaxError::UnexpectedChar
    );
    assert_eq!(Parser::parse("*").unwrap_err(), SyntaxError::MissingTerm);
    assert_eq!(Parser::parse("{2}").unwrap_err(), SyntaxError::MissingTerm);
    assert_eq!(
        Parser::parse("(a").unwrap_err(),
        SyntaxError::UnbalancedParen
    );
    assert_eq!(
        Parser::parse(")a").unwrap_err(),
        SyntaxError::UnbalancedParen
    );
    assert_eq!(
        Parser::parse("[ab").unwrap_err(),
        SyntaxError::UnterminatedGroup
    );
    assert_eq!(
        Parser::parse("a{1").unwrap_err(),
        SyntaxError::UnterminatedRange
    );
    assert_eq!(
        Parser::parse("a{1,").unwrap_err(),
        SyntaxError::UnterminatedRange
    );
    assert_eq!(
        Parser::parse("a{x}").unwrap_err(),
        SyntaxError::InvalidNumber
    );
    assert_eq!(
        Parser::parse("a{}").unwrap_err(),
        SyntaxError::InvalidNumber
    );
    assert_eq!(
        Parser::parse("a{0}").unwrap_err(),
        SyntaxError::InvalidRange
    );
    assert_eq!(
        Parser::parse("a{3,2}").unwrap_err(),
        SyntaxError::InvalidRange
    );
}

#[test]
fn test_engine_error_propagation() {
    match Engine::new("(") {
        Err(EngineError::Syntax(SyntaxError::UnbalancedParen)) => {}
        other => panic!("unexpected result: {:?}", other.map(|_| ())),
    }
    match Engine::new("a{2,1}") {
        Err(EngineError::Syntax(SyntaxError::InvalidRange)) => {}
        other => panic!("unexpected result: {:?}", other.map(|_| ())),
    }
}

#[test]
fn test_quantifier_suffix_binds_last_term() {
    // The suffix rewrites the most recently completed term only.
    assert!(engine("ab*").is_match("a"));
    assert!(engine("ab*").is_match("abbb"));
    assert!(!engine("ab*").is_match("aab"));
    assert_eq!(
        Parser::parse("ab*").unwrap(),
        regex_nfa::types::PatternSection::And(
            vec![
                regex_nfa::types::PatternSection::Char('a', Mod::One),
                regex_nfa::types::PatternSection::Char('b', Mod::Any),
            ],
            Mod::One
        )
    );
}

#[test]
fn test_mod_from_chars() {
    assert_eq!(Mod::from(&'?'), Some(Mod::ZeroOrOne));
    assert_eq!(Mod::from(&'+'), Some(Mod::OneOrMore));
    assert_eq!(Mod::from(&'*'), Some(Mod::Any));
    assert_eq!(Mod::from(&'a'), None);
}

#[test]
fn test_states_from_moves() {
    let (t, _end) = {
        let p = Parser::parse("a*").unwrap();
        p.to_transition(0, 1).unwrap()
    };
    // From the start state on 'a': consume to state 1, and the epsilon skip
    // keeps the offset.
    let moves = t.states_from(0, Some(&'a'), 0);
    assert!(moves.contains(&(1, 1)));
    assert!(moves.contains(&(2, 0)));
    assert_eq!(moves.len(), 2);
    // At the end of input only epsilon moves remain.
    let at_end = t.states_from(0, None, 1);
    assert_eq!(at_end, vec![(2, 1)]);
}
