use regex_nfa::engine::Engine;

fn engine(pattern: &str) -> Engine {
    Engine::new(pattern).unwrap()
}

#[test]
fn engine_test_empty() {
    assert!(engine("").is_match(""));
    assert!(!engine("").is_match("a"));
    assert!(!engine("").is_match("abc"));
}

#[test]
fn test_paren() {
    assert!(engine("a(a)a").is_match("aaa"));
    assert!(engine("aa(a)").is_match("aaa"));
    assert!(engine("(aa)a").is_match("aaa"));

    assert!(!engine("a(a)a").is_match("aaaa"));
    assert!(!engine("aa(a)").is_match("aaaa"));
    assert!(!engine("(aa)a").is_match("aaaa"));

    assert!(!engine("a(a)a").is_match("aa"));
    assert!(!engine("aa(a)").is_match("aa"));
    assert!(!engine("(aa)a").is_match("aa"));
}

#[test]
fn engine_test_or() {
    assert!(engine("a|b").is_match("a"));
    assert!(engine("a|b").is_match("b"));

    assert!(!engine("a|b").is_match("ba"));
    assert!(!engine("a|b").is_match("ab"));
    assert!(!engine("a|b").is_match(""));
}

#[test]
fn test_mod_any() {
    assert!(engine("a*").is_match(""));
    assert!(engine("a*").is_match("a"));
    assert!(engine("a*").is_match("aaaaaaaaaaaaaaaaaaaaaa"));

    assert!(!engine("a*").is_match("aaaab"));

    assert!(engine("(aaa)*").is_match(""));
    assert!(engine("(aaa)*").is_match("aaa"));
    assert!(engine("(aaa)*").is_match("aaaaaa"));

    assert!(!engine("(aaa)*").is_match("a"));
    assert!(!engine("(aaa)*").is_match("aa"));
}

#[test]
fn test_mod_one_or_more() {
    assert!(engine("a+").is_match("a"));
    assert!(engine("a+").is_match("aaaa"));

    assert!(!engine("a+").is_match(""));
    assert!(!engine("a+").is_match("b"));
    assert!(!engine("a+").is_match("aab"));

    assert!(engine("(aaa)+").is_match("aaa"));
    assert!(engine("(aaa)+").is_match("aaaaaaaaa"));

    assert!(!engine("(aaa)+").is_match("aa"));
    assert!(!engine("(aaa)+").is_match("aab"));
}

#[test]
fn test_mod_zero_or_one() {
    assert!(engine("a?").is_match(""));
    assert!(engine("a?").is_match("a"));

    assert!(!engine("a?").is_match("aaa"));
    assert!(!engine("a?").is_match("b"));

    assert!(engine("(aaa)?").is_match(""));
    assert!(engine("(aaa)?").is_match("aaa"));

    assert!(!engine("(aaa)?").is_match("a"));
    assert!(!engine("(aaa)?").is_match("aa"));
    assert!(!engine("(aaa)?").is_match("aab"));
}

#[test]
fn test_complex() {
    assert!(engine("cc?|cc").is_match("c"));

    assert!(engine("a*(bb|cc?|(aaa|cd+c|d+))?").is_match(""));
    assert!(engine("a*(bb|cc?|(aaa|cd+c|d+))?").is_match("aaa"));
    assert!(engine("a*(bb|cc?|(aaa|cd+c|d+))?").is_match("ac"));
    assert!(engine("a*(bb|cc?|(aaa|cd+c|d+))?").is_match("acc"));
    assert!(engine("a*(bb|cc?|(aaa|cd+c|d+))?").is_match("acdddddc"));
}

#[test]
fn engine_test_char_group() {
    assert!(engine("ab[cd]").is_match("abc"));
    assert!(engine("ab[cd]").is_match("abd"));

    assert!(!engine("ab[cd]").is_match("abe"));
    assert!(!engine("ab[cd]").is_match("abcd"));

    assert!(engine("ab[cd]*").is_match("ab"));
    assert!(engine("ab[cd]*").is_match("abc"));
    assert!(engine("ab[cd]*").is_match("abccccc"));
    assert!(engine("ab[cd]*").is_match("abddccdccc"));

    assert!(!engine("ab[cd]*").is_match("abddccdcccr"));
}

#[test]
fn test_negated_char_group() {
    assert!(engine("a[^bc]d").is_match("aed"));
    assert!(engine("a[^bc]d").is_match("aad"));
    assert!(engine("a[^bc]d").is_match("add"));

    assert!(!engine("a[^bc]d").is_match("abd"));
    assert!(!engine("a[^bc]d").is_match("acd"));
    assert!(!engine("a[^bc]d").is_match("ad"));
}
