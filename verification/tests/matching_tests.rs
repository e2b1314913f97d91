use wildcard_search::compile::compile_wildcard;
use wildcard_search::engine::{is_match, match_compiled};
use wildcard_search::tokens::WildcardTok;

#[test]
fn test_is_match_simple() {
    assert!(is_match("abc", "abc"));
    assert!(is_match("abcdef", "abc*"));
    assert!(is_match("abcdef", "a*d*f"));
    assert!(is_match("abcdef", "*def"));
    assert_eq!(is_match("abcdef", "a?d*"), false);
}

#[test]
fn test_is_match_complex() {
    assert!(is_match("abchhhu", "abc[4|lowcase]"));
    assert!(is_match("ABC", "[3|upcase]"));
    assert!(is_match("ab78", "ab*##*"));
    assert!(!is_match("abchhhu", "abc[6|lowcase]"));
}

#[test]
fn test_is_match_with_digits() {
    assert!(is_match("a1b2c3", "a#b#c#"));
    assert!(is_match("123456", "######"));
    assert!(!is_match("12345", "######"));
}

#[test]
fn test_literal_pattern_matches_only_itself() {
    assert!(is_match("hello", "hello"));
    assert!(!is_match("hello", "hellx"));
    assert!(!is_match("hell", "hello"));
    assert!(!is_match("helloo", "hello"));
    assert!(is_match("", ""));
    assert!(!is_match("a", ""));
}

#[test]
fn test_star_matches_every_word() {
    assert!(is_match("", "*"));
    assert!(is_match("a", "*"));
    assert!(is_match("anything at all", "*"));
}

#[test]
fn test_question_matches_single_char_words_only() {
    assert!(is_match("x", "?"));
    assert!(!is_match("", "?"));
    assert!(!is_match("xy", "?"));
}

#[test]
fn test_case_run_needs_exactly_one_when_unspecified() {
    assert!(!is_match("ABC123", "ABC[upcase]123"));
    assert!(is_match("abcx123", "abc[lowcase]123"));
    assert!(!is_match("abc123", "abc[lowcase]123"));
    assert!(!is_match("abcxy123", "abc[lowcase]123"));
}

#[test]
fn test_symbol_set_matches_one_member() {
    assert!(is_match("a", "<ab>"));
    assert!(is_match("b", "<ab>"));
    assert!(!is_match("c", "<ab>"));
    assert!(!is_match("ab", "<ab>"));
    assert!(is_match("cat", "c<au>t"));
    assert!(!is_match("cot", "c<au>t"));
}

#[test]
fn test_escaped_star_is_literal() {
    assert!(is_match("a*b", r"a\*b"));
    assert!(!is_match("axb", r"a\*b"));
    assert!(is_match("a?c", r"a\?c"));
    assert!(!is_match("abc", r"a\?c"));
}

#[test]
fn test_malformed_pattern_matches_nothing() {
    assert!(!is_match("abc", "abc\\"));
    assert!(!is_match("[lowcase", "[lowcase"));
}

#[test]
fn test_match_compiled_against_built_tokens() {
    let tokens = vec![
        WildcardTok::Symbol('a'),
        WildcardTok::Digit,
        WildcardTok::MultipleAny,
    ];
    assert!(match_compiled("a7", &tokens));
    assert!(match_compiled("a7xyz", &tokens));
    assert!(!match_compiled("ax", &tokens));
    assert!(!match_compiled("a", &tokens));

    let compiled = compile_wildcard("a#*").unwrap();
    assert_eq!(tokens, compiled);
}

#[test]
fn test_counted_run_is_exact_not_maximal() {
    // a run longer than the count still matches where exactly that many
    // characters of the case are consumed at that point
    assert!(is_match("abcde", "*[2|lowcase]"));
    assert!(is_match("ABCDE", "[2|upcase]*"));
    assert!(!is_match("aB", "[2|lowcase]"));
}
