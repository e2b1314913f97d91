use wildcard_search::compile::{compile_wildcard, extract_from_brackets, handle_set, match_wild};
use wildcard_search::tokens::{CompileError, WildcardTok};

#[test]
fn lib_test_valid_patterns() {
    assert_eq!(
        extract_from_brackets("[123|upcase]"),
        Some(WildcardTok::HigherSymbol(Some(123)))
    );
    assert_eq!(
        extract_from_brackets("[456|lowcase]"),
        Some(WildcardTok::LowerSymbol(Some(456)))
    );
    assert_eq!(
        extract_from_brackets("[upcase]"),
        Some(WildcardTok::HigherSymbol(None))
    );
    assert_eq!(
        extract_from_brackets("[lowcase]"),
        Some(WildcardTok::LowerSymbol(None))
    );
}

#[test]
fn lib_test_invalid_patterns() {
    assert_eq!(extract_from_brackets("[]"), None);
    assert_eq!(extract_from_brackets("[123|UNKNOWN]"), None);
    assert_eq!(extract_from_brackets("123|lowcase]"), None);
    assert_eq!(extract_from_brackets("[lowcase"), None);
    assert_eq!(extract_from_brackets("[lowcase123]"), None);
    assert_eq!(extract_from_brackets("[123hhjke]"), None);
}

#[test]
fn lib_test_set_pattern() {
    assert_eq!(
        handle_set("<abcde>"),
        Some(WildcardTok::SymbolSet(vec!['a', 'b', 'c', 'd', 'e']))
    );
}

#[test]
fn lib_test_wildcard_compile() {
    assert_eq!(
        compile_wildcard("a[12|upcase]").unwrap(),
        vec![
            WildcardTok::Symbol('a'),
            WildcardTok::HigherSymbol(Some(12))
        ]
    );
    assert_eq!(
        compile_wildcard("a[upcase]").unwrap(),
        vec![WildcardTok::Symbol('a'), WildcardTok::HigherSymbol(None)]
    );
    assert_eq!(
        compile_wildcard("a[upcase]#").unwrap(),
        vec![
            WildcardTok::Symbol('a'),
            WildcardTok::HigherSymbol(None),
            WildcardTok::Digit
        ]
    );
    assert_eq!(
        compile_wildcard("*??a[lowcase]#").unwrap(),
        vec![
            WildcardTok::MultipleAny,
            WildcardTok::SingleAny,
            WildcardTok::SingleAny,
            WildcardTok::Symbol('a'),
            WildcardTok::LowerSymbol(None),
            WildcardTok::Digit
        ]
    );
}

#[test]
fn test_valid_set_patterns() {
    assert_eq!(
        handle_set("<xyz>"),
        Some(WildcardTok::SymbolSet(vec!['x', 'y', 'z']))
    );
    assert_eq!(
        handle_set("<123>"),
        Some(WildcardTok::SymbolSet(vec!['1', '2', '3']))
    );
}

#[test]
fn test_invalid_set_patterns() {
    assert_eq!(handle_set(""), None);
    assert_eq!(handle_set("<>"), None);
    assert_eq!(handle_set("<abc"), None);
    assert_eq!(handle_set("abc>"), None);
}

#[test]
fn test_wildcard_compile_invalid() {
    assert_eq!(
        compile_wildcard("a[12|unknown]"),
        Err(CompileError::UnrecognizedKeyword)
    );
    assert_eq!(
        compile_wildcard("a[lowcase"),
        Err(CompileError::MissingClosingBracket)
    );
    assert_eq!(
        compile_wildcard("a[lowcase123]"),
        Err(CompileError::UnrecognizedKeyword)
    );
    assert_eq!(
        compile_wildcard("<abc"),
        Err(CompileError::MissingClosingBracket)
    );
}

#[test]
fn test_special_symbols() {
    assert_eq!(
        compile_wildcard(r"a\*b\?c\/d"),
        Ok(vec![
            WildcardTok::Symbol('a'),
            WildcardTok::Symbol('*'),
            WildcardTok::Symbol('b'),
            WildcardTok::Symbol('?'),
            WildcardTok::Symbol('c'),
            WildcardTok::Symbol('/'),
            WildcardTok::Symbol('d')
        ])
    );

    assert_eq!(
        compile_wildcard(r"a\*b\?c"),
        Ok(vec![
            WildcardTok::Symbol('a'),
            WildcardTok::Symbol('*'),
            WildcardTok::Symbol('b'),
            WildcardTok::Symbol('?'),
            WildcardTok::Symbol('c')
        ])
    );
}

#[test]
fn test_escape_sequences() {
    assert_eq!(
        compile_wildcard(r"a\\b"),
        Ok(vec![
            WildcardTok::Symbol('a'),
            WildcardTok::Symbol('\\'),
            WildcardTok::Symbol('b')
        ])
    );

    assert_eq!(
        compile_wildcard(r"a\\*"),
        Ok(vec![
            WildcardTok::Symbol('a'),
            WildcardTok::Symbol('\\'),
            WildcardTok::MultipleAny
        ])
    );
}

#[test]
fn tests_test_valid_patterns() {
    assert_eq!(
        extract_from_brackets("[123|upcase]"),
        Some(WildcardTok::HigherSymbol(Some(123)))
    );
    assert_eq!(
        extract_from_brackets("[456|lowcase]"),
        Some(WildcardTok::LowerSymbol(Some(456)))
    );
    assert_eq!(
        extract_from_brackets("[upcase]"),
        Some(WildcardTok::HigherSymbol(None))
    );
    assert_eq!(
        extract_from_brackets("[lowcase]"),
        Some(WildcardTok::LowerSymbol(None))
    );
}

#[test]
fn tests_test_invalid_patterns() {
    assert_eq!(extract_from_brackets("[]"), None);
    assert_eq!(extract_from_brackets("[123|UNKNOWN]"), None);
    assert_eq!(extract_from_brackets("123|lowcase]"), None);
    assert_eq!(extract_from_brackets("[lowcase"), None);
    assert_eq!(extract_from_brackets("[lowcase123]"), None);
    assert_eq!(extract_from_brackets("[123hhjke]"), None);
}

#[test]
fn tests_test_set_pattern() {
    assert_eq!(
        handle_set("<abcde>"),
        Some(WildcardTok::SymbolSet(vec!['a', 'b', 'c', 'd', 'e']))
    );
}

#[test]
fn tests_test_wildcard_compile() {
    assert_eq!(
        compile_wildcard("a[12|upcase]").unwrap(),
        vec![
            WildcardTok::Symbol('a'),
            WildcardTok::HigherSymbol(Some(12))
        ]
    );
    assert_eq!(
        compile_wildcard("a[upcase]").unwrap(),
        vec![WildcardTok::Symbol('a'), WildcardTok::HigherSymbol(None)]
    );
    assert_eq!(
        compile_wildcard("a[upcase]#").unwrap(),
        vec![
            WildcardTok::Symbol('a'),
            WildcardTok::HigherSymbol(None),
            WildcardTok::Digit
        ]
    );
    assert_eq!(
        compile_wildcard("*??a[lowcase]#").unwrap(),
        vec![
            WildcardTok::MultipleAny,
            WildcardTok::SingleAny,
            WildcardTok::SingleAny,
            WildcardTok::Symbol('a'),
            WildcardTok::LowerSymbol(None),
            WildcardTok::Digit
        ]
    );
}

#[test]
fn test_empty_pattern_compiles_to_no_tokens() {
    assert_eq!(compile_wildcard(""), Ok(vec![]));
}

#[test]
fn test_trailing_backslash_is_invalid_escape() {
    assert_eq!(compile_wildcard("abc\\"), Err(CompileError::InvalidEscape));
    assert_eq!(compile_wildcard("\\"), Err(CompileError::InvalidEscape));
}

#[test]
fn test_escaped_ordinary_char_is_invalid_escape() {
    assert_eq!(compile_wildcard(r"a\xb"), Err(CompileError::InvalidEscape));
}

#[test]
fn test_unterminated_keyword_bracket() {
    assert_eq!(
        compile_wildcard("[lowcase"),
        Err(CompileError::MissingClosingBracket)
    );
}

#[test]
fn test_unrecognized_keyword_bracket() {
    assert_eq!(
        compile_wildcard("[123hhjke]"),
        Err(CompileError::UnrecognizedKeyword)
    );
}

#[test]
fn test_empty_symbol_set_is_an_error() {
    assert_eq!(compile_wildcard("<>"), Err(CompileError::EmptySet));
}

#[test]
fn test_symbol_set_compiles() {
    assert_eq!(
        compile_wildcard("a<xy>"),
        Ok(vec![
            WildcardTok::Symbol('a'),
            WildcardTok::SymbolSet(vec!['x', 'y'])
        ])
    );
}

#[test]
fn test_match_wild_keywords() {
    assert_eq!(
        match_wild("upcase", 3),
        Some(WildcardTok::HigherSymbol(Some(3)))
    );
    assert_eq!(match_wild("lowcase", 0), Some(WildcardTok::LowerSymbol(None)));
    assert_eq!(match_wild("midcase", 1), None);
}

#[test]
fn test_error_messages() {
    assert_eq!(CompileError::InvalidEscape.message(), "invalid escape");
    assert_eq!(
        CompileError::MissingClosingBracket.message(),
        "missing closing bracket"
    );
    assert_eq!(
        CompileError::UnrecognizedKeyword.message(),
        "unrecognized keyword"
    );
    assert_eq!(CompileError::EmptySet.message(), "empty character set");
}

#[test]
fn test_count_of_zero_means_unspecified() {
    assert_eq!(
        extract_from_brackets("[0|upcase]"),
        Some(WildcardTok::HigherSymbol(None))
    );
    assert_eq!(
        extract_from_brackets("[|lowcase]"),
        Some(WildcardTok::LowerSymbol(None))
    );
}
