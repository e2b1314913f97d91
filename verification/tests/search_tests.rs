use wildcard_search::compile::compile_wildcard;
use wildcard_search::search::{search_lines, MatchedLine};
use wildcard_search::words::parse;

#[test]
fn test_parse_empty_line_is_none() {
    assert_eq!(parse(""), None);
}

#[test]
fn test_parse_blank_line_has_no_words() {
    assert_eq!(parse("   "), Some(vec![]));
    assert_eq!(parse("\t \t"), Some(vec![]));
}

#[test]
fn test_parse_splits_on_whitespace() {
    assert_eq!(
        parse("cat dog"),
        Some(vec![String::from("cat"), String::from("dog")])
    );
    assert_eq!(
        parse("  one\t two  three "),
        Some(vec![
            String::from("one"),
            String::from("two"),
            String::from("three")
        ])
    );
}

#[test]
fn test_matched_line_new_keeps_fields() {
    let words = vec![String::from("cat"), String::from("dog")];
    let rec = MatchedLine::new(words.clone(), 4, 1);
    assert_eq!(rec.line, words);
    assert_eq!(rec.line_number, 4);
    assert_eq!(rec.word_number, 1);
}

#[test]
fn test_search_lines_finds_first_word_per_line() {
    let tokens = compile_wildcard("c?t").unwrap();
    let lines = vec![String::from("cat dog"), String::from("cut cot")];
    let records = search_lines(&lines, &tokens);
    assert_eq!(records.len(), 2);
    assert_eq!(records[0].line_number, 0);
    assert_eq!(records[0].word_number, 0);
    assert_eq!(
        records[0].line,
        vec![String::from("cat"), String::from("dog")]
    );
    assert_eq!(records[1].line_number, 1);
    assert_eq!(records[1].word_number, 0);
}

#[test]
fn test_search_lines_matching_and_non_matching_files() {
    let tokens = compile_wildcard("c?t").unwrap();

    let file_a = vec![String::from("cat dog")];
    let records_a = search_lines(&file_a, &tokens);
    assert_eq!(records_a.len(), 1);
    assert_eq!(records_a[0].line_number, 0);
    assert_eq!(records_a[0].word_number, 0);

    let file_b = vec![String::from("cart dot")];
    let records_b = search_lines(&file_b, &tokens);
    assert!(records_b.is_empty());
}

#[test]
fn test_search_lines_skips_lines_without_match() {
    let tokens = compile_wildcard("d*").unwrap();
    let lines = vec![
        String::from("cat"),
        String::from("dog days"),
        String::from(""),
        String::from("bird dove"),
    ];
    let records = search_lines(&lines, &tokens);
    assert_eq!(records.len(), 2);
    assert_eq!(records[0].line_number, 1);
    assert_eq!(records[0].word_number, 0);
    assert_eq!(records[1].line_number, 3);
    assert_eq!(records[1].word_number, 1);
}

#[test]
fn test_search_lines_empty_input() {
    let tokens = compile_wildcard("*").unwrap();
    let lines: Vec<String> = vec![];
    assert!(search_lines(&lines, &tokens).is_empty());
}
