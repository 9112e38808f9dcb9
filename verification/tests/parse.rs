use esv_core::EsvError;
use esv_core::EsvParser;
use esv_core::parse;
use esv_core::parse_with_headers;

#[test]
fn test_parse_simple() {
    let input = "aaa🔥bbb🔥ccc\nzzz🔥yyy🔥xxx";
    let doc = parse(input).unwrap();
    assert_eq!(doc.records.len(), 2);
    assert_eq!(doc.records[0], vec!["aaa", "bbb", "ccc"]);
    assert_eq!(doc.records[1], vec!["zzz", "yyy", "xxx"]);
}

#[test]
fn lib_test_parse_with_headers() {
    let input = "name🔥age🔥city\nAlice🔥30🔥NYC\nBob🔥25🔥LA";
    let doc = parse_with_headers(input).unwrap();
    assert_eq!(
        doc.headers,
        Some(vec![
            "name".to_string(),
            "age".to_string(),
            "city".to_string()
        ])
    );
    assert_eq!(doc.records.len(), 2);
}

#[test]
fn test_parse_simple_record() {
    let parser = EsvParser::new();
    let doc = parser.parse("aaa🔥bbb🔥ccc").unwrap();
    assert_eq!(doc.records, vec![vec!["aaa", "bbb", "ccc"]]);
}

#[test]
fn test_parse_multiple_records() {
    let parser = EsvParser::new();
    let doc = parser.parse("aaa🔥bbb🔥ccc\nzzz🔥yyy🔥xxx").unwrap();
    assert_eq!(doc.records.len(), 2);
    assert_eq!(doc.records[0], vec!["aaa", "bbb", "ccc"]);
    assert_eq!(doc.records[1], vec!["zzz", "yyy", "xxx"]);
}

#[test]
fn test_parse_with_trailing_newline() {
    let parser = EsvParser::new();
    let doc = parser.parse("aaa🔥bbb🔥ccc\n").unwrap();
    assert_eq!(doc.records.len(), 1);
    assert_eq!(doc.records[0], vec!["aaa", "bbb", "ccc"]);
}

#[test]
fn test_parse_quoted_fields() {
    let parser = EsvParser::new();
    let doc = parser.parse("\"aaa\"🔥\"bbb\"🔥\"ccc\"").unwrap();
    assert_eq!(doc.records, vec![vec!["aaa", "bbb", "ccc"]]);
}

#[test]
fn test_parse_quoted_with_separator() {
    let parser = EsvParser::new();
    let doc = parser.parse("\"a🔥a\"🔥bbb").unwrap();
    assert_eq!(doc.records, vec![vec!["a🔥a", "bbb"]]);
}

#[test]
fn test_parse_quoted_with_newline() {
    let parser = EsvParser::new();
    let doc = parser.parse("\"a\nb\"🔥ccc").unwrap();
    assert_eq!(doc.records, vec![vec!["a\nb", "ccc"]]);
}

#[test]
fn test_parse_escaped_quotes() {
    let parser = EsvParser::new();
    let doc = parser.parse("\"a\"\"b\"🔥ccc").unwrap();
    assert_eq!(doc.records, vec![vec!["a\"b", "ccc"]]);
}

#[test]
fn test_parse_empty_fields() {
    let parser = EsvParser::new();
    let doc = parser.parse("🔥🔥").unwrap();
    assert_eq!(doc.records, vec![vec!["", "", ""]]);
}

#[test]
fn parser_test_parse_with_headers() {
    let parser = EsvParser::new().with_headers(true);
    let doc = parser.parse("name🔥age\nAlice🔥30").unwrap();
    assert_eq!(
        doc.headers,
        Some(vec!["name".to_string(), "age".to_string()])
    );
    assert_eq!(doc.records, vec![vec!["Alice", "30"]]);
}

#[test]
fn test_parse_custom_separator() {
    let parser = EsvParser::new().with_separator('😀');
    let doc = parser.parse("aaa😀bbb😀ccc").unwrap();
    assert_eq!(doc.records, vec![vec!["aaa", "bbb", "ccc"]]);
}

#[test]
fn test_parse_crlf_line_endings() {
    let parser = EsvParser::new();
    let doc = parser.parse("aaa🔥bbb\r\nccc🔥ddd").unwrap();
    assert_eq!(doc.records.len(), 2);
    assert_eq!(doc.records[0], vec!["aaa", "bbb"]);
    assert_eq!(doc.records[1], vec!["ccc", "ddd"]);
}

#[test]
fn test_parse_unclosed_quote_error() {
    let parser = EsvParser::new();
    let result = parser.parse("\"unclosed");
    assert!(matches!(result, Err(EsvError::UnclosedQuote { .. })));
}

#[test]
fn test_parse_unexpected_char_after_quote() {
    let parser = EsvParser::new();
    let result = parser.parse("\"field\"x🔥other");
    assert!(matches!(
        result,
        Err(EsvError::UnexpectedCharAfterQuote { .. })
    ));
}

#[test]
fn test_parse_strict_field_count() {
    let parser = EsvParser::new().with_strict_field_count(true);
    let result = parser.parse("a🔥b🔥c\nd🔥e");
    assert!(matches!(
        result,
        Err(EsvError::InconsistentFieldCount { .. })
    ));
}

#[test]
fn test_parse_empty_input() {
    let parser = EsvParser::new();
    let doc = parser.parse("").unwrap();
    assert!(doc.records.is_empty());
}

#[test]
fn test_parse_single_field() {
    let parser = EsvParser::new();
    let doc = parser.parse("single").unwrap();
    assert_eq!(doc.records, vec![vec!["single"]]);
}

#[test]
fn test_parse_unicode_content() {
    let parser = EsvParser::new();
    let doc = parser.parse("héllo🔥wörld🔥日本語").unwrap();
    assert_eq!(doc.records, vec![vec!["héllo", "wörld", "日本語"]]);
}

#[test]
fn test_parse_mixed_quoted_unquoted() {
    let parser = EsvParser::new();
    let doc = parser
        .parse("\"quoted\"🔥unquoted🔥\"also quoted\"")
        .unwrap();
    assert_eq!(doc.records, vec![vec!["quoted", "unquoted", "also quoted"]]);
}

#[test]
fn test_parse_unclosed_quote_position() {
    let parser = EsvParser::new();
    let result = parser.parse("\"unclosed");
    assert!(matches!(
        result,
        Err(EsvError::UnclosedQuote { line: 1, column: 1 })
    ));
}

#[test]
fn test_parse_unexpected_char_position() {
    let parser = EsvParser::new();
    let result = parser.parse("\"field\"x🔥other");
    assert!(matches!(
        result,
        Err(EsvError::UnexpectedCharAfterQuote {
            line: 1,
            column: 8,
            found: 'x'
        })
    ));
}

#[test]
fn test_parse_strict_field_count_values() {
    let parser = EsvParser::new().with_strict_field_count(true);
    let result = parser.parse("a🔥b🔥c\nd🔥e");
    assert!(matches!(
        result,
        Err(EsvError::InconsistentFieldCount {
            expected: 3,
            found: 2,
            line: 2
        })
    ));
}

#[test]
fn test_parse_non_strict_ignores_field_counts() {
    let parser = EsvParser::new();
    let doc = parser.parse("a🔥b🔥c\nd🔥e").unwrap();
    assert_eq!(doc.records, vec![vec!["a", "b", "c"], vec!["d", "e"]]);
}

#[test]
fn test_parse_trailing_newline_neutral() {
    let without = parse("aaa🔥bbb").unwrap();
    let with = parse("aaa🔥bbb\n").unwrap();
    assert_eq!(without, with);
}

#[test]
fn test_parse_trailing_crlf_neutral() {
    let without = parse("aaa🔥bbb\r").unwrap();
    let with = parse("aaa🔥bbb\r\n").unwrap();
    assert_eq!(without, with);
}

#[test]
fn test_parse_quoted_crlf_normalized() {
    let doc = parse("\"a\r\nb\"🔥c").unwrap();
    assert_eq!(doc.records, vec![vec!["a\nb", "c"]]);
}
