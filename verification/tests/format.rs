use esv_core::EsvDocument;
use esv_core::EsvError;
use esv_core::EsvParser;
use esv_core::EsvSerializer;
use esv_core::is_emoji;
use esv_core::report::format_as_text;
use esv_core::validate_separator;

#[test]
fn test_error_display() {
    let err = EsvError::UnclosedQuote { line: 1, column: 5 };
    assert_eq!(err.message(), "unclosed quote at line 1, column 5");

    let err = EsvError::UnexpectedCharAfterQuote {
        line: 2,
        column: 10,
        found: 'x',
    };
    assert_eq!(
        err.message(),
        "unexpected character 'x' after closing quote at line 2, column 10"
    );

    let err = EsvError::InconsistentFieldCount {
        expected: 3,
        found: 2,
        line: 5,
    };
    assert_eq!(
        err.message(),
        "inconsistent field count at line 5: expected 3 fields, found 2"
    );

    let err = EsvError::EmptyInput;
    assert_eq!(err.message(), "empty input");

    let err = EsvError::InvalidUtf8;
    assert_eq!(err.message(), "invalid UTF-8 in input");
}

#[test]
fn test_esv_document_methods() {
    let doc = EsvDocument::with_headers(
        vec!["a".to_string(), "b".to_string()],
        vec![vec!["1".to_string(), "2".to_string()]],
    );
    assert_eq!(doc.len(), 1);
    assert!(!doc.is_empty());
    assert_eq!(doc.field_count(), Some(2));
}

#[test]
fn test_is_emoji_common_emoji() {
    assert!(is_emoji('🔥'));
    assert!(is_emoji('😀'));
    assert!(is_emoji('❤'));
    assert!(is_emoji('⭐'));
    assert!(is_emoji('🚀'));
    assert!(is_emoji('🍕'));
    assert!(is_emoji('👍'));
}

#[test]
fn test_is_emoji_ascii_not_emoji() {
    assert!(!is_emoji('a'));
    assert!(!is_emoji('Z'));
    assert!(!is_emoji('0'));
    assert!(!is_emoji('9'));
    assert!(!is_emoji(','));
    assert!(!is_emoji(';'));
    assert!(!is_emoji('\t'));
    assert!(!is_emoji('|'));
    assert!(!is_emoji(' '));
    assert!(!is_emoji('\n'));
    assert!(!is_emoji('"'));
}

#[test]
fn test_is_emoji_non_emoji_unicode() {
    assert!(!is_emoji('é'));
    assert!(!is_emoji('ñ'));
    assert!(!is_emoji('日'));
    assert!(!is_emoji('本'));
    assert!(!is_emoji('€'));
    assert!(!is_emoji('£'));
}

#[test]
fn test_validate_separator_valid() {
    assert!(validate_separator('🔥').is_ok());
    assert!(validate_separator('😀').is_ok());
    assert!(validate_separator('🚀').is_ok());
    assert!(validate_separator('⭐').is_ok());
}

#[test]
fn test_validate_separator_invalid() {
    let result = validate_separator(',');
    assert!(matches!(
        result,
        Err(EsvError::InvalidSeparator { separator: ',' })
    ));

    let result = validate_separator('\t');
    assert!(matches!(
        result,
        Err(EsvError::InvalidSeparator { separator: '\t' })
    ));

    let result = validate_separator('|');
    assert!(matches!(
        result,
        Err(EsvError::InvalidSeparator { separator: '|' })
    ));
}

#[test]
fn test_parser_rejects_ascii_separator() {
    let parser = EsvParser::new().with_separator(',');
    let result = parser.parse("a,b,c");
    assert!(matches!(
        result,
        Err(EsvError::InvalidSeparator { separator: ',' })
    ));
}

#[test]
fn test_parser_accepts_emoji_separator() {
    let parser = EsvParser::new().with_separator('😀');
    let result = parser.parse("a😀b😀c");
    assert!(result.is_ok());
    let doc = result.unwrap();
    assert_eq!(doc.records[0], vec!["a", "b", "c"]);
}

#[test]
fn test_serializer_rejects_ascii_separator() {
    let serializer = EsvSerializer::new().with_separator(',');
    let doc = EsvDocument::new(vec![vec!["a".to_string(), "b".to_string()]]);
    let result = serializer.try_serialize(&doc);
    assert!(matches!(
        result,
        Err(EsvError::InvalidSeparator { separator: ',' })
    ));
}

#[test]
fn test_serializer_accepts_emoji_separator() {
    let serializer = EsvSerializer::new().with_separator('😀');
    let doc = EsvDocument::new(vec![vec!["a".to_string(), "b".to_string()]]);
    let result = serializer.try_serialize(&doc);
    assert!(result.is_ok());
    assert_eq!(result.unwrap(), "a😀b\n");
}

#[test]
fn test_invalid_separator_message() {
    let err = EsvError::InvalidSeparator { separator: ',' };
    assert_eq!(err.message(), "invalid separator ',': not an emoji");
}

#[test]
fn test_format_as_text_without_headers() {
    let doc = EsvDocument::new(vec![
        vec!["a".to_string(), "b".to_string()],
        vec!["c".to_string()],
    ]);
    let text = format_as_text(&doc);
    assert_eq!(text, "# Record 1\na\nb\n\n# Record 2\nc\n");
}

#[test]
fn test_format_as_text_with_headers() {
    let doc = EsvDocument::with_headers(
        vec!["x".to_string(), "y".to_string()],
        vec![vec!["1".to_string(), "2".to_string()]],
    );
    let text = format_as_text(&doc);
    assert_eq!(text, "# Headers\nx\ny\n\n# Record 1\n1\n2\n");
}

#[test]
fn test_format_as_text_many_records() {
    let records: Vec<Vec<String>> = (1..=10).map(|i| vec![i.to_string()]).collect();
    let doc = EsvDocument::new(records);
    let text = format_as_text(&doc);
    assert!(text.ends_with("# Record 10\n10\n"));
}

#[test]
fn test_field_count_without_headers() {
    let doc = EsvDocument::new(vec![vec!["a".to_string(), "b".to_string(), "c".to_string()]]);
    assert_eq!(doc.field_count(), Some(3));
    let empty = EsvDocument::new(vec![]);
    assert_eq!(empty.field_count(), None);
    assert!(empty.is_empty());
}
