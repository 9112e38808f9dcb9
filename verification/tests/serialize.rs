use esv_core::EsvDocument;
use esv_core::EsvError;
use esv_core::EsvSerializer;
use esv_core::LineEnding;
use esv_core::parse;
use esv_core::parse_with_headers;
use esv_core::serialize;
use esv_core::serialize_with_headers;

#[test]
fn lib_test_serialize_simple() {
    let records = vec![
        vec!["aaa".to_string(), "bbb".to_string(), "ccc".to_string()],
        vec!["zzz".to_string(), "yyy".to_string(), "xxx".to_string()],
    ];
    let output = serialize(&records);
    assert_eq!(output, "aaa🔥bbb🔥ccc\nzzz🔥yyy🔥xxx\n");
}

#[test]
fn lib_test_serialize_with_headers() {
    let headers = vec!["name".to_string(), "age".to_string()];
    let records = vec![vec!["Alice".to_string(), "30".to_string()]];
    let output = serialize_with_headers(&headers, &records);
    assert_eq!(output, "name🔥age\nAlice🔥30\n");
}

#[test]
fn test_roundtrip() {
    let original = "field1🔥field2🔥field3\nvalue1🔥value2🔥value3\n";
    let doc = parse(original).unwrap();
    let serialized = EsvSerializer::new().serialize(&doc);
    let reparsed = parse(&serialized).unwrap();
    assert_eq!(doc, reparsed);
}

#[test]
fn serializer_test_serialize_simple() {
    let serializer = EsvSerializer::new();
    let doc = EsvDocument::new(vec![vec![
        "aaa".to_string(),
        "bbb".to_string(),
        "ccc".to_string(),
    ]]);
    let output = serializer.serialize(&doc);
    assert_eq!(output, "aaa🔥bbb🔥ccc\n");
}

#[test]
fn test_serialize_multiple_records() {
    let serializer = EsvSerializer::new();
    let doc = EsvDocument::new(vec![
        vec!["aaa".to_string(), "bbb".to_string()],
        vec!["ccc".to_string(), "ddd".to_string()],
    ]);
    let output = serializer.serialize(&doc);
    assert_eq!(output, "aaa🔥bbb\nccc🔥ddd\n");
}

#[test]
fn serializer_test_serialize_with_headers() {
    let serializer = EsvSerializer::new();
    let doc = EsvDocument::with_headers(
        vec!["name".to_string(), "age".to_string()],
        vec![vec!["Alice".to_string(), "30".to_string()]],
    );
    let output = serializer.serialize(&doc);
    assert_eq!(output, "name🔥age\nAlice🔥30\n");
}

#[test]
fn test_serialize_field_with_separator() {
    let serializer = EsvSerializer::new();
    let doc = EsvDocument::new(vec![vec!["a🔥b".to_string(), "ccc".to_string()]]);
    let output = serializer.serialize(&doc);
    assert_eq!(output, "\"a🔥b\"🔥ccc\n");
}

#[test]
fn test_serialize_field_with_newline() {
    let serializer = EsvSerializer::new();
    let doc = EsvDocument::new(vec![vec!["a\nb".to_string(), "ccc".to_string()]]);
    let output = serializer.serialize(&doc);
    assert_eq!(output, "\"a\nb\"🔥ccc\n");
}

#[test]
fn test_serialize_field_with_quotes() {
    let serializer = EsvSerializer::new();
    let doc = EsvDocument::new(vec![vec!["a\"b".to_string(), "ccc".to_string()]]);
    let output = serializer.serialize(&doc);
    assert_eq!(output, "\"a\"\"b\"🔥ccc\n");
}

#[test]
fn test_serialize_always_quote() {
    let serializer = EsvSerializer::new().with_always_quote(true);
    let doc = EsvDocument::new(vec![vec!["aaa".to_string(), "bbb".to_string()]]);
    let output = serializer.serialize(&doc);
    assert_eq!(output, "\"aaa\"🔥\"bbb\"\n");
}

#[test]
fn test_serialize_crlf_line_ending() {
    let serializer = EsvSerializer::new().with_line_ending(LineEnding::Crlf);
    let doc = EsvDocument::new(vec![vec!["aaa".to_string(), "bbb".to_string()]]);
    let output = serializer.serialize(&doc);
    assert_eq!(output, "aaa🔥bbb\r\n");
}

#[test]
fn test_serialize_custom_separator() {
    let serializer = EsvSerializer::new().with_separator('😀');
    let doc = EsvDocument::new(vec![vec!["aaa".to_string(), "bbb".to_string()]]);
    let output = serializer.serialize(&doc);
    assert_eq!(output, "aaa😀bbb\n");
}

#[test]
fn test_serialize_empty_fields() {
    let serializer = EsvSerializer::new();
    let doc = EsvDocument::new(vec![vec![String::new(), String::new(), String::new()]]);
    let output = serializer.serialize(&doc);
    assert_eq!(output, "🔥🔥\n");
}

#[test]
fn test_serialize_unicode_content() {
    let serializer = EsvSerializer::new();
    let doc = EsvDocument::new(vec![vec![
        "héllo".to_string(),
        "wörld".to_string(),
        "日本語".to_string(),
    ]]);
    let output = serializer.serialize(&doc);
    assert_eq!(output, "héllo🔥wörld🔥日本語\n");
}

#[test]
fn test_serialize_records_helper() {
    let serializer = EsvSerializer::new();
    let records = vec![
        vec!["a".to_string(), "b".to_string()],
        vec!["c".to_string(), "d".to_string()],
    ];
    let output = serializer.serialize_records(&records);
    assert_eq!(output, "a🔥b\nc🔥d\n");
}

#[test]
fn test_serialize_empty_document() {
    let serializer = EsvSerializer::new();
    let doc = EsvDocument::new(vec![]);
    let output = serializer.serialize(&doc);
    assert_eq!(output, "");
}

#[test]
fn test_serialize_complex_escaping() {
    let serializer = EsvSerializer::new();
    let doc = EsvDocument::new(vec![vec![
        "has \"quotes\" and 🔥 separator\nand newline".to_string(),
    ]]);
    let output = serializer.serialize(&doc);
    assert_eq!(output, "\"has \"\"quotes\"\" and 🔥 separator\nand newline\"\n");
}

#[test]
fn test_serialize_two_fields_default() {
    let records = vec![vec!["aaa".to_string(), "bbb".to_string()]];
    let output = serialize(&records);
    assert_eq!(output, "aaa🔥bbb\n");
}

#[test]
fn test_roundtrip_with_headers_and_quoting() {
    let doc = EsvDocument::with_headers(
        vec!["a\"b".to_string(), "plain".to_string()],
        vec![
            vec!["x🔥y".to_string(), "line\nbreak".to_string()],
            vec!["".to_string(), "z".to_string()],
        ],
    );
    let serialized = EsvSerializer::new().serialize(&doc);
    let reparsed = parse_with_headers(&serialized).unwrap();
    assert_eq!(doc, reparsed);
}

#[test]
fn test_roundtrip_always_quote_crlf() {
    let doc = EsvDocument::new(vec![
        vec!["aaa".to_string(), "".to_string()],
        vec!["b\"c".to_string(), "d🔥e".to_string()],
    ]);
    let serializer = EsvSerializer::new()
        .with_always_quote(true)
        .with_line_ending(LineEnding::Crlf);
    let serialized = serializer.serialize(&doc);
    let reparsed = parse(&serialized).unwrap();
    assert_eq!(doc, reparsed);
}

#[test]
fn test_try_serialize_reports_invalid_separator() {
    let serializer = EsvSerializer::new().with_separator(',');
    let doc = EsvDocument::new(vec![vec!["a".to_string()]]);
    let result = serializer.try_serialize(&doc);
    assert!(matches!(
        result,
        Err(EsvError::InvalidSeparator { separator: ',' })
    ));
}
