//! ESV (Emoji Separated Values): a delimited-text record format structured
//! like RFC 4180 CSV, except that the field separator must be a single emoji
//! code point.
//!
//! The format, briefly:
//!
//! 1. Each record sits on its own line, delimited by a line break (LF or CRLF).
//! 2. The last record may or may not end with a line break.
//! 3. An optional header line may appear as the first line.
//! 4. Within a line, fields are separated by the emoji separator.
//! 5. A field may or may not be enclosed in double quotes.
//! 6. A field containing line breaks, double quotes, or the separator must be
//!    enclosed in double quotes.
//! 7. A double quote inside a quoted field is escaped by doubling it.
//!
//! The default separator is the fire emoji, U+1F525. The separator must fall
//! in a fixed table of emoji code-point ranges; ASCII and ordinary Unicode
//! letters are rejected, which keeps the format distinct from CSV and other
//! traditional delimited formats.

pub mod document;
pub mod error;
pub mod guarantees;
pub mod parser;
pub mod report;
pub mod roundtrip;
pub mod serializer;
pub mod text;

use vstd::prelude::*;

pub use document::DocumentModel;
pub use document::EsvDocument;
pub use error::EsvError;
pub use error::ErrorModel;
pub use parser::EsvParser;
pub use serializer::EsvSerializer;
pub use serializer::LineEnding;

verus! {

/// Default separator: the fire emoji, U+1F525.
pub const DEFAULT_SEPARATOR: char = '\u{1F525}';

/// Membership of a code point in the frozen table of emoji ranges that are
/// accepted as separators. The table is a compatibility artifact of the
/// format, not a general emoji classifier.
pub open spec fn spec_is_emoji(c: char) -> bool {
    let code = c as u32;
    // Miscellaneous Symbols and Pictographs
    ||| (0x1F300 <= code && code <= 0x1F5FF)
    // Emoticons
    ||| (0x1F600 <= code && code <= 0x1F64F)
    // Transport and Map Symbols
    ||| (0x1F680 <= code && code <= 0x1F6FF)
    // Supplemental Symbols and Pictographs
    ||| (0x1F900 <= code && code <= 0x1F9FF)
    // Symbols and Pictographs Extended-A
    ||| (0x1FA00 <= code && code <= 0x1FA6F)
    // Symbols and Pictographs Extended-B
    ||| (0x1FA70 <= code && code <= 0x1FAFF)
    // Dingbats
    ||| (0x2700 <= code && code <= 0x27BF)
    // Miscellaneous Symbols
    ||| (0x2600 <= code && code <= 0x26FF)
    // Miscellaneous Symbols and Arrows
    ||| (0x2B00 <= code && code <= 0x2BFF)
    // Enclosed Alphanumeric Supplement
    ||| (0x1F100 <= code && code <= 0x1F1FF)
    // Mahjong Tiles
    ||| (0x1F000 <= code && code <= 0x1F02F)
    // Domino Tiles
    ||| (0x1F030 <= code && code <= 0x1F09F)
    // Playing Cards
    ||| (0x1F0A0 <= code && code <= 0x1F0FF)
    // Miscellaneous Technical
    ||| (0x2300 <= code && code <= 0x23FF)
    // Arrows
    ||| (0x2190 <= code && code <= 0x21FF)
    // CJK Symbols and Punctuation
    ||| (0x3000 <= code && code <= 0x303F)
    // Enclosed CJK Letters and Months
    ||| (0x3200 <= code && code <= 0x32FF)
    // Geometric Shapes
    ||| (0x25A0 <= code && code <= 0x25FF)
    // Box Drawing and Block Elements
    ||| (0x2580 <= code && code <= 0x259F)
}

/// Check whether a character may serve as an ESV separator: it must fall in
/// the frozen table of emoji code-point ranges.
#[must_use]
pub fn is_emoji(c: char) -> (r: bool)
    ensures
        r == spec_is_emoji(c),
{
    let code = c as u32;
    (0x1F300 <= code && code <= 0x1F5FF)
        || (0x1F600 <= code && code <= 0x1F64F)
        || (0x1F680 <= code && code <= 0x1F6FF)
        || (0x1F900 <= code && code <= 0x1F9FF)
        || (0x1FA00 <= code && code <= 0x1FA6F)
        || (0x1FA70 <= code && code <= 0x1FAFF)
        || (0x2700 <= code && code <= 0x27BF)
        || (0x2600 <= code && code <= 0x26FF)
        || (0x2B00 <= code && code <= 0x2BFF)
        || (0x1F100 <= code && code <= 0x1F1FF)
        || (0x1F000 <= code && code <= 0x1F02F)
        || (0x1F030 <= code && code <= 0x1F09F)
        || (0x1F0A0 <= code && code <= 0x1F0FF)
        || (0x2300 <= code && code <= 0x23FF)
        || (0x2190 <= code && code <= 0x21FF)
        || (0x3000 <= code && code <= 0x303F)
        || (0x3200 <= code && code <= 0x32FF)
        || (0x25A0 <= code && code <= 0x25FF)
        || (0x2580 <= code && code <= 0x259F)
}

/// Validate a separator, producing the typed failure that both the parser and
/// the serializer report before touching any input.
pub fn validate_separator(separator: char) -> (r: Result<(), EsvError>)
    ensures
        spec_is_emoji(separator) ==> r == Ok::<(), EsvError>(()),
        !spec_is_emoji(separator) ==> r == Err::<(), EsvError>(
            EsvError::InvalidSeparator { separator },
        ),
{
    if is_emoji(separator) {
        Ok(())
    } else {
        Err(EsvError::InvalidSeparator { separator })
    }
}

/// A fixed classification of common probe characters: the default fire
/// emoji separator is allowed, and the usual CSV-style delimiters, ASCII
/// letters, digits and whitespace are not.
pub proof fn lemma_separator_classification()
    ensures
        spec_is_emoji('\u{1F525}'),
        spec_is_emoji('\u{1F600}'),
        !spec_is_emoji(','),
        !spec_is_emoji(';'),
        !spec_is_emoji('\t'),
        !spec_is_emoji('|'),
        !spec_is_emoji('a'),
        !spec_is_emoji('Z'),
        !spec_is_emoji('0'),
        !spec_is_emoji('9'),
        !spec_is_emoji(' '),
{
}

/// Parse ESV data from a string using the default separator.
pub fn parse(input: &str) -> (r: Result<EsvDocument, EsvError>)
    ensures
        parser::parse_result_model(r) == parser::spec_parse(input@, DEFAULT_SEPARATOR, false, false),
{
    EsvParser::new().parse(input)
}

/// Parse ESV data from a string, treating the first row as headers.
pub fn parse_with_headers(input: &str) -> (r: Result<EsvDocument, EsvError>)
    ensures
        parser::parse_result_model(r) == parser::spec_parse(input@, DEFAULT_SEPARATOR, true, false),
{
    EsvParser::new().with_headers(true).parse(input)
}

/// Serialize records to ESV format using the default separator.
#[must_use]
pub fn serialize(records: &Vec<Vec<String>>) -> (r: String)
    ensures
        r@ == serializer::spec_serialize(
            DocumentModel { headers: None, records: records.deep_view() },
            DEFAULT_SEPARATOR,
            false,
            LineEnding::Lf,
        ),
{
    EsvSerializer::new().serialize_records(records)
}

/// Serialize records with headers to ESV format using the default separator.
#[must_use]
pub fn serialize_with_headers(headers: &Vec<String>, records: &Vec<Vec<String>>) -> (r: String)
    ensures
        r@ == serializer::spec_serialize(
            DocumentModel {
                headers: Some(headers.deep_view()),
                records: records.deep_view(),
            },
            DEFAULT_SEPARATOR,
            false,
            LineEnding::Lf,
        ),
{
    let doc = EsvDocument::with_headers(
        serializer::clone_strings(headers),
        serializer::clone_records(records),
    );
    let r = EsvSerializer::new().serialize(&doc);
    proof {
        assert(doc@ =~= DocumentModel {
            headers: Some(headers.deep_view()),
            records: records.deep_view(),
        });
    }
    r
}

} // verus!
