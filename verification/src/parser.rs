//! The ESV parser: a character-level scanner with one-character lookahead
//! that turns raw text into a document, tracking line and column positions
//! for diagnostics.
//!
//! The executable parser is verified against a specification-level scanner
//! (`scan_unquoted`, `scan_quoted`, `scan_field`, `scan_record`, `scan_rows`,
//! `spec_parse`) that consumes the remaining input from the front.

use vstd::prelude::*;

use crate::DEFAULT_SEPARATOR;
use crate::EsvError;
use crate::document::DocumentModel;
use crate::document::EsvDocument;
use crate::error::ErrorModel;
use crate::spec_is_emoji;
use crate::text::chars_of_str;
use crate::text::string_of_chars;

verus! {

/// What ended a field.
#[derive(Debug, Clone, Copy, PartialEq)]
pub enum FieldTerminator {
    /// The field was followed by the separator.
    Separator,
    /// The field was followed by a line break (LF, or CR optionally
    /// followed by LF).
    LineBreak,
    /// The field ran to the end of the input.
    Eof,
}

/// The outcome of scanning one field: its content, what ended it, the input
/// that remains, and the column after the consumed characters.
#[verifier::ext_equal]
pub struct FieldOutcome {
    pub field: Seq<char>,
    pub term: FieldTerminator,
    pub rest: Seq<char>,
    pub col: int,
}

/// The outcome of scanning one record: its fields, whether it ran to the end
/// of the input, and the input that remains.
#[verifier::ext_equal]
pub struct RecordOutcome {
    pub fields: Seq<Seq<char>>,
    pub at_eof: bool,
    pub rest: Seq<char>,
}

/// The input after a line-break start: `s` begins with CR, and an LF
/// immediately after it is consumed together with it.
pub open spec fn after_crlf(s: Seq<char>) -> Seq<char> {
    if s.len() >= 2 && s[1] == '\n' {
        s.skip(2)
    } else {
        s.skip(1)
    }
}

/// Prefix the field content of a scan outcome.
pub open spec fn with_field_prefix(p: Seq<char>, r: Result<FieldOutcome, ErrorModel>) -> Result<
    FieldOutcome,
    ErrorModel,
> {
    match r {
        Ok(f) => Ok(FieldOutcome { field: p + f.field, term: f.term, rest: f.rest, col: f.col }),
        Err(e) => Err(e),
    }
}

/// Scan an unquoted field: collect characters until the separator, a
/// line-break start, or the end of the input. The column advances for each
/// collected character and for a consumed separator.
pub open spec fn scan_unquoted(s: Seq<char>, sep: char, col: int) -> FieldOutcome
    decreases s.len(),
{
    if s.len() == 0 {
        FieldOutcome { field: Seq::empty(), term: FieldTerminator::Eof, rest: s, col }
    } else if s[0] == sep {
        FieldOutcome {
            field: Seq::empty(),
            term: FieldTerminator::Separator,
            rest: s.skip(1),
            col: col + 1,
        }
    } else if s[0] == '\r' {
        FieldOutcome {
            field: Seq::empty(),
            term: FieldTerminator::LineBreak,
            rest: after_crlf(s),
            col,
        }
    } else if s[0] == '\n' {
        FieldOutcome {
            field: Seq::empty(),
            term: FieldTerminator::LineBreak,
            rest: s.skip(1),
            col,
        }
    } else {
        let r = scan_unquoted(s.skip(1), sep, col + 1);
        FieldOutcome { field: seq![s[0]] + r.field, term: r.term, rest: r.rest, col: r.col }
    }
}

/// What may follow a closing quote: the separator, a line-break start, or
/// the end of the input; anything else is an error at the current position.
pub open spec fn after_closing_quote(s: Seq<char>, sep: char, line: int, col: int) -> Result<
    FieldOutcome,
    ErrorModel,
> {
    if s.len() == 0 {
        Ok(FieldOutcome { field: Seq::empty(), term: FieldTerminator::Eof, rest: s, col })
    } else if s[0] == sep {
        Ok(FieldOutcome {
            field: Seq::empty(),
            term: FieldTerminator::Separator,
            rest: s.skip(1),
            col: col + 1,
        })
    } else if s[0] == '\r' {
        Ok(FieldOutcome {
            field: Seq::empty(),
            term: FieldTerminator::LineBreak,
            rest: after_crlf(s),
            col: col + 1,
        })
    } else if s[0] == '\n' {
        Ok(FieldOutcome {
            field: Seq::empty(),
            term: FieldTerminator::LineBreak,
            rest: s.skip(1),
            col,
        })
    } else {
        Err(ErrorModel::UnexpectedCharAfterQuote { line, column: col, found: s[0] })
    }
}

/// Scan the inside of a quoted field, after the opening quote: characters
/// are collected verbatim (line breaks normalized to LF, the column
/// resetting to 1 after each), a doubled quote collects one quote, and a
/// lone quote closes the field. Running out of input is an unclosed-quote
/// error at the field's starting position.
pub open spec fn scan_quoted(
    s: Seq<char>,
    sep: char,
    line: int,
    start_col: int,
    col: int,
) -> Result<FieldOutcome, ErrorModel>
    decreases s.len(),
{
    if s.len() == 0 {
        Err(ErrorModel::UnclosedQuote { line, column: start_col })
    } else if s[0] == '"' {
        if s.len() >= 2 && s[1] == '"' {
            with_field_prefix(seq!['"'], scan_quoted(s.skip(2), sep, line, start_col, col + 2))
        } else {
            after_closing_quote(s.skip(1), sep, line, col + 1)
        }
    } else if s[0] == '\r' {
        with_field_prefix(seq!['\n'], scan_quoted(after_crlf(s), sep, line, start_col, 1))
    } else if s[0] == '\n' {
        with_field_prefix(seq!['\n'], scan_quoted(s.skip(1), sep, line, start_col, 1))
    } else {
        with_field_prefix(seq![s[0]], scan_quoted(s.skip(1), sep, line, start_col, col + 1))
    }
}

/// Scan one field: quoted if and only if its first character is a double
/// quote.
pub open spec fn scan_field(s: Seq<char>, sep: char, line: int, col: int) -> Result<
    FieldOutcome,
    ErrorModel,
> {
    if s.len() > 0 && s[0] == '"' {
        scan_quoted(s.skip(1), sep, line, col, col + 1)
    } else {
        Ok(scan_unquoted(s, sep, col))
    }
}

/// How an unquoted scan consumes input: never more than there is, always
/// something before a terminator other than end-of-input, and everything
/// when it runs to the end.
pub proof fn lemma_scan_unquoted_progress(s: Seq<char>, sep: char, col: int)
    ensures
        scan_unquoted(s, sep, col).rest.len() <= s.len(),
        scan_unquoted(s, sep, col).term != FieldTerminator::Eof ==> scan_unquoted(
            s,
            sep,
            col,
        ).rest.len() < s.len(),
        scan_unquoted(s, sep, col).term == FieldTerminator::Eof ==> scan_unquoted(
            s,
            sep,
            col,
        ).rest.len() == 0,
    decreases s.len(),
{
    if s.len() == 0 {
    } else if s[0] == sep {
    } else if s[0] == '\r' {
    } else if s[0] == '\n' {
    } else {
        lemma_scan_unquoted_progress(s.skip(1), sep, col + 1);
    }
}

/// How a quoted scan consumes input when it succeeds.
pub proof fn lemma_scan_quoted_progress(s: Seq<char>, sep: char, line: int, start_col: int, col: int)
    ensures
        (match scan_quoted(s, sep, line, start_col, col) {
            Ok(f) => f.rest.len() < s.len() && (f.term == FieldTerminator::Eof ==> f.rest.len()
                == 0),
            Err(_) => true,
        }),
    decreases s.len(),
{
    if s.len() == 0 {
    } else if s[0] == '"' {
        if s.len() >= 2 && s[1] == '"' {
            lemma_scan_quoted_progress(s.skip(2), sep, line, start_col, col + 2);
        }
    } else if s[0] == '\r' {
        lemma_scan_quoted_progress(after_crlf(s), sep, line, start_col, 1);
    } else if s[0] == '\n' {
        lemma_scan_quoted_progress(s.skip(1), sep, line, start_col, 1);
    } else {
        lemma_scan_quoted_progress(s.skip(1), sep, line, start_col, col + 1);
    }
}

/// How a field scan consumes input when it succeeds.
pub proof fn lemma_scan_field_progress(s: Seq<char>, sep: char, line: int, col: int)
    ensures
        (match scan_field(s, sep, line, col) {
            Ok(f) => f.rest.len() <= s.len() && (f.term != FieldTerminator::Eof ==> f.rest.len()
                < s.len()) && (f.term == FieldTerminator::Eof ==> f.rest.len() == 0),
            Err(_) => true,
        }),
{
    if s.len() > 0 && s[0] == '"' {
        lemma_scan_quoted_progress(s.skip(1), sep, line, col, col + 1);
    } else {
        lemma_scan_unquoted_progress(s, sep, col);
    }
}

/// Scan one record: fields separated by the separator, ended by a line
/// break or the end of the input.
pub open spec fn scan_record(s: Seq<char>, sep: char, line: int, col: int) -> Result<
    RecordOutcome,
    ErrorModel,
>
    decreases s.len(),
    via scan_record_decreases
{
    match scan_field(s, sep, line, col) {
        Err(e) => Err(e),
        Ok(f) => match f.term {
            FieldTerminator::Separator => match scan_record(f.rest, sep, line, f.col) {
                Err(e) => Err(e),
                Ok(r) => Ok(
                    RecordOutcome {
                        fields: seq![f.field] + r.fields,
                        at_eof: r.at_eof,
                        rest: r.rest,
                    },
                ),
            },
            FieldTerminator::LineBreak => Ok(
                RecordOutcome { fields: seq![f.field], at_eof: false, rest: f.rest },
            ),
            FieldTerminator::Eof => Ok(
                RecordOutcome { fields: seq![f.field], at_eof: true, rest: f.rest },
            ),
        },
    }
}

#[via_fn]
proof fn scan_record_decreases(s: Seq<char>, sep: char, line: int, col: int) {
    lemma_scan_field_progress(s, sep, line, col);
}

/// How a record scan consumes input when it succeeds.
pub proof fn lemma_scan_record_progress(s: Seq<char>, sep: char, line: int, col: int)
    ensures
        (match scan_record(s, sep, line, col) {
            Ok(r) => r.rest.len() <= s.len() && (!r.at_eof ==> r.rest.len() < s.len()) && (r.at_eof
                ==> r.rest.len() == 0),
            Err(_) => true,
        }),
    decreases s.len(),
{
    lemma_scan_field_progress(s, sep, line, col);
    match scan_field(s, sep, line, col) {
        Err(_) => {},
        Ok(f) => {
            if f.term == FieldTerminator::Separator {
                lemma_scan_record_progress(f.rest, sep, line, f.col);
            }
        },
    }
}

/// Scan all records: after each record, enforce the strict field count if
/// enabled (against the count established by the first record), suppress a
/// record that the end of the input produced as empty or as a single empty
/// field, and continue past each line break.
pub open spec fn scan_rows(
    s: Seq<char>,
    sep: char,
    line: int,
    strict: bool,
    expected: Option<int>,
) -> Result<Seq<Seq<Seq<char>>>, ErrorModel>
    decreases s.len(),
    via scan_rows_decreases
{
    match scan_record(s, sep, line, 1) {
        Err(e) => Err(e),
        Ok(r) => {
            let count = r.fields.len() as int;
            if strict && expected is Some && expected->0 != count {
                Err(ErrorModel::InconsistentFieldCount { expected: expected->0, found: count, line })
            } else {
                let next_expected = if strict && expected is None {
                    Some(count)
                } else {
                    expected
                };
                let suppressed = r.at_eof && (r.fields.len() == 0 || (r.fields.len() == 1
                    && r.fields[0].len() == 0));
                let these = if suppressed {
                    Seq::<Seq<Seq<char>>>::empty()
                } else {
                    seq![r.fields]
                };
                if r.at_eof {
                    Ok(these)
                } else {
                    match scan_rows(r.rest, sep, line + 1, strict, next_expected) {
                        Err(e) => Err(e),
                        Ok(rows) => Ok(these + rows),
                    }
                }
            }
        },
    }
}

#[via_fn]
proof fn scan_rows_decreases(s: Seq<char>, sep: char, line: int, strict: bool, expected: Option<
    int,
>) {
    lemma_scan_record_progress(s, sep, line, 1);
}

/// The whole parse: validate the separator, accept empty input as an empty
/// document, scan all records, and promote the first record to headers if
/// header mode is on and any record was produced.
pub open spec fn spec_parse(s: Seq<char>, sep: char, has_headers: bool, strict: bool) -> Result<
    DocumentModel,
    ErrorModel,
> {
    if !spec_is_emoji(sep) {
        Err(ErrorModel::InvalidSeparator { separator: sep })
    } else if s.len() == 0 {
        Ok(DocumentModel { headers: None, records: Seq::empty() })
    } else {
        match scan_rows(s, sep, 1, strict, None) {
            Err(e) => Err(e),
            Ok(rows) => {
                if has_headers && rows.len() > 0 {
                    Ok(DocumentModel { headers: Some(rows[0]), records: rows.skip(1) })
                } else {
                    Ok(DocumentModel { headers: None, records: rows })
                }
            },
        }
    }
}

/// Prefix the field content of an unquoted scan outcome.
pub open spec fn outcome_with_prefix(p: Seq<char>, f: FieldOutcome) -> FieldOutcome {
    FieldOutcome { field: p + f.field, term: f.term, rest: f.rest, col: f.col }
}

/// Prefix the fields of a record outcome.
pub open spec fn with_fields_prefix(p: Seq<Seq<char>>, r: Result<RecordOutcome, ErrorModel>) -> Result<
    RecordOutcome,
    ErrorModel,
> {
    match r {
        Ok(rec) => Ok(
            RecordOutcome { fields: p + rec.fields, at_eof: rec.at_eof, rest: rec.rest },
        ),
        Err(e) => Err(e),
    }
}

/// Prefix rows onto a row-scan result.
pub open spec fn with_rows_prefix(
    p: Seq<Seq<Seq<char>>>,
    r: Result<Seq<Seq<Seq<char>>>, ErrorModel>,
) -> Result<Seq<Seq<Seq<char>>>, ErrorModel> {
    match r {
        Ok(rows) => Ok(p + rows),
        Err(e) => Err(e),
    }
}

/// Prefixing field content twice is prefixing the concatenation.
proof fn lemma_outcome_prefix_assoc(a: Seq<char>, b: Seq<char>, f: FieldOutcome)
    ensures
        outcome_with_prefix(a, outcome_with_prefix(b, f)) == outcome_with_prefix(a + b, f),
{
    assert(outcome_with_prefix(a, outcome_with_prefix(b, f)) =~= outcome_with_prefix(a + b, f));
}

/// Prefixing field content twice is prefixing the concatenation.
proof fn lemma_field_prefix_assoc(a: Seq<char>, b: Seq<char>, r: Result<FieldOutcome, ErrorModel>)
    ensures
        with_field_prefix(a, with_field_prefix(b, r)) == with_field_prefix(a + b, r),
{
    match r {
        Ok(f) => {
            assert(FieldOutcome {
                field: a + (b + f.field),
                term: f.term,
                rest: f.rest,
                col: f.col,
            } =~= FieldOutcome { field: (a + b) + f.field, term: f.term, rest: f.rest, col: f.col });
        },
        Err(_) => {},
    }
}

/// Prefixing fields twice is prefixing the concatenation.
proof fn lemma_fields_prefix_assoc(
    a: Seq<Seq<char>>,
    b: Seq<Seq<char>>,
    r: Result<RecordOutcome, ErrorModel>,
)
    ensures
        with_fields_prefix(a, with_fields_prefix(b, r)) == with_fields_prefix(a + b, r),
{
    match r {
        Ok(rec) => {
            assert(RecordOutcome {
                fields: a + (b + rec.fields),
                at_eof: rec.at_eof,
                rest: rec.rest,
            } =~= RecordOutcome { fields: (a + b) + rec.fields, at_eof: rec.at_eof, rest: rec.rest });
        },
        Err(_) => {},
    }
}

/// Prefixing rows twice is prefixing the concatenation.
proof fn lemma_rows_prefix_assoc(
    a: Seq<Seq<Seq<char>>>,
    b: Seq<Seq<Seq<char>>>,
    r: Result<Seq<Seq<Seq<char>>>, ErrorModel>,
)
    ensures
        with_rows_prefix(a, with_rows_prefix(b, r)) == with_rows_prefix(a + b, r),
{
    match r {
        Ok(rows) => {
            assert((a + (b + rows)) =~= ((a + b) + rows));
        },
        Err(_) => {},
    }
}

/// The model of an expected field count.
pub open spec fn expected_model(e: Option<usize>) -> Option<int> {
    match e {
        Some(u) => Some(u as int),
        None => None,
    }
}

/// Parser for ESV data.
#[derive(Debug, Clone)]
pub struct EsvParser {
    separator: char,
    has_headers: bool,
    strict_field_count: bool,
}

impl Default for EsvParser {
    /// A parser with the default settings.
    fn default() -> (r: Self)
        ensures
            r.spec_separator() == DEFAULT_SEPARATOR,
            !r.spec_has_headers(),
            !r.spec_strict(),
    {
        Self::new()
    }
}

impl EsvParser {
    /// The configured separator.
    pub closed spec fn spec_separator(&self) -> char {
        self.separator
    }

    /// Whether the first row is treated as headers.
    pub closed spec fn spec_has_headers(&self) -> bool {
        self.has_headers
    }

    /// Whether every record must have the field count of the first row.
    pub closed spec fn spec_strict(&self) -> bool {
        self.strict_field_count
    }

    /// Create a new parser with default settings.
    #[must_use]
    pub fn new() -> (r: Self)
        ensures
            r.spec_separator() == DEFAULT_SEPARATOR,
            !r.spec_has_headers(),
            !r.spec_strict(),
    {
        Self { separator: DEFAULT_SEPARATOR, has_headers: false, strict_field_count: false }
    }

    /// Set a custom emoji separator. It is validated when `parse` is called.
    #[must_use]
    pub fn with_separator(self, separator: char) -> (r: Self)
        ensures
            r.spec_separator() == separator,
            r.spec_has_headers() == self.spec_has_headers(),
            r.spec_strict() == self.spec_strict(),
    {
        Self {
            separator,
            has_headers: self.has_headers,
            strict_field_count: self.strict_field_count,
        }
    }

    /// Specify whether the first row should be treated as headers.
    #[must_use]
    pub fn with_headers(self, has_headers: bool) -> (r: Self)
        ensures
            r.spec_separator() == self.spec_separator(),
            r.spec_has_headers() == has_headers,
            r.spec_strict() == self.spec_strict(),
    {
        Self {
            separator: self.separator,
            has_headers,
            strict_field_count: self.strict_field_count,
        }
    }

    /// Enable strict field count validation: every row must have the same
    /// number of fields as the first.
    #[must_use]
    pub fn with_strict_field_count(self, strict: bool) -> (r: Self)
        ensures
            r.spec_separator() == self.spec_separator(),
            r.spec_has_headers() == self.spec_has_headers(),
            r.spec_strict() == strict,
    {
        Self { separator: self.separator, has_headers: self.has_headers, strict_field_count: strict }
    }

    /// Scan an unquoted field starting at position `i`.
    fn parse_unquoted_field(&self, v: &Vec<char>, i: usize, col: usize) -> (r: (
        String,
        FieldTerminator,
        usize,
        usize,
    ))
        requires
            i <= v@.len(),
            v@.len() < usize::MAX,
            col as int <= 1 + i as int,
        ensures
            ({
                let m = scan_unquoted(v@.skip(i as int), self.spec_separator(), col as int);
                &&& r.0@ == m.field
                &&& r.1 == m.term
                &&& v@.skip(r.2 as int) == m.rest
                &&& r.3 as int == m.col
                &&& i <= r.2 <= v@.len()
                &&& r.3 as int <= 1 + r.2 as int
                &&& (r.1 == FieldTerminator::Separator ==> r.2 > i)
            }),
    {
        let ghost whole = scan_unquoted(v@.skip(i as int), self.spec_separator(), col as int);
        let mut acc: Vec<char> = Vec::new();
        let mut j = i;
        let mut c = col;
        loop
            invariant
                i <= j <= v@.len(),
                v@.len() < usize::MAX,
                c as int <= 1 + j as int,
                whole == outcome_with_prefix(
                    acc@,
                    scan_unquoted(v@.skip(j as int), self.spec_separator(), c as int),
                ),
                whole == scan_unquoted(v@.skip(i as int), self.spec_separator(), col as int),
            decreases v@.len() - j,
        {
            let ghost cur = scan_unquoted(v@.skip(j as int), self.spec_separator(), c as int);
            if j == v.len() {
                proof {
                    assert(v@.skip(j as int).len() == 0);
                    assert(whole.field =~= acc@);
                }
                return (string_of_chars(acc), FieldTerminator::Eof, j, c);
            }
            let ch = v[j];
            proof {
                assert(v@.skip(j as int)[0] == v@[j as int]);
                assert(v@.skip(j as int).skip(1) =~= v@.skip(j as int + 1));
            }
            if ch == self.separator {
                proof {
                    assert(whole.field =~= acc@);
                }
                return (string_of_chars(acc), FieldTerminator::Separator, j + 1, c + 1);
            } else if ch == '\r' {
                let j2 = if j + 1 < v.len() && v[j + 1] == '\n' {
                    j + 2
                } else {
                    j + 1
                };
                proof {
                    if j + 1 < v@.len() && v@[j as int + 1] == '\n' {
                        assert(v@.skip(j as int).skip(2) =~= v@.skip(j as int + 2));
                        assert(after_crlf(v@.skip(j as int)) == v@.skip(j2 as int));
                    } else {
                        assert(after_crlf(v@.skip(j as int)) == v@.skip(j2 as int));
                    }
                    assert(whole.field =~= acc@);
                }
                return (string_of_chars(acc), FieldTerminator::LineBreak, j2, c);
            } else if ch == '\n' {
                proof {
                    assert(whole.field =~= acc@);
                }
                return (string_of_chars(acc), FieldTerminator::LineBreak, j + 1, c);
            } else {
                let ghost tail = scan_unquoted(
                    v@.skip(j as int + 1),
                    self.spec_separator(),
                    c as int + 1,
                );
                proof {
                    assert(cur == outcome_with_prefix(seq![v@[j as int]], tail));
                    lemma_outcome_prefix_assoc(acc@, seq![v@[j as int]], tail);
                    assert(acc@ + seq![v@[j as int]] =~= acc@.push(v@[j as int]));
                }
                acc.push(ch);
                j = j + 1;
                c = c + 1;
            }
        }
    }

    /// Scan the inside of a quoted field, after its opening quote.
    fn parse_quoted_field(&self, v: &Vec<char>, i: usize, line: usize, start_col: usize, col: usize)
        -> (r: Result<(String, FieldTerminator, usize, usize), EsvError>)
        requires
            i <= v@.len(),
            v@.len() < usize::MAX,
            col as int <= 1 + i as int,
        ensures
            (match (r, scan_quoted(
                v@.skip(i as int),
                self.spec_separator(),
                line as int,
                start_col as int,
                col as int,
            )) {
                (Ok((f, t, i2, c2)), Ok(m)) => {
                    &&& f@ == m.field
                    &&& t == m.term
                    &&& v@.skip(i2 as int) == m.rest
                    &&& c2 as int == m.col
                    &&& i <= i2 <= v@.len()
                    &&& c2 as int <= 1 + i2 as int
                },
                (Err(e), Err(me)) => e@ == me,
                _ => false,
            }),
    {
        let ghost whole = scan_quoted(
            v@.skip(i as int),
            self.spec_separator(),
            line as int,
            start_col as int,
            col as int,
        );
        let mut acc: Vec<char> = Vec::new();
        let mut j = i;
        let mut c = col;
        loop
            invariant
                i <= j <= v@.len(),
                v@.len() < usize::MAX,
                c as int <= 1 + j as int,
                whole == with_field_prefix(
                    acc@,
                    scan_quoted(
                        v@.skip(j as int),
                        self.spec_separator(),
                        line as int,
                        start_col as int,
                        c as int,
                    ),
                ),
                whole == scan_quoted(
                    v@.skip(i as int),
                    self.spec_separator(),
                    line as int,
                    start_col as int,
                    col as int,
                ),
            decreases v@.len() - j,
        {
            let ghost cur = scan_quoted(
                v@.skip(j as int),
                self.spec_separator(),
                line as int,
                start_col as int,
                c as int,
            );
            if j == v.len() {
                proof {
                    assert(v@.skip(j as int).len() == 0);
                }
                return Err(EsvError::UnclosedQuote { line, column: start_col });
            }
            let ch = v[j];
            proof {
                assert(v@.skip(j as int)[0] == v@[j as int]);
                assert(v@.skip(j as int).skip(1) =~= v@.skip(j as int + 1));
            }
            if ch == '"' {
                if j + 1 < v.len() && v[j + 1] == '"' {
                    // An escaped quote: collect one quote and continue.
                    let ghost tail = scan_quoted(
                        v@.skip(j as int + 2),
                        self.spec_separator(),
                        line as int,
                        start_col as int,
                        c as int + 2,
                    );
                    proof {
                        assert(v@.skip(j as int)[1] == v@[j as int + 1]);
                        assert(v@.skip(j as int).skip(2) =~= v@.skip(j as int + 2));
                        assert(cur == with_field_prefix(seq!['"'], tail));
                        lemma_field_prefix_assoc(acc@, seq!['"'], tail);
                        assert(acc@ + seq!['"'] =~= acc@.push('"'));
                    }
                    acc.push('"');
                    j = j + 2;
                    c = c + 2;
                } else {
                    // A closing quote: only a separator, a line break, or the
                    // end of the input may follow.
                    proof {
                        if j + 1 < v@.len() {
                            assert(v@.skip(j as int)[1] == v@[j as int + 1]);
                        }
                        assert(v@.skip(j as int).len() >= 2 ==> v@.skip(j as int)[1] != '"');
                        assert(cur == after_closing_quote(
                            v@.skip(j as int + 1),
                            self.spec_separator(),
                            line as int,
                            c as int + 1,
                        ));
                    }
                    let j1 = j + 1;
                    let c1 = c + 1;
                    if j1 == v.len() {
                        proof {
                            assert(v@.skip(j1 as int).len() == 0);
                            assert(whole->Ok_0.field =~= acc@);
                        }
                        return Ok((string_of_chars(acc), FieldTerminator::Eof, j1, c1));
                    }
                    let ch2 = v[j1];
                    proof {
                        assert(v@.skip(j1 as int)[0] == v@[j1 as int]);
                        assert(v@.skip(j1 as int).skip(1) =~= v@.skip(j1 as int + 1));
                    }
                    if ch2 == self.separator {
                        proof {
                            assert(whole->Ok_0.field =~= acc@);
                        }
                        return Ok((string_of_chars(acc), FieldTerminator::Separator, j1 + 1, c1 + 1));
                    } else if ch2 == '\r' {
                        let j2 = if j1 + 1 < v.len() && v[j1 + 1] == '\n' {
                            j1 + 2
                        } else {
                            j1 + 1
                        };
                        proof {
                            if j1 + 1 < v@.len() && v@[j1 as int + 1] == '\n' {
                                assert(v@.skip(j1 as int).skip(2) =~= v@.skip(j1 as int + 2));
                            }
                            assert(after_crlf(v@.skip(j1 as int)) == v@.skip(j2 as int));
                            assert(whole->Ok_0.field =~= acc@);
                        }
                        return Ok((string_of_chars(acc), FieldTerminator::LineBreak, j2, c1 + 1));
                    } else if ch2 == '\n' {
                        proof {
                            assert(whole->Ok_0.field =~= acc@);
                        }
                        return Ok((string_of_chars(acc), FieldTerminator::LineBreak, j1 + 1, c1));
                    } else {
                        return Err(EsvError::UnexpectedCharAfterQuote {
                            line,
                            column: c1,
                            found: ch2,
                        });
                    }
                }
            } else if ch == '\r' {
                let j2 = if j + 1 < v.len() && v[j + 1] == '\n' {
                    j + 2
                } else {
                    j + 1
                };
                let ghost tail = scan_quoted(
                    v@.skip(j2 as int),
                    self.spec_separator(),
                    line as int,
                    start_col as int,
                    1,
                );
                proof {
                    if j + 1 < v@.len() && v@[j as int + 1] == '\n' {
                        assert(v@.skip(j as int).skip(2) =~= v@.skip(j as int + 2));
                    }
                    assert(after_crlf(v@.skip(j as int)) == v@.skip(j2 as int));
                    assert(cur == with_field_prefix(seq!['\n'], tail));
                    lemma_field_prefix_assoc(acc@, seq!['\n'], tail);
                    assert(acc@ + seq!['\n'] =~= acc@.push('\n'));
                }
                acc.push('\n');
                j = j2;
                c = 1;
            } else if ch == '\n' {
                let ghost tail = scan_quoted(
                    v@.skip(j as int + 1),
                    self.spec_separator(),
                    line as int,
                    start_col as int,
                    1,
                );
                proof {
                    assert(cur == with_field_prefix(seq!['\n'], tail));
                    lemma_field_prefix_assoc(acc@, seq!['\n'], tail);
                    assert(acc@ + seq!['\n'] =~= acc@.push('\n'));
                }
                acc.push('\n');
                j = j + 1;
                c = 1;
            } else {
                let ghost tail = scan_quoted(
                    v@.skip(j as int + 1),
                    self.spec_separator(),
                    line as int,
                    start_col as int,
                    c as int + 1,
                );
                proof {
                    assert(cur == with_field_prefix(seq![v@[j as int]], tail));
                    lemma_field_prefix_assoc(acc@, seq![v@[j as int]], tail);
                    assert(acc@ + seq![v@[j as int]] =~= acc@.push(v@[j as int]));
                }
                acc.push(ch);
                j = j + 1;
                c = c + 1;
            }
        }
    }


    /// Scan one record starting at position `i`: fields separated by the
    /// separator, ended by a line break or the end of the input.
    fn parse_record(&self, v: &Vec<char>, i: usize, line: usize) -> (r: Result<
        (Vec<String>, bool, usize),
        EsvError,
    >)
        requires
            i <= v@.len(),
            v@.len() < usize::MAX,
        ensures
            (match (r, scan_record(v@.skip(i as int), self.spec_separator(), line as int, 1)) {
                (Ok((fields, at_eof, i2)), Ok(m)) => {
                    &&& fields.deep_view() == m.fields
                    &&& at_eof == m.at_eof
                    &&& v@.skip(i2 as int) == m.rest
                    &&& i <= i2 <= v@.len()
                },
                (Err(e), Err(me)) => e@ == me,
                _ => false,
            }),
    {
        let ghost whole = scan_record(v@.skip(i as int), self.spec_separator(), line as int, 1);
        let mut fields: Vec<String> = Vec::new();
        let mut j = i;
        let mut col: usize = 1;
        loop
            invariant
                i <= j <= v@.len(),
                v@.len() < usize::MAX,
                col as int <= 1 + j as int,
                whole == with_fields_prefix(
                    fields.deep_view(),
                    scan_record(v@.skip(j as int), self.spec_separator(), line as int, col as int),
                ),
                whole == scan_record(v@.skip(i as int), self.spec_separator(), line as int, 1),
            decreases v@.len() - j,
        {
            let ghost cur = scan_record(
                v@.skip(j as int),
                self.spec_separator(),
                line as int,
                col as int,
            );
            let fr = self.parse_field(v, j, line, col);
            match fr {
                Err(e) => {
                    proof {
                        assert(cur == Err::<RecordOutcome, ErrorModel>(e@));
                    }
                    return Err(e);
                },
                Ok((f, t, j2, c2)) => {
                    let ghost fv = f@;
                    let ghost pre = fields.deep_view();
                    let ghost pre_seq = fields@;
                    fields.push(f);
                    proof {
                        assert forall|k: int| 0 <= k < pre_seq.len() + 1 implies #[trigger] fields
                            .deep_view()[k] == pre.push(fv)[k] by {
                            if k < pre_seq.len() {
                                assert(fields@[k] == pre_seq[k]);
                            } else {
                                assert(fields@[k]@ == fv);
                            }
                        }
                        assert(fields.deep_view() =~= pre.push(fv));
                        assert(pre + seq![fv] =~= pre.push(fv));
                    }
                    match t {
                        FieldTerminator::Separator => {
                            let ghost tail = scan_record(
                                v@.skip(j2 as int),
                                self.spec_separator(),
                                line as int,
                                c2 as int,
                            );
                            proof {
                                assert(cur == with_fields_prefix(seq![fv], tail));
                                lemma_fields_prefix_assoc(pre, seq![fv], tail);
                            }
                            j = j2;
                            col = c2;
                        },
                        FieldTerminator::LineBreak => {
                            proof {
                                assert(cur matches Ok(m) && m.fields =~= seq![fv] && !m.at_eof
                                    && m.rest == v@.skip(j2 as int));
                            }
                            return Ok((fields, false, j2));
                        },
                        FieldTerminator::Eof => {
                            proof {
                                assert(cur matches Ok(m) && m.fields =~= seq![fv] && m.at_eof
                                    && m.rest == v@.skip(j2 as int));
                            }
                            return Ok((fields, true, j2));
                        },
                    }
                },
            }
        }
    }

    /// Parse ESV data from a string.
    ///
    /// The result is exactly what the specification-level parse gives:
    /// validation of the separator first; empty input as an empty document;
    /// otherwise record scanning with optional strict field counting,
    /// suppression of a trailing record that the final line break would
    /// otherwise fabricate, and promotion of the first record to headers in
    /// header mode.
    pub fn parse(&self, input: &str) -> (r: Result<EsvDocument, EsvError>)
        ensures
            parse_result_model(r) == spec_parse(
                input@,
                self.spec_separator(),
                self.spec_has_headers(),
                self.spec_strict(),
            ),
    {
        match crate::validate_separator(self.separator) {
            Err(e) => {
                return Err(e);
            },
            Ok(_) => {},
        }
        let v = chars_of_str(input);
        let n = v.len();
        if n == 0 {
            let empty: Vec<Vec<String>> = Vec::new();
            let d = EsvDocument::new(empty);
            proof {
                assert(d@.records =~= Seq::<Seq<Seq<char>>>::empty());
                assert(d@ =~= DocumentModel { headers: None, records: Seq::empty() });
            }
            return Ok(d);
        }
        let mut records: Vec<Vec<String>> = Vec::new();
        let mut i: usize = 0;
        let mut line: usize = 1;
        let mut expected: Option<usize> = None;
        let ghost whole = scan_rows(v@, self.spec_separator(), 1, self.spec_strict(), None);
        proof {
            assert(v@.skip(0) =~= v@);
        }
        loop
            invariant_except_break
                spec_is_emoji(self.spec_separator()),
                n == v@.len(),
                0 < v@.len() < usize::MAX,
                v@ == input@,
                i <= v@.len(),
                1 <= line,
                line as int <= 1 + i as int,
                whole == with_rows_prefix(
                    records.deep_view(),
                    scan_rows(
                        v@.skip(i as int),
                        self.spec_separator(),
                        line as int,
                        self.spec_strict(),
                        expected_model(expected),
                    ),
                ),
                whole == scan_rows(v@, self.spec_separator(), 1, self.spec_strict(), None),
            ensures
                v@ == input@,
                whole == Ok::<Seq<Seq<Seq<char>>>, ErrorModel>(records.deep_view()),
                whole == scan_rows(v@, self.spec_separator(), 1, self.spec_strict(), None),
            decreases v@.len() - i,
        {
            let ghost cur = scan_rows(
                v@.skip(i as int),
                self.spec_separator(),
                line as int,
                self.spec_strict(),
                expected_model(expected),
            );
            let rr = self.parse_record(&v, i, line);
            match rr {
                Err(e) => {
                    proof {
                        assert(cur == Err::<Seq<Seq<Seq<char>>>, ErrorModel>(e@));
                    }
                    return Err(e);
                },
                Ok((fields, at_eof, i2)) => {
                    proof {
                        lemma_scan_record_progress(
                            v@.skip(i as int),
                            self.spec_separator(),
                            line as int,
                            1,
                        );
                    }
                    let ghost fv = fields.deep_view();
                    let count = fields.len();
                    if self.strict_field_count {
                        match expected {
                            None => {
                                expected = Some(count);
                            },
                            Some(exp) => {
                                if count != exp {
                                    proof {
                                        assert(cur == Err::<Seq<Seq<Seq<char>>>, ErrorModel>(
                                            ErrorModel::InconsistentFieldCount {
                                                expected: exp as int,
                                                found: count as int,
                                                line: line as int,
                                            },
                                        ));
                                    }
                                    return Err(EsvError::InconsistentFieldCount {
                                        expected: exp,
                                        found: count,
                                        line,
                                    });
                                }
                            },
                        }
                    }
                    let empty_single = if count == 1 {
                        let first = &fields[0];
                        first.as_str().is_empty()
                    } else {
                        false
                    };
                    let suppressed = at_eof && (count == 0 || (count == 1 && empty_single));
                    let ghost pre = records.deep_view();
                    let ghost pre_seq = records@;
                    let ghost these = if suppressed {
                        Seq::<Seq<Seq<char>>>::empty()
                    } else {
                        seq![fv]
                    };
                    if !suppressed {
                        records.push(fields);
                        proof {
                            assert forall|k: int| 0 <= k < pre_seq.len() + 1 implies #[trigger]
                                records.deep_view()[k] == pre.push(fv)[k] by {
                                if k < pre_seq.len() {
                                    assert(records@[k] == pre_seq[k]);
                                } else {
                                    assert(records@[k].deep_view() == fv);
                                }
                            }
                            assert(records.deep_view() =~= pre.push(fv));
                        }
                    }
                    proof {
                        assert(pre + these =~= records.deep_view());
                    }
                    if at_eof {
                        proof {
                            assert(cur == Ok::<Seq<Seq<Seq<char>>>, ErrorModel>(these));
                        }
                        break;
                    }
                    let ghost tail = scan_rows(
                        v@.skip(i2 as int),
                        self.spec_separator(),
                        line as int + 1,
                        self.spec_strict(),
                        expected_model(expected),
                    );
                    proof {
                        assert(cur == with_rows_prefix(these, tail));
                        lemma_rows_prefix_assoc(pre, these, tail);
                    }
                    i = i2;
                    line = line + 1;
                },
            }
        }
        if self.has_headers && records.len() > 0 {
            let ghost rows_deep = records.deep_view();
            let ghost rows_seq = records@;
            let headers = records.remove(0);
            proof {
                assert(rows_seq.remove(0) =~= rows_seq.skip(1));
                assert forall|k: int| 0 <= k < rows_seq.len() - 1 implies #[trigger] records
                    .deep_view()[k] == rows_deep.skip(1)[k] by {
                    assert(records@[k] == rows_seq[k + 1]);
                }
                assert(records.deep_view() =~= rows_deep.skip(1));
                assert(headers.deep_view() == rows_deep[0]);
            }
            let d = EsvDocument::with_headers(headers, records);
            proof {
                assert(d@ =~= DocumentModel {
                    headers: Some(rows_deep[0]),
                    records: rows_deep.skip(1),
                });
            }
            Ok(d)
        } else {
            let ghost rows_deep = records.deep_view();
            let d = EsvDocument::new(records);
            proof {
                assert(d@ =~= DocumentModel { headers: None, records: rows_deep });
            }
            Ok(d)
        }
    }

    /// Scan one field starting at position `i`: quoted if and only if the
    /// first character is a double quote.
    fn parse_field(&self, v: &Vec<char>, i: usize, line: usize, col: usize) -> (r: Result<
        (String, FieldTerminator, usize, usize),
        EsvError,
    >)
        requires
            i <= v@.len(),
            v@.len() < usize::MAX,
            col as int <= 1 + i as int,
        ensures
            (match (r, scan_field(
                v@.skip(i as int),
                self.spec_separator(),
                line as int,
                col as int,
            )) {
                (Ok((f, t, i2, c2)), Ok(m)) => {
                    &&& f@ == m.field
                    &&& t == m.term
                    &&& v@.skip(i2 as int) == m.rest
                    &&& c2 as int == m.col
                    &&& i <= i2 <= v@.len()
                    &&& c2 as int <= 1 + i2 as int
                    &&& (t == FieldTerminator::Separator ==> i2 > i)
                },
                (Err(e), Err(me)) => e@ == me,
                _ => false,
            }),
    {
        if i < v.len() && v[i] == '"' {
            proof {
                assert(v@.skip(i as int)[0] == v@[i as int]);
                assert(v@.skip(i as int).skip(1) =~= v@.skip(i as int + 1));
            }
            let r = self.parse_quoted_field(v, i + 1, line, col, col + 1);
            proof {
                if r is Ok {
                    lemma_scan_quoted_progress(
                        v@.skip(i as int + 1),
                        self.spec_separator(),
                        line as int,
                        col as int,
                        col as int + 1,
                    );
                }
            }
            r
        } else {
            proof {
                if v@.len() > i as int {
                    assert(v@.skip(i as int)[0] == v@[i as int]);
                }
            }
            let (f, t, i2, c2) = self.parse_unquoted_field(v, i, col);
            Ok((f, t, i2, c2))
        }
    }
}


/// The model of a parse result: documents and errors by their views.
pub open spec fn parse_result_model(r: Result<EsvDocument, EsvError>) -> Result<
    DocumentModel,
    ErrorModel,
> {
    match r {
        Ok(d) => Ok(d@),
        Err(e) => Err(e@),
    }
}

} // verus!
