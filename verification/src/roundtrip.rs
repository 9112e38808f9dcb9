//! The round-trip guarantee: parsing the serialized form of a well-formed
//! document gives the document back, headers and record order preserved.
//!
//! Well-formed means: every row has at least one field (the parser cannot
//! produce a zero-field record, so every parsed document qualifies), and no
//! field contains a carriage return (quoted content normalizes CR and CRLF
//! to LF when read back).

use vstd::prelude::*;

use crate::document::DocumentModel;
use crate::parser::FieldOutcome;
use crate::parser::FieldTerminator;
use crate::parser::RecordOutcome;
use crate::parser::after_closing_quote;
use crate::parser::after_crlf;
use crate::parser::scan_field;
use crate::parser::scan_quoted;
use crate::parser::scan_record;
use crate::parser::scan_rows;
use crate::parser::spec_parse;
use crate::parser::scan_unquoted;
use crate::serializer::LineEnding;
use crate::serializer::document_rows;
use crate::serializer::escape_quotes;
use crate::serializer::field_has_special;
use crate::serializer::line_break;
use crate::serializer::serialized_field;
use crate::serializer::serialized_record;
use crate::serializer::serialized_rows;
use crate::serializer::spec_serialize;
use crate::spec_is_emoji;

verus! {

/// A field that survives a round trip: it contains no carriage return.
pub open spec fn field_wf(f: Seq<char>) -> bool {
    forall|k: int| 0 <= k < f.len() ==> #[trigger] f[k] != '\r'
}

/// A row that survives a round trip: at least one field, all of them
/// round-trippable.
pub open spec fn row_wf(r: Seq<Seq<char>>) -> bool {
    &&& r.len() >= 1
    &&& forall|k: int| 0 <= k < r.len() ==> #[trigger] field_wf(r[k])
}

/// A document that survives a round trip: every row well-formed.
pub open spec fn document_wf(d: DocumentModel) -> bool {
    &&& (match d.headers {
        Some(h) => row_wf(h),
        None => true,
    })
    &&& forall|k: int| 0 <= k < d.records.len() ==> #[trigger] row_wf(d.records[k])
}

/// An allowed separator has a code point far above the ASCII range, so it is
/// never one of the characters with structural meaning.
pub proof fn lemma_emoji_not_structural(sep: char)
    requires
        spec_is_emoji(sep),
    ensures
        sep != '"',
        sep != '\r',
        sep != '\n',
{
}

/// What may follow a serialized field in serialized text: nothing, the
/// separator, or a line-break start.
pub open spec fn follows_field(s: Seq<char>, sep: char) -> bool {
    s.len() == 0 || s[0] == sep || s[0] == '\n' || s[0] == '\r'
}

/// The terminator that such a suffix produces.
pub open spec fn suffix_term(s: Seq<char>, sep: char) -> FieldTerminator {
    if s.len() == 0 {
        FieldTerminator::Eof
    } else if s[0] == sep {
        FieldTerminator::Separator
    } else {
        FieldTerminator::LineBreak
    }
}

/// The input remaining after such a suffix's terminator is consumed.
pub open spec fn suffix_rest(s: Seq<char>, sep: char) -> Seq<char> {
    if s.len() == 0 {
        s
    } else if s[0] == '\r' {
        after_crlf(s)
    } else {
        s.skip(1)
    }
}

/// Scanning an unquoted field that was written unquoted gives the field
/// back, ended by whatever follows it.
proof fn lemma_scan_unquoted_of_plain(f: Seq<char>, suffix: Seq<char>, sep: char, col: int)
    requires
        !field_has_special(f, sep),
        sep != '\r',
        follows_field(suffix, sep),
    ensures
        ({
            let m = scan_unquoted(f + suffix, sep, col);
            &&& m.field == f
            &&& m.term == suffix_term(suffix, sep)
            &&& m.rest == suffix_rest(suffix, sep)
        }),
    decreases f.len(),
{
    let s = f + suffix;
    if f.len() == 0 {
        assert(s =~= suffix);
        let m = scan_unquoted(s, sep, col);
        if suffix.len() == 0 {
            assert(m.field =~= f);
            assert(m.term == suffix_term(suffix, sep));
            assert(m.rest == suffix_rest(suffix, sep));
        } else {
            assert(m.field =~= f);
            if suffix[0] == '\r' {
                assert(after_crlf(s) == after_crlf(suffix));
            }
            assert(m.term == suffix_term(suffix, sep));
            assert(m.rest == suffix_rest(suffix, sep));
        }
    } else {
        assert(s[0] == f[0]);
        if f[0] == sep || f[0] == '"' || f[0] == '\n' || f[0] == '\r' {
            assert(field_has_special(f, sep));
        }
        assert(s.skip(1) =~= f.skip(1) + suffix);
        if field_has_special(f.skip(1), sep) {
            let k = choose|k: int|
                0 <= k < f.skip(1).len() && (f.skip(1)[k] == sep || f.skip(1)[k] == '"' || f.skip(
                    1,
                )[k] == '\n' || f.skip(1)[k] == '\r');
            assert(f[k + 1] == f.skip(1)[k]);
            assert(field_has_special(f, sep));
        }
        lemma_scan_unquoted_of_plain(f.skip(1), suffix, sep, col + 1);
        assert(scan_unquoted(s, sep, col).field =~= seq![f[0]] + f.skip(1));
        assert(seq![f[0]] + f.skip(1) =~= f);
    }
}

/// Scanning quoted content that was written by escaping a field gives the
/// field back: the closing quote is found, and whatever follows it ends the
/// field.
proof fn lemma_scan_quoted_of_escaped(
    f: Seq<char>,
    suffix: Seq<char>,
    sep: char,
    line: int,
    start_col: int,
    col: int,
)
    requires
        field_wf(f),
        sep != '"',
        sep != '\r',
        follows_field(suffix, sep),
    ensures
        ({
            let m = scan_quoted(escape_quotes(f) + seq!['"'] + suffix, sep, line, start_col, col);
            &&& m matches Ok(o)
            &&& m->Ok_0.field == f
            &&& m->Ok_0.term == suffix_term(suffix, sep)
            &&& m->Ok_0.rest == suffix_rest(suffix, sep)
        }),
    decreases f.len(),
{
    let s = escape_quotes(f) + seq!['"'] + suffix;
    if f.len() == 0 {
        assert(escape_quotes(f) =~= Seq::<char>::empty());
        assert(s =~= seq!['"'] + suffix);
        assert(s[0] == '"');
        if s.len() >= 2 {
            assert(s[1] == suffix[0]);
            assert(s[1] != '"');
        }
        assert(s.skip(1) =~= suffix);
        let m = after_closing_quote(suffix, sep, line, col + 1);
        assert(scan_quoted(s, sep, line, start_col, col) == m);
        assert(m matches Ok(o));
        assert(m->Ok_0.field =~= f);
        assert(m->Ok_0.term == suffix_term(suffix, sep));
        assert(m->Ok_0.rest == suffix_rest(suffix, sep));
    } else {
        let head: Seq<char> = if f[0] == '"' {
            seq!['"', '"']
        } else {
            seq![f[0]]
        };
        assert(escape_quotes(f) == head + escape_quotes(f.skip(1)));
        assert(field_wf(f.skip(1))) by {
            assert forall|k: int| 0 <= k < f.skip(1).len() implies #[trigger] f.skip(1)[k] != '\r'
            by {
                assert(f.skip(1)[k] == f[k + 1]);
            }
        }
        if f[0] == '"' {
            assert(s[0] == '"');
            assert(s[1] == '"');
            assert(s.skip(2) =~= escape_quotes(f.skip(1)) + seq!['"'] + suffix);
            lemma_scan_quoted_of_escaped(f.skip(1), suffix, sep, line, start_col, col + 2);
            assert(scan_quoted(s, sep, line, start_col, col)->Ok_0.field =~= seq!['"'] + f.skip(1));
            assert(seq!['"'] + f.skip(1) =~= f);
        } else {
            assert(s[0] == f[0]);
            assert(f[0] != '\r');
            assert(s.skip(1) =~= escape_quotes(f.skip(1)) + seq!['"'] + suffix);
            if f[0] == '\n' {
                lemma_scan_quoted_of_escaped(f.skip(1), suffix, sep, line, start_col, 1);
            } else {
                lemma_scan_quoted_of_escaped(f.skip(1), suffix, sep, line, start_col, col + 1);
            }
            assert(scan_quoted(s, sep, line, start_col, col)->Ok_0.field =~= seq![f[0]] + f.skip(
                1,
            ));
            assert(seq![f[0]] + f.skip(1) =~= f);
        }
    }
}

/// Scanning a serialized field gives the field back, whether it was written
/// quoted or not.
proof fn lemma_scan_field_of_serialized(
    f: Seq<char>,
    suffix: Seq<char>,
    sep: char,
    always: bool,
    line: int,
    col: int,
)
    requires
        spec_is_emoji(sep),
        field_wf(f),
        follows_field(suffix, sep),
    ensures
        ({
            let m = scan_field(serialized_field(f, sep, always) + suffix, sep, line, col);
            &&& m matches Ok(o)
            &&& m->Ok_0.field == f
            &&& m->Ok_0.term == suffix_term(suffix, sep)
            &&& m->Ok_0.rest == suffix_rest(suffix, sep)
        }),
{
    lemma_emoji_not_structural(sep);
    let s = serialized_field(f, sep, always) + suffix;
    if always || field_has_special(f, sep) {
        assert(s =~= seq!['"'] + (escape_quotes(f) + seq!['"'] + suffix));
        assert(s[0] == '"');
        assert(s.skip(1) =~= escape_quotes(f) + seq!['"'] + suffix);
        lemma_scan_quoted_of_escaped(f, suffix, sep, line, col, col + 1);
    } else {
        assert(s =~= f + suffix);
        if s.len() > 0 {
            if f.len() > 0 {
                assert(s[0] == f[0]);
                if f[0] == '"' {
                    assert(field_has_special(f, sep));
                }
            } else {
                assert(s[0] == suffix[0]);
            }
            assert(s[0] != '"');
        }
        lemma_scan_unquoted_of_plain(f, suffix, sep, col);
    }
}

/// Scanning a serialized record followed by a line break gives the record's
/// fields back, ended at the line break.
proof fn lemma_scan_record_of_serialized(
    r: Seq<Seq<char>>,
    suffix: Seq<char>,
    sep: char,
    always: bool,
    line: int,
    col: int,
)
    requires
        spec_is_emoji(sep),
        row_wf(r),
        suffix.len() > 0,
        suffix[0] == '\n' || suffix[0] == '\r',
    ensures
        ({
            let m = scan_record(serialized_record(r, sep, always) + suffix, sep, line, col);
            &&& m matches Ok(o)
            &&& m->Ok_0.fields == r
            &&& !m->Ok_0.at_eof
            &&& m->Ok_0.rest == suffix_rest(suffix, sep)
        }),
    decreases r.len(),
{
    lemma_emoji_not_structural(sep);
    let s = serialized_record(r, sep, always) + suffix;
    if r.len() == 1 {
        assert(s =~= serialized_field(r[0], sep, always) + suffix);
        lemma_scan_field_of_serialized(r[0], suffix, sep, always, line, col);
        assert(suffix_term(suffix, sep) == FieldTerminator::LineBreak);
        assert(scan_record(s, sep, line, col)->Ok_0.fields =~= r);
    } else {
        let tail_text = serialized_record(r.skip(1), sep, always) + suffix;
        let suffix2 = seq![sep] + tail_text;
        assert(s =~= serialized_field(r[0], sep, always) + suffix2);
        assert(suffix2[0] == sep);
        lemma_scan_field_of_serialized(r[0], suffix2, sep, always, line, col);
        assert(suffix_term(suffix2, sep) == FieldTerminator::Separator);
        assert(suffix_rest(suffix2, sep) =~= tail_text);
        assert(row_wf(r.skip(1))) by {
            assert forall|k: int| 0 <= k < r.skip(1).len() implies #[trigger] field_wf(r.skip(1)[k])
            by {
                assert(r.skip(1)[k] == r[k + 1]);
            }
        }
        let m0 = scan_field(s, sep, line, col);
        lemma_scan_record_of_serialized(r.skip(1), suffix, sep, always, line, m0->Ok_0.col);
        assert(scan_record(s, sep, line, col)->Ok_0.fields =~= seq![r[0]] + r.skip(1));
        assert(seq![r[0]] + r.skip(1) =~= r);
    }
}

/// Scanning the serialization of a non-empty row sequence, in non-strict
/// mode, gives the rows back: each line break continues the scan, and the
/// trailing line break produces only the suppressed empty record.
#[verifier::rlimit(50)]
proof fn lemma_scan_rows_of_serialized(
    rows: Seq<Seq<Seq<char>>>,
    sep: char,
    always: bool,
    le: LineEnding,
    line: int,
)
    requires
        spec_is_emoji(sep),
        rows.len() > 0,
        forall|k: int| 0 <= k < rows.len() ==> #[trigger] row_wf(rows[k]),
    ensures
        scan_rows(serialized_rows(rows, sep, always, le), sep, line, false, None) == Ok::<
            Seq<Seq<Seq<char>>>,
            crate::ErrorModel,
        >(rows),
    decreases rows.len(),
{
    lemma_emoji_not_structural(sep);
    let tail_text = serialized_rows(rows.skip(1), sep, always, le);
    let suffix = line_break(le) + tail_text;
    let s = serialized_rows(rows, sep, always, le);
    assert(s =~= serialized_record(rows[0], sep, always) + suffix);
    assert(suffix[0] == '\n' || suffix[0] == '\r');
    lemma_scan_record_of_serialized(rows[0], suffix, sep, always, line, 1);
    assert(suffix_rest(suffix, sep) =~= tail_text) by {
        if suffix[0] == '\r' {
            assert(line_break(le) =~= seq!['\r', '\n']);
            assert(suffix[1] == '\n');
            assert(suffix.skip(2) =~= tail_text);
        } else {
            assert(suffix.skip(1) =~= tail_text);
        }
    }
    if rows.len() == 1 {
        assert(rows.skip(1).len() == 0);
        assert(tail_text =~= Seq::<char>::empty());
        let e: Seq<char> = Seq::empty();
        assert(scan_unquoted(e, sep, 1) == FieldOutcome {
            field: Seq::<char>::empty(),
            term: FieldTerminator::Eof,
            rest: e,
            col: 1,
        });
        assert(scan_field(e, sep, line + 1, 1) == Ok::<FieldOutcome, crate::ErrorModel>(
            FieldOutcome {
                field: Seq::<char>::empty(),
                term: FieldTerminator::Eof,
                rest: e,
                col: 1,
            },
        ));
        assert(scan_record(e, sep, line + 1, 1) == Ok::<RecordOutcome, crate::ErrorModel>(
            RecordOutcome { fields: seq![Seq::<char>::empty()], at_eof: true, rest: e },
        ));
        assert(scan_rows(e, sep, line + 1, false, None) == Ok::<
            Seq<Seq<Seq<char>>>,
            crate::ErrorModel,
        >(Seq::empty()));
        assert(seq![rows[0]] + Seq::<Seq<Seq<char>>>::empty() =~= rows);
    } else {
        lemma_scan_rows_of_serialized(rows.skip(1), sep, always, le, line + 1);
        assert(seq![rows[0]] + rows.skip(1) =~= rows);
    }
}

/// Round trip: parsing the serialization of any well-formed document, with
/// header mode matching the document and strict mode off, yields exactly the
/// document, whatever separator, forced quoting, and line ending were used
/// to write it.
pub proof fn lemma_round_trip(d: DocumentModel, sep: char, always: bool, le: LineEnding)
    requires
        spec_is_emoji(sep),
        document_wf(d),
    ensures
        spec_parse(spec_serialize(d, sep, always, le), sep, d.headers is Some, false) == Ok::<
            DocumentModel,
            crate::ErrorModel,
        >(d),
{
    let rows = document_rows(d);
    let text = spec_serialize(d, sep, always, le);
    if rows.len() == 0 {
        assert(d.headers is None);
        assert(text =~= Seq::<char>::empty());
        assert(d =~= DocumentModel { headers: None, records: Seq::empty() });
    } else {
        assert forall|k: int| 0 <= k < rows.len() implies #[trigger] row_wf(rows[k]) by {
            match d.headers {
                Some(h) => {
                    if k == 0 {
                        assert(rows[0] == h);
                    } else {
                        assert(rows[k] == d.records[k - 1]);
                    }
                },
                None => {
                    assert(rows[k] == d.records[k]);
                },
            }
        }
        lemma_scan_rows_of_serialized(rows, sep, always, le, 1);
        assert(text.len() > 0);
        match d.headers {
            Some(h) => {
                assert(rows[0] == h);
                assert(rows.skip(1) =~= d.records);
                assert(DocumentModel { headers: Some(rows[0]), records: rows.skip(1) } =~= d);
            },
            None => {
                assert(DocumentModel { headers: None, records: rows } =~= d);
            },
        }
    }
}

/// Quoting minimality: a field with no separator, quote, or line-break
/// character is written as itself when quoting is not forced; a field with
/// any of them, or any field under forced quoting, is written wrapped in
/// quotes with its internal quotes doubled.
pub proof fn lemma_quoting_minimal(f: Seq<char>, sep: char, always: bool)
    ensures
        !always && !field_has_special(f, sep) ==> serialized_field(f, sep, always) == f,
        always || field_has_special(f, sep) ==> serialized_field(f, sep, always) == seq!['"']
            + escape_quotes(f) + seq!['"'],
{
}

} // verus!
