//! Guarantees of the parser beyond its exact contract: how strict field
//! counting relates to the non-strict parse, and when a trailing line
//! terminator is neutral.

use vstd::prelude::*;

use crate::error::ErrorModel;
use crate::parser::FieldOutcome;
use crate::parser::FieldTerminator;
use crate::parser::RecordOutcome;
use crate::parser::after_crlf;
use crate::parser::lemma_scan_record_progress;
use crate::parser::lemma_scan_unquoted_progress;
use crate::parser::scan_field;
use crate::parser::scan_quoted;
use crate::parser::scan_record;
use crate::parser::scan_rows;
use crate::parser::scan_unquoted;
use crate::parser::spec_parse;
use crate::roundtrip::lemma_emoji_not_structural;
use crate::spec_is_emoji;

verus! {

/// Under strict counting with an established expected count, a row sequence
/// containing any record of a different count fails with an
/// inconsistent-field-count error.
proof fn lemma_scan_rows_strict_mismatch(
    s: Seq<char>,
    sep: char,
    line: int,
    e: int,
    rows: Seq<Seq<Seq<char>>>,
)
    requires
        scan_rows(s, sep, line, false, None) == Ok::<Seq<Seq<Seq<char>>>, ErrorModel>(rows),
        exists|k: int| 0 <= k < rows.len() && #[trigger] rows[k].len() != e,
    ensures
        scan_rows(s, sep, line, true, Some(e)) matches Err(err) && err matches
            ErrorModel::InconsistentFieldCount { .. },
    decreases s.len(),
{
    lemma_scan_record_progress(s, sep, line, 1);
    let rec = scan_record(s, sep, line, 1);
    let r = rec->Ok_0;
    let count = r.fields.len() as int;
    if count != e {
        // The strict scan fails right here.
    } else {
        let k = choose|k: int| 0 <= k < rows.len() && #[trigger] rows[k].len() != e;
        let suppressed = r.at_eof && (r.fields.len() == 0 || (r.fields.len() == 1
            && r.fields[0].len() == 0));
        if r.at_eof {
            // All rows of the non-strict result have count `e`, against the
            // hypothesis: this case cannot arise.
            if suppressed {
                assert(rows =~= Seq::<Seq<Seq<char>>>::empty());
            } else {
                assert(rows =~= seq![r.fields]);
                assert(rows[k] == r.fields);
            }
        } else {
            let rows2 = scan_rows(r.rest, sep, line + 1, false, None)->Ok_0;
            assert(rows =~= seq![r.fields] + rows2);
            assert(k >= 1) by {
                if k == 0 {
                    assert(rows[0] == r.fields);
                }
            }
            assert(rows2[k - 1] == rows[k]);
            assert(0 <= k - 1 < rows2.len() && rows2[k - 1].len() != e);
            lemma_scan_rows_strict_mismatch(r.rest, sep, line + 1, e, rows2);
        }
    }
}

/// Strict mode: when the non-strict parse of an input succeeds and any two
/// of its scanned records have different field counts, the strict parse of
/// the same input fails with an inconsistent-field-count error, while the
/// non-strict parse succeeds.
pub proof fn lemma_strict_mode(s: Seq<char>, sep: char, has_headers: bool, rows: Seq<Seq<Seq<char>>>)
    requires
        spec_is_emoji(sep),
        scan_rows(s, sep, 1, false, None) == Ok::<Seq<Seq<Seq<char>>>, ErrorModel>(rows),
        exists|i: int, j: int|
            0 <= i < rows.len() && 0 <= j < rows.len() && #[trigger] rows[i].len()
                != #[trigger] rows[j].len(),
    ensures
        spec_parse(s, sep, has_headers, true) matches Err(err) && err matches
            ErrorModel::InconsistentFieldCount { .. },
        spec_parse(s, sep, has_headers, false) is Ok,
{
    let (i, j) = choose|i: int, j: int|
        0 <= i < rows.len() && 0 <= j < rows.len() && #[trigger] rows[i].len()
            != #[trigger] rows[j].len();
    if s.len() == 0 {
        // An empty input scans to no rows at all, against the hypothesis.
        assert(rows =~= Seq::<Seq<Seq<char>>>::empty());
    } else {
        lemma_scan_record_progress(s, sep, 1, 1);
        let rec = scan_record(s, sep, 1, 1);
        let r = rec->Ok_0;
        let count = r.fields.len() as int;
        let suppressed = r.at_eof && (r.fields.len() == 0 || (r.fields.len() == 1
            && r.fields[0].len() == 0));
        if r.at_eof {
            // At most one row was produced, so no two rows can differ.
            if suppressed {
                assert(rows =~= Seq::<Seq<Seq<char>>>::empty());
            } else {
                assert(rows =~= seq![r.fields]);
                assert(rows[i] == r.fields && rows[j] == r.fields);
            }
        } else {
            let rows2 = scan_rows(r.rest, sep, 2, false, None)->Ok_0;
            assert(rows =~= seq![r.fields] + rows2);
            assert(rows[0] == r.fields);
            let k: int = if rows[i].len() != count {
                i
            } else {
                j
            };
            assert(rows[k].len() != count);
            assert(k >= 1) by {
                if k == 0 {
                    assert(rows[0] == r.fields);
                }
            }
            assert(rows2[k - 1] == rows[k]);
            assert(0 <= k - 1 < rows2.len() && rows2[k - 1].len() != count);
            lemma_scan_rows_strict_mismatch(r.rest, sep, 2, count, rows2);
        }
    }
}

/// How appending a line feed changes an unquoted scan: a field that ran to
/// the end of the input now ends at the line feed; any other terminator is
/// unchanged, with the line feed landing in the remaining input unless a
/// final carriage return absorbs it.
proof fn lemma_unquoted_newline(s: Seq<char>, sep: char, col: int)
    requires
        sep != '\r',
        sep != '\n',
    ensures
        ({
            let m = scan_unquoted(s, sep, col);
            let m2 = scan_unquoted(s + seq!['\n'], sep, col);
            &&& m2.field == m.field
            &&& m2.col == m.col
            &&& (m.term == FieldTerminator::Eof ==> m2.term == FieldTerminator::LineBreak
                && m2.rest == Seq::<char>::empty() && (s.len() > 0 ==> s[s.len() - 1] != '\r'))
            &&& (m.term != FieldTerminator::Eof ==> m2.term == m.term)
            &&& (m.term != FieldTerminator::Eof && m.rest.len() > 0 ==> m2.rest == m.rest
                + seq!['\n'])
            &&& (m.term != FieldTerminator::Eof && m.rest.len() == 0 && s.len() > 0 && s[s.len()
                - 1] == '\r' ==> m2.rest == Seq::<char>::empty())
            &&& (m.term != FieldTerminator::Eof && m.rest.len() == 0 && s.len() > 0 && s[s.len()
                - 1] != '\r' ==> m2.rest == seq!['\n'])
            &&& (m.term == FieldTerminator::Separator && m.rest.len() == 0 ==> s.len() > 0 && s[
                s.len() - 1] != '\r')
            &&& (m.rest.len() > 0 ==> s.len() > 0 && m.rest[m.rest.len() - 1] == s[s.len() - 1])
        }),
    decreases s.len(),
{
    let t = s + seq!['\n'];
    let m = scan_unquoted(s, sep, col);
    let m2 = scan_unquoted(t, sep, col);
    lemma_scan_unquoted_progress(s, sep, col);
    if s.len() == 0 {
        assert(t =~= seq!['\n']);
        assert(t[0] == '\n');
        assert(t.skip(1) =~= Seq::<char>::empty());
        assert(m2.field =~= m.field);
    } else {
        assert(t[0] == s[0]);
        assert(t.len() == s.len() + 1);
        assert(t[t.len() - 1] == '\n');
        if s[0] == sep {
            assert(t.skip(1) =~= s.skip(1) + seq!['\n']);
            if s.len() == 1 {
                assert(m.rest.len() == 0);
                assert(s[s.len() - 1] == sep);
                assert(m2.rest =~= seq!['\n']);
            } else {
                assert(m.rest[m.rest.len() - 1] == s[s.len() - 1]);
            }
        } else if s[0] == '\r' {
            if s.len() >= 2 {
                assert(t[1] == s[1]);
                if s[1] == '\n' {
                    assert(m.rest == s.skip(2));
                    assert(t.skip(2) =~= s.skip(2) + seq!['\n']);
                    assert(m2.rest == t.skip(2));
                    if s.len() == 2 {
                        assert(s[s.len() - 1] == '\n');
                        assert(m2.rest =~= seq!['\n']);
                    } else {
                        assert(m.rest[m.rest.len() - 1] == s[s.len() - 1]);
                    }
                } else {
                    assert(m.rest == s.skip(1));
                    assert(t.skip(1) =~= s.skip(1) + seq!['\n']);
                    assert(m2.rest == t.skip(1));
                    assert(m.rest[m.rest.len() - 1] == s[s.len() - 1]);
                }
            } else {
                // `s` is a lone carriage return: the appended line feed is
                // absorbed into the CRLF pair.
                assert(s[s.len() - 1] == '\r');
                assert(m.rest =~= Seq::<char>::empty());
                assert(t.len() == 2 && t[1] == '\n');
                assert(m2.rest =~= Seq::<char>::empty());
            }
        } else if s[0] == '\n' {
            assert(t.skip(1) =~= s.skip(1) + seq!['\n']);
            if s.len() == 1 {
                assert(s[s.len() - 1] == '\n');
                assert(m2.rest =~= seq!['\n']);
            } else {
                assert(m.rest[m.rest.len() - 1] == s[s.len() - 1]);
            }
        } else {
            assert(t.skip(1) =~= s.skip(1) + seq!['\n']);
            lemma_unquoted_newline(s.skip(1), sep, col + 1);
            if s.len() >= 2 {
                assert(s.skip(1)[s.skip(1).len() - 1] == s[s.len() - 1]);
            }
            assert(m.field =~= seq![s[0]] + scan_unquoted(s.skip(1), sep, col + 1).field);
            assert(m2.field =~= seq![s[0]] + scan_unquoted(t.skip(1), sep, col + 1).field);
            assert(m2.field =~= m.field);
        }
    }
}

/// How appending a line feed changes a successful quoted scan: the quoted
/// content itself is untouched; only what follows the closing quote changes,
/// in the same way as for an unquoted field.
proof fn lemma_quoted_newline(s: Seq<char>, sep: char, line: int, start_col: int, col: int)
    requires
        sep != '"',
        sep != '\r',
        sep != '\n',
    ensures
        ({
            let m = scan_quoted(s, sep, line, start_col, col);
            let m2 = scan_quoted(s + seq!['\n'], sep, line, start_col, col);
            m matches Ok(o) ==> {
                &&& m2 matches Ok(o2)
                &&& m2->Ok_0.field == o.field
                &&& m2->Ok_0.col == o.col
                &&& (o.term == FieldTerminator::Eof ==> m2->Ok_0.term == FieldTerminator::LineBreak
                    && m2->Ok_0.rest == Seq::<char>::empty() && (s.len() > 0 ==> s[s.len() - 1]
                    != '\r'))
                &&& (o.term != FieldTerminator::Eof ==> m2->Ok_0.term == o.term)
                &&& (o.term != FieldTerminator::Eof && o.rest.len() > 0 ==> m2->Ok_0.rest == o.rest
                    + seq!['\n'])
                &&& (o.term != FieldTerminator::Eof && o.rest.len() == 0 && s.len() > 0 && s[s.len()
                    - 1] == '\r' ==> m2->Ok_0.rest == Seq::<char>::empty())
                &&& (o.term != FieldTerminator::Eof && o.rest.len() == 0 && s.len() > 0 && s[s.len()
                    - 1] != '\r' ==> m2->Ok_0.rest == seq!['\n'])
                &&& (o.term == FieldTerminator::Separator && o.rest.len() == 0 ==> s.len() > 0
                    && s[s.len() - 1] != '\r')
                &&& (o.rest.len() > 0 ==> s.len() > 0 && o.rest[o.rest.len() - 1] == s[s.len() - 1])
            }
        }),
    decreases s.len(),
{
    let t = s + seq!['\n'];
    let m = scan_quoted(s, sep, line, start_col, col);
    let m2 = scan_quoted(t, sep, line, start_col, col);
    if s.len() == 0 {
        // An unclosed quote: nothing is claimed.
    } else {
        assert(t[0] == s[0]);
        assert(t.len() == s.len() + 1);
        assert(t[t.len() - 1] == '\n');
        if s[0] == '"' {
            if s.len() >= 2 && s[1] == '"' {
                assert(t[1] == s[1]);
                assert(t.skip(2) =~= s.skip(2) + seq!['\n']);
                lemma_quoted_newline(s.skip(2), sep, line, start_col, col + 2);
                if s.len() >= 3 {
                    assert(s.skip(2)[s.skip(2).len() - 1] == s[s.len() - 1]);
                }
                let r = scan_quoted(s.skip(2), sep, line, start_col, col + 2);
                if r is Ok {
                    assert(m->Ok_0.field =~= seq!['"'] + r->Ok_0.field);
                    assert(m2->Ok_0.field =~= seq!['"'] + scan_quoted(
                        t.skip(2),
                        sep,
                        line,
                        start_col,
                        col + 2,
                    )->Ok_0.field);
                    assert(m2->Ok_0.field =~= m->Ok_0.field);
                }
            } else {
                // A closing quote: what follows is examined directly.
                if s.len() >= 2 {
                    assert(t[1] == s[1]);
                    assert(t.len() >= 2 && t[1] != '"');
                }
                let u = s.skip(1);
                assert(t.skip(1) =~= u + seq!['\n']);
                let w = u + seq!['\n'];
                if u.len() == 0 {
                    assert(s[s.len() - 1] == '"');
                    assert(w =~= seq!['\n']);
                    assert(w[0] == '\n');
                    assert(w.skip(1) =~= Seq::<char>::empty());
                } else {
                    assert(u[u.len() - 1] == s[s.len() - 1]);
                    assert(w[0] == u[0]);
                    if u[0] == sep {
                        assert(w.skip(1) =~= u.skip(1) + seq!['\n']);
                        if u.len() == 1 {
                            assert(s[s.len() - 1] == sep);
                            assert(w.skip(1) =~= seq!['\n']);
                        } else {
                            assert(u.skip(1)[u.skip(1).len() - 1] == u[u.len() - 1]);
                        }
                    } else if u[0] == '\r' {
                        if u.len() >= 2 {
                            assert(w[1] == u[1]);
                            if u[1] == '\n' {
                                assert(w.skip(2) =~= u.skip(2) + seq!['\n']);
                                if u.len() == 2 {
                                    assert(w.skip(2) =~= seq!['\n']);
                                    assert(u[u.len() - 1] == '\n');
                                } else {
                                    assert(u.skip(2)[u.skip(2).len() - 1] == u[u.len() - 1]);
                                }
                            } else {
                                assert(w.skip(1) =~= u.skip(1) + seq!['\n']);
                                assert(u.skip(1)[u.skip(1).len() - 1] == u[u.len() - 1]);
                            }
                        } else {
                            // A lone final carriage return absorbs the line
                            // feed into a CRLF pair.
                            assert(u[u.len() - 1] == '\r');
                            assert(w.len() == 2 && w[1] == '\n');
                            assert(w.skip(2) =~= Seq::<char>::empty());
                        }
                    } else if u[0] == '\n' {
                        assert(w.skip(1) =~= u.skip(1) + seq!['\n']);
                        if u.len() == 1 {
                            assert(u[u.len() - 1] == '\n');
                            assert(w.skip(1) =~= seq!['\n']);
                        } else {
                            assert(u.skip(1)[u.skip(1).len() - 1] == u[u.len() - 1]);
                        }
                    }
                }
            }
        } else if s[0] == '\r' {
            let u = after_crlf(s);
            if s.len() >= 2 {
                assert(t[1] == s[1]);
                if s[1] == '\n' {
                    assert(t.skip(2) =~= s.skip(2) + seq!['\n']);
                    assert(after_crlf(t) =~= u + seq!['\n']);
                } else {
                    assert(t.skip(1) =~= s.skip(1) + seq!['\n']);
                    assert(after_crlf(t) =~= u + seq!['\n']);
                }
                lemma_quoted_newline(u, sep, line, start_col, 1);
                if u.len() > 0 {
                    assert(u[u.len() - 1] == s[s.len() - 1]);
                }
                let r = scan_quoted(u, sep, line, start_col, 1);
                if r is Ok {
                    assert(m->Ok_0.field =~= seq!['\n'] + r->Ok_0.field);
                    assert(m2->Ok_0.field =~= seq!['\n'] + scan_quoted(
                        after_crlf(t),
                        sep,
                        line,
                        start_col,
                        1,
                    )->Ok_0.field);
                    assert(m2->Ok_0.field =~= m->Ok_0.field);
                }
            } else {
                // The content ends in an unclosed carriage return; the scan
                // of `s` fails, so nothing is claimed.
                assert(u =~= Seq::<char>::empty());
                assert(m is Err);
            }
        } else {
            assert(t.skip(1) =~= s.skip(1) + seq!['\n']);
            lemma_quoted_newline(s.skip(1), sep, line, start_col, if s[0] == '\n' {
                1
            } else {
                col + 1
            });
            if s.len() >= 2 {
                assert(s.skip(1)[s.skip(1).len() - 1] == s[s.len() - 1]);
            }
            let c: Seq<char> = if s[0] == '\n' {
                seq!['\n']
            } else {
                seq![s[0]]
            };
            let nc: int = if s[0] == '\n' {
                1
            } else {
                col + 1
            };
            let r = scan_quoted(s.skip(1), sep, line, start_col, nc);
            if r is Ok {
                assert(m->Ok_0.field =~= c + r->Ok_0.field);
                assert(m2->Ok_0.field =~= c + scan_quoted(
                    t.skip(1),
                    sep,
                    line,
                    start_col,
                    nc,
                )->Ok_0.field);
                assert(m2->Ok_0.field =~= m->Ok_0.field);
            }
        }
    }
}

/// How appending a line feed changes a successful field scan.
proof fn lemma_field_newline(s: Seq<char>, sep: char, line: int, col: int)
    requires
        sep != '"',
        sep != '\r',
        sep != '\n',
    ensures
        ({
            let m = scan_field(s, sep, line, col);
            let m2 = scan_field(s + seq!['\n'], sep, line, col);
            m matches Ok(o) ==> {
                &&& m2 matches Ok(o2)
                &&& m2->Ok_0.field == o.field
                &&& m2->Ok_0.col == o.col
                &&& (o.term == FieldTerminator::Eof ==> m2->Ok_0.term == FieldTerminator::LineBreak
                    && m2->Ok_0.rest == Seq::<char>::empty() && (s.len() > 0 ==> s[s.len() - 1]
                    != '\r'))
                &&& (o.term != FieldTerminator::Eof ==> m2->Ok_0.term == o.term)
                &&& (o.term != FieldTerminator::Eof && o.rest.len() > 0 ==> m2->Ok_0.rest == o.rest
                    + seq!['\n'])
                &&& (o.term != FieldTerminator::Eof && o.rest.len() == 0 && s.len() > 0 && s[s.len()
                    - 1] == '\r' ==> m2->Ok_0.rest == Seq::<char>::empty())
                &&& (o.term != FieldTerminator::Eof && o.rest.len() == 0 && s.len() > 0 && s[s.len()
                    - 1] != '\r' ==> m2->Ok_0.rest == seq!['\n'])
                &&& (o.term == FieldTerminator::Separator && o.rest.len() == 0 ==> s.len() > 0
                    && s[s.len() - 1] != '\r')
                &&& (o.rest.len() > 0 ==> s.len() > 0 && o.rest[o.rest.len() - 1] == s[s.len() - 1])
            }
        }),
{
    let t = s + seq!['\n'];
    if s.len() > 0 && s[0] == '"' {
        assert(t[0] == s[0]);
        assert(t.skip(1) =~= s.skip(1) + seq!['\n']);
        lemma_quoted_newline(s.skip(1), sep, line, col, col + 1);
        if s.len() >= 2 {
            assert(s.skip(1)[s.skip(1).len() - 1] == s[s.len() - 1]);
        } else {
            assert(s.skip(1).len() == 0);
            assert(scan_field(s, sep, line, col) is Err);
        }
    } else {
        if s.len() > 0 {
            assert(t[0] == s[0]);
        } else {
            assert(t =~= seq!['\n']);
            assert(t[0] == '\n');
        }
        lemma_unquoted_newline(s, sep, col);
    }
}

/// How appending a line feed changes a successful record scan: the fields
/// are unchanged, a record that ran to the end of the input now ends at the
/// line feed, and the remaining input gains the line feed unless a final
/// carriage return absorbs it.
proof fn lemma_record_newline(s: Seq<char>, sep: char, line: int, col: int)
    requires
        sep != '"',
        sep != '\r',
        sep != '\n',
    ensures
        ({
            let m = scan_record(s, sep, line, col);
            let m2 = scan_record(s + seq!['\n'], sep, line, col);
            m matches Ok(o) ==> {
                &&& m2 matches Ok(o2)
                &&& m2->Ok_0.fields == o.fields
                &&& !m2->Ok_0.at_eof
                &&& (o.at_eof ==> m2->Ok_0.rest == Seq::<char>::empty() && (s.len() > 0 ==> s[
                    s.len() - 1] != '\r'))
                &&& (!o.at_eof && o.rest.len() > 0 ==> m2->Ok_0.rest == o.rest + seq!['\n'])
                &&& (!o.at_eof && o.rest.len() == 0 && s.len() > 0 && s[s.len() - 1] == '\r'
                    ==> m2->Ok_0.rest == Seq::<char>::empty())
                &&& (!o.at_eof && o.rest.len() == 0 && s.len() > 0 && s[s.len() - 1] != '\r'
                    ==> m2->Ok_0.rest == seq!['\n'])
                &&& (o.rest.len() > 0 ==> s.len() > 0 && o.rest[o.rest.len() - 1] == s[s.len() - 1])
            }
        }),
    decreases s.len(),
{
    let t = s + seq!['\n'];
    let m = scan_record(s, sep, line, col);
    let m2 = scan_record(t, sep, line, col);
    crate::parser::lemma_scan_field_progress(s, sep, line, col);
    lemma_field_newline(s, sep, line, col);
    let mf = scan_field(s, sep, line, col);
    if mf is Ok {
        let f = mf->Ok_0;
        let f2 = scan_field(t, sep, line, col)->Ok_0;
        match f.term {
            FieldTerminator::Separator => {
                assert(f2.rest =~= f.rest + seq!['\n']) by {
                    if f.rest.len() == 0 {
                        assert(s.len() > 0 && s[s.len() - 1] != '\r');
                        assert(f2.rest == seq!['\n']);
                        assert(f.rest + seq!['\n'] =~= seq!['\n']);
                    }
                }
                lemma_record_newline(f.rest, sep, line, f.col);
                let mr = scan_record(f.rest, sep, line, f.col);
                if mr is Ok {
                    let r = mr->Ok_0;
                    let r2 = scan_record(f2.rest, sep, line, f.col)->Ok_0;
                    assert(m->Ok_0.fields =~= seq![f.field] + r.fields);
                    assert(m2->Ok_0.fields =~= seq![f.field] + r2.fields);
                    assert(m2->Ok_0.fields =~= m->Ok_0.fields);
                    if m->Ok_0.rest.len() > 0 {
                        // The record's remaining input is the tail record's,
                        // whose final character is the final character of
                        // `f.rest` and so of `s`.
                        assert(r.rest.len() > 0);
                        assert(f.rest.len() > 0);
                        assert(r.rest[r.rest.len() - 1] == f.rest[f.rest.len() - 1]);
                    }
                    if !m->Ok_0.at_eof && m->Ok_0.rest.len() == 0 {
                        assert(r.rest.len() == 0 && !r.at_eof);
                        assert(f.rest.len() > 0);
                        assert(f.rest[f.rest.len() - 1] == s[s.len() - 1]);
                    }
                }
            },
            FieldTerminator::LineBreak => {
                assert(m->Ok_0.fields =~= seq![f.field]);
                assert(m2->Ok_0.fields =~= seq![f.field]);
            },
            FieldTerminator::Eof => {
                assert(f.rest.len() == 0);
                assert(f2.term == FieldTerminator::LineBreak && f2.rest == Seq::<char>::empty());
                assert(m->Ok_0.fields =~= seq![f.field]);
                assert(m2->Ok_0.fields =~= seq![f.field]);
            },
        }
    }
}

/// Whether the record-scan chain of an input ends by reaching the end of
/// the input with a record that is empty or a single empty field: the
/// record that the parse suppresses rather than materializes.
pub open spec fn scan_ends_suppressed(s: Seq<char>, sep: char, line: int) -> bool
    decreases s.len(),
    via scan_ends_suppressed_decreases
{
    match scan_record(s, sep, line, 1) {
        Err(_) => false,
        Ok(r) => {
            if r.at_eof {
                r.fields.len() == 0 || (r.fields.len() == 1 && r.fields[0].len() == 0)
            } else {
                scan_ends_suppressed(r.rest, sep, line + 1)
            }
        },
    }
}

#[via_fn]
proof fn scan_ends_suppressed_decreases(s: Seq<char>, sep: char, line: int) {
    lemma_scan_record_progress(s, sep, line, 1);
}

/// An empty input scans to a single suppressed empty record and no rows.
proof fn lemma_scan_rows_empty(sep: char, line: int)
    ensures
        scan_record(Seq::empty(), sep, line, 1) == Ok::<RecordOutcome, ErrorModel>(
            RecordOutcome {
                fields: seq![Seq::<char>::empty()],
                at_eof: true,
                rest: Seq::empty(),
            },
        ),
        scan_rows(Seq::empty(), sep, line, false, None) == Ok::<Seq<Seq<Seq<char>>>, ErrorModel>(
            Seq::empty(),
        ),
        scan_ends_suppressed(Seq::empty(), sep, line),
{
    let e: Seq<char> = Seq::empty();
    assert(scan_unquoted(e, sep, 1) == FieldOutcome {
        field: Seq::<char>::empty(),
        term: FieldTerminator::Eof,
        rest: e,
        col: 1,
    });
    assert(scan_field(e, sep, line, 1) == Ok::<FieldOutcome, ErrorModel>(FieldOutcome {
        field: Seq::<char>::empty(),
        term: FieldTerminator::Eof,
        rest: e,
        col: 1,
    }));
    assert(scan_record(e, sep, line, 1) == Ok::<RecordOutcome, ErrorModel>(RecordOutcome {
        fields: seq![Seq::<char>::empty()],
        at_eof: true,
        rest: e,
    }));
    assert(scan_rows(e, sep, line, false, None) == Ok::<Seq<Seq<Seq<char>>>, ErrorModel>(
        Seq::empty(),
    ));
}

/// Appending one line feed to an input whose scan succeeds does not change
/// the scanned rows, as long as the scan did not end in a suppressed empty
/// record (or the input ends in a carriage return, whose line break absorbs
/// the added line feed).
proof fn lemma_scan_rows_newline(s: Seq<char>, sep: char, line: int, rows: Seq<Seq<Seq<char>>>)
    requires
        sep != '"',
        sep != '\r',
        sep != '\n',
        scan_rows(s, sep, line, false, None) == Ok::<Seq<Seq<Seq<char>>>, ErrorModel>(rows),
        !scan_ends_suppressed(s, sep, line) || (s.len() > 0 && s[s.len() - 1] == '\r'),
    ensures
        scan_rows(s + seq!['\n'], sep, line, false, None) == Ok::<
            Seq<Seq<Seq<char>>>,
            ErrorModel,
        >(rows),
    decreases s.len(),
{
    let t = s + seq!['\n'];
    lemma_scan_record_progress(s, sep, line, 1);
    lemma_record_newline(s, sep, line, 1);
    let r = scan_record(s, sep, line, 1)->Ok_0;
    let o2 = scan_record(t, sep, line, 1)->Ok_0;
    let trailing = r.fields.len() == 0 || (r.fields.len() == 1 && r.fields[0].len() == 0);
    if r.at_eof {
        if trailing {
            // The scan ends suppressed, so the input must end in a carriage
            // return; but a record that reached the end of the input cannot.
            assert(false);
        } else {
            assert(rows =~= seq![r.fields]);
            lemma_scan_rows_empty(sep, line + 1);
            assert(o2.rest == Seq::<char>::empty());
            assert(scan_rows(t, sep, line, false, None) == Ok::<Seq<Seq<Seq<char>>>, ErrorModel>(
                seq![r.fields] + Seq::empty(),
            ));
            assert(seq![r.fields] + Seq::<Seq<Seq<char>>>::empty() =~= rows);
        }
    } else {
        let rows_tail = scan_rows(r.rest, sep, line + 1, false, None)->Ok_0;
        assert(rows =~= seq![r.fields] + rows_tail);
        if r.rest.len() > 0 {
            assert(o2.rest == r.rest + seq!['\n']);
            assert(r.rest[r.rest.len() - 1] == s[s.len() - 1]);
            lemma_scan_rows_newline(r.rest, sep, line + 1, rows_tail);
            assert(scan_rows(t, sep, line, false, None) == Ok::<Seq<Seq<Seq<char>>>, ErrorModel>(
                seq![r.fields] + rows_tail,
            ));
        } else {
            lemma_scan_rows_empty(sep, line + 1);
            assert(r.rest =~= Seq::<char>::empty());
            assert(rows_tail =~= Seq::<Seq<Seq<char>>>::empty());
            assert(scan_ends_suppressed(s, sep, line));
            assert(s.len() > 0 && s[s.len() - 1] == '\r');
            assert(o2.rest == Seq::<char>::empty());
            assert(scan_rows(t, sep, line, false, None) == Ok::<Seq<Seq<Seq<char>>>, ErrorModel>(
                seq![r.fields] + Seq::empty(),
            ));
            assert(seq![r.fields] + Seq::<Seq<Seq<char>>>::empty() =~= rows);
        }
    }
}

/// Trailing terminator neutrality: when a parse succeeds and its record
/// scan does not end in a suppressed empty record — or the input ends with
/// a carriage return, whose line break simply absorbs the added line feed —
/// appending one line feed to the input leaves the parsed document
/// unchanged.
///
/// The proviso is exact: for an input that ends suppressed and does not end
/// in a carriage return, the added line feed turns the suppressed empty
/// record into a real one, so the documents differ.
pub proof fn lemma_trailing_newline_neutral(s: Seq<char>, sep: char, has_headers: bool)
    requires
        spec_is_emoji(sep),
        spec_parse(s, sep, has_headers, false) is Ok,
        !scan_ends_suppressed(s, sep, 1) || (s.len() > 0 && s[s.len() - 1] == '\r'),
    ensures
        spec_parse(s + seq!['\n'], sep, has_headers, false) == spec_parse(
            s,
            sep,
            has_headers,
            false,
        ),
{
    lemma_emoji_not_structural(sep);
    let t = s + seq!['\n'];
    assert(t.len() > 0);
    if s.len() == 0 {
        lemma_scan_rows_empty(sep, 1);
        assert(false);
    } else {
        let rows = scan_rows(s, sep, 1, false, None)->Ok_0;
        lemma_scan_rows_newline(s, sep, 1, rows);
    }
}

} // verus!
