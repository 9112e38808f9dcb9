//! A plain-text rendering of a document: the header fields first, then each
//! record under a numbered heading, one field per line, with a blank line
//! between blocks.

use vstd::prelude::*;

use crate::document::DocumentModel;
use crate::document::EsvDocument;
use crate::text::decimal_rep;
use crate::text::decimal_string;
use crate::text::push_str_chars;
use crate::text::string_of_chars;

verus! {

/// One line per field.
pub open spec fn field_lines(fields: Seq<Seq<char>>) -> Seq<char>
    decreases fields.len(),
{
    if fields.len() == 0 {
        Seq::empty()
    } else {
        fields[0] + seq!['\n'] + field_lines(fields.skip(1))
    }
}

/// One record's block: a numbered heading and its field lines.
pub open spec fn record_block(r: Seq<Seq<char>>, num: nat) -> Seq<char> {
    "# Record "@ + decimal_rep(num) + seq!['\n'] + field_lines(r)
}

/// The blocks of the records numbered from `num`, separated by blank lines.
pub open spec fn records_report(rs: Seq<Seq<Seq<char>>>, num: nat) -> Seq<char>
    decreases rs.len(),
{
    if rs.len() == 0 {
        Seq::empty()
    } else if rs.len() == 1 {
        record_block(rs[0], num)
    } else {
        record_block(rs[0], num) + seq!['\n'] + records_report(rs.skip(1), num + 1)
    }
}

/// The whole report: a header block if the document has headers, then the
/// record blocks numbered from one.
pub open spec fn spec_text_report(d: DocumentModel) -> Seq<char> {
    (match d.headers {
        Some(h) => "# Headers\n"@ + field_lines(h) + seq!['\n'],
        None => Seq::empty(),
    }) + records_report(d.records, 1)
}

/// Appending a field appends its line.
proof fn lemma_field_lines_push(fields: Seq<Seq<char>>, f: Seq<char>)
    ensures
        field_lines(fields.push(f)) == field_lines(fields) + f + seq!['\n'],
    decreases fields.len(),
{
    if fields.len() == 0 {
        assert(fields.push(f).skip(1) =~= Seq::<Seq<char>>::empty());
        assert(fields.push(f)[0] == f);
        assert(field_lines(Seq::<Seq<char>>::empty()) == Seq::<char>::empty());
        assert(field_lines(fields.push(f)) =~= field_lines(fields) + f + seq!['\n']);
    } else {
        assert(fields.push(f).skip(1) =~= fields.skip(1).push(f));
        lemma_field_lines_push(fields.skip(1), f);
        assert(field_lines(fields.push(f)) =~= field_lines(fields) + f + seq!['\n']);
    }
}

/// Appending a record to a non-empty report appends a blank line and its
/// block, numbered after the existing ones.
proof fn lemma_records_report_push(rs: Seq<Seq<Seq<char>>>, r: Seq<Seq<char>>, num: nat)
    requires
        rs.len() >= 1,
    ensures
        records_report(rs.push(r), num) == records_report(rs, num) + seq!['\n'] + record_block(
            r,
            (num + rs.len()) as nat,
        ),
    decreases rs.len(),
{
    if rs.len() == 1 {
        assert(rs.push(r).skip(1) =~= seq![r]);
        assert(rs.push(r)[0] == rs[0]);
        assert(records_report(seq![r], num + 1) == record_block(r, num + 1));
        assert(records_report(rs.push(r), num) =~= records_report(rs, num) + seq!['\n']
            + record_block(r, (num + rs.len()) as nat));
    } else {
        assert(rs.push(r).skip(1) =~= rs.skip(1).push(r));
        lemma_records_report_push(rs.skip(1), r, num + 1);
        assert(records_report(rs.push(r), num) =~= records_report(rs, num) + seq!['\n']
            + record_block(r, (num + rs.len()) as nat));
    }
}

/// Render a document as plain text, one field per line, records under
/// numbered headings.
#[must_use]
pub fn format_as_text(doc: &EsvDocument) -> (r: String)
    ensures
        r@ == spec_text_report(doc@),
{
    let mut out: Vec<char> = Vec::new();
    let ghost header_part: Seq<char> = match doc@.headers {
        Some(h) => "# Headers\n"@ + field_lines(h) + seq!['\n'],
        None => Seq::empty(),
    };
    match &doc.headers {
        Some(h) => {
            push_str_chars(&mut out, "# Headers\n");
            push_field_lines(&mut out, h);
            out.push('\n');
            proof {
                assert(out@ =~= header_part);
            }
        },
        None => {},
    }
    let n = doc.records.len();
    let ghost rv = doc.records.deep_view();
    let mut i: usize = 0;
    while i < n
        invariant
            n == doc.records@.len(),
            rv == doc.records.deep_view(),
            rv.len() == n,
            0 <= i <= n,
            header_part == (match doc@.headers {
                Some(h) => "# Headers\n"@ + field_lines(h) + seq!['\n'],
                None => Seq::<char>::empty(),
            }),
            out@ == header_part + records_report(rv.take(i as int), 1),
        decreases n - i,
    {
        let ghost pre = out@;
        if i > 0 {
            out.push('\n');
        }
        push_str_chars(&mut out, "# Record ");
        let num = decimal_string(i + 1);
        push_str_chars(&mut out, num.as_str());
        out.push('\n');
        push_field_lines(&mut out, &doc.records[i]);
        proof {
            assert(rv[i as int] == doc.records@[i as int].deep_view());
            let block = record_block(rv[i as int], (i + 1) as nat);
            if i == 0 {
                assert(rv.take(1) =~= seq![rv[0]]);
                assert(records_report(rv.take(0), 1) == Seq::<char>::empty());
                assert(records_report(rv.take(1), 1) == record_block(rv[0], 1));
                assert(out@ =~= header_part + records_report(rv.take(1), 1));
            } else {
                lemma_records_report_push(rv.take(i as int), rv[i as int], 1);
                assert(rv.take(i as int).push(rv[i as int]) =~= rv.take(i as int + 1));
                assert((1 + rv.take(i as int).len()) as nat == (i + 1) as nat);
                assert(out@ =~= header_part + records_report(rv.take(i as int + 1), 1));
            }
        }
        i = i + 1;
    }
    proof {
        assert(rv.take(n as int) =~= rv);
    }
    string_of_chars(out)
}

/// Append one line per field onto `out`.
fn push_field_lines(out: &mut Vec<char>, fields: &Vec<String>)
    ensures
        final(out)@ == old(out)@ + field_lines(fields.deep_view()),
{
    let ghost base = out@;
    let ghost fv = fields.deep_view();
    let n = fields.len();
    let mut i: usize = 0;
    while i < n
        invariant
            n == fields@.len(),
            fv == fields.deep_view(),
            fv.len() == n,
            0 <= i <= n,
            out@ == base + field_lines(fv.take(i as int)),
        decreases n - i,
    {
        let f = &fields[i];
        push_str_chars(out, f.as_str());
        out.push('\n');
        proof {
            assert(fv[i as int] == fields@[i as int]@);
            lemma_field_lines_push(fv.take(i as int), fv[i as int]);
            assert(fv.take(i as int).push(fv[i as int]) =~= fv.take(i as int + 1));
            assert(out@ =~= base + field_lines(fv.take(i as int + 1)));
        }
        i = i + 1;
    }
    proof {
        assert(fv.take(n as int) =~= fv);
    }
}

} // verus!
