//! The ESV serializer: the inverse of the parser, with deterministic
//! quoting and escaping rules.

use vstd::prelude::*;

use crate::DEFAULT_SEPARATOR;
use crate::EsvError;
use crate::document::DocumentModel;
use crate::document::EsvDocument;
use crate::spec_is_emoji;
use crate::text::chars_of_str;
use crate::text::string_of_chars;

verus! {

/// Line ending style for serialized output.
#[derive(Debug, Clone, Copy, PartialEq)]
pub enum LineEnding {
    /// Unix-style line endings (LF).
    Lf,
    /// Windows-style line endings (CRLF).
    Crlf,
}

/// The characters written for a line ending.
pub open spec fn line_break(le: LineEnding) -> Seq<char> {
    match le {
        LineEnding::Lf => seq!['\n'],
        LineEnding::Crlf => seq!['\r', '\n'],
    }
}

/// Whether a field must be quoted: it contains the separator, a double
/// quote, or a line-break character.
pub open spec fn field_has_special(f: Seq<char>, sep: char) -> bool {
    exists|i: int|
        #![trigger f[i]]
        0 <= i < f.len() && (f[i] == sep || f[i] == '"' || f[i] == '\n' || f[i] == '\r')
}

/// A field's content with every double quote doubled.
pub open spec fn escape_quotes(f: Seq<char>) -> Seq<char>
    decreases f.len(),
{
    if f.len() == 0 {
        Seq::empty()
    } else {
        (if f[0] == '"' {
            seq!['"', '"']
        } else {
            seq![f[0]]
        }) + escape_quotes(f.skip(1))
    }
}

/// The characters written for one field: quoted (with internal quotes
/// doubled) when quoting is forced or the content requires it, otherwise the
/// content itself.
pub open spec fn serialized_field(f: Seq<char>, sep: char, always: bool) -> Seq<char> {
    if always || field_has_special(f, sep) {
        seq!['"'] + escape_quotes(f) + seq!['"']
    } else {
        f
    }
}

/// The characters written for one record: its fields joined by the
/// separator, without a line ending.
pub open spec fn serialized_record(r: Seq<Seq<char>>, sep: char, always: bool) -> Seq<char>
    decreases r.len(),
{
    if r.len() == 0 {
        Seq::empty()
    } else if r.len() == 1 {
        serialized_field(r[0], sep, always)
    } else {
        serialized_field(r[0], sep, always) + seq![sep] + serialized_record(r.skip(1), sep, always)
    }
}

/// The characters written for a sequence of rows: each row followed by the
/// line ending, the last row included.
pub open spec fn serialized_rows(
    rows: Seq<Seq<Seq<char>>>,
    sep: char,
    always: bool,
    le: LineEnding,
) -> Seq<char>
    decreases rows.len(),
{
    if rows.len() == 0 {
        Seq::empty()
    } else {
        serialized_record(rows[0], sep, always) + line_break(le) + serialized_rows(
            rows.skip(1),
            sep,
            always,
            le,
        )
    }
}

/// The rows a document contributes to its serialized form: the header row,
/// if present, followed by the data records.
pub open spec fn document_rows(d: DocumentModel) -> Seq<Seq<Seq<char>>> {
    match d.headers {
        Some(h) => seq![h] + d.records,
        None => d.records,
    }
}

/// The full serialized form of a document.
pub open spec fn spec_serialize(d: DocumentModel, sep: char, always: bool, le: LineEnding) -> Seq<
    char,
> {
    serialized_rows(document_rows(d), sep, always, le)
}

/// Appending a row to a row sequence appends its serialized form.
proof fn lemma_serialized_rows_push(
    rows: Seq<Seq<Seq<char>>>,
    r: Seq<Seq<char>>,
    sep: char,
    always: bool,
    le: LineEnding,
)
    ensures
        serialized_rows(rows.push(r), sep, always, le) == serialized_rows(rows, sep, always, le)
            + serialized_record(r, sep, always) + line_break(le),
    decreases rows.len(),
{
    if rows.len() == 0 {
        assert(rows.push(r).skip(1) =~= Seq::<Seq<Seq<char>>>::empty());
        assert(serialized_rows(Seq::<Seq<Seq<char>>>::empty(), sep, always, le) == Seq::<
            char,
        >::empty());
        assert(rows.push(r)[0] == r);
        assert(serialized_rows(rows.push(r), sep, always, le) =~= serialized_record(r, sep, always)
            + line_break(le));
        assert(serialized_rows(rows, sep, always, le) + serialized_record(r, sep, always)
            + line_break(le) =~= serialized_record(r, sep, always) + line_break(le));
    } else {
        assert(rows.push(r).skip(1) =~= rows.skip(1).push(r));
        lemma_serialized_rows_push(rows.skip(1), r, sep, always, le);
        assert(serialized_rows(rows.push(r), sep, always, le) =~= serialized_rows(
            rows,
            sep,
            always,
            le,
        ) + serialized_record(r, sep, always) + line_break(le));
    }
}

/// Appending a field to a non-empty record extends its serialized form with
/// a separator and the field's serialized form.
proof fn lemma_serialized_record_push(r: Seq<Seq<char>>, f: Seq<char>, sep: char, always: bool)
    requires
        r.len() >= 1,
    ensures
        serialized_record(r.push(f), sep, always) == serialized_record(r, sep, always) + seq![sep]
            + serialized_field(f, sep, always),
    decreases r.len(),
{
    if r.len() == 1 {
        assert(r.push(f).skip(1) =~= seq![f]);
        assert(serialized_record(seq![f], sep, always) == serialized_field(f, sep, always));
        assert(serialized_record(r.push(f), sep, always) =~= serialized_record(r, sep, always)
            + seq![sep] + serialized_field(f, sep, always));
    } else {
        assert(r.push(f).skip(1) =~= r.skip(1).push(f));
        lemma_serialized_record_push(r.skip(1), f, sep, always);
        assert(serialized_record(r.push(f), sep, always) =~= serialized_record(r, sep, always)
            + seq![sep] + serialized_field(f, sep, always));
    }
}

/// Appending a character to a field appends its escaped form.
proof fn lemma_escape_quotes_push(f: Seq<char>, c: char)
    ensures
        escape_quotes(f.push(c)) == escape_quotes(f) + (if c == '"' {
            seq!['"', '"']
        } else {
            seq![c]
        }),
    decreases f.len(),
{
    let tail: Seq<char> = if c == '"' {
        seq!['"', '"']
    } else {
        seq![c]
    };
    if f.len() == 0 {
        assert(f.push(c).skip(1) =~= Seq::<char>::empty());
        assert(f.push(c)[0] == c);
        assert(escape_quotes(Seq::<char>::empty()) == Seq::<char>::empty());
        assert(escape_quotes(f.push(c)) =~= escape_quotes(f) + tail);
    } else {
        assert(f.push(c).skip(1) =~= f.skip(1).push(c));
        lemma_escape_quotes_push(f.skip(1), c);
        assert(escape_quotes(f.push(c)) =~= escape_quotes(f) + tail);
    }
}

/// Serializer for ESV data.
#[derive(Debug, Clone)]
pub struct EsvSerializer {
    separator: char,
    always_quote: bool,
    line_ending: LineEnding,
}

impl Default for EsvSerializer {
    /// A serializer with the default settings.
    fn default() -> (r: Self)
        ensures
            r.spec_separator() == DEFAULT_SEPARATOR,
            !r.spec_always_quote(),
            r.spec_line_ending() == LineEnding::Lf,
    {
        Self::new()
    }
}

impl EsvSerializer {
    /// The configured separator.
    pub closed spec fn spec_separator(&self) -> char {
        self.separator
    }

    /// Whether every field is quoted regardless of content.
    pub closed spec fn spec_always_quote(&self) -> bool {
        self.always_quote
    }

    /// The configured line ending.
    pub closed spec fn spec_line_ending(&self) -> LineEnding {
        self.line_ending
    }

    /// Create a new serializer with default settings.
    #[must_use]
    pub fn new() -> (r: Self)
        ensures
            r.spec_separator() == DEFAULT_SEPARATOR,
            !r.spec_always_quote(),
            r.spec_line_ending() == LineEnding::Lf,
    {
        Self { separator: DEFAULT_SEPARATOR, always_quote: false, line_ending: LineEnding::Lf }
    }

    /// Set a custom emoji separator.
    #[must_use]
    pub fn with_separator(self, separator: char) -> (r: Self)
        ensures
            r.spec_separator() == separator,
            r.spec_always_quote() == self.spec_always_quote(),
            r.spec_line_ending() == self.spec_line_ending(),
    {
        Self { separator, always_quote: self.always_quote, line_ending: self.line_ending }
    }

    /// Always quote all fields, even if not necessary.
    #[must_use]
    pub fn with_always_quote(self, always_quote: bool) -> (r: Self)
        ensures
            r.spec_separator() == self.spec_separator(),
            r.spec_always_quote() == always_quote,
            r.spec_line_ending() == self.spec_line_ending(),
    {
        Self { separator: self.separator, always_quote, line_ending: self.line_ending }
    }

    /// Set the line ending style.
    #[must_use]
    pub fn with_line_ending(self, line_ending: LineEnding) -> (r: Self)
        ensures
            r.spec_separator() == self.spec_separator(),
            r.spec_always_quote() == self.spec_always_quote(),
            r.spec_line_ending() == line_ending,
    {
        Self { separator: self.separator, always_quote: self.always_quote, line_ending }
    }

    /// Serialize a document to a string. The separator is taken as already
    /// validated; `try_serialize` checks it first.
    #[must_use]
    pub fn serialize(&self, doc: &EsvDocument) -> (r: String)
        ensures
            r@ == spec_serialize(
                doc@,
                self.spec_separator(),
                self.spec_always_quote(),
                self.spec_line_ending(),
            ),
    {
        let ghost rows = document_rows(doc@);
        let n = doc.records.len();
        let mut out: Vec<char> = Vec::new();
        let ghost mut done: Seq<Seq<Seq<char>>> = Seq::empty();
        proof {
            assert(serialized_rows(done, self.spec_separator(), self.spec_always_quote(),
                self.spec_line_ending()) =~= Seq::<char>::empty());
        }
        match &doc.headers {
            Some(h) => {
                self.serialize_record(h, &mut out);
                self.push_line_break(&mut out);
                proof {
                    let hv = doc@.headers->0;
                    lemma_serialized_rows_push(Seq::empty(), hv, self.spec_separator(),
                        self.spec_always_quote(), self.spec_line_ending());
                    assert(Seq::<Seq<Seq<char>>>::empty().push(hv) =~= seq![hv]);
                    done = seq![hv];
                    assert(out@ =~= serialized_rows(done, self.spec_separator(),
                        self.spec_always_quote(), self.spec_line_ending()));
                    assert(rows.take(rows.len() - n as int) =~= seq![hv]);
                }
            },
            None => {
                proof {
                    assert(rows.take(rows.len() - n as int)
                        =~= Seq::<Seq<Seq<char>>>::empty());
                }
            },
        }
        let mut i: usize = 0;
        while i < n
            invariant
                n == doc.records.len(),
                0 <= i <= n,
                done == rows.take(rows.len() - (n - i)),
                rows == document_rows(doc@),
                rows.len() - n + i >= 0,
                out@ == serialized_rows(done, self.spec_separator(), self.spec_always_quote(),
                    self.spec_line_ending()),
            decreases n - i,
        {
            let rec = &doc.records[i];
            self.serialize_record(rec, &mut out);
            self.push_line_break(&mut out);
            proof {
                lemma_serialized_rows_push(done, rec.deep_view(), self.spec_separator(),
                    self.spec_always_quote(), self.spec_line_ending());
                assert(rows[rows.len() - (n - i)] == rec.deep_view());
                assert(done.push(rec.deep_view()) =~= rows.take(rows.len() - (n - i) + 1));
                done = done.push(rec.deep_view());
            }
            i = i + 1;
        }
        proof {
            assert(rows.take(rows.len() as int) =~= rows);
        }
        string_of_chars(out)
    }

    /// Serialize a document, validating the separator first.
    pub fn try_serialize(&self, doc: &EsvDocument) -> (r: Result<String, EsvError>)
        ensures
            spec_is_emoji(self.spec_separator()) ==> (r matches Ok(s) && s@ == spec_serialize(
                doc@,
                self.spec_separator(),
                self.spec_always_quote(),
                self.spec_line_ending(),
            )),
            !spec_is_emoji(self.spec_separator()) ==> r == Err::<String, EsvError>(
                EsvError::InvalidSeparator { separator: self.spec_separator() },
            ),
    {
        match crate::validate_separator(self.separator) {
            Ok(_) => Ok(self.serialize(doc)),
            Err(e) => Err(e),
        }
    }

    /// Serialize records without headers.
    #[must_use]
    pub fn serialize_records(&self, records: &Vec<Vec<String>>) -> (r: String)
        ensures
            r@ == spec_serialize(
                DocumentModel { headers: None, records: records.deep_view() },
                self.spec_separator(),
                self.spec_always_quote(),
                self.spec_line_ending(),
            ),
    {
        let doc = EsvDocument { headers: None, records: clone_records(records) };
        let r = self.serialize(&doc);
        proof {
            assert(doc@ =~= DocumentModel { headers: None, records: records.deep_view() });
        }
        r
    }

    /// Serialize a single record (row), without a line ending, onto `out`.
    fn serialize_record(&self, record: &Vec<String>, out: &mut Vec<char>)
        ensures
            final(out)@ == old(out)@ + serialized_record(
                record.deep_view(),
                self.spec_separator(),
                self.spec_always_quote(),
            ),
    {
        let ghost base = out@;
        let ghost rv = record.deep_view();
        let n = record.len();
        let mut i: usize = 0;
        while i < n
            invariant
                n == record.len(),
                rv == record.deep_view(),
                0 <= i <= n,
                out@ == base + serialized_record(rv.take(i as int), self.spec_separator(),
                    self.spec_always_quote()),
            decreases n - i,
        {
            if i > 0 {
                out.push(self.separator);
            }
            let f = &record[i];
            self.serialize_field(f.as_str(), out);
            proof {
                assert(rv[i as int] == record@[i as int]@);
                if i == 0 {
                    assert(rv.take(1) =~= seq![rv[0]]);
                    assert(serialized_record(rv.take(0), self.spec_separator(),
                        self.spec_always_quote()) =~= Seq::<char>::empty());
                    assert(out@ =~= base + serialized_record(rv.take(1), self.spec_separator(),
                        self.spec_always_quote()));
                } else {
                    lemma_serialized_record_push(rv.take(i as int), rv[i as int],
                        self.spec_separator(), self.spec_always_quote());
                    assert(rv.take(i as int).push(rv[i as int]) =~= rv.take(i as int + 1));
                    assert(out@ =~= base + serialized_record(rv.take(i as int + 1),
                        self.spec_separator(), self.spec_always_quote()));
                }
            }
            i = i + 1;
        }
        proof {
            assert(rv.take(n as int) =~= rv);
        }
    }

    /// Serialize a single field onto `out`, quoting it if necessary.
    fn serialize_field(&self, field: &str, out: &mut Vec<char>)
        ensures
            final(out)@ == old(out)@ + serialized_field(
                field@,
                self.spec_separator(),
                self.spec_always_quote(),
            ),
    {
        let ghost base = out@;
        let chars = chars_of_str(field);
        let needs_quoting = self.always_quote || self.field_needs_quoting(field);
        if needs_quoting {
            out.push('"');
            let n = chars.len();
            let mut i: usize = 0;
            while i < n
                invariant
                    n == chars.len(),
                    chars@ == field@,
                    0 <= i <= n,
                    out@ == base + seq!['"'] + escape_quotes(field@.take(i as int)),
                decreases n - i,
            {
                let c = chars[i];
                if c == '"' {
                    out.push('"');
                    out.push('"');
                } else {
                    out.push(c);
                }
                proof {
                    lemma_escape_quotes_push(field@.take(i as int), field@[i as int]);
                    assert(field@.take(i as int).push(field@[i as int]) =~= field@.take(
                        i as int + 1,
                    ));
                    assert(out@ =~= base + seq!['"'] + escape_quotes(field@.take(i as int + 1)));
                }
                i = i + 1;
            }
            out.push('"');
            proof {
                assert(field@.take(n as int) =~= field@);
                assert(out@ =~= base + (seq!['"'] + escape_quotes(field@) + seq!['"']));
            }
        } else {
            let n = chars.len();
            let mut i: usize = 0;
            while i < n
                invariant
                    n == chars.len(),
                    chars@ == field@,
                    0 <= i <= n,
                    out@ == base + field@.take(i as int),
                decreases n - i,
            {
                out.push(chars[i]);
                proof {
                    assert(field@.take(i as int).push(field@[i as int]) =~= field@.take(
                        i as int + 1,
                    ));
                }
                i = i + 1;
            }
            proof {
                assert(field@.take(n as int) =~= field@);
            }
        }
    }

    /// Check whether a field's content forces quoting.
    fn field_needs_quoting(&self, field: &str) -> (r: bool)
        ensures
            r == field_has_special(field@, self.spec_separator()),
    {
        let chars = chars_of_str(field);
        let n = chars.len();
        let mut i: usize = 0;
        while i < n
            invariant
                n == chars.len(),
                chars@ == field@,
                0 <= i <= n,
                forall|k: int|
                    0 <= k < i ==> !(#[trigger] field@[k] == self.spec_separator() || field@[k]
                        == '"' || field@[k] == '\n' || field@[k] == '\r'),
            decreases n - i,
        {
            let c = chars[i];
            if c == self.separator || c == '"' || c == '\n' || c == '\r' {
                return true;
            }
            i = i + 1;
        }
        false
    }

    /// Append the configured line ending onto `out`.
    fn push_line_break(&self, out: &mut Vec<char>)
        ensures
            final(out)@ == old(out)@ + line_break(self.spec_line_ending()),
    {
        match self.line_ending {
            LineEnding::Lf => {
                out.push('\n');
            },
            LineEnding::Crlf => {
                out.push('\r');
                out.push('\n');
            },
        }
        proof {
            assert(out@ =~= old(out)@ + line_break(self.spec_line_ending()));
        }
    }

}

/// Copy a record list field by field.
pub(crate) fn clone_records(records: &Vec<Vec<String>>) -> (r: Vec<Vec<String>>)
    ensures
        r.deep_view() == records.deep_view(),
{
    let mut r: Vec<Vec<String>> = Vec::new();
    let n = records.len();
    let mut i: usize = 0;
    while i < n
        invariant
            n == records@.len(),
            0 <= i <= n,
            r@.len() == i,
            forall|k: int| 0 <= k < i ==> #[trigger] r@[k].deep_view() == records@[k].deep_view(),
        decreases n - i,
    {
        let mut row: Vec<String> = Vec::new();
        let m = records[i].len();
        let mut j: usize = 0;
        while j < m
            invariant
                0 <= i < n,
                n == records@.len(),
                m == records@[i as int]@.len(),
                0 <= j <= m,
                row@.len() == j,
                forall|k: int|
                    0 <= k < j ==> #[trigger] row@[k]@ == records@[i as int]@[k]@,
            decreases m - j,
        {
            let item = records[i][j].clone();
            row.push(item);
            j = j + 1;
        }
        proof {
            assert forall|k: int| 0 <= k < m implies #[trigger] row.deep_view()[k] == records@[
                i as int
            ].deep_view()[k] by {
                assert(row@[k]@ == records@[i as int]@[k]@);
            }
            assert(row.deep_view() =~= records@[i as int].deep_view());
        }
        r.push(row);
        i = i + 1;
    }
    proof {
        assert forall|k: int| 0 <= k < n implies #[trigger] r.deep_view()[k]
            == records.deep_view()[k] by {
            assert(r@[k].deep_view() == records@[k].deep_view());
        }
        assert(r.deep_view() =~= records.deep_view());
    }
    r
}

/// Copy a list of fields one by one.
pub(crate) fn clone_strings(v: &Vec<String>) -> (r: Vec<String>)
    ensures
        r.deep_view() == v.deep_view(),
{
    let mut r: Vec<String> = Vec::new();
    let n = v.len();
    let mut i: usize = 0;
    while i < n
        invariant
            n == v@.len(),
            0 <= i <= n,
            r@.len() == i,
            forall|k: int| 0 <= k < i ==> #[trigger] r@[k]@ == v@[k]@,
        decreases n - i,
    {
        let s = v[i].clone();
        r.push(s);
        i = i + 1;
    }
    proof {
        assert forall|k: int| 0 <= k < n implies #[trigger] r.deep_view()[k] == v.deep_view()[k] by {
            assert(r@[k]@ == v@[k]@);
        }
        assert(r.deep_view() =~= v.deep_view());
    }
    r
}

} // verus!
