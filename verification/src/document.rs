//! The in-memory representation of parsed (or to-be-serialized) ESV data.

use vstd::prelude::*;

verus! {

/// The mathematical image of a document: an optional header row and the data
/// records, with every field a sequence of characters.
#[verifier::ext_equal]
pub struct DocumentModel {
    pub headers: Option<Seq<Seq<char>>>,
    pub records: Seq<Seq<Seq<char>>>,
}

/// A parsed ESV document: an optional header row plus ordered data records.
///
/// A document is produced in full by one parse call and consumed in full by
/// one serialize call; fields are arbitrary owned text.
#[derive(Debug, Clone, PartialEq)]
pub struct EsvDocument {
    /// Optional header row.
    pub headers: Option<Vec<String>>,
    /// Data records.
    pub records: Vec<Vec<String>>,
}

impl View for EsvDocument {
    type V = DocumentModel;

    open spec fn view(&self) -> DocumentModel {
        DocumentModel { headers: self.headers.deep_view(), records: self.records.deep_view() }
    }
}

impl EsvDocument {
    /// Create a new document without headers.
    #[must_use]
    pub fn new(records: Vec<Vec<String>>) -> (r: Self)
        ensures
            r@.headers is None,
            r@.records == records.deep_view(),
    {
        Self { headers: None, records }
    }

    /// Create a new document with headers.
    #[must_use]
    pub fn with_headers(headers: Vec<String>, records: Vec<Vec<String>>) -> (r: Self)
        ensures
            r@.headers == Some(headers.deep_view()),
            r@.records == records.deep_view(),
    {
        Self { headers: Some(headers), records }
    }

    /// The number of data records (the header row is not counted).
    #[must_use]
    pub fn len(&self) -> (r: usize)
        ensures
            r == self@.records.len(),
    {
        self.records.len()
    }

    /// Whether the document has no data records.
    #[must_use]
    pub fn is_empty(&self) -> (r: bool)
        ensures
            r == (self@.records.len() == 0),
    {
        self.records.len() == 0
    }

    /// The number of fields per record: the header row's length if headers
    /// are present, otherwise the first record's length, otherwise nothing.
    pub fn field_count(&self) -> (r: Option<usize>)
        ensures
            (match self@.headers {
                Some(h) => r == Some(h.len() as usize),
                None => {
                    if self@.records.len() > 0 {
                        r == Some(self@.records[0].len() as usize)
                    } else {
                        r is None
                    }
                },
            }),
    {
        match &self.headers {
            Some(h) => Some(h.len()),
            None => {
                if self.records.len() > 0 {
                    Some(self.records[0].len())
                } else {
                    None
                }
            },
        }
    }
}

} // verus!
