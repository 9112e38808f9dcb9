//! The failure vocabulary shared by the parser and the serializer.

use vstd::prelude::*;
use vstd::string::StringExecFns;

use crate::text::char_string;
use crate::text::decimal_rep;
use crate::text::decimal_string;

verus! {

/// A failure reported while parsing or serializing ESV data.
///
/// Positions are 1-based: `line` counts consumed line breaks plus one, and
/// `column` counts characters consumed on the current line plus one.
#[derive(Debug, Clone, PartialEq)]
pub enum EsvError {
    /// The configured separator is not an emoji code point.
    InvalidSeparator { separator: char },
    /// A quoted field was still open when the input ended; the position is
    /// where the field started.
    UnclosedQuote { line: usize, column: usize },
    /// After a closing quote the input continued with something other than a
    /// separator, a line break, or the end of the input.
    UnexpectedCharAfterQuote { line: usize, column: usize, found: char },
    /// Under strict field counting, a record's field count differed from the
    /// count established by the first record; `line` is the line the
    /// mismatched record started on.
    InconsistentFieldCount { expected: usize, found: usize, line: usize },
    /// Declared for compatibility; the parser treats empty input as a valid
    /// empty document and never produces this.
    EmptyInput,
    /// Declared for compatibility; the parser receives already-decoded text
    /// and never produces this.
    InvalidUtf8,
}

/// The mathematical image of an `EsvError`, with unbounded positions, so that
/// specification-level parsing can be stated without machine-integer bounds.
pub enum ErrorModel {
    InvalidSeparator { separator: char },
    UnclosedQuote { line: int, column: int },
    UnexpectedCharAfterQuote { line: int, column: int, found: char },
    InconsistentFieldCount { expected: int, found: int, line: int },
    EmptyInput,
    InvalidUtf8,
}

impl View for EsvError {
    type V = ErrorModel;

    open spec fn view(&self) -> ErrorModel {
        match *self {
            EsvError::InvalidSeparator { separator } => ErrorModel::InvalidSeparator { separator },
            EsvError::UnclosedQuote { line, column } => ErrorModel::UnclosedQuote {
                line: line as int,
                column: column as int,
            },
            EsvError::UnexpectedCharAfterQuote { line, column, found } => {
                ErrorModel::UnexpectedCharAfterQuote {
                    line: line as int,
                    column: column as int,
                    found,
                }
            },
            EsvError::InconsistentFieldCount { expected, found, line } => {
                ErrorModel::InconsistentFieldCount {
                    expected: expected as int,
                    found: found as int,
                    line: line as int,
                }
            },
            EsvError::EmptyInput => ErrorModel::EmptyInput,
            EsvError::InvalidUtf8 => ErrorModel::InvalidUtf8,
        }
    }
}

/// The text of an error's human-readable description.
pub open spec fn spec_message(e: ErrorModel) -> Seq<char> {
    match e {
        ErrorModel::InvalidSeparator { separator } => "invalid separator '"@ + seq![separator]
            + "': not an emoji"@,
        ErrorModel::UnclosedQuote { line, column } => "unclosed quote at line "@ + decimal_rep(
            line as nat,
        ) + ", column "@ + decimal_rep(column as nat),
        ErrorModel::UnexpectedCharAfterQuote { line, column, found } => "unexpected character '"@
            + seq![found] + "' after closing quote at line "@ + decimal_rep(line as nat)
            + ", column "@ + decimal_rep(column as nat),
        ErrorModel::InconsistentFieldCount { expected, found, line } => {
            "inconsistent field count at line "@ + decimal_rep(line as nat) + ": expected "@
                + decimal_rep(expected as nat) + " fields, found "@ + decimal_rep(found as nat)
        },
        ErrorModel::EmptyInput => "empty input"@,
        ErrorModel::InvalidUtf8 => "invalid UTF-8 in input"@,
    }
}

impl EsvError {
    /// A human-readable description of the failure.
    #[must_use]
    pub fn message(&self) -> (r: String)
        ensures
            r@ == spec_message(self@),
    {
        match self {
            EsvError::InvalidSeparator { separator } => {
                let mut s = String::new();
                s.append("invalid separator '");
                s.append(char_string(*separator).as_str());
                s.append("': not an emoji");
                proof {
                    assert(s@ =~= spec_message(self@));
                }
                s
            },
            EsvError::UnclosedQuote { line, column } => {
                let mut s = String::new();
                s.append("unclosed quote at line ");
                s.append(decimal_string(*line).as_str());
                s.append(", column ");
                s.append(decimal_string(*column).as_str());
                proof {
                    assert(s@ =~= spec_message(self@));
                }
                s
            },
            EsvError::UnexpectedCharAfterQuote { line, column, found } => {
                let mut s = String::new();
                s.append("unexpected character '");
                s.append(char_string(*found).as_str());
                s.append("' after closing quote at line ");
                s.append(decimal_string(*line).as_str());
                s.append(", column ");
                s.append(decimal_string(*column).as_str());
                proof {
                    assert(s@ =~= spec_message(self@));
                }
                s
            },
            EsvError::InconsistentFieldCount { expected, found, line } => {
                let mut s = String::new();
                s.append("inconsistent field count at line ");
                s.append(decimal_string(*line).as_str());
                s.append(": expected ");
                s.append(decimal_string(*expected).as_str());
                s.append(" fields, found ");
                s.append(decimal_string(*found).as_str());
                proof {
                    assert(s@ =~= spec_message(self@));
                }
                s
            },
            EsvError::EmptyInput => {
                let mut s = String::new();
                s.append("empty input");
                proof {
                    assert(s@ =~= spec_message(self@));
                }
                s
            },
            EsvError::InvalidUtf8 => {
                let mut s = String::new();
                s.append("invalid UTF-8 in input");
                proof {
                    assert(s@ =~= spec_message(self@));
                }
                s
            },
        }
    }
}

} // verus!
