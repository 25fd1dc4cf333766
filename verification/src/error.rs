//! Errors in the source data.

use vstd::prelude::*;
use crate::codes::{integer_error, integer_error_kind};
use crate::text::{append_str, chars_of, string_of};

verus! {

/// A defect in a source file that stops the preparation of a database.
#[derive(Clone, Debug, PartialEq, Eq)]
pub enum DataError {
    /// A line that does not have the fields its file calls for.
    BadLineFormat { file: String, line: String },
    /// A stroke sequence with a character that names no stroke.
    BadStrokeFormat { word: String, stroke: String },
    /// A character variant that maps a character to itself alone.
    SelfMapping { file: String, line: String },
    /// An empty word where a word's first character is needed.
    EmptyWord { file: String },
    /// A field that should hold a decimal integer and does not.
    InvalidInteger { text: String },
}

/// Why a text is no integer, as `i64::from_str` reports it.
#[derive(Clone, Copy, Debug, PartialEq, Eq, Structural)]
pub enum IntegerErrorKind {
    /// The text is empty.
    Empty,
    /// A character is no digit where a digit is needed.
    InvalidDigit,
    /// The number is above `i64::MAX`.
    PosOverflow,
    /// The number is below `i64::MIN`.
    NegOverflow,
}

/// The message with which `i64::from_str` reports a kind of error.
pub open spec fn integer_error_message(kind: IntegerErrorKind) -> Seq<char> {
    match kind {
        IntegerErrorKind::Empty => "cannot parse integer from empty string"@,
        IntegerErrorKind::InvalidDigit => "invalid digit found in string"@,
        IntegerErrorKind::PosOverflow => "number too large to fit in target type"@,
        IntegerErrorKind::NegOverflow => "number too small to fit in target type"@,
    }
}

/// The model of a [`DataError`]: the same variant, with each text as its
/// characters.
pub enum DataErrorView {
    BadLineFormat { file: Seq<char>, line: Seq<char> },
    BadStrokeFormat { word: Seq<char>, stroke: Seq<char> },
    SelfMapping { file: Seq<char>, line: Seq<char> },
    EmptyWord { file: Seq<char> },
    InvalidInteger { text: Seq<char> },
}

impl View for DataError {
    type V = DataErrorView;

    open spec fn view(&self) -> DataErrorView {
        match self {
            DataError::BadLineFormat { file, line } => DataErrorView::BadLineFormat {
                file: file@,
                line: line@,
            },
            DataError::BadStrokeFormat { word, stroke } => DataErrorView::BadStrokeFormat {
                word: word@,
                stroke: stroke@,
            },
            DataError::SelfMapping { file, line } => DataErrorView::SelfMapping {
                file: file@,
                line: line@,
            },
            DataError::EmptyWord { file } => DataErrorView::EmptyWord { file: file@ },
            DataError::InvalidInteger { text } => DataErrorView::InvalidInteger { text: text@ },
        }
    }
}

/// The message that reports an error.
pub open spec fn error_message(error: DataErrorView) -> Seq<char> {
    match error {
        DataErrorView::BadLineFormat { file, line } => "bad line format in "@ + file + ": "@ + line,
        DataErrorView::BadStrokeFormat { word, stroke } => "bad stroke format: "@ + word + " = "@
            + stroke,
        DataErrorView::SelfMapping { file, line } => "self-mapping character variant in "@ + file
            + ": "@ + line,
        DataErrorView::EmptyWord { file } => "empty word in "@ + file,
        DataErrorView::InvalidInteger { text } => match integer_error(text) {
            Some(kind) => integer_error_message(kind),
            None => "invalid digit found in string"@,
        },
    }
}

impl DataError {
    /// The message that reports this error (see [`error_message`]).
    pub fn message(&self) -> (result: String)
        ensures
            result@ == error_message(self@),
    {
        let mut result = String::new();
        match self {
            DataError::BadLineFormat { file, line } => {
                append_str(&mut result, "bad line format in ");
                append_str(&mut result, file.as_str());
                append_str(&mut result, ": ");
                append_str(&mut result, line.as_str());
            },
            DataError::BadStrokeFormat { word, stroke } => {
                append_str(&mut result, "bad stroke format: ");
                append_str(&mut result, word.as_str());
                append_str(&mut result, " = ");
                append_str(&mut result, stroke.as_str());
            },
            DataError::SelfMapping { file, line } => {
                append_str(&mut result, "self-mapping character variant in ");
                append_str(&mut result, file.as_str());
                append_str(&mut result, ": ");
                append_str(&mut result, line.as_str());
            },
            DataError::EmptyWord { file } => {
                append_str(&mut result, "empty word in ");
                append_str(&mut result, file.as_str());
            },
            DataError::InvalidInteger { text } => {
                let kind = integer_error_kind(&chars_of(text.as_str()));
                let words = match kind {
                    Some(IntegerErrorKind::Empty) => "cannot parse integer from empty string",
                    Some(IntegerErrorKind::PosOverflow) => "number too large to fit in target type",
                    Some(IntegerErrorKind::NegOverflow) => "number too small to fit in target type",
                    _ => "invalid digit found in string",
                };
                append_str(&mut result, words);
            },
        }
        result
    }
}

/// The error for a line of `file_name` that does not have the fields its
/// file calls for.
pub fn bad_line(file_name: &str, line: &[char]) -> (result: DataError)
    ensures
        result@ == (DataErrorView::BadLineFormat { file: file_name@, line: line@ }),
{
    DataError::BadLineFormat { file: file_name.to_owned(), line: string_of(line) }
}

} // verus!
