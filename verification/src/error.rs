//! The structured error value a failed parse returns.

use vstd::prelude::*;
use vstd::string::*;
use crate::arg::ArgType;

verus! {

/// Spec-level description of a parse failure.
pub enum ErrorView {
    /// Two options visible at the resolved context share a canonical name.
    DeclaredTwice { name: Seq<char> },
    /// A token names an option absent from the anticipated option set.
    UnknownOption { name: Seq<char> },
    /// A non-boolean option appeared without an inline or following value.
    MissingOptionValue { name: Seq<char> },
    /// An option's raw value does not convert to its declared kind.
    OptionTypeMismatch { name: Seq<char>, raw: Seq<char>, expected: ArgType },
    /// A positional token does not convert to the declared kind; the
    /// position is 1-based.
    ArgumentTypeMismatch { position: int, raw: Seq<char>, expected: ArgType },
    /// The positional token count differs from the declared count.
    ArityMismatch { expected: int, actual: int },
    /// A raw text does not convert to the expected kind.
    InvalidValue { raw: Seq<char>, expected: ArgType },
}

/// What went wrong, with the data each failure is reported with.
#[derive(Debug)]
pub enum ParseErrorKind {
    DeclaredTwice { name: String },
    UnknownOption { name: String },
    MissingOptionValue { name: String },
    OptionTypeMismatch { name: String, raw: String, expected: ArgType },
    ArgumentTypeMismatch { position: usize, raw: String, expected: ArgType },
    ArityMismatch { expected: usize, actual: usize },
    InvalidValue { raw: String, expected: ArgType },
}

impl View for ParseErrorKind {
    type V = ErrorView;

    open spec fn view(&self) -> ErrorView {
        match self {
            ParseErrorKind::DeclaredTwice { name } => ErrorView::DeclaredTwice { name: name@ },
            ParseErrorKind::UnknownOption { name } => ErrorView::UnknownOption { name: name@ },
            ParseErrorKind::MissingOptionValue { name } => ErrorView::MissingOptionValue {
                name: name@,
            },
            ParseErrorKind::OptionTypeMismatch { name, raw, expected } => {
                ErrorView::OptionTypeMismatch { name: name@, raw: raw@, expected: *expected }
            },
            ParseErrorKind::ArgumentTypeMismatch { position, raw, expected } => {
                ErrorView::ArgumentTypeMismatch {
                    position: *position as int,
                    raw: raw@,
                    expected: *expected,
                }
            },
            ParseErrorKind::ArityMismatch { expected, actual } => {
                ErrorView::ArityMismatch { expected: *expected as int, actual: *actual as int }
            },
            ParseErrorKind::InvalidValue { raw, expected } => {
                ErrorView::InvalidValue { raw: raw@, expected: *expected }
            },
        }
    }
}

impl ErrorView {
    /// The rendered message this failure is reported with.
    pub open spec fn spec_message(self) -> Seq<char> {
        match self {
            ErrorView::DeclaredTwice { name } => "Option '"@ + name
                + "' declared multiple times in group specifications"@,
            ErrorView::UnknownOption { name } => "Option '--"@ + name
                + "' is unknown in the command context"@,
            ErrorView::MissingOptionValue { name } => "Encountered option '"@ + name
                + "' without value that is not of type boolean. "@
                + "Specify a value for the option."@,
            ErrorView::OptionTypeMismatch { name, raw, expected } => "Expected value '"@ + raw
                + "' of option '--"@ + name + "' to be of type '"@ + expected.spec_tag() + "'"@,
            ErrorView::ArgumentTypeMismatch { position, raw, expected } => "Expected argument '"@
                + raw + "' at position "@ + crate::value::dec_text(position)
                + " to be of type '"@ + expected.spec_tag() + "'"@,
            ErrorView::ArityMismatch { expected, actual } => "Expected to have "@
                + crate::value::dec_text(expected) + " arguments but got "@
                + crate::value::dec_text(actual),
            ErrorView::InvalidValue { raw, expected } => "Could not parse '"@ + raw
                + "' as type '"@ + expected.spec_tag() + "'"@,
        }
    }
}

/// A structured parse failure.
#[derive(Debug)]
pub struct ParserError {
    pub kind: ParseErrorKind,
}

impl View for ParserError {
    type V = ErrorView;

    open spec fn view(&self) -> ErrorView {
        self.kind@
    }
}

impl ParserError {
    /// Render the failure as a human-readable message: the fixed
    /// wording around the data the kind carries.
    pub fn message(&self) -> (r: String)
        ensures
            r@ == self@.spec_message(),
    {
        match &self.kind {
            ParseErrorKind::DeclaredTwice { name } => {
                let mut s = String::from_str("Option '");
                s.append(name.as_str());
                s.append("' declared multiple times in group specifications");
                s
            },
            ParseErrorKind::UnknownOption { name } => {
                let mut s = String::from_str("Option '--");
                s.append(name.as_str());
                s.append("' is unknown in the command context");
                s
            },
            ParseErrorKind::MissingOptionValue { name } => {
                let mut s = String::from_str("Encountered option '");
                s.append(name.as_str());
                s.append("' without value that is not of type boolean. ");
                s.append("Specify a value for the option.");
                s
            },
            ParseErrorKind::OptionTypeMismatch { name, raw, expected } => {
                let mut s = String::from_str("Expected value '");
                s.append(raw.as_str());
                s.append("' of option '--");
                s.append(name.as_str());
                s.append("' to be of type '");
                s.append(expected.tag());
                s.append("'");
                s
            },
            ParseErrorKind::ArgumentTypeMismatch { position, raw, expected } => {
                let mut s = String::from_str("Expected argument '");
                s.append(raw.as_str());
                s.append("' at position ");
                let p = crate::value::usize_to_text(*position);
                s.append(p.as_str());
                s.append(" to be of type '");
                s.append(expected.tag());
                s.append("'");
                s
            },
            ParseErrorKind::ArityMismatch { expected, actual } => {
                let mut s = String::from_str("Expected to have ");
                let e = crate::value::usize_to_text(*expected);
                s.append(e.as_str());
                s.append(" arguments but got ");
                let a = crate::value::usize_to_text(*actual);
                s.append(a.as_str());
                s
            },
            ParseErrorKind::InvalidValue { raw, expected } => {
                let mut s = String::from_str("Could not parse '");
                s.append(raw.as_str());
                s.append("' as type '");
                s.append(expected.tag());
                s.append("'");
                s
            },
        }
    }
}

} // verus!
