//! Why a configuration was refused.
use vstd::prelude::*;
use crate::text::IntErrorKind;

verus! {

/// Why reading the configuration failed. Reading the file itself, and
/// reading `ip` values as addresses, happen where the file is opened.
#[derive(Debug, PartialEq, Eq)]
pub enum ParseError {
    Utf8Error,
    ParseIntError(IntErrorKind),
    UnexpectedToken(String, String),
    UnexpectedEof,
    UnknownField(String),
    DuplicateField(String),
    DuplicateContent(String),
    DuplicateBalancing(String),
    UnknownMatcher(String),
    /// The byte after a backslash in a quoted token that is no known escape,
    /// as `std::ascii::escape_default` writes it (see `text::ascii_escape`).
    UnknownEscape(String),
    MissingField(String),
}

pub enum ParseErrorV {
    Utf8Error,
    ParseIntError(IntErrorKind),
    UnexpectedToken(Seq<char>, Seq<char>),
    UnexpectedEof,
    UnknownField(Seq<char>),
    DuplicateField(Seq<char>),
    DuplicateContent(Seq<char>),
    DuplicateBalancing(Seq<char>),
    UnknownMatcher(Seq<char>),
    UnknownEscape(Seq<char>),
    MissingField(Seq<char>),
}

impl View for ParseError {
    type V = ParseErrorV;

    open spec fn view(&self) -> ParseErrorV {
        match self {
            ParseError::Utf8Error => ParseErrorV::Utf8Error,
            ParseError::ParseIntError(k) => ParseErrorV::ParseIntError(*k),
            ParseError::UnexpectedToken(a, b) => ParseErrorV::UnexpectedToken(a@, b@),
            ParseError::UnexpectedEof => ParseErrorV::UnexpectedEof,
            ParseError::UnknownField(a) => ParseErrorV::UnknownField(a@),
            ParseError::DuplicateField(a) => ParseErrorV::DuplicateField(a@),
            ParseError::DuplicateContent(a) => ParseErrorV::DuplicateContent(a@),
            ParseError::DuplicateBalancing(a) => ParseErrorV::DuplicateBalancing(a@),
            ParseError::UnknownMatcher(a) => ParseErrorV::UnknownMatcher(a@),
            ParseError::UnknownEscape(a) => ParseErrorV::UnknownEscape(a@),
            ParseError::MissingField(a) => ParseErrorV::MissingField(a@),
        }
    }
}

/// Where reading stops: an error, or a line the reader would wait on forever
/// (the input ends inside a `file` or `domain` line).
pub enum Halt {
    Error(ParseErrorV),
    Endless,
}

} // verus!
