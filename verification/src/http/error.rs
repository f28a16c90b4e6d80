//! Why a message could not be read or sent.
use vstd::prelude::*;
use crate::text::IntErrorKind;
use crate::uri;
use super::HttpVersion;

verus! {

/// Why reading a message failed. Failures of the connection itself and
/// timeouts are met where the bytes are read.
#[derive(Debug, PartialEq, Eq)]
pub enum ParseError {
    UnexpectedEof,
    Utf8Error,
    Utf8ErrorStr,
    ExpectedDigit,
    ParseIntError(IntErrorKind),
    ParseVersionError,
    InvalidHttpVersion(HttpVersion),
    ExpectedSpace,
    ExpectedNewline,
    ExpectedColon,
    ExpectedLineFeed,
    UriError(uri::ParseError),
    Timeout,
    UnknownTransferEncoding(String),
}

pub enum ParseErrorV {
    UnexpectedEof,
    Utf8Error,
    Utf8ErrorStr,
    ExpectedDigit,
    ParseIntError(IntErrorKind),
    ParseVersionError,
    InvalidHttpVersion(HttpVersion),
    ExpectedSpace,
    ExpectedNewline,
    ExpectedColon,
    ExpectedLineFeed,
    UriError(uri::ParseError),
    Timeout,
    UnknownTransferEncoding(Seq<char>),
}

impl View for ParseError {
    type V = ParseErrorV;

    open spec fn view(&self) -> ParseErrorV {
        match self {
            ParseError::UnexpectedEof => ParseErrorV::UnexpectedEof,
            ParseError::Utf8Error => ParseErrorV::Utf8Error,
            ParseError::Utf8ErrorStr => ParseErrorV::Utf8ErrorStr,
            ParseError::ExpectedDigit => ParseErrorV::ExpectedDigit,
            ParseError::ParseIntError(k) => ParseErrorV::ParseIntError(*k),
            ParseError::ParseVersionError => ParseErrorV::ParseVersionError,
            ParseError::InvalidHttpVersion(v) => ParseErrorV::InvalidHttpVersion(*v),
            ParseError::ExpectedSpace => ParseErrorV::ExpectedSpace,
            ParseError::ExpectedNewline => ParseErrorV::ExpectedNewline,
            ParseError::ExpectedColon => ParseErrorV::ExpectedColon,
            ParseError::ExpectedLineFeed => ParseErrorV::ExpectedLineFeed,
            ParseError::UriError(e) => ParseErrorV::UriError(*e),
            ParseError::Timeout => ParseErrorV::Timeout,
            ParseError::UnknownTransferEncoding(s) => ParseErrorV::UnknownTransferEncoding(s@),
        }
    }
}

/// Why sending failed.
#[derive(Debug, PartialEq, Eq)]
pub enum SendError {
    IoError,
    Timeout,
}

} // verus!
