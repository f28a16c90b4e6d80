//! Reading a response: the status line, the header fields and the body.
use vstd::prelude::*;
use crate::strmap::{Entries, StrMap};
use super::{HttpVersion, Response, ResponseV};
use super::error::{ParseError, ParseErrorV};
use super::io::{
    Res, Parsed, agrees, and_then, ends_within, spec_read_byte, spec_read_digit, spec_skip_line,
    spec_skip_fixed, lemma_skip_line, read_byte, read_digit, skip_until_inclusive, skip_fixed,
};
use super::parse::{
    spec_parse_http_version, spec_parse_headers, spec_parse_body, body_headers,
    parse_http_version, parse_headers, parse_body,
};

verus! {

/// A carriage return and a line feed.
pub open spec fn crlf() -> Seq<u8> {
    seq![0x0du8, 0x0au8]
}

/// The status line: version 1.x, a space and three digits; the rest of the
/// line is skipped.
pub open spec fn spec_parse_status_line(b: Seq<u8>, eof: bool) -> Res<i16> {
    and_then(
        spec_parse_http_version(b, eof, 0),
        |v: HttpVersion, e1: int|
            if v.0 != 1 {
                Res::Fail(ParseErrorV::InvalidHttpVersion(v))
            } else {
                and_then(
                    spec_read_byte(b, eof, e1),
                    |c: u8, e2: int|
                        if c != 0x20 {
                            Res::Fail(ParseErrorV::ExpectedSpace)
                        } else {
                            and_then(
                                spec_read_digit(b, eof, e2),
                                |d1: u8, e3: int|
                                    and_then(
                                        spec_read_digit(b, eof, e3),
                                        |d2: u8, e4: int|
                                            and_then(
                                                spec_read_digit(b, eof, e4),
                                                |d3: u8, e5: int|
                                                    match spec_skip_line(b, eof, e5) {
                                                        None => Res::More,
                                                        Some(e6) => Res::Done(
                                                            (d1 * 100 + d2 * 10 + d3) as i16,
                                                            e6,
                                                        ),
                                                    },
                                            ),
                                    ),
                            )
                        },
                )
            },
    )
}

/// The status line, the header fields and the empty line after them. Only
/// the end of the stream stops at that empty line: other bytes in its place
/// are left for the body.
pub open spec fn spec_parse_response_head(b: Seq<u8>, eof: bool) -> Res<(i16, Entries)> {
    and_then(
        spec_parse_status_line(b, eof),
        |status: i16, e1: int|
            and_then(
                spec_parse_headers(b, eof, e1, Seq::empty()),
                |h: Entries, e2: int|
                    and_then(
                        spec_skip_fixed(b, eof, e2, crlf(), 0),
                        |m: bool, e3: int| Res::Done((status, h), e3),
                    ),
            ),
    )
}

/// The head, then the body it announces.
pub open spec fn spec_parse_response(b: Seq<u8>, eof: bool) -> Res<ResponseV> {
    and_then(
        spec_parse_response_head(b, eof),
        |head: (i16, Entries), e: int|
            and_then(
                spec_parse_body(head.1, b, eof, e),
                |body: Seq<u8>, e2: int|
                    Res::Done(
                        ResponseV { status: head.0, headers: body_headers(head.1), body },
                        e2,
                    ),
            ),
    )
}

fn parse_status_line(buf: &[u8], eof: bool) -> (r: Parsed<i16>)
    ensures
        agrees(r, spec_parse_status_line(buf@, eof), |s: i16| s),
        ends_within(r, 0, buf@.len() as int),
{
    let (version, e1) = match parse_http_version(buf, eof, 0) {
        Parsed::Done(v, e1) => (v, e1),
        Parsed::Fail(x) => return Parsed::Fail(x),
        Parsed::More => return Parsed::More,
        Parsed::Abort => return Parsed::Abort,
    };
    if version.0 != 1 {
        return Parsed::Fail(ParseError::InvalidHttpVersion(version));
    }
    let e2 = match read_byte(buf, eof, e1) {
        Parsed::Done(c, e2) => {
            if c != 0x20 {
                return Parsed::Fail(ParseError::ExpectedSpace);
            }
            e2
        },
        Parsed::Fail(x) => return Parsed::Fail(x),
        Parsed::More => return Parsed::More,
        Parsed::Abort => return Parsed::Abort,
    };
    let (d1, e3) = match read_digit(buf, eof, e2) {
        Parsed::Done(d, e) => (d, e),
        Parsed::Fail(x) => return Parsed::Fail(x),
        Parsed::More => return Parsed::More,
        Parsed::Abort => return Parsed::Abort,
    };
    let (d2, e4) = match read_digit(buf, eof, e3) {
        Parsed::Done(d, e) => (d, e),
        Parsed::Fail(x) => return Parsed::Fail(x),
        Parsed::More => return Parsed::More,
        Parsed::Abort => return Parsed::Abort,
    };
    let (d3, e5) = match read_digit(buf, eof, e4) {
        Parsed::Done(d, e) => (d, e),
        Parsed::Fail(x) => return Parsed::Fail(x),
        Parsed::More => return Parsed::More,
        Parsed::Abort => return Parsed::Abort,
    };
    assert(d1 <= 9 && d2 <= 9 && d3 <= 9);
    let status: i16 = (d1 as i16) * 100 + (d2 as i16) * 10 + (d3 as i16);
    assert(status == (d1 * 100 + d2 * 10 + d3) as i16);
    proof {
        lemma_skip_line(buf@, eof, e5 as int);
    }
    match skip_until_inclusive(buf, eof, e5) {
        Some(e6) => Parsed::Done(status, e6),
        None => Parsed::More,
    }
}

/// Reads the head of a response from the start of `buf`.
pub fn parse_response_head(buf: &[u8], eof: bool) -> (r: Parsed<(i16, StrMap)>)
    ensures
        agrees(r, spec_parse_response_head(buf@, eof), |p: (i16, StrMap)| (p.0, p.1@)),
        ends_within(r, 0, buf@.len() as int),
{
    let (status, e6) = match parse_status_line(buf, eof) {
        Parsed::Done(s, e) => (s, e),
        Parsed::Fail(x) => return Parsed::Fail(x),
        Parsed::More => return Parsed::More,
        Parsed::Abort => return Parsed::Abort,
    };
    let (headers, e7) = match parse_headers(buf, eof, e6) {
        Parsed::Done(h, e7) => (h, e7),
        Parsed::Fail(x) => return Parsed::Fail(x),
        Parsed::More => return Parsed::More,
        Parsed::Abort => return Parsed::Abort,
    };
    let lit: [u8; 2] = [0x0d, 0x0a];
    assert(lit@ == crlf());
    match skip_fixed(buf, eof, e7, lit.as_slice()) {
        Parsed::Done(_, e8) => Parsed::Done((status, headers), e8),
        Parsed::Fail(x) => Parsed::Fail(x),
        Parsed::More => Parsed::More,
        Parsed::Abort => Parsed::Abort,
    }
}

/// Reads a response from the start of `buf`: `More` until enough bytes have
/// come, then the response and where it ends, or why it could not be read.
pub fn parse_response(buf: &[u8], eof: bool) -> (r: Parsed<Response>)
    ensures
        agrees(r, spec_parse_response(buf@, eof), |q: Response| q@),
        ends_within(r, 0, buf@.len() as int),
{
    let (status, mut headers, e) = match parse_response_head(buf, eof) {
        Parsed::Done(head, e) => (head.0, head.1, e),
        Parsed::Fail(x) => return Parsed::Fail(x),
        Parsed::More => return Parsed::More,
        Parsed::Abort => return Parsed::Abort,
    };
    match parse_body(buf, eof, e, &mut headers) {
        Parsed::Done(body, e2) => Parsed::Done(Response { status, headers, body }, e2),
        Parsed::Fail(x) => Parsed::Fail(x),
        Parsed::More => Parsed::More,
        Parsed::Abort => Parsed::Abort,
    }
}

} // verus!
