//! Reading a request: the start line, the header fields and the body.
use vstd::prelude::*;
use vstd::utf8::*;
use crate::strmap::{Entries, StrMap};
use crate::text::string_from_utf8;
use crate::uri::{spec_parse_uri, try_parse_uri};
use super::{HttpVersion, Request, RequestV, StartLine, StartLineV};
use super::error::{ParseError, ParseErrorV};
use super::io::{
    Res, Parsed, agrees, and_then, ends_within, scan, lemma_scan, spec_read_byte,
    spec_read_token, spec_try_skip_newline, Class, read_byte, read_token, read_run,
    try_skip_newline,
};
use super::parse::{
    spec_parse_http_version, spec_parse_headers, spec_parse_body, body_headers,
    parse_http_version, parse_headers, parse_body,
};

verus! {

/// The method (a token), a space, the URI (up to the next space), a space
/// and the version. A URI on which `parse_uri` would panic gives `Abort`.
pub open spec fn spec_parse_start_line(b: Seq<u8>, eof: bool, i: int) -> Res<StartLineV> {
    and_then(
        spec_read_token(b, eof, i),
        |m: Seq<char>, e1: int|
            and_then(
                spec_read_byte(b, eof, e1),
                |c: u8, e2: int|
                    if c != 0x20 {
                        Res::Fail(ParseErrorV::ExpectedSpace)
                    } else {
                        match scan(b, eof, e2, Class::NotSpace) {
                            None => Res::More,
                            Some(e3) => {
                                let raw = b.subrange(e2, e3);
                                if !valid_utf8(raw) {
                                    Res::Fail(ParseErrorV::Utf8Error)
                                } else {
                                    match spec_parse_uri(decode_utf8(raw)) {
                                        Err(None) => Res::Abort,
                                        Err(Some(x)) => Res::Fail(ParseErrorV::UriError(x)),
                                        Ok(u) => and_then(
                                            spec_read_byte(b, eof, e3),
                                            |c2: u8, e4: int|
                                                if c2 != 0x20 {
                                                    Res::Fail(ParseErrorV::ExpectedSpace)
                                                } else {
                                                    and_then(
                                                        spec_parse_http_version(b, eof, e4),
                                                        |v: HttpVersion, e5: int|
                                                            Res::Done(
                                                                StartLineV {
                                                                    method: m,
                                                                    uri: u,
                                                                    version: v,
                                                                },
                                                                e5,
                                                            ),
                                                    )
                                                },
                                        ),
                                    }
                                }
                            },
                        }
                    },
            ),
    )
}

pub fn parse_start_line(buf: &[u8], eof: bool, i: usize) -> (r: Parsed<StartLine>)
    requires
        i <= buf@.len(),
    ensures
        agrees(r, spec_parse_start_line(buf@, eof, i as int), |s: StartLine| s@),
        ends_within(r, i as int, buf@.len() as int),
{
    let (method, e1) = match read_token(buf, eof, i) {
        Parsed::Done(m, e1) => (m, e1),
        Parsed::Fail(x) => return Parsed::Fail(x),
        Parsed::More => return Parsed::More,
        Parsed::Abort => return Parsed::Abort,
    };
    let e2 = match read_byte(buf, eof, e1) {
        Parsed::Done(c, e2) => {
            if c != 0x20 {
                return Parsed::Fail(ParseError::ExpectedSpace);
            }
            e2
        },
        Parsed::Fail(x) => return Parsed::Fail(x),
        Parsed::More => return Parsed::More,
        Parsed::Abort => return Parsed::Abort,
    };
    proof {
        lemma_scan(buf@, eof, e2 as int, Class::NotSpace);
    }
    let (raw, e3) = match read_run(buf, eof, e2, Class::NotSpace) {
        Parsed::Done(v, e3) => (v, e3),
        Parsed::Fail(x) => return Parsed::Fail(x),
        Parsed::More => return Parsed::More,
        Parsed::Abort => return Parsed::Abort,
    };
    let text = match string_from_utf8(raw) {
        Some(t) => t,
        None => return Parsed::Fail(ParseError::Utf8Error),
    };
    let uri = match try_parse_uri(text.as_str()) {
        None => return Parsed::Abort,
        Some(Err(x)) => return Parsed::Fail(ParseError::UriError(x)),
        Some(Ok(u)) => u,
    };
    let e4 = match read_byte(buf, eof, e3) {
        Parsed::Done(c, e4) => {
            if c != 0x20 {
                return Parsed::Fail(ParseError::ExpectedSpace);
            }
            e4
        },
        Parsed::Fail(x) => return Parsed::Fail(x),
        Parsed::More => return Parsed::More,
        Parsed::Abort => return Parsed::Abort,
    };
    match parse_http_version(buf, eof, e4) {
        Parsed::Done(version, e5) => Parsed::Done(StartLine { method, uri, version }, e5),
        Parsed::Fail(x) => Parsed::Fail(x),
        Parsed::More => Parsed::More,
        Parsed::Abort => Parsed::Abort,
    }
}

/// The start line, a line end, the header fields and the empty line that
/// closes them (each line end may be missing at the end of the stream).
pub open spec fn spec_parse_request_head(b: Seq<u8>, eof: bool) -> Res<(StartLineV, Entries)> {
    and_then(
        spec_parse_start_line(b, eof, 0),
        |sl: StartLineV, e1: int|
            and_then(
                spec_try_skip_newline(b, eof, e1),
                |x: bool, e2: int|
                    and_then(
                        spec_parse_headers(b, eof, e2, Seq::empty()),
                        |h: Entries, e3: int|
                            and_then(
                                spec_try_skip_newline(b, eof, e3),
                                |y: bool, e4: int| Res::Done((sl, h), e4),
                            ),
                    ),
            ),
    )
}

/// The head, then the body it announces.
pub open spec fn spec_parse_request(b: Seq<u8>, eof: bool) -> Res<RequestV> {
    and_then(
        spec_parse_request_head(b, eof),
        |head: (StartLineV, Entries), e: int|
            and_then(
                spec_parse_body(head.1, b, eof, e),
                |body: Seq<u8>, e2: int|
                    Res::Done(
                        RequestV { start_line: head.0, headers: body_headers(head.1), body },
                        e2,
                    ),
            ),
    )
}

/// Reads the head of a request from the start of `buf`.
pub fn parse_request_head(buf: &[u8], eof: bool) -> (r: Parsed<(StartLine, StrMap)>)
    ensures
        agrees(r, spec_parse_request_head(buf@, eof), |p: (StartLine, StrMap)| (p.0@, p.1@)),
        ends_within(r, 0, buf@.len() as int),
{
    let (start_line, e1) = match parse_start_line(buf, eof, 0) {
        Parsed::Done(sl, e1) => (sl, e1),
        Parsed::Fail(x) => return Parsed::Fail(x),
        Parsed::More => return Parsed::More,
        Parsed::Abort => return Parsed::Abort,
    };
    let e2 = match try_skip_newline(buf, eof, e1) {
        Parsed::Done(_, e2) => e2,
        Parsed::Fail(x) => return Parsed::Fail(x),
        Parsed::More => return Parsed::More,
        Parsed::Abort => return Parsed::Abort,
    };
    let (headers, e3) = match parse_headers(buf, eof, e2) {
        Parsed::Done(h, e3) => (h, e3),
        Parsed::Fail(x) => return Parsed::Fail(x),
        Parsed::More => return Parsed::More,
        Parsed::Abort => return Parsed::Abort,
    };
    match try_skip_newline(buf, eof, e3) {
        Parsed::Done(_, e4) => Parsed::Done((start_line, headers), e4),
        Parsed::Fail(x) => Parsed::Fail(x),
        Parsed::More => Parsed::More,
        Parsed::Abort => Parsed::Abort,
    }
}

/// Reads a request from the start of `buf`: `More` until enough bytes have
/// come, then the request and where it ends, or why it could not be read.
/// `Transfer-Encoding` is taken out of the header fields once it has been
/// applied.
pub fn parse_request(buf: &[u8], eof: bool) -> (r: Parsed<Request>)
    ensures
        agrees(r, spec_parse_request(buf@, eof), |q: Request| q@),
        ends_within(r, 0, buf@.len() as int),
{
    let (start_line, mut headers, e) = match parse_request_head(buf, eof) {
        Parsed::Done(head, e) => (head.0, head.1, e),
        Parsed::Fail(x) => return Parsed::Fail(x),
        Parsed::More => return Parsed::More,
        Parsed::Abort => return Parsed::Abort,
    };
    match parse_body(buf, eof, e, &mut headers) {
        Parsed::Done(body, e2) => Parsed::Done(Request { start_line, headers, body }, e2),
        Parsed::Fail(x) => Parsed::Fail(x),
        Parsed::More => Parsed::More,
        Parsed::Abort => Parsed::Abort,
    }
}

} // verus!
