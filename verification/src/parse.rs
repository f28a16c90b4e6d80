//! A simpler request reader: the URI is kept as it comes (its host and its
//! undecoded path picked out), header names as they are written and header
//! values as bytes, and a body only where `Content-Length` gives one.
use vstd::prelude::*;
use vstd::utf8::*;
use crate::strmap::{FieldMap, spec_get, spec_insert};
use crate::text::{string_from_utf8, spec_parse_usize, parse_usize, lemma_parse_int_range, IntErrorKind};
use crate::http::error::ParseErrorV;
use crate::http::io::{
    Res, Parsed, agrees, and_then, ends_within, peek, scan, lemma_scan, spec_read_byte,
    spec_read_token, spec_try_skip_newline, spec_skip_through, spec_read_n, bytes_as_chars, Class,
    peek_byte, read_byte, read_token, read_run, scan_class, skip_through, try_skip_newline,
    read_n_bytes,
};
use crate::http::parse::{trim_ws_end, spec_parse_http_version};

verus! {

/// Why a request could not be read.
#[derive(Debug, Clone, Copy, PartialEq, Eq)]
pub enum ParseError {
    UnexpectedEof,
    Utf8Error,
    Utf8ErrorSlice,
    ExpectedDigit,
    ParseIntError(IntErrorKind),
    InvalidVersion,
    ExpectedSpace,
    ExpectedNewline,
    ExpectedColon,
    ExpectedLineFeed,
}

/// The error of this reader for an error of the byte readers it is built on
/// (the others never arise here).
pub open spec fn legacy(e: ParseErrorV) -> ParseError {
    match e {
        ParseErrorV::UnexpectedEof => ParseError::UnexpectedEof,
        ParseErrorV::Utf8Error => ParseError::Utf8Error,
        ParseErrorV::Utf8ErrorStr => ParseError::Utf8ErrorSlice,
        ParseErrorV::ExpectedDigit => ParseError::ExpectedDigit,
        ParseErrorV::ParseIntError(k) => ParseError::ParseIntError(k),
        ParseErrorV::ParseVersionError => ParseError::InvalidVersion,
        ParseErrorV::ExpectedSpace => ParseError::ExpectedSpace,
        ParseErrorV::ExpectedNewline => ParseError::ExpectedNewline,
        ParseErrorV::ExpectedColon => ParseError::ExpectedColon,
        ParseErrorV::ExpectedLineFeed => ParseError::ExpectedLineFeed,
        _ => ParseError::UnexpectedEof,
    }
}

fn legacy_error(e: crate::http::ParseError) -> (r: ParseError)
    ensures
        r == legacy(e@),
{
    match e {
        crate::http::ParseError::UnexpectedEof => ParseError::UnexpectedEof,
        crate::http::ParseError::Utf8Error => ParseError::Utf8Error,
        crate::http::ParseError::Utf8ErrorStr => ParseError::Utf8ErrorSlice,
        crate::http::ParseError::ExpectedDigit => ParseError::ExpectedDigit,
        crate::http::ParseError::ParseIntError(k) => ParseError::ParseIntError(k),
        crate::http::ParseError::ParseVersionError => ParseError::InvalidVersion,
        crate::http::ParseError::ExpectedSpace => ParseError::ExpectedSpace,
        crate::http::ParseError::ExpectedNewline => ParseError::ExpectedNewline,
        crate::http::ParseError::ExpectedColon => ParseError::ExpectedColon,
        crate::http::ParseError::ExpectedLineFeed => ParseError::ExpectedLineFeed,
        _ => ParseError::UnexpectedEof,
    }
}

/// What reading gives: a value and the position after it, an error, a need
/// for more bytes, or a point where reading panics.
#[derive(Debug)]
pub enum Reading<T> {
    Done(T, usize),
    Fail(ParseError),
    More,
    Abort,
}

/// `p` is the result `r` describes, with values related by `f`.
pub open spec fn reads<T, V>(p: Reading<T>, r: Res<V>, f: spec_fn(T) -> V) -> bool {
    match (p, r) {
        (Reading::Done(x, e), Res::Done(v, e2)) => f(x) == v && e as int == e2,
        (Reading::Fail(x), Res::Fail(y)) => x == legacy(y),
        (Reading::More, Res::More) => true,
        (Reading::Abort, Res::Abort) => true,
        _ => false,
    }
}

fn lift<T>(p: Parsed<T>) -> (r: Reading<T>)
    ensures
        match p {
            Parsed::Done(x, e) => r == Reading::Done(x, e),
            Parsed::Fail(x) => r == Reading::<T>::Fail(legacy(x@)),
            Parsed::More => r is More,
            Parsed::Abort => r is Abort,
        },
{
    match p {
        Parsed::Done(x, e) => Reading::Done(x, e),
        Parsed::Fail(x) => Reading::Fail(legacy_error(x)),
        Parsed::More => Reading::More,
        Parsed::Abort => Reading::Abort,
    }
}

#[derive(PartialEq, Eq, Debug, Clone, Copy, Structural)]
pub struct HttpVersion(pub u8, pub u8);

/// A URI as it came, with its host and path picked out.
#[derive(Debug, PartialEq, Eq)]
pub struct Uri {
    pub full: String,
    pub path: String,
    pub host: String,
}

pub struct UriV {
    pub full: Seq<char>,
    pub path: Seq<char>,
    pub host: Seq<char>,
}

impl View for Uri {
    type V = UriV;

    open spec fn view(&self) -> UriV {
        UriV { full: self.full@, path: self.path@, host: self.host@ }
    }
}

#[derive(PartialEq, Eq, Debug)]
pub struct StartLine {
    pub method: String,
    pub uri: Uri,
    pub version: HttpVersion,
}

pub struct StartLineV {
    pub method: Seq<char>,
    pub uri: UriV,
    pub version: HttpVersion,
}

impl View for StartLine {
    type V = StartLineV;

    open spec fn view(&self) -> StartLineV {
        StartLineV { method: self.method@, uri: self.uri@, version: self.version }
    }
}

#[derive(PartialEq, Eq, Debug)]
pub struct Request {
    pub start_line: StartLine,
    pub headers: FieldMap,
    pub body: Vec<u8>,
}

pub struct RequestV {
    pub start_line: StartLineV,
    pub headers: Seq<(Seq<char>, Seq<u8>)>,
    pub body: Seq<u8>,
}

impl View for Request {
    type V = RequestV;

    open spec fn view(&self) -> RequestV {
        RequestV { start_line: self.start_line@, headers: self.headers@, body: self.body@ }
    }
}

// ----------------------------------------------------------------------------
// The URI
// ----------------------------------------------------------------------------

/// After a scheme (everything up to the first colon): the start of the path
/// and the host, and where reading goes on. A `//` after the colon starts an
/// authority: the host runs to the next `/` or `:`, a port to the next `/`.
pub open spec fn spec_authority(b: Seq<u8>, eof: bool, i: int) -> Res<(int, Seq<char>)> {
    match spec_skip_through(b, eof, i, 0x3a) {
        None => Res::More,
        Some(e1) => match peek(b, eof, e1) {
            None => Res::More,
            Some(q1) => if q1 != Some(0x2fu8) {
                Res::Done((e1, Seq::empty()), e1)
            } else {
                match peek(b, eof, e1 + 1) {
                    None => Res::More,
                    Some(q2) => if q2 != Some(0x2fu8) {
                        Res::Done((e1, Seq::empty()), e1 + 1)
                    } else {
                        match scan(b, eof, e1 + 2, Class::NotSlashColon) {
                            None => Res::More,
                            Some(he) => {
                                let raw = b.subrange(e1 + 2, he);
                                if !valid_utf8(raw) {
                                    Res::Fail(ParseErrorV::Utf8Error)
                                } else {
                                    match peek(b, eof, he) {
                                        None => Res::More,
                                        Some(q3) => if q3 == Some(0x3au8) {
                                            match scan(b, eof, he, Class::NotSlash) {
                                                None => Res::More,
                                                Some(e4) => Res::Done((e4, decode_utf8(raw)), e4),
                                            }
                                        } else {
                                            Res::Done((he, decode_utf8(raw)), he)
                                        },
                                    }
                                }
                            },
                        }
                    },
                }
            },
        },
    }
}

/// A URI from `i`: an authority part where it does not start with `/`, then
/// the path (a run of path characters) and anything else up to a space.
pub open spec fn spec_parse_uri(b: Seq<u8>, eof: bool, i: int) -> Res<UriV> {
    match peek(b, eof, i) {
        None => Res::More,
        Some(p) => {
            let head = if p == Some(0x2fu8) {
                Res::Done((i, Seq::<char>::empty()), i)
            } else {
                spec_authority(b, eof, i)
            };
            and_then(
                head,
                |h: (int, Seq<char>), pos: int|
                    match scan(b, eof, pos, Class::UriPath) {
                        None => Res::More,
                        Some(pe) => {
                            let path = b.subrange(h.0, pe);
                            if !valid_utf8(path) {
                                Res::Fail(ParseErrorV::Utf8Error)
                            } else {
                                match scan(b, eof, pe, Class::NotSpace) {
                                    None => Res::More,
                                    Some(fe) => {
                                        let full = b.subrange(i, fe);
                                        if !valid_utf8(full) {
                                            Res::Fail(ParseErrorV::Utf8Error)
                                        } else {
                                            Res::Done(
                                                UriV {
                                                    full: decode_utf8(full),
                                                    path: decode_utf8(path),
                                                    host: h.1,
                                                },
                                                fe,
                                            )
                                        }
                                    },
                                }
                            }
                        },
                    },
            )
        },
    }
}

fn copy_range(buf: &[u8], a: usize, b: usize) -> (r: Vec<u8>)
    requires
        a <= b <= buf@.len(),
    ensures
        r@ == buf@.subrange(a as int, b as int),
{
    let mut v: Vec<u8> = Vec::new();
    let mut j = a;
    while j < b
        invariant
            a <= j <= b <= buf@.len(),
            v@ == buf@.subrange(a as int, j as int),
        decreases b - j,
    {
        v.push(buf[j]);
        j = j + 1;
        assert(v@ =~= buf@.subrange(a as int, j as int));
    }
    v
}

fn read_authority(buf: &[u8], eof: bool, i: usize) -> (r: Parsed<(usize, String)>)
    requires
        i <= buf@.len(),
    ensures
        agrees(r, spec_authority(buf@, eof, i as int), |h: (usize, String)| (h.0 as int, h.1@)),
        ends_within(r, i as int, buf@.len() as int),
        r matches Parsed::Done(h, e) ==> i <= h.0 <= e,
{
    let n = buf.len();
    let e1 = match skip_through(buf, eof, i, 0x3a) {
        None => return Parsed::More,
        Some(e1) => e1,
    };
    let q1 = match peek_byte(buf, eof, e1) {
        None => return Parsed::More,
        Some(q) => q,
    };
    if q1 != Some(0x2fu8) {
        return Parsed::Done((e1, String::new()), e1);
    }
    assert(e1 < n);
    let q2 = match peek_byte(buf, eof, e1 + 1) {
        None => return Parsed::More,
        Some(q) => q,
    };
    if q2 != Some(0x2fu8) {
        return Parsed::Done((e1, String::new()), e1 + 1);
    }
    assert(e1 + 1 < n);
    let he = match scan_class(buf, eof, e1 + 2, Class::NotSlashColon) {
        None => return Parsed::More,
        Some(he) => he,
    };
    let raw = copy_range(buf, e1 + 2, he);
    let host = match string_from_utf8(raw) {
        Some(h) => h,
        None => return Parsed::Fail(crate::http::ParseError::Utf8Error),
    };
    match peek_byte(buf, eof, he) {
        None => Parsed::More,
        Some(q3) => {
            if q3 == Some(0x3au8) {
                match scan_class(buf, eof, he, Class::NotSlash) {
                    None => Parsed::More,
                    Some(e4) => Parsed::Done((e4, host), e4),
                }
            } else {
                Parsed::Done((he, host), he)
            }
        },
    }
}

fn read_uri(buf: &[u8], eof: bool, i: usize) -> (r: Parsed<Uri>)
    requires
        i <= buf@.len(),
    ensures
        agrees(r, spec_parse_uri(buf@, eof, i as int), |u: Uri| u@),
        ends_within(r, i as int, buf@.len() as int),
{
    let p = match peek_byte(buf, eof, i) {
        None => return Parsed::More,
        Some(p) => p,
    };
    let (path_start, host, pos) = if p == Some(0x2fu8) {
        (i, String::new(), i)
    } else {
        match read_authority(buf, eof, i) {
            Parsed::Done(h, pos) => (h.0, h.1, pos),
            Parsed::Fail(x) => return Parsed::Fail(x),
            Parsed::More => return Parsed::More,
            Parsed::Abort => return Parsed::Abort,
        }
    };
    let pe = match scan_class(buf, eof, pos, Class::UriPath) {
        None => return Parsed::More,
        Some(pe) => pe,
    };
    let path = match string_from_utf8(copy_range(buf, path_start, pe)) {
        Some(t) => t,
        None => return Parsed::Fail(crate::http::ParseError::Utf8Error),
    };
    let fe = match scan_class(buf, eof, pe, Class::NotSpace) {
        None => return Parsed::More,
        Some(fe) => fe,
    };
    let full = match string_from_utf8(copy_range(buf, i, fe)) {
        Some(t) => t,
        None => return Parsed::Fail(crate::http::ParseError::Utf8Error),
    };
    Parsed::Done(Uri { full, path, host }, fe)
}

/// Reads a URI from `i` (see `spec_parse_uri`).
pub fn parse_uri(buf: &[u8], eof: bool, i: usize) -> (r: Reading<Uri>)
    requires
        i <= buf@.len(),
    ensures
        reads(r, spec_parse_uri(buf@, eof, i as int), |u: Uri| u@),
{
    lift(read_uri(buf, eof, i))
}

// ----------------------------------------------------------------------------
// Start line, header fields, body
// ----------------------------------------------------------------------------

/// `HTTP/`, a digit, a dot and a digit.
pub open spec fn spec_version(b: Seq<u8>, eof: bool, i: int) -> Res<HttpVersion> {
    and_then(
        spec_parse_http_version(b, eof, i),
        |v: crate::http::HttpVersion, e: int| Res::Done(HttpVersion(v.0, v.1), e),
    )
}

fn read_version(buf: &[u8], eof: bool, i: usize) -> (r: Parsed<HttpVersion>)
    requires
        i <= buf@.len(),
    ensures
        agrees(r, spec_version(buf@, eof, i as int), |v: HttpVersion| v),
        ends_within(r, i as int, buf@.len() as int),
{
    match crate::http::parse::parse_http_version(buf, eof, i) {
        Parsed::Done(v, e) => Parsed::Done(HttpVersion(v.0, v.1), e),
        Parsed::Fail(x) => Parsed::Fail(x),
        Parsed::More => Parsed::More,
        Parsed::Abort => Parsed::Abort,
    }
}

/// Reads `HTTP/` and the version digits from `i`.
pub fn parse_http_version(buf: &[u8], eof: bool, i: usize) -> (r: Reading<HttpVersion>)
    requires
        i <= buf@.len(),
    ensures
        reads(r, spec_version(buf@, eof, i as int), |v: HttpVersion| v),
{
    lift(read_version(buf, eof, i))
}

/// The method (a token), a space, the URI, a space and the version.
pub open spec fn spec_start_line(b: Seq<u8>, eof: bool, i: int) -> Res<StartLineV> {
    and_then(
        spec_read_token(b, eof, i),
        |m: Seq<char>, e1: int|
            and_then(
                spec_read_byte(b, eof, e1),
                |c: u8, e2: int|
                    if c != 0x20 {
                        Res::Fail(ParseErrorV::ExpectedSpace)
                    } else {
                        and_then(
                            spec_parse_uri(b, eof, e2),
                            |u: UriV, e3: int|
                                and_then(
                                    spec_read_byte(b, eof, e3),
                                    |c2: u8, e4: int|
                                        if c2 != 0x20 {
                                            Res::Fail(ParseErrorV::ExpectedSpace)
                                        } else {
                                            and_then(
                                                spec_version(b, eof, e4),
                                                |v: HttpVersion, e5: int|
                                                    Res::Done(
                                                        StartLineV { method: m, uri: u, version: v },
                                                        e5,
                                                    ),
                                            )
                                        },
                                ),
                        )
                    },
            ),
    )
}

fn read_start_line(buf: &[u8], eof: bool, i: usize) -> (r: Parsed<StartLine>)
    requires
        i <= buf@.len(),
    ensures
        agrees(r, spec_start_line(buf@, eof, i as int), |s: StartLine| s@),
        ends_within(r, i as int, buf@.len() as int),
{
    let (method, e1) = match read_token(buf, eof, i) {
        Parsed::Done(m, e1) => (m, e1),
        Parsed::Fail(x) => return Parsed::Fail(x),
        Parsed::More => return Parsed::More,
        Parsed::Abort => return Parsed::Abort,
    };
    let e2 = match read_byte(buf, eof, e1) {
        Parsed::Done(c, e2) => {
            if c != 0x20 {
                return Parsed::Fail(crate::http::ParseError::ExpectedSpace);
            }
            e2
        },
        Parsed::Fail(x) => return Parsed::Fail(x),
        Parsed::More => return Parsed::More,
        Parsed::Abort => return Parsed::Abort,
    };
    let (uri, e3) = match read_uri(buf, eof, e2) {
        Parsed::Done(u, e3) => (u, e3),
        Parsed::Fail(x) => return Parsed::Fail(x),
        Parsed::More => return Parsed::More,
        Parsed::Abort => return Parsed::Abort,
    };
    let e4 = match read_byte(buf, eof, e3) {
        Parsed::Done(c, e4) => {
            if c != 0x20 {
                return Parsed::Fail(crate::http::ParseError::ExpectedSpace);
            }
            e4
        },
        Parsed::Fail(x) => return Parsed::Fail(x),
        Parsed::More => return Parsed::More,
        Parsed::Abort => return Parsed::Abort,
    };
    match read_version(buf, eof, e4) {
        Parsed::Done(version, e5) => Parsed::Done(StartLine { method, uri, version }, e5),
        Parsed::Fail(x) => Parsed::Fail(x),
        Parsed::More => Parsed::More,
        Parsed::Abort => Parsed::Abort,
    }
}

/// Reads a start line from `i` (see `spec_start_line`).
pub fn parse_start_line(buf: &[u8], eof: bool, i: usize) -> (r: Reading<StartLine>)
    requires
        i <= buf@.len(),
    ensures
        reads(r, spec_start_line(buf@, eof, i as int), |s: StartLine| s@),
{
    lift(read_start_line(buf, eof, i))
}

/// One header line from `i`: the name as written and the value's bytes
/// (from after the colon and the spaces that follow it, up to the carriage
/// return, without trailing spaces), and where the line ends.
pub open spec fn field_line(b: Seq<u8>, eof: bool, i: int) -> Res<(Seq<char>, Seq<u8>)> {
    match scan(b, eof, i, Class::Tchar) {
        None => Res::More,
        Some(n) => and_then(
            spec_read_byte(b, eof, n),
            |c: u8, n1: int|
                if c != 0x3a {
                    Res::Fail(ParseErrorV::ExpectedColon)
                } else {
                    match scan(b, eof, n1, Class::Ws) {
                        None => Res::More,
                        Some(w) => match scan(b, eof, w, Class::NotCr) {
                            None => Res::More,
                            Some(ve) => and_then(
                                spec_try_skip_newline(b, eof, ve),
                                |x: bool, e: int|
                                    Res::Done(
                                        (
                                            bytes_as_chars(b.subrange(i, n)),
                                            trim_ws_end(b.subrange(w, ve)),
                                        ),
                                        e,
                                    ),
                            ),
                        },
                    }
                },
        ),
    }
}

pub proof fn lemma_field_line(b: Seq<u8>, eof: bool, i: int)
    requires
        0 <= i <= b.len(),
    ensures
        field_line(b, eof, i) matches Res::Done(_, e) ==> i < e <= b.len(),
{
    lemma_scan(b, eof, i, Class::Tchar);
    if let Some(n) = scan(b, eof, i, Class::Tchar) {
        if n < b.len() {
            lemma_scan(b, eof, n + 1, Class::Ws);
            if let Some(w) = scan(b, eof, n + 1, Class::Ws) {
                lemma_scan(b, eof, w, Class::NotCr);
            }
        }
    }
}

/// Header lines from `i` until a carriage return or the end of the stream,
/// each setting its name in `h`.
pub open spec fn spec_fields(b: Seq<u8>, eof: bool, i: int, h: Seq<(Seq<char>, Seq<u8>)>) -> Res<
    Seq<(Seq<char>, Seq<u8>)>,
>
    decreases b.len() - i,
    when 0 <= i <= b.len()
{
    match peek(b, eof, i) {
        None => Res::More,
        Some(None) => Res::Done(h, i),
        Some(Some(c)) => if c == 0x0d {
            Res::Done(h, i)
        } else {
            match field_line(b, eof, i) {
                Res::Done(kv, e) => {
                    proof {
                        lemma_field_line(b, eof, i);
                    }
                    spec_fields(b, eof, e, spec_insert(h, kv.0, kv.1))
                },
                Res::Fail(x) => Res::Fail(x),
                Res::More => Res::More,
                Res::Abort => Res::Abort,
            }
        },
    }
}

fn read_field_line(buf: &[u8], eof: bool, i: usize) -> (r: Parsed<(String, Vec<u8>)>)
    requires
        i <= buf@.len(),
    ensures
        agrees(r, field_line(buf@, eof, i as int), |kv: (String, Vec<u8>)| (kv.0@, kv.1@)),
{
    proof {
        lemma_scan(buf@, eof, i as int, Class::Tchar);
    }
    let (name, n) = match read_token(buf, eof, i) {
        Parsed::Done(name, n) => (name, n),
        Parsed::Fail(x) => return Parsed::Fail(x),
        Parsed::More => return Parsed::More,
        Parsed::Abort => return Parsed::Abort,
    };
    let n1 = match read_byte(buf, eof, n) {
        Parsed::Done(c, n1) => {
            if c != 0x3a {
                return Parsed::Fail(crate::http::ParseError::ExpectedColon);
            }
            n1
        },
        Parsed::Fail(x) => return Parsed::Fail(x),
        Parsed::More => return Parsed::More,
        Parsed::Abort => return Parsed::Abort,
    };
    let w = match scan_class(buf, eof, n1, Class::Ws) {
        Some(w) => w,
        None => return Parsed::More,
    };
    proof {
        lemma_scan(buf@, eof, w as int, Class::NotCr);
    }
    let (mut raw, ve) = match read_run(buf, eof, w, Class::NotCr) {
        Parsed::Done(v, ve) => (v, ve),
        Parsed::Fail(x) => return Parsed::Fail(x),
        Parsed::More => return Parsed::More,
        Parsed::Abort => return Parsed::Abort,
    };
    while raw.len() > 0 && crate::http::io::is_whitespace(raw[raw.len() - 1])
        invariant
            trim_ws_end(raw@) == trim_ws_end(buf@.subrange(w as int, ve as int)),
        decreases raw@.len(),
    {
        raw.pop();
    }
    match try_skip_newline(buf, eof, ve) {
        Parsed::Done(_, e) => Parsed::Done((name, raw), e),
        Parsed::Fail(x) => Parsed::Fail(x),
        Parsed::More => Parsed::More,
        Parsed::Abort => Parsed::Abort,
    }
}

fn read_fields(buf: &[u8], eof: bool, i: usize) -> (r: Parsed<FieldMap>)
    requires
        i <= buf@.len(),
    ensures
        agrees(r, spec_fields(buf@, eof, i as int, Seq::empty()), |h: FieldMap| h@),
        ends_within(r, i as int, buf@.len() as int),
{
    let mut h = FieldMap::new();
    let mut j = i;
    while j <= buf.len()
        invariant
            i <= j <= buf@.len(),
            spec_fields(buf@, eof, i as int, Seq::empty()) == spec_fields(buf@, eof, j as int, h@),
        decreases buf@.len() - j,
    {
        match peek_byte(buf, eof, j) {
            None => return Parsed::More,
            Some(None) => return Parsed::Done(h, j),
            Some(Some(c)) => {
                if c == 0x0d {
                    return Parsed::Done(h, j);
                }
            },
        }
        proof {
            lemma_field_line(buf@, eof, j as int);
        }
        match read_field_line(buf, eof, j) {
            Parsed::Done(kv, e) => {
                let (k, v) = kv;
                h.insert(k, v);
                j = e;
            },
            Parsed::Fail(x) => return Parsed::Fail(x),
            Parsed::More => return Parsed::More,
            Parsed::Abort => return Parsed::Abort,
        }
    }
    Parsed::More
}

/// Reads header lines from `i` until a carriage return or the end of the
/// stream; a name that comes again keeps its last value.
pub fn parse_headers(buf: &[u8], eof: bool, i: usize) -> (r: Reading<FieldMap>)
    requires
        i <= buf@.len(),
    ensures
        reads(r, spec_fields(buf@, eof, i as int, Seq::empty()), |h: FieldMap| h@),
{
    lift(read_fields(buf, eof, i))
}

/// The body the header fields announce: as many bytes as `Content-Length`
/// gives (fewer where the stream ends), none without it. A transfer encoding
/// is where reading panics.
pub open spec fn spec_body(h: Seq<(Seq<char>, Seq<u8>)>, b: Seq<u8>, eof: bool, i: int) -> Res<Seq<u8>> {
    match spec_get(h, "Content-Length"@) {
        Some(d) => if !valid_utf8(d) {
            Res::Fail(ParseErrorV::Utf8ErrorStr)
        } else {
            match spec_parse_usize(decode_utf8(d), 10) {
                Err(k) => Res::Fail(ParseErrorV::ParseIntError(k)),
                Ok(n) => spec_read_n(b, eof, i, n),
            }
        },
        None => if spec_get(h, "Transfer-Encoding"@) is Some {
            Res::Abort
        } else {
            Res::Done(Seq::empty(), i)
        },
    }
}

/// The start line, a line end, the header fields, a line end and the body.
pub open spec fn spec_request(b: Seq<u8>, eof: bool) -> Res<RequestV> {
    and_then(
        spec_start_line(b, eof, 0),
        |sl: StartLineV, e1: int|
            and_then(
                spec_try_skip_newline(b, eof, e1),
                |x: bool, e2: int|
                    and_then(
                        spec_fields(b, eof, e2, Seq::empty()),
                        |h: Seq<(Seq<char>, Seq<u8>)>, e3: int|
                            and_then(
                                spec_try_skip_newline(b, eof, e3),
                                |y: bool, e4: int|
                                    and_then(
                                        spec_body(h, b, eof, e4),
                                        |body: Seq<u8>, e5: int|
                                            Res::Done(
                                                RequestV { start_line: sl, headers: h, body },
                                                e5,
                                            ),
                                    ),
                            ),
                    ),
            ),
    )
}

fn read_body(buf: &[u8], eof: bool, i: usize, headers: &FieldMap) -> (r: Parsed<Vec<u8>>)
    requires
        i <= buf@.len(),
    ensures
        agrees(r, spec_body(headers@, buf@, eof, i as int), |v: Vec<u8>| v@),
        ends_within(r, i as int, buf@.len() as int),
{
    match headers.get("Content-Length") {
        Some(data) => {
            let mut copy: Vec<u8> = Vec::new();
            crate::text::push_bytes(&mut copy, data.as_slice());
            let text = match string_from_utf8(copy) {
                Some(t) => t,
                None => return Parsed::Fail(crate::http::ParseError::Utf8ErrorStr),
            };
            proof {
                lemma_parse_int_range(text@, 10, false, 0, usize::MAX as int);
            }
            match parse_usize(text.as_str(), 10) {
                Ok(n) => read_n_bytes(buf, eof, i, n),
                Err(k) => Parsed::Fail(crate::http::ParseError::ParseIntError(k)),
            }
        },
        None => {
            if headers.contains_key("Transfer-Encoding") {
                Parsed::Abort
            } else {
                Parsed::Done(Vec::new(), i)
            }
        },
    }
}

fn read_request(buf: &[u8], eof: bool) -> (r: Parsed<Request>)
    ensures
        agrees(r, spec_request(buf@, eof), |q: Request| q@),
{
    let (start_line, e1) = match read_start_line(buf, eof, 0) {
        Parsed::Done(sl, e1) => (sl, e1),
        Parsed::Fail(x) => return Parsed::Fail(x),
        Parsed::More => return Parsed::More,
        Parsed::Abort => return Parsed::Abort,
    };
    let e2 = match try_skip_newline(buf, eof, e1) {
        Parsed::Done(_, e2) => e2,
        Parsed::Fail(x) => return Parsed::Fail(x),
        Parsed::More => return Parsed::More,
        Parsed::Abort => return Parsed::Abort,
    };
    let (headers, e3) = match read_fields(buf, eof, e2) {
        Parsed::Done(h, e3) => (h, e3),
        Parsed::Fail(x) => return Parsed::Fail(x),
        Parsed::More => return Parsed::More,
        Parsed::Abort => return Parsed::Abort,
    };
    let e4 = match try_skip_newline(buf, eof, e3) {
        Parsed::Done(_, e4) => e4,
        Parsed::Fail(x) => return Parsed::Fail(x),
        Parsed::More => return Parsed::More,
        Parsed::Abort => return Parsed::Abort,
    };
    match read_body(buf, eof, e4, &headers) {
        Parsed::Done(body, e5) => Parsed::Done(Request { start_line, headers, body }, e5),
        Parsed::Fail(x) => Parsed::Fail(x),
        Parsed::More => Parsed::More,
        Parsed::Abort => Parsed::Abort,
    }
}

/// Reads a request from the start of `buf`: `More` until enough bytes have
/// come, then the request and where it ends, or why it could not be read.
pub fn parse_request(buf: &[u8], eof: bool) -> (r: Reading<Request>)
    ensures
        reads(r, spec_request(buf@, eof), |q: Request| q@),
{
    lift(read_request(buf, eof))
}

} // verus!
