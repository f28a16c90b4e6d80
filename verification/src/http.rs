//! HTTP/1.1 messages: reading requests and responses from the bytes received
//! so far, and writing them as bytes.
use vstd::prelude::*;
use crate::strmap::{Entries, StrMap};
use crate::uri::{Uri, UriV};

pub mod error;
pub mod io;
pub mod parse;
pub mod request_parse;
pub mod request_write;
pub mod response_parse;
pub mod response_write;
pub mod stable;
pub mod chunk_size;

pub use error::{ParseError, SendError};
pub use request_parse::parse_request;
pub use request_write::write_request;
pub use response_parse::parse_response;
pub use response_write::write_response;


verus! {

#[derive(PartialEq, Eq, Debug, Clone, Copy, Structural)]
pub struct HttpVersion(pub u8, pub u8);

#[derive(PartialEq, Eq, Debug, Clone)]
pub struct StartLine {
    pub method: String,
    pub uri: Uri,
    pub version: HttpVersion,
}

#[derive(PartialEq, Eq, Debug, Clone)]
pub struct Request {
    pub start_line: StartLine,
    pub headers: StrMap,
    pub body: Vec<u8>,
}

#[derive(PartialEq, Eq, Debug, Clone)]
pub struct Response {
    pub status: i16,
    pub headers: StrMap,
    pub body: Vec<u8>,
}

pub struct StartLineV {
    pub method: Seq<char>,
    pub uri: UriV,
    pub version: HttpVersion,
}

pub struct RequestV {
    pub start_line: StartLineV,
    pub headers: Entries,
    pub body: Seq<u8>,
}

pub struct ResponseV {
    pub status: i16,
    pub headers: Entries,
    pub body: Seq<u8>,
}

impl View for StartLine {
    type V = StartLineV;

    open spec fn view(&self) -> StartLineV {
        StartLineV { method: self.method@, uri: self.uri@, version: self.version }
    }
}

impl View for Request {
    type V = RequestV;

    open spec fn view(&self) -> RequestV {
        RequestV { start_line: self.start_line@, headers: self.headers@, body: self.body@ }
    }
}

impl View for Response {
    type V = ResponseV;

    open spec fn view(&self) -> ResponseV {
        ResponseV { status: self.status, headers: self.headers@, body: self.body@ }
    }
}

impl Request {
    /// A copy with the same parts.
    pub fn copy(&self) -> (r: Request)
        ensures
            r@ == self@,
    {
        let mut body: Vec<u8> = Vec::new();
        crate::text::push_bytes(&mut body, self.body.as_slice());
        Request { start_line: self.start_line.copy(), headers: self.headers.copy(), body }
    }

    /// The request that error pages are made for when none could be read:
    /// no method, an empty URI, version 1.1, no header fields and no body.
    pub fn empty() -> (r: Request)
        ensures
            r@.start_line.method.len() == 0,
            r@.start_line.uri == crate::uri::default_uri(),
            r@.start_line.version == HttpVersion(1, 1),
            r@.headers.len() == 0,
            r@.body.len() == 0,
    {
        Request {
            start_line: StartLine {
                method: String::new(),
                uri: Uri::empty(),
                version: HttpVersion(1, 1),
            },
            headers: StrMap::new(),
            body: Vec::new(),
        }
    }
}

impl StartLine {
    /// A copy with the same parts.
    pub fn copy(&self) -> (r: StartLine)
        ensures
            r@ == self@,
    {
        StartLine { method: self.method.clone(), uri: self.uri.copy(), version: self.version }
    }
}

} // verus!
