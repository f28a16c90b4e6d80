//! Writing a response as bytes.
use vstd::prelude::*;
use vstd::utf8::*;
use crate::strmap::spec_get;
use crate::text::{format_int, int_text, push_bytes, push_utf8};
use super::{Response, ResponseV};
use super::request_write::{headers_bytes, push_headers};

verus! {

/// The reason phrase of a status code.
pub open spec fn status_text(status: i16) -> Seq<char> {
    match status {
        100 => "Continue"@,
        101 => "Switching Protocols"@,
        200 => "OK"@,
        201 => "Created"@,
        202 => "Accepted"@,
        203 => "Non-Authoritative Information"@,
        204 => "No Content"@,
        205 => "Reset Content"@,
        206 => "Partial Content"@,
        300 => "Multiple Choices"@,
        301 => "Moved Permanently"@,
        302 => "Found"@,
        303 => "See Other"@,
        304 => "Not Modified"@,
        305 => "Use Proxy"@,
        307 => "Temporary Redirect"@,
        308 => "Permanent Redirect"@,
        400 => "Bad Request"@,
        401 => "Unauthorized"@,
        402 => "Payment Required"@,
        403 => "Forbidden"@,
        404 => "Not Found"@,
        405 => "Method Not Allowed"@,
        406 => "Not Acceptable"@,
        407 => "Proxy Authentication Required"@,
        408 => "Request Timeout"@,
        409 => "Conflict"@,
        410 => "Gone"@,
        411 => "Length Required"@,
        412 => "Precondition Failed"@,
        413 => "Content Too Large"@,
        414 => "URI Too Long"@,
        415 => "Unsupported Media Type"@,
        416 => "Range Not Satisfiable"@,
        417 => "Expectation Failed"@,
        421 => "Misdirected Request"@,
        422 => "Unprocessable Content"@,
        426 => "Upgrade Required"@,
        500 => "Internal Server Error"@,
        501 => "Not Implemented"@,
        502 => "Bad Gateway"@,
        503 => "Service Unavailable"@,
        504 => "Gateway Timeout"@,
        505 => "HTTP Version Not Supported"@,
        _ => "Unknown"@,
    }
}

pub fn status_name(status: i16) -> (r: &'static str)
    ensures
        r@ == status_text(status),
{
    match status {
        100 => "Continue",
        101 => "Switching Protocols",
        200 => "OK",
        201 => "Created",
        202 => "Accepted",
        203 => "Non-Authoritative Information",
        204 => "No Content",
        205 => "Reset Content",
        206 => "Partial Content",
        300 => "Multiple Choices",
        301 => "Moved Permanently",
        302 => "Found",
        303 => "See Other",
        304 => "Not Modified",
        305 => "Use Proxy",
        307 => "Temporary Redirect",
        308 => "Permanent Redirect",
        400 => "Bad Request",
        401 => "Unauthorized",
        402 => "Payment Required",
        403 => "Forbidden",
        404 => "Not Found",
        405 => "Method Not Allowed",
        406 => "Not Acceptable",
        407 => "Proxy Authentication Required",
        408 => "Request Timeout",
        409 => "Conflict",
        410 => "Gone",
        411 => "Length Required",
        412 => "Precondition Failed",
        413 => "Content Too Large",
        414 => "URI Too Long",
        415 => "Unsupported Media Type",
        416 => "Range Not Satisfiable",
        417 => "Expectation Failed",
        421 => "Misdirected Request",
        422 => "Unprocessable Content",
        426 => "Upgrade Required",
        500 => "Internal Server Error",
        501 => "Not Implemented",
        502 => "Bad Gateway",
        503 => "Service Unavailable",
        504 => "Gateway Timeout",
        505 => "HTTP Version Not Supported",
        _ => "Unknown",
    }
}

/// The bytes of a response: the status line (always version 1.1), the header
/// fields, a `Content-Length` with the body's length and `Connection: close`
/// where the fields have none, an empty line and the body.
pub open spec fn response_bytes(r: ResponseV) -> Seq<u8> {
    encode_utf8("HTTP/1.1 "@) + encode_utf8(int_text(r.status as int)) + encode_utf8(" "@)
        + encode_utf8(status_text(r.status)) + encode_utf8("\r\n"@) + headers_bytes(r.headers)
        + (if spec_get(r.headers, "Content-Length"@) is None {
        encode_utf8("Content-Length: "@) + encode_utf8(int_text(r.body.len() as int))
            + encode_utf8("\r\n"@)
    } else {
        Seq::empty()
    }) + (if spec_get(r.headers, "Connection"@) is None {
        encode_utf8("Connection: close\r\n"@)
    } else {
        Seq::empty()
    }) + encode_utf8("\r\n"@) + r.body
}

/// Writes a response as bytes.
pub fn write_response(response: &Response) -> (r: Vec<u8>)
    ensures
        r@ == response_bytes(response@),
{
    let mut out: Vec<u8> = Vec::new();
    push_utf8(&mut out, "HTTP/1.1 ");
    let status = format_int(response.status as i128);
    push_utf8(&mut out, status.as_str());
    push_utf8(&mut out, " ");
    push_utf8(&mut out, status_name(response.status));
    push_utf8(&mut out, "\r\n");
    push_headers(&mut out, &response.headers);
    if !response.headers.contains_key("Content-Length") {
        push_utf8(&mut out, "Content-Length: ");
        let len = format_int(response.body.len() as i128);
        push_utf8(&mut out, len.as_str());
        push_utf8(&mut out, "\r\n");
    }
    if !response.headers.contains_key("Connection") {
        push_utf8(&mut out, "Connection: close\r\n");
    }
    push_utf8(&mut out, "\r\n");
    push_bytes(&mut out, response.body.as_slice());
    assert(out@ =~= response_bytes(response@));
    out
}

} // verus!
