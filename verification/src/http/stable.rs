//! Reading does not depend on how the bytes arrive: once the bytes received
//! so far settle a result (anything but a need for more), every longer
//! stream that starts with them settles the same one, ended or not.
use vstd::prelude::*;
use vstd::utf8::*;
use crate::strmap::{Entries, spec_insert};
use crate::text::lemma_parse_int_range;
use super::io::{
    Res, Class, peek, scan, spec_read_byte, spec_read_digit, spec_skip_fixed,
    spec_read_run, spec_read_token, spec_skip_line, spec_try_skip_newline, spec_read_n,
};
use super::request_parse::{spec_parse_start_line, spec_parse_request_head, spec_parse_request};
use super::response_parse::{spec_parse_status_line, spec_parse_response_head, spec_parse_response, crlf};
use super::parse::{
    version_prefix, spec_parse_http_version, header_line, lemma_header_line, spec_parse_headers,
    spec_skip_trailer, spec_chunks, spec_parse_body,
};

verus! {

/// `b` is what had been received of `b2`.
pub open spec fn extends(b: Seq<u8>, b2: Seq<u8>) -> bool {
    b.len() <= b2.len() && b2.take(b.len() as int) == b
}

/// A result that more bytes could not change: anything but `More`.
pub open spec fn settled<T>(r: Res<T>) -> bool {
    !(r is More)
}

proof fn lemma_extends_index(b: Seq<u8>, b2: Seq<u8>, i: int)
    requires
        extends(b, b2),
        0 <= i < b.len(),
    ensures
        b2[i] == b[i],
{
    assert(b2.take(b.len() as int)[i] == b2[i]);
}

proof fn lemma_extends_subrange(b: Seq<u8>, b2: Seq<u8>, i: int, j: int)
    requires
        extends(b, b2),
        0 <= i <= j <= b.len(),
    ensures
        b2.subrange(i, j) == b.subrange(i, j),
{
    assert forall|k: int| 0 <= k < j - i implies b2.subrange(i, j)[k] == b.subrange(i, j)[k] by {
        lemma_extends_index(b, b2, i + k);
    }
    assert(b2.subrange(i, j) =~= b.subrange(i, j));
}

pub proof fn lemma_peek_stable(b: Seq<u8>, b2: Seq<u8>, eof2: bool, i: int)
    requires
        extends(b, b2),
        peek(b, false, i) is Some,
    ensures
        peek(b2, eof2, i) == peek(b, false, i),
        0 <= i < b.len(),
{
    lemma_extends_index(b, b2, i);
}

pub proof fn lemma_scan_stable(b: Seq<u8>, b2: Seq<u8>, eof2: bool, i: int, k: Class)
    requires
        extends(b, b2),
        0 <= i,
        scan(b, false, i, k) is Some,
    ensures
        scan(b2, eof2, i, k) == scan(b, false, i, k),
        i <= scan(b, false, i, k).unwrap() <= b.len(),
    decreases b.len() - i,
{
    lemma_peek_stable(b, b2, eof2, i);
    if super::io::in_class(k, b[i]) {
        lemma_scan_stable(b, b2, eof2, i + 1, k);
    }
}

pub proof fn lemma_read_byte_stable(b: Seq<u8>, b2: Seq<u8>, eof2: bool, i: int)
    requires
        extends(b, b2),
        settled(spec_read_byte(b, false, i)),
    ensures
        spec_read_byte(b2, eof2, i) == spec_read_byte(b, false, i),
        spec_read_byte(b, false, i) matches Res::Done(_, e) ==> e <= b.len() && 0 <= i < e,
{
    lemma_peek_stable(b, b2, eof2, i);
}

pub proof fn lemma_read_digit_stable(b: Seq<u8>, b2: Seq<u8>, eof2: bool, i: int)
    requires
        extends(b, b2),
        settled(spec_read_digit(b, false, i)),
    ensures
        spec_read_digit(b2, eof2, i) == spec_read_digit(b, false, i),
        spec_read_digit(b, false, i) matches Res::Done(_, e) ==> e <= b.len() && 0 <= i < e,
{
    lemma_read_byte_stable(b, b2, eof2, i);
}

pub proof fn lemma_skip_fixed_stable(b: Seq<u8>, b2: Seq<u8>, eof2: bool, i: int, lit: Seq<u8>, k: int)
    requires
        extends(b, b2),
        0 <= i,
        0 <= k,
        settled(spec_skip_fixed(b, false, i, lit, k)),
    ensures
        spec_skip_fixed(b2, eof2, i, lit, k) == spec_skip_fixed(b, false, i, lit, k),
        spec_skip_fixed(b, false, i, lit, k) matches Res::Done(_, e) ==> i <= e <= b.len() || (k
            >= lit.len() && e == i + k),
    decreases lit.len() - k,
{
    if k < lit.len() {
        lemma_peek_stable(b, b2, eof2, i + k);
        if b[i + k] == lit[k] {
            lemma_skip_fixed_stable(b, b2, eof2, i, lit, k + 1);
        }
    }
}

pub proof fn lemma_read_run_stable(b: Seq<u8>, b2: Seq<u8>, eof2: bool, i: int, k: Class)
    requires
        extends(b, b2),
        0 <= i,
        settled(spec_read_run(b, false, i, k)),
    ensures
        spec_read_run(b2, eof2, i, k) == spec_read_run(b, false, i, k),
        spec_read_run(b, false, i, k) matches Res::Done(_, e) ==> i <= e <= b.len(),
{
    lemma_scan_stable(b, b2, eof2, i, k);
    let e = scan(b, false, i, k).unwrap();
    lemma_extends_subrange(b, b2, i, e);
}

pub proof fn lemma_read_token_stable(b: Seq<u8>, b2: Seq<u8>, eof2: bool, i: int)
    requires
        extends(b, b2),
        0 <= i,
        settled(spec_read_token(b, false, i)),
    ensures
        spec_read_token(b2, eof2, i) == spec_read_token(b, false, i),
        spec_read_token(b, false, i) matches Res::Done(_, e) ==> i <= e <= b.len(),
{
    lemma_read_run_stable(b, b2, eof2, i, Class::Tchar);
}

pub proof fn lemma_skip_line_stable(b: Seq<u8>, b2: Seq<u8>, eof2: bool, i: int)
    requires
        extends(b, b2),
        0 <= i,
        spec_skip_line(b, false, i) is Some,
    ensures
        spec_skip_line(b2, eof2, i) == spec_skip_line(b, false, i),
        i <= spec_skip_line(b, false, i).unwrap() <= b.len(),
    decreases b.len() - i,
{
    lemma_peek_stable(b, b2, eof2, i);
    if b[i] != 0x0a {
        lemma_skip_line_stable(b, b2, eof2, i + 1);
    }
}

pub proof fn lemma_try_skip_newline_stable(b: Seq<u8>, b2: Seq<u8>, eof2: bool, i: int)
    requires
        extends(b, b2),
        settled(spec_try_skip_newline(b, false, i)),
    ensures
        spec_try_skip_newline(b2, eof2, i) == spec_try_skip_newline(b, false, i),
        spec_try_skip_newline(b, false, i) matches Res::Done(_, e) ==> 0 <= i <= e <= b.len(),
{
    lemma_peek_stable(b, b2, eof2, i);
    if b[i] == 0x0d {
        lemma_read_byte_stable(b, b2, eof2, i + 1);
    }
}

pub proof fn lemma_read_n_stable(b: Seq<u8>, b2: Seq<u8>, eof2: bool, i: int, n: int)
    requires
        extends(b, b2),
        0 <= i <= b.len(),
        0 <= n,
        settled(spec_read_n(b, false, i, n)),
    ensures
        spec_read_n(b2, eof2, i, n) == spec_read_n(b, false, i, n),
        spec_read_n(b, false, i, n) matches Res::Done(_, e) ==> i <= e <= b.len(),
{
    lemma_extends_subrange(b, b2, i, i + n);
}

pub proof fn lemma_http_version_stable(b: Seq<u8>, b2: Seq<u8>, eof2: bool, i: int)
    requires
        extends(b, b2),
        0 <= i <= b.len(),
        settled(spec_parse_http_version(b, false, i)),
    ensures
        spec_parse_http_version(b2, eof2, i) == spec_parse_http_version(b, false, i),
        spec_parse_http_version(b, false, i) matches Res::Done(_, e) ==> i <= e <= b.len(),
{
    lemma_skip_fixed_stable(b, b2, eof2, i, version_prefix(), 0);
    if let Res::Done(m, e) = spec_skip_fixed(b, false, i, version_prefix(), 0) {
        if m {
            lemma_read_digit_stable(b, b2, eof2, e);
            if let Res::Done(d1, e1) = spec_read_digit(b, false, e) {
                lemma_read_byte_stable(b, b2, eof2, e1);
                if let Res::Done(c, e2) = spec_read_byte(b, false, e1) {
                    if c == 0x2e {
                        lemma_read_digit_stable(b, b2, eof2, e2);
                    }
                }
            }
        }
    }
}

pub proof fn lemma_header_line_stable(b: Seq<u8>, b2: Seq<u8>, eof2: bool, i: int)
    requires
        extends(b, b2),
        0 <= i <= b.len(),
        settled(header_line(b, false, i)),
    ensures
        header_line(b2, eof2, i) == header_line(b, false, i),
{
    lemma_scan_stable(b, b2, eof2, i, Class::Tchar);
    let n = scan(b, false, i, Class::Tchar).unwrap();
    lemma_extends_subrange(b, b2, i, n);
    lemma_read_byte_stable(b, b2, eof2, n);
    if let Res::Done(c, n1) = spec_read_byte(b, false, n) {
        if c == 0x3a {
            lemma_scan_stable(b, b2, eof2, n1, Class::Ws);
            let w = scan(b, false, n1, Class::Ws).unwrap();
            lemma_scan_stable(b, b2, eof2, w, Class::NotCr);
            let ve = scan(b, false, w, Class::NotCr).unwrap();
            lemma_extends_subrange(b, b2, w, ve);
            if valid_utf8(super::parse::trim_ws_end(b.subrange(w, ve))) {
                lemma_try_skip_newline_stable(b, b2, eof2, ve);
            }
        }
    }
}

pub proof fn lemma_headers_stable(b: Seq<u8>, b2: Seq<u8>, eof2: bool, i: int, h: Entries)
    requires
        extends(b, b2),
        0 <= i <= b.len(),
        settled(spec_parse_headers(b, false, i, h)),
    ensures
        spec_parse_headers(b2, eof2, i, h) == spec_parse_headers(b, false, i, h),
        spec_parse_headers(b, false, i, h) matches Res::Done(_, e) ==> i <= e <= b.len(),
    decreases b.len() - i,
{
    lemma_peek_stable(b, b2, eof2, i);
    if b[i] != 0x0d {
        lemma_header_line_stable(b, b2, eof2, i);
        lemma_header_line(b, false, i);
        if let Res::Done(kv, e) = header_line(b, false, i) {
            lemma_headers_stable(b, b2, eof2, e, spec_insert(h, kv.0, kv.1));
        }
    }
}

pub proof fn lemma_skip_trailer_stable(b: Seq<u8>, b2: Seq<u8>, eof2: bool, i: int)
    requires
        extends(b, b2),
        0 <= i <= b.len(),
        spec_skip_trailer(b, false, i) is Some,
    ensures
        spec_skip_trailer(b2, eof2, i) == spec_skip_trailer(b, false, i),
        i <= spec_skip_trailer(b, false, i).unwrap() <= b.len(),
    decreases b.len() - i,
{
    lemma_peek_stable(b, b2, eof2, i);
    lemma_skip_line_stable(b, b2, eof2, i);
    super::io::lemma_skip_line(b, false, i);
    let e = spec_skip_line(b, false, i).unwrap();
    if b[i] != 0x0d {
        lemma_skip_trailer_stable(b, b2, eof2, e);
    }
}

pub proof fn lemma_chunks_stable(b: Seq<u8>, b2: Seq<u8>, eof2: bool, i: int, acc: Seq<u8>)
    requires
        extends(b, b2),
        0 <= i <= b.len(),
        settled(spec_chunks(b, false, i, acc)),
    ensures
        spec_chunks(b2, eof2, i, acc) == spec_chunks(b, false, i, acc),
        spec_chunks(b, false, i, acc) matches Res::Done(_, e) ==> i <= e <= b.len(),
    decreases b.len() - i,
{
    lemma_scan_stable(b, b2, eof2, i, Class::NotSpaceCr);
    let le = scan(b, false, i, Class::NotSpaceCr).unwrap();
    lemma_skip_line_stable(b, b2, eof2, le);
    let s = spec_skip_line(b, false, le).unwrap();
    lemma_extends_subrange(b, b2, i, le);
    let digits = b.subrange(i, le);
    if digits.len() == 0 {
        lemma_skip_trailer_stable(b, b2, eof2, s);
    } else if valid_utf8(digits) {
        lemma_parse_int_range(decode_utf8(digits), 16, false, 0, usize::MAX as int);
        if let Ok(n) = crate::text::spec_parse_usize(decode_utf8(digits), 16) {
            if n == 0 {
                lemma_skip_trailer_stable(b, b2, eof2, s);
            } else {
                lemma_read_n_stable(b, b2, eof2, s, n);
                if let Res::Done(data, e) = spec_read_n(b, false, s, n) {
                    lemma_chunks_stable(b, b2, eof2, e, acc + data);
                }
            }
        }
    }
}

pub proof fn lemma_body_stable(h: Entries, b: Seq<u8>, b2: Seq<u8>, eof2: bool, i: int)
    requires
        extends(b, b2),
        0 <= i <= b.len(),
        settled(spec_parse_body(h, b, false, i)),
    ensures
        spec_parse_body(h, b2, eof2, i) == spec_parse_body(h, b, false, i),
        spec_parse_body(h, b, false, i) matches Res::Done(_, e) ==> i <= e <= b.len(),
{
    match crate::strmap::spec_get(h, "Transfer-Encoding"@) {
        Some(te) => {
            if te == "chunked"@ {
                lemma_chunks_stable(b, b2, eof2, i, Seq::empty());
            }
        },
        None => {
            if let Some(d) = crate::strmap::spec_get(h, "Content-Length"@) {
                lemma_parse_int_range(d, 10, false, 0, usize::MAX as int);
                if let Ok(n) = crate::text::spec_parse_usize(d, 10) {
                    lemma_read_n_stable(b, b2, eof2, i, n);
                }
            }
        },
    }
}

pub proof fn lemma_start_line_stable(b: Seq<u8>, b2: Seq<u8>, eof2: bool, i: int)
    requires
        extends(b, b2),
        0 <= i <= b.len(),
        settled(spec_parse_start_line(b, false, i)),
    ensures
        spec_parse_start_line(b2, eof2, i) == spec_parse_start_line(b, false, i),
        spec_parse_start_line(b, false, i) matches Res::Done(_, e) ==> i <= e <= b.len(),
{
    lemma_read_token_stable(b, b2, eof2, i);
    if let Res::Done(m, e1) = spec_read_token(b, false, i) {
        lemma_read_byte_stable(b, b2, eof2, e1);
        if let Res::Done(c, e2) = spec_read_byte(b, false, e1) {
            if c == 0x20 {
                lemma_scan_stable(b, b2, eof2, e2, Class::NotSpace);
                let e3 = scan(b, false, e2, Class::NotSpace).unwrap();
                lemma_extends_subrange(b, b2, e2, e3);
                let raw = b.subrange(e2, e3);
                if valid_utf8(raw) {
                    if let Ok(u) = crate::uri::spec_parse_uri(decode_utf8(raw)) {
                        lemma_read_byte_stable(b, b2, eof2, e3);
                        if let Res::Done(c2, e4) = spec_read_byte(b, false, e3) {
                            if c2 == 0x20 {
                                lemma_http_version_stable(b, b2, eof2, e4);
                            }
                        }
                    }
                }
            }
        }
    }
}

pub proof fn lemma_request_head_stable(b: Seq<u8>, b2: Seq<u8>, eof2: bool)
    requires
        extends(b, b2),
        settled(spec_parse_request_head(b, false)),
    ensures
        spec_parse_request_head(b2, eof2) == spec_parse_request_head(b, false),
        spec_parse_request_head(b, false) matches Res::Done(_, e) ==> 0 <= e <= b.len(),
{
    lemma_start_line_stable(b, b2, eof2, 0);
    if let Res::Done(sl, e1) = spec_parse_start_line(b, false, 0) {
        lemma_try_skip_newline_stable(b, b2, eof2, e1);
        if let Res::Done(x, e2) = spec_try_skip_newline(b, false, e1) {
            lemma_headers_stable(b, b2, eof2, e2, Seq::empty());
            if let Res::Done(h, e3) = spec_parse_headers(b, false, e2, Seq::empty()) {
                lemma_try_skip_newline_stable(b, b2, eof2, e3);
            }
        }
    }
}

/// Reading a request does not depend on how its bytes arrive: once the bytes
/// received so far settle the request (or why it cannot be read), any stream
/// that goes on from them, ended or not, settles the same.
pub proof fn law_request_reading_is_stable(b: Seq<u8>, more: Seq<u8>, eof: bool)
    requires
        settled(spec_parse_request(b, false)),
    ensures
        spec_parse_request(b + more, eof) == spec_parse_request(b, false),
{
    let b2 = b + more;
    assert(b2.take(b.len() as int) =~= b);
    lemma_request_head_stable(b, b2, eof);
    if let Res::Done(head, e) = spec_parse_request_head(b, false) {
        lemma_body_stable(head.1, b, b2, eof, e);
    }
}

pub proof fn lemma_status_line_stable(b: Seq<u8>, b2: Seq<u8>, eof2: bool)
    requires
        extends(b, b2),
        settled(spec_parse_status_line(b, false)),
    ensures
        spec_parse_status_line(b2, eof2) == spec_parse_status_line(b, false),
        spec_parse_status_line(b, false) matches Res::Done(_, e) ==> 0 <= e <= b.len(),
{
    lemma_http_version_stable(b, b2, eof2, 0);
    if let Res::Done(v, e1) = spec_parse_http_version(b, false, 0) {
        if v.0 == 1 {
            lemma_read_byte_stable(b, b2, eof2, e1);
            if let Res::Done(c, e2) = spec_read_byte(b, false, e1) {
                if c == 0x20 {
                    lemma_read_digit_stable(b, b2, eof2, e2);
                    if let Res::Done(d1, e3) = spec_read_digit(b, false, e2) {
                        lemma_read_digit_stable(b, b2, eof2, e3);
                        if let Res::Done(d2, e4) = spec_read_digit(b, false, e3) {
                            lemma_read_digit_stable(b, b2, eof2, e4);
                            if let Res::Done(d3, e5) = spec_read_digit(b, false, e4) {
                                lemma_skip_line_stable(b, b2, eof2, e5);
                            }
                        }
                    }
                }
            }
        }
    }
}

pub proof fn lemma_response_head_stable(b: Seq<u8>, b2: Seq<u8>, eof2: bool)
    requires
        extends(b, b2),
        settled(spec_parse_response_head(b, false)),
    ensures
        spec_parse_response_head(b2, eof2) == spec_parse_response_head(b, false),
        spec_parse_response_head(b, false) matches Res::Done(_, e) ==> 0 <= e <= b.len(),
{
    lemma_status_line_stable(b, b2, eof2);
    if let Res::Done(status, e1) = spec_parse_status_line(b, false) {
        lemma_headers_stable(b, b2, eof2, e1, Seq::empty());
        if let Res::Done(h, e2) = spec_parse_headers(b, false, e1, Seq::empty()) {
            lemma_skip_fixed_stable(b, b2, eof2, e2, crlf(), 0);
        }
    }
}

/// Reading a response does not depend on how its bytes arrive: once the
/// bytes received so far settle the response (or why it cannot be read), any
/// stream that goes on from them, ended or not, settles the same.
pub proof fn law_response_reading_is_stable(b: Seq<u8>, more: Seq<u8>, eof: bool)
    requires
        settled(spec_parse_response(b, false)),
    ensures
        spec_parse_response(b + more, eof) == spec_parse_response(b, false),
{
    let b2 = b + more;
    assert(b2.take(b.len() as int) =~= b);
    lemma_response_head_stable(b, b2, eof);
    if let Res::Done(head, e) = spec_parse_response_head(b, false) {
        lemma_body_stable(head.1, b, b2, eof, e);
    }
}

// ----------------------------------------------------------------------------
// An ended stream never asks for more
// ----------------------------------------------------------------------------

pub proof fn lemma_scan_ended(b: Seq<u8>, i: int, k: Class)
    requires
        0 <= i,
    ensures
        scan(b, true, i, k) matches Some(e) && i <= e && (i <= b.len() ==> e <= b.len()),
    decreases b.len() - i,
{
    if i < b.len() && super::io::in_class(k, b[i]) {
        lemma_scan_ended(b, i + 1, k);
    }
}

proof fn lemma_skip_line_ended(b: Seq<u8>, i: int)
    requires
        0 <= i,
    ensures
        spec_skip_line(b, true, i) matches Some(e) && i <= e && (i <= b.len() ==> e <= b.len()),
    decreases b.len() - i,
{
    if i < b.len() && b[i] != 0x0a {
        lemma_skip_line_ended(b, i + 1);
    }
}

proof fn lemma_skip_fixed_ended(b: Seq<u8>, i: int, lit: Seq<u8>, k: int)
    requires
        0 <= i,
        0 <= k,
        i + k <= b.len(),
    ensures
        settled(spec_skip_fixed(b, true, i, lit, k)),
        spec_skip_fixed(b, true, i, lit, k) matches Res::Done(_, e) ==> i <= e <= b.len(),
    decreases lit.len() - k,
{
    if k < lit.len() && i + k < b.len() && b[i + k] == lit[k] {
        lemma_skip_fixed_ended(b, i, lit, k + 1);
    }
}

proof fn lemma_http_version_ended(b: Seq<u8>, i: int)
    requires
        0 <= i <= b.len(),
    ensures
        settled(spec_parse_http_version(b, true, i)),
        spec_parse_http_version(b, true, i) matches Res::Done(_, e) ==> i <= e <= b.len(),
{
    lemma_skip_fixed_ended(b, i, version_prefix(), 0);
}

proof fn lemma_headers_ended(b: Seq<u8>, i: int, h: Entries)
    requires
        0 <= i <= b.len(),
    ensures
        settled(spec_parse_headers(b, true, i, h)),
        spec_parse_headers(b, true, i, h) matches Res::Done(_, e) ==> i <= e <= b.len(),
    decreases b.len() - i,
{
    if i < b.len() && b[i] != 0x0d {
        lemma_scan_ended(b, i, Class::Tchar);
        let n = scan(b, true, i, Class::Tchar).unwrap();
        if n < b.len() && b[n] == 0x3a {
            lemma_scan_ended(b, n + 1, Class::Ws);
            let w = scan(b, true, n + 1, Class::Ws).unwrap();
            lemma_scan_ended(b, w, Class::NotCr);
        }
        lemma_header_line(b, true, i);
        if let Res::Done(kv, e) = header_line(b, true, i) {
            lemma_headers_ended(b, e, spec_insert(h, kv.0, kv.1));
        }
    }
}

pub proof fn lemma_skip_trailer_ended(b: Seq<u8>, i: int)
    requires
        0 <= i <= b.len(),
    ensures
        spec_skip_trailer(b, true, i) matches Some(e) && i <= e <= b.len(),
    decreases b.len() - i,
{
    lemma_skip_line_ended(b, i);
    super::io::lemma_skip_line(b, true, i);
    if i < b.len() && b[i] != 0x0d {
        lemma_skip_trailer_ended(b, spec_skip_line(b, true, i).unwrap());
    }
}

proof fn lemma_chunks_ended(b: Seq<u8>, i: int, acc: Seq<u8>)
    requires
        0 <= i <= b.len(),
    ensures
        settled(spec_chunks(b, true, i, acc)),
        spec_chunks(b, true, i, acc) matches Res::Done(_, e) ==> i <= e <= b.len(),
    decreases b.len() - i,
{
    lemma_scan_ended(b, i, Class::NotSpaceCr);
    let le = scan(b, true, i, Class::NotSpaceCr).unwrap();
    lemma_skip_line_ended(b, le);
    let s = spec_skip_line(b, true, le).unwrap();
    lemma_skip_trailer_ended(b, s);
    let digits = b.subrange(i, le);
    if digits.len() > 0 && valid_utf8(digits) {
        lemma_parse_int_range(decode_utf8(digits), 16, false, 0, usize::MAX as int);
        if let Ok(n) = crate::text::spec_parse_usize(decode_utf8(digits), 16) {
            if n != 0 {
                if let Res::Done(data, e) = spec_read_n(b, true, s, n) {
                    lemma_chunks_ended(b, e, acc + data);
                }
            }
        }
    }
}

proof fn lemma_body_ended(h: Entries, b: Seq<u8>, i: int)
    requires
        0 <= i <= b.len(),
    ensures
        settled(spec_parse_body(h, b, true, i)),
{
    if let Some(te) = crate::strmap::spec_get(h, "Transfer-Encoding"@) {
        if te == "chunked"@ {
            lemma_chunks_ended(b, i, Seq::empty());
        }
    }
}

proof fn lemma_start_line_ended(b: Seq<u8>)
    ensures
        settled(spec_parse_start_line(b, true, 0)),
        spec_parse_start_line(b, true, 0) matches Res::Done(_, e) ==> 0 <= e <= b.len(),
{
    lemma_scan_ended(b, 0, Class::Tchar);
    let e1 = scan(b, true, 0, Class::Tchar).unwrap();
    if e1 < b.len() && b[e1] == 0x20 {
        lemma_scan_ended(b, e1 + 1, Class::NotSpace);
        let e3 = scan(b, true, e1 + 1, Class::NotSpace).unwrap();
        if e3 < b.len() {
            lemma_http_version_ended(b, e3 + 1);
        }
    }
}

proof fn lemma_request_head_ended(b: Seq<u8>)
    ensures
        settled(spec_parse_request_head(b, true)),
        spec_parse_request_head(b, true) matches Res::Done(_, e) ==> 0 <= e <= b.len(),
{
    lemma_start_line_ended(b);
    if let Res::Done(sl, e1) = spec_parse_start_line(b, true, 0) {
        if let Res::Done(x, e2) = spec_try_skip_newline(b, true, e1) {
            lemma_headers_ended(b, e2, Seq::empty());
        }
    }
}

/// Once the stream has ended, reading a request never asks for more bytes.
pub proof fn law_ended_request_is_settled(b: Seq<u8>)
    ensures
        settled(spec_parse_request(b, true)),
{
    lemma_request_head_ended(b);
    if let Res::Done(head, e) = spec_parse_request_head(b, true) {
        lemma_body_ended(head.1, b, e);
    }
}

proof fn lemma_status_line_ended(b: Seq<u8>)
    ensures
        settled(spec_parse_status_line(b, true)),
        spec_parse_status_line(b, true) matches Res::Done(_, e) ==> 0 <= e <= b.len(),
{
    lemma_http_version_ended(b, 0);
    if let Res::Done(v, e1) = spec_parse_http_version(b, true, 0) {
        if e1 + 4 <= b.len() {
            lemma_skip_line_ended(b, e1 + 4);
        }
    }
}

/// Once the stream has ended, reading a response never asks for more bytes.
pub proof fn law_ended_response_is_settled(b: Seq<u8>)
    ensures
        settled(spec_parse_response(b, true)),
{
    lemma_status_line_ended(b);
    if let Res::Done(status, e1) = spec_parse_status_line(b, true) {
        lemma_headers_ended(b, e1, Seq::empty());
        if let Res::Done(h, e2) = spec_parse_headers(b, true, e1, Seq::empty()) {
            lemma_skip_fixed_ended(b, e2, crlf(), 0);
            if let Res::Done(m, e3) = spec_skip_fixed(b, true, e2, crlf(), 0) {
                lemma_body_ended(h, b, e3);
            }
        }
    }
}

} // verus!
