//! The parts that requests and responses share: the version, the header
//! fields and the body.
use vstd::prelude::*;
use vstd::utf8::*;
use crate::strmap::{Entries, StrMap, spec_get, spec_insert, spec_remove};
use crate::text::{
    is_alpha, lower, upper, char_is_alpha, char_lower, char_upper, chars_of, string_from_chars,
    string_from_utf8, spec_parse_usize, lemma_parse_int_range, parse_usize,
};
use super::HttpVersion;
use super::error::{ParseError, ParseErrorV};
use super::io::{
    Res, Parsed, agrees, and_then, ends_within, peek, scan, lemma_scan, spec_read_byte, spec_read_digit,
    spec_skip_fixed, spec_skip_line, lemma_skip_line, spec_try_skip_newline, spec_read_n, bytes_as_chars, Class,
    is_ws, peek_byte, read_byte, read_digit, skip_fixed, scan_class, skip_until_inclusive,
    try_skip_newline, read_n_bytes, is_whitespace,
};

verus! {

/// The bytes of `HTTP/`.
pub open spec fn version_prefix() -> Seq<u8> {
    seq![0x48u8, 0x54u8, 0x54u8, 0x50u8, 0x2fu8]
}

/// `HTTP/`, a digit, a dot and a digit.
pub open spec fn spec_parse_http_version(b: Seq<u8>, eof: bool, i: int) -> Res<HttpVersion> {
    and_then(
        spec_skip_fixed(b, eof, i, version_prefix(), 0),
        |m: bool, e: int|
            if !m {
                Res::Fail(ParseErrorV::ParseVersionError)
            } else {
                and_then(
                    spec_read_digit(b, eof, e),
                    |d1: u8, e1: int|
                        and_then(
                            spec_read_byte(b, eof, e1),
                            |c: u8, e2: int|
                                if c != 0x2e {
                                    Res::Fail(ParseErrorV::ParseVersionError)
                                } else {
                                    and_then(
                                        spec_read_digit(b, eof, e2),
                                        |d2: u8, e3: int| Res::Done(HttpVersion(d1, d2), e3),
                                    )
                                },
                        ),
                )
            },
    )
}

pub fn parse_http_version(buf: &[u8], eof: bool, i: usize) -> (r: Parsed<HttpVersion>)
    requires
        i <= buf@.len(),
    ensures
        agrees(r, spec_parse_http_version(buf@, eof, i as int), |v: HttpVersion| v),
        ends_within(r, i as int, buf@.len() as int),
{
    let lit: [u8; 5] = [0x48, 0x54, 0x54, 0x50, 0x2f];
    assert(lit@ == version_prefix());
    let e = match skip_fixed(buf, eof, i, lit.as_slice()) {
        Parsed::Done(m, e) => {
            if !m {
                return Parsed::Fail(ParseError::ParseVersionError);
            }
            e
        },
        Parsed::Fail(x) => return Parsed::Fail(x),
        Parsed::More => return Parsed::More,
        Parsed::Abort => return Parsed::Abort,
    };
    let (d1, e1) = match read_digit(buf, eof, e) {
        Parsed::Done(d, e1) => (d, e1),
        Parsed::Fail(x) => return Parsed::Fail(x),
        Parsed::More => return Parsed::More,
        Parsed::Abort => return Parsed::Abort,
    };
    let e2 = match read_byte(buf, eof, e1) {
        Parsed::Done(c, e2) => {
            if c != 0x2e {
                return Parsed::Fail(ParseError::ParseVersionError);
            }
            e2
        },
        Parsed::Fail(x) => return Parsed::Fail(x),
        Parsed::More => return Parsed::More,
        Parsed::Abort => return Parsed::Abort,
    };
    match read_digit(buf, eof, e2) {
        Parsed::Done(d2, e3) => Parsed::Done(HttpVersion(d1, d2), e3),
        Parsed::Fail(x) => Parsed::Fail(x),
        Parsed::More => Parsed::More,
        Parsed::Abort => Parsed::Abort,
    }
}

/// Header names as they are stored: a character that follows an ASCII letter
/// in lower case, any other in upper case.
pub open spec fn pascal(s: Seq<char>) -> Seq<char> {
    Seq::new(
        s.len(),
        |j: int|
            if j > 0 && is_alpha(s[j - 1]) {
                lower(s[j])
            } else {
                upper(s[j])
            },
    )
}

/// Whether `b` is `a` or, for an ASCII letter `a`, the same letter in the
/// other case.
pub open spec fn same_letter(a: char, b: char) -> bool {
    ||| a == b
    ||| 'a' <= a <= 'z' && b as int == a as int - 32
    ||| 'A' <= a <= 'Z' && b as int == a as int + 32
}

/// Whether `c` is an ASCII letter.
pub open spec fn letter(c: char) -> bool {
    'a' <= c <= 'z' || 'A' <= c <= 'Z'
}

/// A field name is stored in one form: a letter at its start or after a
/// non-letter is upper case, every other letter lower case (each the same
/// letter as sent), and every other character stays as it is.
pub proof fn law_field_name_form(s: Seq<char>)
    ensures
        pascal(s).len() == s.len(),
        forall|j: int|
            0 <= j < s.len() && letter(s[j]) && (j == 0 || !letter(s[j - 1])) ==> 'A' <= #[trigger] pascal(
                s,
            )[j] <= 'Z' && same_letter(s[j], pascal(s)[j]),
        forall|j: int|
            0 < j < s.len() && letter(s[j]) && letter(s[j - 1]) ==> 'a' <= #[trigger] pascal(s)[j] <= 'z'
                && same_letter(s[j], pascal(s)[j]),
        forall|j: int| 0 <= j < s.len() && !letter(s[j]) ==> #[trigger] pascal(s)[j] == s[j],
{
    assert forall|j: int| 0 <= j < s.len() implies {
        let c = s[j];
        let r = #[trigger] pascal(s)[j];
        &&& 'a' <= c <= 'z' ==> r as int == c as int || r as int == c as int - 32
        &&& 'A' <= c <= 'Z' ==> r as int == c as int || r as int == c as int + 32
        &&& !letter(c) ==> r == c
        &&& letter(c) && (j == 0 || !letter(s[j - 1])) ==> 'A' <= r <= 'Z'
        &&& letter(c) && j > 0 && letter(s[j - 1]) ==> 'a' <= r <= 'z'
    } by {
        let c = s[j];
        lemma_case_chars(c);
    }
}

/// Upper and lower case of ASCII letters move the code by 32.
proof fn lemma_case_chars(c: char)
    ensures
        'a' <= c <= 'z' ==> upper(c) as int == c as int - 32 && lower(c) == c,
        'A' <= c <= 'Z' ==> lower(c) as int == c as int + 32 && upper(c) == c,
        !('a' <= c <= 'z') && !('A' <= c <= 'Z') ==> upper(c) == c && lower(c) == c,
{
    let v = c as u32;
    if 'a' <= c <= 'z' {
        assert(((v - 32) as char) as u32 == v - 32) by {
            vstd::utf8::char_u32_cast(c, v);
        }
    }
}

/// Field names that differ only in the letter case they were sent in are
/// stored alike.
pub proof fn law_field_name_case_blind(s: Seq<char>, t: Seq<char>)
    requires
        s.len() == t.len(),
        forall|j: int| 0 <= j < s.len() ==> same_letter(s[j], #[trigger] t[j]),
    ensures
        pascal(s) == pascal(t),
{
    law_field_name_form(s);
    law_field_name_form(t);
    assert forall|j: int| 0 <= j < s.len() implies #[trigger] pascal(s)[j] == pascal(t)[j] by {
        assert(same_letter(s[j], t[j]));
        if j > 0 {
            assert(same_letter(s[j - 1], t[j - 1]));
        }
    }
    assert(pascal(s) =~= pascal(t));
}

fn to_pascal_case(s: &str) -> (r: String)
    ensures
        r@ == pascal(s@),
{
    let cs = chars_of(s);
    let mut out: Vec<char> = Vec::new();
    let mut prev_letter = false;
    let mut j: usize = 0;
    while j < cs.len()
        invariant
            j <= cs@.len(),
            cs@ == s@,
            out@ == pascal(s@).take(j as int),
            prev_letter == (j > 0 && is_alpha(s@[j - 1])),
        decreases cs@.len() - j,
    {
        let c = cs[j];
        if !prev_letter {
            out.push(char_upper(c));
        } else {
            out.push(char_lower(c));
        }
        prev_letter = char_is_alpha(c);
        j = j + 1;
        assert(out@ =~= pascal(s@).take(j as int));
    }
    assert(pascal(s@).take(j as int) =~= pascal(s@));
    string_from_chars(out.as_slice())
}

/// `s` without its trailing spaces and tabs.
pub open spec fn trim_ws_end(s: Seq<u8>) -> Seq<u8>
    decreases s.len(),
{
    if s.len() > 0 && is_ws(s.last()) {
        trim_ws_end(s.drop_last())
    } else {
        s
    }
}

/// One header line from `i`: the name (as `pascal` writes it) and the value
/// (from the first byte after the colon and the spaces that follow it, up to
/// the carriage return, without trailing spaces), and where the line ends.
pub open spec fn header_line(b: Seq<u8>, eof: bool, i: int) -> Res<(Seq<char>, Seq<char>)> {
    match scan(b, eof, i, Class::Tchar) {
        None => Res::More,
        Some(n) => and_then(
            spec_read_byte(b, eof, n),
            |c: u8, n1: int|
                if c != 0x3a {
                    Res::Fail(ParseErrorV::ExpectedColon)
                } else {
                    match scan(b, eof, n1, Class::Ws) {
                        None => Res::More,
                        Some(w) => match scan(b, eof, w, Class::NotCr) {
                            None => Res::More,
                            Some(ve) => {
                                let raw = trim_ws_end(b.subrange(w, ve));
                                if !valid_utf8(raw) {
                                    Res::Fail(ParseErrorV::Utf8Error)
                                } else {
                                    and_then(
                                        spec_try_skip_newline(b, eof, ve),
                                        |x: bool, e: int|
                                            Res::Done(
                                                (
                                                    pascal(bytes_as_chars(b.subrange(i, n))),
                                                    decode_utf8(raw),
                                                ),
                                                e,
                                            ),
                                    )
                                }
                            },
                        },
                    }
                },
        ),
    }
}

/// A header line that was read ends after where it starts, within the bytes.
pub proof fn lemma_header_line(b: Seq<u8>, eof: bool, i: int)
    requires
        0 <= i <= b.len(),
    ensures
        header_line(b, eof, i) matches Res::Done(_, e) ==> i < e <= b.len(),
{
    lemma_scan(b, eof, i, Class::Tchar);
    if let Some(n) = scan(b, eof, i, Class::Tchar) {
        if n < b.len() {
            lemma_scan(b, eof, n + 1, Class::Ws);
            if let Some(w) = scan(b, eof, n + 1, Class::Ws) {
                lemma_scan(b, eof, w, Class::NotCr);
            }
        }
    }
}

/// Header lines from `i` until a carriage return or the end of the stream,
/// each setting its name in `h`.
pub open spec fn spec_parse_headers(b: Seq<u8>, eof: bool, i: int, h: Entries) -> Res<Entries>
    decreases b.len() - i,
    when 0 <= i <= b.len()
{
    match peek(b, eof, i) {
        None => Res::More,
        Some(None) => Res::Done(h, i),
        Some(Some(c)) => if c == 0x0d {
            Res::Done(h, i)
        } else {
            match header_line(b, eof, i) {
                Res::Done(kv, e) => {
                    proof {
                        lemma_header_line(b, eof, i);
                    }
                    spec_parse_headers(b, eof, e, spec_insert(h, kv.0, kv.1))
                },
                Res::Fail(x) => Res::Fail(x),
                Res::More => Res::More,
                Res::Abort => Res::Abort,
            }
        },
    }
}

fn trim_end_ws(v: &mut Vec<u8>)
    ensures
        final(v)@ == trim_ws_end(old(v)@),
{
    while v.len() > 0 && is_whitespace(v[v.len() - 1])
        invariant
            trim_ws_end(v@) == trim_ws_end(old(v)@),
        decreases v@.len(),
    {
        v.pop();
    }
}

fn read_header_line(buf: &[u8], eof: bool, i: usize) -> (r: Parsed<(String, String)>)
    requires
        i <= buf@.len(),
    ensures
        agrees(r, header_line(buf@, eof, i as int), |kv: (String, String)| (kv.0@, kv.1@)),
        ends_within(r, i as int, buf@.len() as int),
{
    proof {
        lemma_scan(buf@, eof, i as int, Class::Tchar);
    }
    let (name, n) = match super::io::read_token(buf, eof, i) {
        Parsed::Done(name, n) => (name, n),
        Parsed::Fail(x) => return Parsed::Fail(x),
        Parsed::More => return Parsed::More,
        Parsed::Abort => return Parsed::Abort,
    };
    let n1 = match read_byte(buf, eof, n) {
        Parsed::Done(c, n1) => {
            if c != 0x3a {
                return Parsed::Fail(ParseError::ExpectedColon);
            }
            n1
        },
        Parsed::Fail(x) => return Parsed::Fail(x),
        Parsed::More => return Parsed::More,
        Parsed::Abort => return Parsed::Abort,
    };
    let w = match scan_class(buf, eof, n1, Class::Ws) {
        Some(w) => w,
        None => return Parsed::More,
    };
    proof {
        lemma_scan(buf@, eof, w as int, Class::NotCr);
    }
    let (mut raw, ve) = match super::io::read_run(buf, eof, w, Class::NotCr) {
        Parsed::Done(v, ve) => (v, ve),
        Parsed::Fail(x) => return Parsed::Fail(x),
        Parsed::More => return Parsed::More,
        Parsed::Abort => return Parsed::Abort,
    };
    trim_end_ws(&mut raw);
    let value = match string_from_utf8(raw) {
        Some(v) => v,
        None => return Parsed::Fail(ParseError::Utf8Error),
    };
    match try_skip_newline(buf, eof, ve) {
        Parsed::Done(_, e) => Parsed::Done((to_pascal_case(name.as_str()), value), e),
        Parsed::Fail(x) => Parsed::Fail(x),
        Parsed::More => Parsed::More,
        Parsed::Abort => Parsed::Abort,
    }
}

/// Reads header lines until a carriage return or the end of the stream; a
/// name that comes again keeps its last value.
pub fn parse_headers(buf: &[u8], eof: bool, i: usize) -> (r: Parsed<StrMap>)
    requires
        i <= buf@.len(),
    ensures
        agrees(r, spec_parse_headers(buf@, eof, i as int, Seq::empty()), |h: StrMap| h@),
        ends_within(r, i as int, buf@.len() as int),
{
    let mut h = StrMap::new();
    let mut j = i;
    while j <= buf.len()
        invariant
            i <= j <= buf@.len(),
            spec_parse_headers(buf@, eof, i as int, Seq::empty()) == spec_parse_headers(
                buf@,
                eof,
                j as int,
                h@,
            ),
        decreases buf@.len() - j,
    {
        match peek_byte(buf, eof, j) {
            None => return Parsed::More,
            Some(None) => return Parsed::Done(h, j),
            Some(Some(c)) => {
                if c == 0x0d {
                    return Parsed::Done(h, j);
                }
            },
        }
        proof {
            lemma_header_line(buf@, eof, j as int);
        }
        match read_header_line(buf, eof, j) {
            Parsed::Done(kv, e) => {
                let (k, v) = kv;
                h.insert(k, v);
                j = e;
            },
            Parsed::Fail(x) => return Parsed::Fail(x),
            Parsed::More => return Parsed::More,
            Parsed::Abort => return Parsed::Abort,
        }
    }
    Parsed::More
}

/// The trailer after the last chunk: lines are skipped through the first one
/// that starts with a carriage return, or to the end of the stream.
pub open spec fn spec_skip_trailer(b: Seq<u8>, eof: bool, i: int) -> Option<int>
    decreases b.len() - i,
    when 0 <= i <= b.len()
{
    match peek(b, eof, i) {
        None => None,
        Some(p) => match spec_skip_line(b, eof, i) {
            None => None,
            Some(e) => if p is None || p == Some(0x0du8) {
                Some(e)
            } else {
                proof {
                    lemma_skip_line(b, eof, i);
                }
                spec_skip_trailer(b, eof, e)
            },
        },
    }
}

/// `acc` as the whole body, once the trailer from `i` is skipped.
pub open spec fn chunked_end(b: Seq<u8>, eof: bool, i: int, acc: Seq<u8>) -> Res<Seq<u8>> {
    match spec_skip_trailer(b, eof, i) {
        None => Res::More,
        Some(e) => Res::Done(acc, e),
    }
}

/// A chunked body from `i`, after the bytes `acc` already read: a line that
/// starts with the hexadecimal size (up to a space or carriage return), then
/// that many bytes (fewer where the stream ends). An empty or zero size ends
/// the chunks; so does a line end right after the data, as nothing skips it.
pub open spec fn spec_chunks(b: Seq<u8>, eof: bool, i: int, acc: Seq<u8>) -> Res<Seq<u8>>
    decreases b.len() - i,
    when 0 <= i <= b.len()
{
    match scan(b, eof, i, Class::NotSpaceCr) {
        None => Res::More,
        Some(le) => match spec_skip_line(b, eof, le) {
            None => Res::More,
            Some(s) => {
                let digits = b.subrange(i, le);
                if digits.len() == 0 {
                    chunked_end(b, eof, s, acc)
                } else if !valid_utf8(digits) {
                    Res::Fail(ParseErrorV::Utf8ErrorStr)
                } else {
                    match spec_parse_usize(decode_utf8(digits), 16) {
                        Err(k) => Res::Fail(ParseErrorV::ParseIntError(k)),
                        Ok(n) => if n == 0 {
                            chunked_end(b, eof, s, acc)
                        } else {
                            match spec_read_n(b, eof, s, n) {
                                Res::Done(data, e) => {
                                    proof {
                                        lemma_scan(b, eof, i, Class::NotSpaceCr);
                                        lemma_skip_line(b, eof, le);
                                        lemma_parse_int_range(
                                            decode_utf8(digits),
                                            16,
                                            false,
                                            0,
                                            usize::MAX as int,
                                        );
                                    }
                                    spec_chunks(b, eof, e, acc + data)
                                },
                                Res::Fail(x) => Res::Fail(x),
                                Res::More => Res::More,
                                Res::Abort => Res::Abort,
                            }
                        },
                    }
                }
            },
        },
    }
}

fn skip_trailer(buf: &[u8], eof: bool, i: usize) -> (r: Option<usize>)
    requires
        i <= buf@.len(),
    ensures
        match spec_skip_trailer(buf@, eof, i as int) {
            Some(e) => r matches Some(x) && x == e && i <= e <= buf@.len(),
            None => r is None,
        },
{
    let mut j = i;
    while j <= buf.len()
        invariant
            i <= j <= buf@.len(),
            spec_skip_trailer(buf@, eof, i as int) == spec_skip_trailer(buf@, eof, j as int),
        decreases buf@.len() - j,
    {
        let p = match peek_byte(buf, eof, j) {
            None => return None,
            Some(p) => p,
        };
        proof {
            lemma_skip_line(buf@, eof, j as int);
        }
        let e = match skip_until_inclusive(buf, eof, j) {
            None => return None,
            Some(e) => e,
        };
        let last = match p {
            None => true,
            Some(c) => c == 0x0d,
        };
        if last {
            return Some(e);
        }
        j = e;
    }
    None
}

fn parse_chunked_body(buf: &[u8], eof: bool, i: usize) -> (r: Parsed<Vec<u8>>)
    requires
        i <= buf@.len(),
    ensures
        agrees(r, spec_chunks(buf@, eof, i as int, Seq::empty()), |v: Vec<u8>| v@),
        ends_within(r, i as int, buf@.len() as int),
{
    let mut acc: Vec<u8> = Vec::new();
    let mut j = i;
    while j <= buf.len()
        invariant
            i <= j <= buf@.len(),
            spec_chunks(buf@, eof, i as int, Seq::empty()) == spec_chunks(
                buf@,
                eof,
                j as int,
                acc@,
            ),
        decreases buf@.len() - j,
    {
        proof {
            lemma_scan(buf@, eof, j as int, Class::NotSpaceCr);
        }
        let (digits, le) = match super::io::read_run(buf, eof, j, Class::NotSpaceCr) {
            Parsed::Done(v, le) => (v, le),
            Parsed::Fail(x) => return Parsed::Fail(x),
            Parsed::More => return Parsed::More,
            Parsed::Abort => return Parsed::Abort,
        };
        proof {
            lemma_skip_line(buf@, eof, le as int);
        }
        let s = match skip_until_inclusive(buf, eof, le) {
            None => return Parsed::More,
            Some(s) => s,
        };
        let mut n: usize = 0;
        if digits.len() > 0 {
            let text = match string_from_utf8(digits) {
                Some(t) => t,
                None => return Parsed::Fail(ParseError::Utf8ErrorStr),
            };
            proof {
                lemma_parse_int_range(text@, 16, false, 0, usize::MAX as int);
            }
            n = match parse_usize(text.as_str(), 16) {
                Ok(n) => n,
                Err(k) => return Parsed::Fail(ParseError::ParseIntError(k)),
            };
        }
        if n == 0 {
            assert(spec_chunks(buf@, eof, j as int, acc@) == chunked_end(buf@, eof, s as int, acc@));
            return match skip_trailer(buf, eof, s) {
                None => Parsed::More,
                Some(e) => Parsed::Done(acc, e),
            };
        }
        assert(spec_chunks(buf@, eof, j as int, acc@) == (match spec_read_n(buf@, eof, s as int, n as int) {
            Res::Done(data, e) => spec_chunks(buf@, eof, e, acc@ + data),
            Res::Fail(x) => Res::Fail(x),
            Res::More => Res::More,
            Res::Abort => Res::Abort,
        }));
        match read_n_bytes(buf, eof, s, n) {
            Parsed::Done(data, e) => {
                let mut k: usize = 0;
                let ghost before = acc@;
                while k < data.len()
                    invariant
                        k <= data@.len(),
                        acc@ == before + data@.take(k as int),
                    decreases data@.len() - k,
                {
                    acc.push(data[k]);
                    k = k + 1;
                    assert(acc@ =~= before + data@.take(k as int));
                }
                assert(data@.take(k as int) =~= data@);
                j = e;
            },
            Parsed::Fail(x) => return Parsed::Fail(x),
            Parsed::More => return Parsed::More,
            Parsed::Abort => return Parsed::Abort,
        }
    }
    Parsed::More
}

/// The header fields once the body is read: `Transfer-Encoding` is taken out.
pub open spec fn body_headers(h: Entries) -> Entries {
    if spec_get(h, "Transfer-Encoding"@) is Some {
        spec_remove(h, "Transfer-Encoding"@)
    } else {
        h
    }
}

/// The body that the header fields `h` announce: chunked where the transfer
/// encoding says so (any other encoding is refused), else as many bytes as
/// the content length gives (fewer where the stream ends), else none.
pub open spec fn spec_parse_body(h: Entries, b: Seq<u8>, eof: bool, i: int) -> Res<Seq<u8>> {
    match spec_get(h, "Transfer-Encoding"@) {
        Some(te) => if te == "chunked"@ {
            spec_chunks(b, eof, i, Seq::empty())
        } else {
            Res::Fail(ParseErrorV::UnknownTransferEncoding(te))
        },
        None => match spec_get(h, "Content-Length"@) {
            Some(d) => match spec_parse_usize(d, 10) {
                Err(k) => Res::Fail(ParseErrorV::ParseIntError(k)),
                Ok(n) => spec_read_n(b, eof, i, n),
            },
            None => Res::Done(Seq::empty(), i),
        },
    }
}

/// Reads the body that `headers` announce, taking `Transfer-Encoding` out of
/// them.
pub fn parse_body(buf: &[u8], eof: bool, i: usize, headers: &mut StrMap) -> (r: Parsed<Vec<u8>>)
    requires
        i <= buf@.len(),
    ensures
        final(headers)@ == body_headers(old(headers)@),
        agrees(r, spec_parse_body(old(headers)@, buf@, eof, i as int), |v: Vec<u8>| v@),
        ends_within(r, i as int, buf@.len() as int),
{
    match headers.remove("Transfer-Encoding") {
        Some(te) => {
            if crate::text::str_eq(te.as_str(), "chunked") {
                parse_chunked_body(buf, eof, i)
            } else {
                Parsed::Fail(ParseError::UnknownTransferEncoding(te))
            }
        },
        None => {
            match headers.get("Content-Length") {
                Some(data) => {
                    proof {
                        lemma_parse_int_range(data@, 10, false, 0, usize::MAX as int);
                    }
                    match parse_usize(data.as_str(), 10) {
                        Ok(n) => read_n_bytes(buf, eof, i, n),
                        Err(k) => Parsed::Fail(ParseError::ParseIntError(k)),
                    }
                },
                None => Parsed::Done(Vec::new(), i),
            }
        },
    }
}

} // verus!
