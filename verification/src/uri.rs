//! URIs as requests and proxy targets write them: scheme, authority (domain
//! and port), a path that is percent-decoded and freed of `.` and `..`
//! segments, query and fragment.
//!
//! Positions in a `Uri` count characters of `full`.
use vstd::prelude::*;
use crate::text::{
    IntErrorKind, chars_of, find_char, lemma_find_char, chars_find, spec_parse_u16, parse_int,
    string_from_chars, push_all, chars_range,
};

verus! {

/// Why a URI was refused.
#[derive(Debug, Clone, Copy, PartialEq, Eq)]
pub enum ParseError {
    /// The input ends inside a `%` escape.
    CutPersonEncoding,
    /// A character after `%` that is no hex digit.
    InvalidParcentEncodingDigit(char),
    /// The port after the domain is no `u16`.
    PortError(IntErrorKind),
}

/// A parsed URI: the text as it is kept, and where its parts lie in it.
#[derive(Debug, Clone, PartialEq, Eq)]
pub struct Uri {
    pub full: String,
    scheme_end: usize,
    domain_start: usize,
    domain_end: usize,
    pub port: Option<u16>,
    host_end: usize,
    path_start: usize,
    path_end: usize,
    query_start: usize,
    query_end: usize,
    fragment_start: usize,
}

pub struct UriV {
    pub full: Seq<char>,
    pub scheme_end: int,
    pub domain: (int, int),
    pub port: Option<u16>,
    pub host_end: int,
    pub path: (int, int),
    pub query: (int, int),
    pub fragment_start: int,
}

impl View for Uri {
    type V = UriV;

    closed spec fn view(&self) -> UriV {
        UriV {
            full: self.full@,
            scheme_end: self.scheme_end as int,
            domain: (self.domain_start as int, self.domain_end as int),
            port: self.port,
            host_end: self.host_end as int,
            path: (self.path_start as int, self.path_end as int),
            query: (self.query_start as int, self.query_end as int),
            fragment_start: self.fragment_start as int,
        }
    }
}

/// Every part lies within `full` (true of what `parse_uri` gives, except
/// where a `..` segment climbed into the authority).
pub open spec fn uri_wf(u: UriV) -> bool {
    let n = u.full.len();
    &&& 0 <= u.scheme_end <= n
    &&& 0 <= u.domain.0 <= u.domain.1 <= n
    &&& u.domain.0 <= u.host_end <= n
    &&& 0 <= u.path.0 <= u.path.1 <= n
    &&& 0 <= u.query.0 <= u.query.1 <= n
    &&& 0 <= u.fragment_start <= n
}

/// The scheme, domain, host (domain and port), path, query and fragment.
pub open spec fn uri_scheme(u: UriV) -> Seq<char> {
    u.full.subrange(0, u.scheme_end)
}

pub open spec fn uri_domain(u: UriV) -> Seq<char> {
    u.full.subrange(u.domain.0, u.domain.1)
}

pub open spec fn uri_host(u: UriV) -> Seq<char> {
    u.full.subrange(u.domain.0, u.host_end)
}

pub open spec fn uri_path(u: UriV) -> Seq<char> {
    u.full.subrange(u.path.0, u.path.1)
}

pub open spec fn uri_query(u: UriV) -> Seq<char> {
    u.full.subrange(u.query.0, u.query.1)
}

pub open spec fn uri_fragment(u: UriV) -> Seq<char> {
    u.full.subrange(u.fragment_start, u.full.len() as int)
}

impl Uri {
    /// Whether every part lies within `full`.
    pub fn is_valid(&self) -> (r: bool)
        ensures
            r == uri_wf(self@),
    {
        let n = chars_of(self.full.as_str()).len();
        self.scheme_end <= n && self.domain_start <= self.domain_end && self.domain_end <= n
            && self.domain_start <= self.host_end && self.host_end <= n && self.path_start <= self.path_end
            && self.path_end <= n && self.query_start <= self.query_end && self.query_end <= n
            && self.fragment_start <= n
    }

    /// A copy with the same parts.
    pub fn copy(&self) -> (r: Uri)
        ensures
            r@ == self@,
    {
        Uri {
            full: self.full.clone(),
            scheme_end: self.scheme_end,
            domain_start: self.domain_start,
            domain_end: self.domain_end,
            port: self.port,
            host_end: self.host_end,
            path_start: self.path_start,
            path_end: self.path_end,
            query_start: self.query_start,
            query_end: self.query_end,
            fragment_start: self.fragment_start,
        }
    }

    /// The empty URI: no text, every part empty.
    pub fn empty() -> (r: Uri)
        ensures
            r@ == default_uri(),
    {
        let r = Uri {
            full: String::new(),
            scheme_end: 0,
            domain_start: 0,
            domain_end: 0,
            port: None,
            host_end: 0,
            path_start: 0,
            path_end: 0,
            query_start: 0,
            query_end: 0,
            fragment_start: 0,
        };
        assert(r@.full =~= Seq::<char>::empty());
        r
    }

    /// The length of the path, in characters.
    pub fn path_len(&self) -> (r: usize)
        requires
            uri_wf(self@),
        ensures
            r == self@.path.1 - self@.path.0,
    {
        self.path_end - self.path_start
    }

    /// The length of the whole text, in characters.
    pub fn full_len(&self) -> (r: usize)
        ensures
            r == self@.full.len(),
    {
        chars_of(self.full.as_str()).len()
    }

    /// The whole text as it is kept.
    pub fn full(&self) -> (r: &str)
        ensures
            r@ == self@.full,
    {
        self.full.as_str()
    }

    pub fn scheme(&self) -> (r: &str)
        requires
            uri_wf(self@),
        ensures
            r@ == uri_scheme(self@),
    {
        self.full.as_str().substring_char(0, self.scheme_end)
    }

    pub fn domain(&self) -> (r: &str)
        requires
            uri_wf(self@),
        ensures
            r@ == uri_domain(self@),
    {
        self.full.as_str().substring_char(self.domain_start, self.domain_end)
    }

    pub fn host(&self) -> (r: &str)
        requires
            uri_wf(self@),
        ensures
            r@ == uri_host(self@),
    {
        self.full.as_str().substring_char(self.domain_start, self.host_end)
    }

    pub fn path(&self) -> (r: &str)
        requires
            uri_wf(self@),
        ensures
            r@ == uri_path(self@),
    {
        self.full.as_str().substring_char(self.path_start, self.path_end)
    }

    pub fn query(&self) -> (r: &str)
        requires
            uri_wf(self@),
        ensures
            r@ == uri_query(self@),
    {
        self.full.as_str().substring_char(self.query_start, self.query_end)
    }

    pub fn fragment(&self) -> (r: &str)
        requires
            uri_wf(self@),
        ensures
            r@ == uri_fragment(self@),
    {
        let n = chars_of(self.full.as_str()).len();
        self.full.as_str().substring_char(self.fragment_start, n)
    }
}

// ----------------------------------------------------------------------------
// Decoding a path
// ----------------------------------------------------------------------------

/// Value of a hex digit.
pub open spec fn hex_value(c: char) -> Option<int> {
    if '0' <= c && c <= '9' {
        Some(c as int - '0' as int)
    } else if 'a' <= c && c <= 'f' {
        Some(c as int - 'a' as int + 10)
    } else if 'A' <= c && c <= 'F' {
        Some(c as int - 'A' as int + 10)
    } else {
        None
    }
}

/// Index of the last `c` in `s`.
pub open spec fn rfind_char(s: Seq<char>, c: char) -> Option<int>
    decreases s.len(),
{
    if s.len() == 0 {
        None
    } else if s.last() == c {
        Some(s.len() - 1)
    } else {
        rfind_char(s.drop_last(), c)
    }
}

/// `s` without its last `n` characters (or empty when shorter).
pub open spec fn drop_end(s: Seq<char>, n: int) -> Seq<char> {
    if s.len() >= n {
        s.take(s.len() - n)
    } else {
        Seq::empty()
    }
}

/// Removes a trailing `/.` (or a whole `.`), or resolves a trailing `/..`
/// against the segment before it; `last` is where the last `/` was pushed.
/// `None` where the program would slice past the end and panic.
pub open spec fn spec_compress(path: Seq<char>, last: int) -> Option<(Seq<char>, int)> {
    if last < 0 || last > path.len() {
        None
    } else {
        let tail = path.subrange(last, path.len() as int);
        if tail == "/."@ || path == "."@ {
            Some((drop_end(path, 2), last))
        } else if tail == "/.."@ {
            let p = drop_end(path, 3);
            let l = match rfind_char(p, '/') {
                Some(i) => i,
                None => 0,
            };
            if p.subrange(l, p.len() as int) != "/.."@ && p != ".."@ && p.len() != 0 {
                Some((p.take(l), l))
            } else {
                Some((p + "/.."@, l))
            }
        } else {
            Some((path, last))
        }
    }
}

/// Decodes `data` onto `out`: `%xx` escapes become the character with that
/// code, a `/` right after the last one is dropped, `.` and `..` segments are
/// resolved. `Err(None)` where the program would slice past the end and
/// panic.
pub open spec fn decode_from(data: Seq<char>, out: Seq<char>, last: int, pct: int, byte: int) -> Result<
    Seq<char>,
    Option<ParseError>,
>
    decreases data.len(),
{
    if data.len() == 0 {
        match spec_compress(out, last) {
            None => Err(None),
            Some((o, _)) => if pct > 0 {
                Err(Some(ParseError::CutPersonEncoding))
            } else {
                Ok(o)
            },
        }
    } else {
        let c = data[0];
        let rest = data.drop_first();
        if pct > 0 {
            match hex_value(c) {
                None => Err(Some(ParseError::InvalidParcentEncodingDigit(c))),
                Some(d) => {
                    let b = byte * 16 + d;
                    if pct == 1 {
                        decode_from(rest, out.push((b as u8) as char), last, 0, 0)
                    } else {
                        decode_from(rest, out, last, pct - 1, b)
                    }
                },
            }
        } else if c == '%' {
            decode_from(rest, out, last, 2, byte)
        } else if c == '/' {
            if last + 1 == out.len() {
                decode_from(rest, out, last, pct, byte)
            } else {
                match spec_compress(out, last) {
                    None => Err(None),
                    Some((o, _)) => decode_from(rest, o.push('/'), o.len() as int, pct, byte),
                }
            }
        } else {
            decode_from(rest, out.push(c), last, pct, byte)
        }
    }
}

proof fn lemma_compress_len(path: Seq<char>, last: int)
    ensures
        spec_compress(path, last) matches Some((p, _)) ==> p.len() <= path.len(),
{
    reveal_strlit("/..");
    reveal_strlit("..");
    assert("/.."@.len() == 3);
    if 0 <= last <= path.len() {
        let tail = path.subrange(last, path.len() as int);
        if tail == "/."@ || path == "."@ {
        } else if tail == "/.."@ {
            assert(tail.len() == 3);
            let p = drop_end(path, 3);
            lemma_rfind_char(p, '/');
        }
    }
}

/// Decoding never makes the output longer than the output and input together.
proof fn lemma_decode_len(data: Seq<char>, out: Seq<char>, last: int, pct: int, byte: int)
    ensures
        decode_from(data, out, last, pct, byte) matches Ok(o) ==> o.len() <= out.len() + data.len(),
    decreases data.len(),
{
    lemma_compress_len(out, last);
    if data.len() > 0 {
        let c = data[0];
        let rest = data.drop_first();
        if pct > 0 {
            if let Some(d) = hex_value(c) {
                let b = byte * 16 + d;
                if pct == 1 {
                    lemma_decode_len(rest, out.push((b as u8) as char), last, 0, 0);
                } else {
                    lemma_decode_len(rest, out, last, pct - 1, b);
                }
            }
        } else if c == '%' {
            lemma_decode_len(rest, out, last, 2, byte);
        } else if c == '/' {
            if last + 1 == out.len() {
                lemma_decode_len(rest, out, last, pct, byte);
            } else {
                if let Some((o, _)) = spec_compress(out, last) {
                    lemma_decode_len(rest, o.push('/'), o.len() as int, pct, byte);
                }
            }
        } else {
            lemma_decode_len(rest, out.push(c), last, pct, byte);
        }
    }
}

fn hex_digit(c: char) -> (r: Option<u8>)
    ensures
        match hex_value(c) {
            Some(d) => r == Some(d as u8),
            None => r is None,
        },
{
    if '0' <= c && c <= '9' {
        Some(((c as u32) - ('0' as u32)) as u8)
    } else if 'a' <= c && c <= 'f' {
        Some(((c as u32) - ('a' as u32) + 10) as u8)
    } else if 'A' <= c && c <= 'F' {
        Some(((c as u32) - ('A' as u32) + 10) as u8)
    } else {
        None
    }
}

/// Whether `c` is a hex digit, `0` to `9` or `a` to `f` in either case.
pub open spec fn is_hex_char(c: char) -> bool {
    '0' <= c <= '9' || 'a' <= c <= 'f' || 'A' <= c <= 'F'
}

/// The number a hex digit stands for.
pub open spec fn hex_number(c: char) -> int {
    if '0' <= c <= '9' {
        c as int - 0x30
    } else if 'a' <= c <= 'f' {
        c as int - 0x61 + 10
    } else {
        c as int - 0x41 + 10
    }
}

/// The upper-case form of an ASCII letter; anything else as it is.
pub open spec fn to_upper_ascii(c: char) -> char {
    if 'a' <= c <= 'z' {
        (c as int - 32) as char
    } else {
        c
    }
}

/// Reading `%xy` (with no escape under way) where `x` and `y` are hex digits
/// of either case gives the character whose code is `16 x + y`, and reading
/// on goes as if that character had come; `%xy` reads the same as its
/// upper-case form `%XY`.
pub proof fn law_percent_escape(x: char, y: char, rest: Seq<char>, out: Seq<char>, last: int)
    requires
        is_hex_char(x),
        is_hex_char(y),
    ensures
        exists|c: char|
            c as int == 16 * hex_number(x) + hex_number(y) && decode_from(
                seq!['%', x, y] + rest,
                out,
                last,
                0,
                0,
            ) == decode_from(rest, out.push(c), last, 0, 0),
        decode_from(seq!['%', x, y] + rest, out, last, 0, 0) == decode_from(
            seq!['%', to_upper_ascii(x), to_upper_ascii(y)] + rest,
            out,
            last,
            0,
            0,
        ),
{
    let d1 = seq!['%', x, y] + rest;
    let d2 = seq!['%', to_upper_ascii(x), to_upper_ascii(y)] + rest;
    assert(d1.drop_first() =~= seq![x, y] + rest);
    assert((seq![x, y] + rest).drop_first() =~= seq![y] + rest);
    assert((seq![y] + rest).drop_first() =~= rest);
    assert(d2.drop_first() =~= seq![to_upper_ascii(x), to_upper_ascii(y)] + rest);
    assert((seq![to_upper_ascii(x), to_upper_ascii(y)] + rest).drop_first() =~= seq![
        to_upper_ascii(y),
    ] + rest);
    assert((seq![to_upper_ascii(y)] + rest).drop_first() =~= rest);
    lemma_hex_value(x);
    lemma_hex_value(y);
    lemma_hex_value(to_upper_ascii(x));
    lemma_hex_value(to_upper_ascii(y));
    let b = 16 * hex_number(x) + hex_number(y);
    let c = ((b as u8) as char);
    assert(c as int == b) by {
        assert(0 <= b < 256);
    }
    lemma_escape_steps(x, y, rest, out, last);
    lemma_escape_steps(to_upper_ascii(x), to_upper_ascii(y), rest, out, last);
}

/// The three steps of reading `%xy`.
proof fn lemma_escape_steps(x: char, y: char, rest: Seq<char>, out: Seq<char>, last: int)
    requires
        is_hex_char(x),
        is_hex_char(y),
    ensures
        decode_from(seq!['%', x, y] + rest, out, last, 0, 0) == decode_from(
            rest,
            out.push(((16 * hex_number(x) + hex_number(y)) as u8) as char),
            last,
            0,
            0,
        ),
{
    lemma_hex_value(x);
    lemma_hex_value(y);
    let d1 = seq!['%', x, y] + rest;
    let d2 = seq![x, y] + rest;
    let d3 = seq![y] + rest;
    assert(d1.drop_first() =~= d2);
    assert(d2.drop_first() =~= d3);
    assert(d3.drop_first() =~= rest);
    assert(d1[0] == '%');
    assert(d2[0] == x);
    assert(d3[0] == y);
    let hx = hex_number(x);
    assert(decode_from(d1, out, last, 0, 0) == decode_from(d2, out, last, 2, 0));
    assert(decode_from(d2, out, last, 2, 0) == decode_from(d3, out, last, 1, 0 * 16 + hx));
    assert(decode_from(d3, out, last, 1, hx) == decode_from(
        rest,
        out.push(((hx * 16 + hex_number(y)) as u8) as char),
        last,
        0,
        0,
    ));
    assert(hx * 16 + hex_number(y) == 16 * hx + hex_number(y));
}

/// Reading `%` followed by a character that is no hex digit refuses the
/// text, naming that character; so does `%` and a hex digit followed by one.
pub proof fn law_bad_percent_escape(x: char, y: char, rest: Seq<char>, out: Seq<char>, last: int)
    ensures
        !is_hex_char(x) ==> decode_from(seq!['%', x] + rest, out, last, 0, 0) == Err::<
            Seq<char>,
            Option<ParseError>,
        >(Some(ParseError::InvalidParcentEncodingDigit(x))),
        is_hex_char(x) && !is_hex_char(y) ==> decode_from(seq!['%', x, y] + rest, out, last, 0, 0)
            == Err::<Seq<char>, Option<ParseError>>(Some(ParseError::InvalidParcentEncodingDigit(y))),
{
    lemma_hex_value(x);
    lemma_hex_value(y);
    let d1 = seq!['%', x] + rest;
    assert(d1.drop_first() =~= seq![x] + rest);
    assert((seq![x] + rest)[0] == x);
    assert(decode_from(d1, out, last, 0, 0) == decode_from(seq![x] + rest, out, last, 2, 0));
    let e1 = seq!['%', x, y] + rest;
    let e2 = seq![x, y] + rest;
    let e3 = seq![y] + rest;
    assert(e1.drop_first() =~= e2);
    assert(e2.drop_first() =~= e3);
    assert(e2[0] == x);
    assert(e3[0] == y);
    assert(decode_from(e1, out, last, 0, 0) == decode_from(e2, out, last, 2, 0));
    if is_hex_char(x) {
        assert(decode_from(e2, out, last, 2, 0) == decode_from(e3, out, last, 1, 0 * 16 + hex_number(x)));
    }
}

/// What `hex_value` gives: the number of a hex digit of either case, none
/// for anything else; a lower-case digit and its upper-case form alike.
proof fn lemma_hex_value(c: char)
    ensures
        is_hex_char(c) ==> hex_value(c) == Some(hex_number(c)) && 0 <= hex_number(c) < 16,
        !is_hex_char(c) ==> hex_value(c) is None,
        is_hex_char(c) ==> is_hex_char(to_upper_ascii(c)) && hex_number(to_upper_ascii(c)) == hex_number(c),
{
    if 'a' <= c <= 'f' {
        let u = to_upper_ascii(c);
        assert(u as int == c as int - 32);
    }
}

proof fn lemma_rfind_char(s: Seq<char>, c: char)
    ensures
        match rfind_char(s, c) {
            Some(i) => 0 <= i < s.len() && s[i] == c && forall|j: int| i < j < s.len() ==> s[j] != c,
            None => forall|j: int| 0 <= j < s.len() ==> s[j] != c,
        },
    decreases s.len(),
{
    if s.len() > 0 && s.last() != c {
        lemma_rfind_char(s.drop_last(), c);
        assert forall|j: int| 0 <= j < s.len() - 1 implies s[j] == s.drop_last()[j] by {}
    }
}

fn rposition(s: &Vec<char>, c: char) -> (r: Option<usize>)
    ensures
        r matches Some(i) ==> rfind_char(s@, c) == Some(i as int),
        r is None ==> rfind_char(s@, c) is None,
        match rfind_char(s@, c) {
            Some(i) => r == Some(i as usize),
            None => r is None,
        },
{
    let mut i = s.len();
    assert(s@.take(i as int) =~= s@);
    while i > 0
        invariant
            i <= s@.len(),
            rfind_char(s@, c) == rfind_char(s@.take(i as int), c),
        decreases i,
    {
        let ghost t = s@.take(i as int);
        assert(t.drop_last() =~= s@.take(i - 1));
        if s[i - 1] == c {
            return Some(i - 1);
        }
        i = i - 1;
    }
    None
}

fn ends_with(s: &Vec<char>, from: usize, lit: &str) -> (r: bool)
    requires
        from <= s@.len(),
    ensures
        r == (s@.subrange(from as int, s@.len() as int) == lit@),
{
    let tail = chars_range(s.as_slice(), from, s.len());
    let l = chars_of(lit);
    crate::text::chars_eq(tail.as_slice(), l.as_slice())
}

fn truncate_to(path: &mut Vec<char>, n: usize)
    requires
        n <= old(path)@.len(),
    ensures
        final(path)@ == old(path)@.take(n as int),
{
    while path.len() > n
        invariant
            n <= path@.len() <= old(path)@.len(),
            path@ == old(path)@.take(path@.len() as int),
        decreases path@.len(),
    {
        path.pop();
        assert(path@ =~= old(path)@.take(path@.len() as int));
    }
    assert(path@ =~= old(path)@.take(n as int));
}

/// Resolves a trailing `/.` or `/..` of `path` (see `spec_compress`).
/// `Err(())` where the program would slice past the end and panic.
fn compress_last_component(path: &mut Vec<char>, last_slash: &mut usize) -> (r: Result<(), ()>)
    ensures
        match spec_compress(old(path)@, *old(last_slash) as int) {
            Some((p, l)) => r is Ok && final(path)@ == p && *final(last_slash) == l,
            None => r is Err,
        },
{
    if *last_slash > path.len() {
        return Err(());
    }
    let dot = chars_of(".");
    let dotdot = chars_of("..");
    if ends_with(path, *last_slash, "/.") || crate::text::chars_eq(path.as_slice(), dot.as_slice()) {
        let n = path.len();
        if n >= 2 {
            truncate_to(path, n - 2);
        } else {
            truncate_to(path, 0);
        }
        assert(path@ =~= drop_end(old(path)@, 2));
        Ok(())
    } else if ends_with(path, *last_slash, "/..") {
        let n = path.len();
        proof {
            reveal_strlit("/..");
            assert(old(path)@.subrange(*old(last_slash) as int, n as int).len() == 3);
        }
        truncate_to(path, n - 3);
        assert(path@ =~= drop_end(old(path)@, 3));
        let l = match rposition(path, '/') {
            Some(i) => i,
            None => 0,
        };
        proof {
            lemma_rfind_char(path@, '/');
        }
        *last_slash = l;
        if !ends_with(path, l, "/..") && !crate::text::chars_eq(path.as_slice(), dotdot.as_slice())
            && path.len() != 0 {
            truncate_to(path, l);
        } else {
            let ghost before = path@;
            crate::text::push_str(path, "/..");
        }
        Ok(())
    } else {
        Ok(())
    }
}

/// Decodes `data` onto `output` (see `decode_from`); `last_slash` starts at 0,
/// an index into the whole output.
/// `Err(None)` where the program would slice past the end and panic.
fn uri_decode(data: &[char], output: &mut Vec<char>) -> (r: Result<(), Option<ParseError>>)
    ensures
        match decode_from(data@, old(output)@, 0, 0, 0) {
            Ok(o) => r is Ok && final(output)@ == o,
            Err(e) => r == Err::<(), Option<ParseError>>(e),
        },
{
    let mut last_slash: usize = 0;
    let mut pct: u8 = 0;
    let mut byte: u8 = 0;
    let mut i: usize = 0;
    let ghost goal = decode_from(data@, old(output)@, 0, 0, 0);
    assert(data@.skip(0) =~= data@);
    while i < data.len()
        invariant
            i <= data@.len(),
            pct <= 2,
            pct == 1 ==> byte < 16,
            pct != 1 ==> byte == 0,
            goal == decode_from(data@, old(output)@, 0, 0, 0),
            goal == decode_from(data@.skip(i as int), output@, last_slash as int, pct as int, byte as int),
        decreases data@.len() - i,
    {
        let c = data[i];
        let ghost rest = data@.skip(i as int);
        assert(rest[0] == c);
        assert(rest.drop_first() =~= data@.skip(i + 1));
        if pct > 0 {
            match hex_digit(c) {
                None => {
                    return Err(Some(ParseError::InvalidParcentEncodingDigit(c)));
                },
                Some(d) => {
                    let b: u8 = byte * 16 + d;
                    if pct == 1 {
                        output.push(b as char);
                        pct = 0;
                        byte = 0;
                        assert(goal == decode_from(data@.skip(i + 1), output@, last_slash as int, 0, 0));
                    } else {
                        pct = pct - 1;
                        byte = b;
                        assert(goal == decode_from(data@.skip(i + 1), output@, last_slash as int, pct as int, byte as int));
                    }
                },
            }
        } else if c == '%' {
            pct = 2;
            assert(goal == decode_from(data@.skip(i + 1), output@, last_slash as int, 2, byte as int));
        } else if c == '/' {
            if output.len() > 0 && last_slash == output.len() - 1 {
                assert(goal == decode_from(data@.skip(i + 1), output@, last_slash as int, pct as int, byte as int));
            } else {
                let ghost before = output@;
                let ghost before_last = last_slash;
                assert(before_last as int + 1 != before.len());
                assert(goal == decode_from(data@.skip(i as int), before, before_last as int, pct as int, byte as int));
                if compress_last_component(output, &mut last_slash).is_err() {
                    return Err(None);
                }
                let ghost o = output@;
                assert(spec_compress(before, before_last as int) == Some((o, last_slash as int)));
                output.push('/');
                last_slash = output.len() - 1;
                assert(goal == decode_from(data@.skip(i + 1), o.push('/'), o.len() as int, pct as int, byte as int));
            }
        } else {
            output.push(c);
            assert(goal == decode_from(data@.skip(i + 1), output@, last_slash as int, pct as int, byte as int));
        }
        i = i + 1;
    }
    if compress_last_component(output, &mut last_slash).is_err() {
        return Err(None);
    }
    if pct > 0 {
        return Err(Some(ParseError::CutPersonEncoding));
    }
    Ok(())
}

} // verus!

verus! {

// ----------------------------------------------------------------------------
// Parsing
// ----------------------------------------------------------------------------

/// Splits the host `full[d0..he]` at its first `:` into domain and port.
pub open spec fn spec_split(full: Seq<char>, d0: int, he: int) -> Result<(int, Option<u16>), ParseError> {
    let host = full.subrange(d0, he);
    match find_char(host, ':') {
        Some(k) => match spec_parse_u16(host.skip(k + 1)) {
            Ok(v) => Ok((d0 + k, Some(v as u16))),
            Err(e) => Err(ParseError::PortError(e)),
        },
        None => Ok((he, None)),
    }
}

/// Index of the first `?` or `#`.
pub open spec fn find_qf(s: Seq<char>) -> Option<int>
    decreases s.len(),
{
    if s.len() == 0 {
        None
    } else if s[0] == '?' || s[0] == '#' {
        Some(0)
    } else {
        match find_qf(s.drop_first()) {
            Some(i) => Some(i + 1),
            None => None,
        }
    }
}

pub open spec fn default_uri() -> UriV {
    UriV {
        full: Seq::empty(),
        scheme_end: 0,
        domain: (0, 0),
        port: None,
        host_end: 0,
        path: (0, 0),
        query: (0, 0),
        fragment_start: 0,
    }
}

/// Path, query and fragment from `rest`, after what `u` holds.
/// `Err(None)` where the program slices past the end and panics: a query
/// that no `#` follows.
#[verifier::opaque]
pub open spec fn uri_tail(rest: Seq<char>, u: UriV) -> Result<UriV, Option<ParseError>> {
    let pe = match find_qf(rest) {
        Some(i) => i,
        None => rest.len() as int,
    };
    let p0 = u.full.len() as int;
    match decode_from(rest.take(pe), u.full, 0, 0, 0) {
        Err(e) => Err(e),
        Ok(f1) => {
            let u1 = UriV { full: f1, path: (p0, f1.len() as int), ..u };
            let r1 = rest.skip(pe);
            let q = if r1.len() > 0 && r1[0] == '?' {
                let ns = r1.drop_first();
                match find_char(ns, '#') {
                    None => None,
                    Some(qe) => {
                        let f2 = u1.full.push('?') + ns.take(qe);
                        Some(
                            (
                                UriV { full: f2, query: (u1.full.len() + 1 as int, f2.len() as int), ..u1 },
                                ns.skip(qe),
                            ),
                        )
                    },
                }
            } else {
                Some((u1, r1))
            };
            match q {
                None => Err(None),
                Some((u2, r2)) => if r2.len() > 0 && r2[0] == '#' {
                    Ok(UriV { full: u2.full + r2, fragment_start: u2.full.len() + 1 as int, ..u2 })
                } else {
                    Ok(u2)
                },
            }
        },
    }
}

/// The authority, where `rest` has one, then the rest.
pub open spec fn uri_authority(rest: Seq<char>, u: UriV) -> Result<UriV, Option<ParseError>> {
    let slash = rest.len() > 0 && rest[0] == '/';
    let dbl = rest.len() >= 2 && rest[0] == '/' && rest[1] == '/';
    if dbl || (!slash && u.scheme_end == 0) {
        let f1 = if dbl {
            u.full + seq!['/', '/']
        } else {
            u.full
        };
        let r1 = if dbl {
            rest.skip(2)
        } else {
            rest
        };
        let d0 = f1.len() as int;
        let he_rel = match find_char(r1, '/') {
            Some(i) => i,
            None => r1.len() as int,
        };
        let f2 = f1 + r1.take(he_rel);
        match spec_split(f2, d0, f2.len() as int) {
            Err(e) => Err(Some(e)),
            Ok((d1, port)) => uri_tail(
                r1.skip(he_rel),
                UriV { full: f2, domain: (d0, d1), host_end: f2.len() as int, port, ..u },
            ),
        }
    } else {
        uri_tail(rest, u)
    }
}

/// What `parse_uri` gives: `Err(None)` where the program slices past the end
/// and panics.
pub open spec fn spec_parse_uri(s: Seq<char>) -> Result<UriV, Option<ParseError>> {
    if !(s.len() > 0 && s[0] == '/') {
        match find_char(s, ':') {
            Some(se) => uri_authority(
                s.skip(se + 1),
                UriV { full: s.take(se + 1), scheme_end: se, ..default_uri() },
            ),
            None => match spec_split(s, 0, s.len() as int) {
                Err(e) => Err(Some(e)),
                Ok((d1, port)) => Ok(
                    UriV { full: s, host_end: s.len() as int, domain: (0, d1), port, ..default_uri() },
                ),
            },
        }
    } else {
        uri_authority(s, default_uri())
    }
}

/// Finds the domain's end and the port in the host `full[d0..he]`.
fn split_domain_port(full: &[char], d0: usize, he: usize) -> (r: Result<(usize, Option<u16>), ParseError>)
    requires
        d0 <= he <= full@.len(),
    ensures
        r matches Ok((d1, p)) ==> spec_split(full@, d0 as int, he as int) == Ok::<(int, Option<u16>), ParseError>((d1 as int, p)),
        match spec_split(full@, d0 as int, he as int) {
            Ok((d1, p)) => r == Ok::<(usize, Option<u16>), ParseError>((d1 as usize, p)),
            Err(e) => r == Err::<(usize, Option<u16>), ParseError>(e),
        },
{
    let host = chars_range(full, d0, he);
    match chars_find(host.as_slice(), ':') {
        Some(k) => {
            proof {
                lemma_find_char(host@, ':');
            }
            let port = chars_range(host.as_slice(), k + 1, host.len());
            assert(port@ =~= host@.skip(k + 1));
            match parse_int(port.as_slice(), 10, false, 0, 0xffff) {
                Ok(v) => Ok((d0 + k, Some(v as u16))),
                Err(e) => Err(ParseError::PortError(e)),
            }
        },
        None => Ok((he, None)),
    }
}

fn find_query_or_fragment(s: &[char], from: usize) -> (r: usize)
    requires
        from <= s@.len(),
    ensures
        r == match find_qf(s@.skip(from as int)) {
            Some(i) => from + i,
            None => s@.len() as int,
        },
        from <= r <= s@.len(),
{
    let mut i = from;
    assert(s@.skip(from as int).skip(0) =~= s@.skip(from as int));
    while i < s.len()
        invariant
            from <= i <= s@.len(),
            find_qf(s@.skip(from as int)) == match find_qf(s@.skip(i as int)) {
                Some(k) => Some(k + (i - from)),
                None => None::<int>,
            },
        decreases s@.len() - i,
    {
        let ghost t = s@.skip(i as int);
        assert(t[0] == s@[i as int]);
        assert(t.drop_first() =~= s@.skip(i + 1));
        if s[i] == '?' || s[i] == '#' {
            return i;
        }
        i = i + 1;
    }
    s.len()
}

/// The parts of a URI while it is being read.
struct Parts {
    out: Vec<char>,
    scheme_end: usize,
    domain_start: usize,
    domain_end: usize,
    port: Option<u16>,
    host_end: usize,
    path_start: usize,
    path_end: usize,
    query_start: usize,
    query_end: usize,
    fragment_start: usize,
}

spec fn parts_view(p: Parts) -> UriV {
    UriV {
        full: p.out@,
        scheme_end: p.scheme_end as int,
        domain: (p.domain_start as int, p.domain_end as int),
        port: p.port,
        host_end: p.host_end as int,
        path: (p.path_start as int, p.path_end as int),
        query: (p.query_start as int, p.query_end as int),
        fragment_start: p.fragment_start as int,
    }
}

fn finish(p: Parts) -> (u: Uri)
    ensures
        u@ == parts_view(p),
{
    Uri {
        full: string_from_chars(p.out.as_slice()),
        scheme_end: p.scheme_end,
        domain_start: p.domain_start,
        domain_end: p.domain_end,
        port: p.port,
        host_end: p.host_end,
        path_start: p.path_start,
        path_end: p.path_end,
        query_start: p.query_start,
        query_end: p.query_end,
        fragment_start: p.fragment_start,
    }
}

fn tail(s: &[char], from: usize, parts: Parts) -> (r: Result<Uri, Option<ParseError>>)
    requires
        from <= s@.len(),
        parts.out@.len() <= from,
    ensures
        match uri_tail(s@.skip(from as int), parts_view(parts)) {
            Ok(u) => r matches Ok(x) && x@ == u,
            Err(e) => r matches Err(y) && y == e,
        },
{
    reveal(uri_tail);
    let mut parts = parts;
    let ghost u = parts_view(parts);
    let ghost rest = s@.skip(from as int);
    let ghost spec_pe = match find_qf(rest) {
        Some(i) => i,
        None => rest.len() as int,
    };
    let pe = find_query_or_fragment(s, from);
    assert(pe - from == spec_pe);
    let data = chars_range(s, from, pe);
    assert(data@ =~= rest.take(spec_pe));
    let p0 = parts.out.len();
    proof {
        lemma_decode_len(data@, parts.out@, 0, 0, 0);
    }
    uri_decode(data.as_slice(), &mut parts.out)?;
    parts.path_start = p0;
    parts.path_end = parts.out.len();
    let ghost u1 = parts_view(parts);
    let ghost f1 = parts.out@;
    assert(u1 == UriV { full: f1, path: (p0 as int, f1.len() as int), ..u });
    let ghost r1 = rest.skip(spec_pe);
    assert(s@.skip(pe as int) =~= r1);
    let mut i = pe;
    let ghost q: Option<(UriV, Seq<char>)> = if r1.len() > 0 && r1[0] == '?' {
        let ns = r1.drop_first();
        match find_char(ns, '#') {
            None => None,
            Some(qe) => {
                let f2 = u1.full.push('?') + ns.take(qe);
                Some((UriV { full: f2, query: (u1.full.len() + 1 as int, f2.len() as int), ..u1 }, ns.skip(qe)))
            },
        }
    } else {
        Some((u1, r1))
    };
    if i < s.len() && s[i] == '?' {
        assert(r1[0] == s@[i as int]);
        let ghost ns = s@.skip(pe + 1);
        assert(ns =~= r1.drop_first());
        let after = chars_range(s, i + 1, s.len());
        assert(after@ =~= ns);
        match chars_find(after.as_slice(), '#') {
            None => {
                return Err(None);
            },
            Some(qe) => {
                parts.out.push('?');
                parts.query_start = parts.out.len();
                let qs = chars_range(after.as_slice(), 0, qe);
                assert(qs@ =~= ns.take(qe as int));
                push_all(&mut parts.out, qs.as_slice());
                parts.query_end = parts.out.len();
                assert(parts.out@ =~= u1.full.push('?') + ns.take(qe as int));
                assert(find_char(ns, '#') == Some(qe as int));
                i = i + 1 + qe;
                assert(s@.skip(i as int) =~= ns.skip(qe as int));
                assert(q == Some((parts_view(parts), s@.skip(i as int))));
            },
        }
    } else {
        assert(r1.len() > 0 ==> r1[0] == s@[i as int]);
        assert(q == Some((parts_view(parts), s@.skip(i as int))));
    }
    let ghost u2 = parts_view(parts);
    let ghost r2 = s@.skip(i as int);
    if i < s.len() && s[i] == '#' {
        assert(r2[0] == s@[i as int]);
        parts.fragment_start = parts.out.len() + 1;
        let f = chars_range(s, i, s.len());
        assert(f@ =~= r2);
        push_all(&mut parts.out, f.as_slice());
        assert(parts_view(parts) == UriV { full: u2.full + r2, fragment_start: u2.full.len() + 1 as int, ..u2 });
    } else {
        assert(r2.len() > 0 ==> r2[0] == s@[i as int]);
    }
    Ok(finish(parts))
}

#[verifier::rlimit(100)]
#[verifier::spinoff_prover]
fn authority(s: &[char], from: usize, parts: Parts) -> (r: Result<Uri, Option<ParseError>>)
    requires
        from <= s@.len(),
        parts.out@.len() <= from,
    ensures
        match uri_authority(s@.skip(from as int), parts_view(parts)) {
            Ok(u) => r matches Ok(x) && x@ == u,
            Err(e) => r matches Err(y) && y == e,
        },
{
    let mut parts = parts;
    let ghost u = parts_view(parts);
    let ghost rest = s@.skip(from as int);
    let slash = from < s.len() && s[from] == '/';
    let dbl = from < s.len() && s.len() - from >= 2 && s[from] == '/' && s[from + 1] == '/';
    proof {
        if from < s@.len() {
            assert(rest[0] == s@[from as int]);
        }
        if from + 1 < s@.len() {
            assert(rest[1] == s@[from + 1]);
        }
    }
    assert(slash == (rest.len() > 0 && rest[0] == '/'));
    assert(dbl == (rest.len() >= 2 && rest[0] == '/' && rest[1] == '/'));
    if dbl || (!slash && parts.scheme_end == 0) {
        let mut start = from;
        if dbl {
            parts.out.push('/');
            parts.out.push('/');
            start = from + 2;
            assert(s@.skip(start as int) =~= rest.skip(2));
            assert(parts.out@ =~= u.full + seq!['/', '/']);
        }
        let ghost f1 = parts.out@;
        let ghost r1 = s@.skip(start as int);
        let d0 = parts.out.len();
        let after = chars_range(s, start, s.len());
        assert(after@ =~= r1);
        let he_rel = match chars_find(after.as_slice(), '/') {
            Some(k) => k,
            None => after.len(),
        };
        assert(he_rel as int == match find_char(r1, '/') {
            Some(i) => i,
            None => r1.len() as int,
        });
        let h = chars_range(after.as_slice(), 0, he_rel);
        push_all(&mut parts.out, h.as_slice());
        let ghost f2 = parts.out@;
        assert(f2 =~= f1 + r1.take(he_rel as int));
        let he = parts.out.len();
        let sp = split_domain_port(parts.out.as_slice(), d0, he);
        match sp {
            Ok((d1, port)) => {
                parts.domain_start = d0;
                parts.domain_end = d1;
                parts.host_end = he;
                parts.port = port;
                assert(parts_view(parts) == UriV { full: f2, domain: (d0 as int, d1 as int), host_end: f2.len() as int, port, ..u });
                assert(s@.skip(start + he_rel) =~= r1.skip(he_rel as int));
                tail(s, start + he_rel, parts)
            },
            Err(e) => Err(Some(e)),
        }
    } else {
        tail(s, from, parts)
    }
}

/// Reads a URI: an optional `scheme:`, then an authority `//host[:port]`
/// (or a bare host right after an empty scheme), then the path, which is
/// percent-decoded with `.` and `..` segments resolved, then `?query` and
/// `#fragment`. Text without `/` at the start and without `:` is all host.
/// Requires an input on which reading does not slice past the end and panic
/// (as for a query that no `#` follows; see `try_parse_uri`).
pub fn parse_uri(s: &str) -> (r: Result<Uri, ParseError>)
    requires
        spec_parse_uri(s@) != Err::<UriV, Option<ParseError>>(None),
    ensures
        match spec_parse_uri(s@) {
            Ok(u) => r matches Ok(x) && x@ == u,
            Err(Some(e)) => r == Err::<Uri, ParseError>(e),
            Err(None) => false,
        },
{
    match try_parse_uri(s) {
        Some(r) => r,
        None => Err(ParseError::CutPersonEncoding),
    }
}

/// `parse_uri`, with `None` where reading slices past the end and panics.
pub fn try_parse_uri(s: &str) -> (r: Option<Result<Uri, ParseError>>)
    ensures
        match spec_parse_uri(s@) {
            Ok(u) => r matches Some(Ok(x)) && x@ == u,
            Err(Some(e)) => r == Some(Err::<Uri, ParseError>(e)),
            Err(None) => r is None,
        },
{
    let chars = chars_of(s);
    let empty = Parts {
        out: Vec::new(),
        scheme_end: 0,
        domain_start: 0,
        domain_end: 0,
        port: None,
        host_end: 0,
        path_start: 0,
        path_end: 0,
        query_start: 0,
        query_end: 0,
        fragment_start: 0,
    };
    assert(parts_view(empty) =~= default_uri());
    let r = if !(chars.len() > 0 && chars[0] == '/') {
        match chars_find(chars.as_slice(), ':') {
            Some(se) => {
                let mut parts = empty;
                let head = chars_range(chars.as_slice(), 0, se + 1);
                parts.out = head;
                parts.scheme_end = se;
                authority(chars.as_slice(), se + 1, parts)
            },
            None => {
                match split_domain_port(chars.as_slice(), 0, chars.len()) {
                    Err(e) => Err(Some(e)),
                    Ok((d1, port)) => {
                        let mut parts = empty;
                        parts.out = chars_range(chars.as_slice(), 0, chars.len());
                        parts.host_end = chars.len();
                        parts.domain_end = d1;
                        parts.port = port;
                        assert(parts.out@ =~= s@);
                        Ok(finish(parts))
                    },
                }
            },
        }
    } else {
        assert(chars@.skip(0) =~= chars@);
        authority(chars.as_slice(), 0, empty)
    };
    match r {
        Ok(u) => Some(Ok(u)),
        Err(Some(e)) => Some(Err(e)),
        Err(None) => None,
    }
}

} // verus!

verus! {

/// Query and fragment, where present, come after the path.
pub open spec fn uri_ordered(u: UriV) -> bool {
    &&& u.query != (0int, 0int) ==> u.path.1 <= u.query.0
    &&& u.fragment_start != 0 ==> u.path.1 <= u.fragment_start
}

/// The URI with the first `n` characters of its path replaced by `np`.
pub open spec fn spec_replace_path_prefix(u: UriV, n: int, np: Seq<char>) -> UriV {
    let delta = np.len() - n;
    UriV {
        full: u.full.take(u.path.0) + np + u.full.skip(u.path.0 + n),
        path: (u.path.0, u.path.1 + delta),
        query: if u.query == (0int, 0int) {
            (0int, 0int)
        } else {
            (u.query.0 + delta, u.query.1 + delta)
        },
        fragment_start: if u.fragment_start == 0 {
            0
        } else {
            u.fragment_start + delta
        },
        ..u
    }
}

impl Uri {
    /// Whether query and fragment come after the path (true of what
    /// `parse_uri` gives).
    pub fn is_ordered(&self) -> (r: bool)
        ensures
            r == uri_ordered(self@),
    {
        (self.query_start == 0 && self.query_end == 0 || self.path_end <= self.query_start)
            && (self.fragment_start == 0 || self.path_end <= self.fragment_start)
    }

    /// Replaces the first `n` characters of the path by `new_path`; what
    /// follows the path moves along.
    pub fn replace_path_prefix(&mut self, n: usize, new_path: &str)
        requires
            uri_wf(old(self)@),
            uri_ordered(old(self)@),
            n <= old(self)@.path.1 - old(self)@.path.0,
            old(self)@.full.len() + new_path@.len() < usize::MAX,
        ensures
            final(self)@ == spec_replace_path_prefix(old(self)@, n as int, new_path@),
    {
        let full = chars_of(self.full.as_str());
        let np = chars_of(new_path);
        let mut out = chars_range(full.as_slice(), 0, self.path_start);
        push_all(&mut out, np.as_slice());
        let rest = chars_range(full.as_slice(), self.path_start + n, full.len());
        push_all(&mut out, rest.as_slice());
        assert(rest@ =~= full@.skip(self.path_start + n));
        assert(full@.subrange(0, self.path_start as int) =~= full@.take(self.path_start as int));
        self.full = string_from_chars(out.as_slice());
        let m = np.len();
        self.path_end = self.path_end - n + m;
        if !(self.query_start == 0 && self.query_end == 0) {
            self.query_start = self.query_start - n + m;
            self.query_end = self.query_end - n + m;
        }
        if self.fragment_start != 0 {
            self.fragment_start = self.fragment_start - n + m;
        }
    }
}

// ----------------------------------------------------------------------------
// Host, domain and port
// ----------------------------------------------------------------------------

/// The text of `u`'s port (after the domain, up to the end of the host) is
/// where it stood in `s`, the text `u` was read from: no `..` segment of the
/// path reached back into it.
pub open spec fn port_text_kept(u: UriV, s: Seq<char>) -> bool {
    u.domain.1 <= u.host_end <= s.len() && u.host_end <= u.full.len()
        && u.full.subrange(u.domain.1, u.host_end) == s.subrange(u.domain.1, u.host_end)
}

/// How `spec_split` cuts `full[d0..he]`: the domain ends within the host, at
/// its end where there is no port; with port `p` a `:` follows the domain and
/// the rest of the host is a decimal text of `p`.
proof fn lemma_split_facts(f: Seq<char>, d0: int, he: int)
    requires
        0 <= d0 <= he <= f.len(),
    ensures
        spec_split(f, d0, he) matches Ok((d1, port)) ==> {
            &&& d0 <= d1 <= he
            &&& port is None ==> d1 == he
            &&& port matches Some(p) ==> d1 < he && f[d1] == ':' && spec_parse_u16(f.subrange(d1 + 1, he))
                == Ok::<int, IntErrorKind>(p as int)
        },
{
    let host = f.subrange(d0, he);
    lemma_find_char(host, ':');
    match find_char(host, ':') {
        Some(k) => {
            crate::text::lemma_parse_int_range(host.skip(k + 1), 10, false, 0, 0xffff);
            assert(host.skip(k + 1) =~= f.subrange(d0 + k + 1, he));
        },
        None => {},
    }
}

/// Path, query and fragment leave the domain, host and port as they were.
proof fn lemma_tail_keeps_authority(rest: Seq<char>, u: UriV)
    ensures
        uri_tail(rest, u) matches Ok(v) ==> v.domain == u.domain && v.port == u.port && v.host_end
            == u.host_end,
{
    reveal(uri_tail);
}

/// What the host of a URI that `parse_uri` reads from `s` is made of, in the
/// text `s` itself.
pub open spec fn host_cut(u: UriV, s: Seq<char>) -> bool {
    &&& u.domain.0 <= u.domain.1 <= u.host_end
    &&& u.port is None ==> u.domain.1 == u.host_end
    &&& u.port matches Some(p) ==> u.domain.1 < u.host_end <= s.len() && s[u.domain.1] == ':'
        && spec_parse_u16(s.subrange(u.domain.1 + 1, u.host_end)) == Ok::<int, IntErrorKind>(p as int)
}

/// `uri_authority` over `rest`, after `u.full`, which is the first `at`
/// characters of `s`.
proof fn lemma_authority_cut(rest: Seq<char>, u: UriV, s: Seq<char>, at: int)
    requires
        0 <= at <= s.len(),
        rest == s.skip(at),
        u.full == s.take(at),
        u.domain == (0int, 0int),
        u.host_end == 0,
        u.port is None,
    ensures
        uri_authority(rest, u) matches Ok(v) ==> host_cut(v, s),
{
    if let Ok(v) = uri_authority(rest, u) {
        let slash = rest.len() > 0 && rest[0] == '/';
        let dbl = rest.len() >= 2 && rest[0] == '/' && rest[1] == '/';
        if dbl || (!slash && u.scheme_end == 0) {
            let f1 = if dbl { u.full + seq!['/', '/'] } else { u.full };
            let r1 = if dbl { rest.skip(2) } else { rest };
            let at1 = if dbl { at + 2 } else { at };
            assert(f1 =~= s.take(at1));
            assert(r1 =~= s.skip(at1));
            let d0 = f1.len() as int;
            let he_rel = match find_char(r1, '/') {
                Some(i) => i,
                None => r1.len() as int,
            };
            lemma_find_char(r1, '/');
            let f2 = f1 + r1.take(he_rel);
            assert(f2 =~= s.take(at1 + he_rel));
            lemma_split_facts(f2, d0, f2.len() as int);
            let (d1, port) = spec_split(f2, d0, f2.len() as int).unwrap();
            let w = UriV { full: f2, domain: (d0, d1), host_end: f2.len() as int, port, ..u };
            assert(uri_authority(rest, u) == uri_tail(r1.skip(he_rel), w));
            lemma_tail_keeps_authority(r1.skip(he_rel), w);
            if port is Some {
                assert(f2.subrange(d1 + 1, f2.len() as int) =~= s.subrange(d1 + 1, f2.len() as int));
                assert(f2[d1] == s[d1]);
            }
        } else {
            assert(uri_authority(rest, u) == uri_tail(rest, u));
            lemma_tail_keeps_authority(rest, u);
        }
    }
}

/// A URI that `parse_uri` reads from `s`, with every part within its text:
/// the host starts with the domain; without a port the host is the domain;
/// with port `p`, where the port's text is kept as written (no `..` segment
/// reached back into it), the host is the domain, `:` and a decimal text
/// whose value is `p`.
pub proof fn law_host_is_domain_and_port(s: Seq<char>)
    requires
        spec_parse_uri(s) matches Ok(u) && uri_wf(u),
    ensures
        spec_parse_uri(s) matches Ok(u) && {
            let host = uri_host(u);
            let domain = uri_domain(u);
            &&& domain.len() <= host.len() && host.take(domain.len() as int) == domain
            &&& u.port is None ==> host == domain
            &&& port_text_kept(u, s) ==> (u.port matches Some(p) ==> exists|t: Seq<char>|
                host == domain + ":"@ + t && spec_parse_u16(t) == Ok::<int, IntErrorKind>(p as int))
        },
{
    let u = spec_parse_uri(s).unwrap();
    if !(s.len() > 0 && s[0] == '/') {
        match find_char(s, ':') {
            Some(se) => {
                lemma_find_char(s, ':');
                let u0 = UriV { full: s.take(se + 1), scheme_end: se, ..default_uri() };
                lemma_authority_cut(s.skip(se + 1), u0, s, se + 1);
            },
            None => {
                lemma_split_facts(s, 0, s.len() as int);
            },
        }
    } else {
        assert(s.skip(0) =~= s);
        assert(s.take(0) =~= Seq::<char>::empty());
        lemma_authority_cut(s, default_uri(), s, 0);
    }
    let host = uri_host(u);
    let domain = uri_domain(u);
    assert(host.take(domain.len() as int) =~= domain);
    if u.port is None {
        assert(host =~= domain);
    }
    if u.port is Some && port_text_kept(u, s) {
        let t = s.subrange(u.domain.1 + 1, u.host_end);
        reveal_strlit(":");
        let d1 = u.domain.1;
        assert forall|j: int| d1 <= j < u.host_end implies #[trigger] u.full[j] == s[j] by {
            assert(u.full.subrange(d1, u.host_end)[j - d1] == s.subrange(d1, u.host_end)[j - d1]);
        }
        assert(u.full[d1] == s[d1]);
        assert(host =~= domain + ":"@ + t);
    }
}

} // verus!
