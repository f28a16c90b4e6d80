//! Reading bytes of a message. A reader looks at the bytes received so far
//! (`buf`) and knows whether the peer has finished sending (`eof`); where it
//! would need a byte not received yet, it asks for more.
use vstd::prelude::*;
use super::error::{ParseError, ParseErrorV};

verus! {

/// What reading gives: a value and the position after it, an error, a need
/// for more bytes, or a point where the program panics.
pub enum Res<T> {
    Done(T, int),
    Fail(ParseErrorV),
    More,
    Abort,
}

/// The executable counterpart of `Res`.
#[derive(Debug)]
pub enum Parsed<T> {
    Done(T, usize),
    Fail(ParseError),
    More,
    Abort,
}

/// `p` is the result `r` describes, with values related by `f`.
pub open spec fn agrees<T, V>(p: Parsed<T>, r: Res<V>, f: spec_fn(T) -> V) -> bool {
    match (p, r) {
        (Parsed::Done(x, e), Res::Done(v, e2)) => f(x) == v && e as int == e2,
        (Parsed::Fail(x), Res::Fail(y)) => x@ == y,
        (Parsed::More, Res::More) => true,
        (Parsed::Abort, Res::Abort) => true,
        _ => false,
    }
}

/// A value that was read ends between `i` and `n`.
pub open spec fn ends_within<T>(r: Parsed<T>, i: int, n: int) -> bool {
    r matches Parsed::Done(_, e) ==> i <= e <= n
}

/// Goes on with `f` from a value and the position after it; anything else
/// is passed through.
pub open spec fn and_then<A, B>(r: Res<A>, f: spec_fn(A, int) -> Res<B>) -> Res<B> {
    match r {
        Res::Done(v, e) => f(v, e),
        Res::Fail(x) => Res::Fail(x),
        Res::More => Res::More,
        Res::Abort => Res::Abort,
    }
}

/// The byte at `i`: `Some(Some(c))`, `Some(None)` at the end of the stream,
/// `None` when it has not been received yet.
pub open spec fn peek(b: Seq<u8>, eof: bool, i: int) -> Option<Option<u8>> {
    if 0 <= i < b.len() {
        Some(Some(b[i]))
    } else if eof {
        Some(None)
    } else {
        None
    }
}

pub open spec fn spec_read_byte(b: Seq<u8>, eof: bool, i: int) -> Res<u8> {
    match peek(b, eof, i) {
        None => Res::More,
        Some(None) => Res::Fail(ParseErrorV::UnexpectedEof),
        Some(Some(c)) => Res::Done(c, i + 1),
    }
}

pub open spec fn is_digit_byte(c: u8) -> bool {
    0x30 <= c <= 0x39
}

pub open spec fn spec_read_digit(b: Seq<u8>, eof: bool, i: int) -> Res<u8> {
    match spec_read_byte(b, eof, i) {
        Res::Done(c, e) => if is_digit_byte(c) {
            Res::Done((c - 0x30) as u8, e)
        } else {
            Res::Fail(ParseErrorV::ExpectedDigit)
        },
        Res::Fail(x) => Res::Fail(x),
        Res::More => Res::More,
        Res::Abort => Res::Abort,
    }
}

/// Byte classes that reading runs over.
#[derive(Clone, Copy, PartialEq, Eq)]
pub enum Class {
    /// Characters of a token: ASCII letters, digits and ``!#$%&'*+-.^_`|~``.
    Tchar,
    /// Space and tab.
    Ws,
    /// All but carriage return.
    NotCr,
    /// All but space.
    NotSpace,
    /// All but space and carriage return.
    NotSpaceCr,
    /// All but `/` and `:`.
    NotSlashColon,
    /// All but `/`.
    NotSlash,
    /// ASCII letters, digits and ``-._~,[]!%$&:@'()*+;=/``.
    UriPath,
}

pub open spec fn is_uri_path_byte(c: u8) -> bool {
    (0x30 <= c <= 0x39) || (0x41 <= c <= 0x5a) || (0x61 <= c <= 0x7a) || c == 0x2d || c == 0x2e
        || c == 0x5f || c == 0x7e || c == 0x2c || c == 0x5b || c == 0x5d || c == 0x21 || c == 0x25
        || c == 0x24 || c == 0x26 || c == 0x3a || c == 0x40 || c == 0x27 || c == 0x28 || c == 0x29
        || c == 0x2a || c == 0x2b || c == 0x3b || c == 0x3d || c == 0x2f
}

pub open spec fn is_tchar(c: u8) -> bool {
    (0x30 <= c <= 0x39) || (0x41 <= c <= 0x5a) || (0x61 <= c <= 0x7a) || c == 0x21 || c == 0x23
        || c == 0x24 || c == 0x25 || c == 0x26 || c == 0x27 || c == 0x2a || c == 0x2b || c == 0x2d
        || c == 0x2e || c == 0x5e || c == 0x5f || c == 0x60 || c == 0x7c || c == 0x7e
}

/// Space or tab.
pub open spec fn is_ws(c: u8) -> bool {
    c == 0x20 || c == 0x09
}

pub open spec fn in_class(k: Class, c: u8) -> bool {
    match k {
        Class::Tchar => is_tchar(c),
        Class::Ws => is_ws(c),
        Class::NotCr => c != 0x0d,
        Class::NotSpace => c != 0x20,
        Class::NotSpaceCr => c != 0x20 && c != 0x0d,
        Class::NotSlashColon => c != 0x2f && c != 0x3a,
        Class::NotSlash => c != 0x2f,
        Class::UriPath => is_uri_path_byte(c),
    }
}

/// Where a run of bytes of class `k` from `i` ends (at a byte outside the
/// class or at the end of the stream); `None` when more bytes are needed.
pub open spec fn scan(b: Seq<u8>, eof: bool, i: int, k: Class) -> Option<int>
    decreases b.len() - i,
{
    match peek(b, eof, i) {
        None => None,
        Some(None) => Some(i),
        Some(Some(c)) => if in_class(k, c) {
            scan(b, eof, i + 1, k)
        } else {
            Some(i)
        },
    }
}

pub proof fn lemma_scan(b: Seq<u8>, eof: bool, i: int, k: Class)
    requires
        0 <= i <= b.len(),
    ensures
        scan(b, eof, i, k) matches Some(e) ==> i <= e <= b.len() && (forall|j: int|
            i <= j < e ==> in_class(k, #[trigger] b[j])) && (e < b.len() ==> !in_class(k, b[e])) && (
        e == b.len() ==> eof),
    decreases b.len() - i,
{
    if i < b.len() && in_class(k, b[i]) {
        lemma_scan(b, eof, i + 1, k);
    }
}

pub fn byte_in_class(k: Class, c: u8) -> (r: bool)
    ensures
        r == in_class(k, c),
{
    match k {
        Class::Tchar => is_tchar_byte(c),
        Class::Ws => is_whitespace(c),
        Class::NotCr => c != 0x0d,
        Class::NotSpace => c != 0x20,
        Class::NotSpaceCr => c != 0x20 && c != 0x0d,
        Class::NotSlashColon => c != 0x2f && c != 0x3a,
        Class::NotSlash => c != 0x2f,
        Class::UriPath => is_uri_path_char(c),
    }
}

/// Whether a byte may stand in a path as it is read.
pub fn is_uri_path_char(c: u8) -> (r: bool)
    ensures
        r == is_uri_path_byte(c),
{
    (0x30 <= c && c <= 0x39) || (0x41 <= c && c <= 0x5a) || (0x61 <= c && c <= 0x7a) || c == 0x2d
        || c == 0x2e || c == 0x5f || c == 0x7e || c == 0x2c || c == 0x5b || c == 0x5d || c == 0x21
        || c == 0x25 || c == 0x24 || c == 0x26 || c == 0x3a || c == 0x40 || c == 0x27 || c == 0x28
        || c == 0x29 || c == 0x2a || c == 0x2b || c == 0x3b || c == 0x3d || c == 0x2f
}

fn is_tchar_byte(c: u8) -> (r: bool)
    ensures
        r == is_tchar(c),
{
    (0x30 <= c && c <= 0x39) || (0x41 <= c && c <= 0x5a) || (0x61 <= c && c <= 0x7a) || c == 0x21
        || c == 0x23 || c == 0x24 || c == 0x25 || c == 0x26 || c == 0x27 || c == 0x2a || c == 0x2b
        || c == 0x2d || c == 0x2e || c == 0x5e || c == 0x5f || c == 0x60 || c == 0x7c || c == 0x7e
}

/// Space or tab.
pub fn is_whitespace(byte: u8) -> (r: bool)
    ensures
        r == is_ws(byte),
{
    byte == 0x20 || byte == 0x09
}

/// The byte at `i`, if received (see `peek`).
pub fn peek_byte(buf: &[u8], eof: bool, i: usize) -> (r: Option<Option<u8>>)
    ensures
        r == peek(buf@, eof, i as int),
{
    if i < buf.len() {
        Some(Some(buf[i]))
    } else if eof {
        Some(None)
    } else {
        None
    }
}

/// The byte at `i`; at the end of the stream, `UnexpectedEof`.
pub fn read_byte(buf: &[u8], eof: bool, i: usize) -> (r: Parsed<u8>)
    ensures
        agrees(r, spec_read_byte(buf@, eof, i as int), |x: u8| x),
        ends_within(r, i as int, buf@.len() as int),
{
    if i < buf.len() {
        Parsed::Done(buf[i], i + 1)
    } else if eof {
        Parsed::Fail(ParseError::UnexpectedEof)
    } else {
        Parsed::More
    }
}

/// A decimal digit's value.
pub fn read_digit(buf: &[u8], eof: bool, i: usize) -> (r: Parsed<u8>)
    ensures
        agrees(r, spec_read_digit(buf@, eof, i as int), |x: u8| x),
        ends_within(r, i as int, buf@.len() as int),
{
    match read_byte(buf, eof, i) {
        Parsed::Done(c, e) => {
            if 0x30 <= c && c <= 0x39 {
                Parsed::Done(c - 0x30, e)
            } else {
                Parsed::Fail(ParseError::ExpectedDigit)
            }
        },
        Parsed::Fail(x) => Parsed::Fail(x),
        Parsed::More => Parsed::More,
        Parsed::Abort => Parsed::Abort,
    }
}

/// Where the run of class `k` from `i` ends (see `scan`).
pub fn scan_class(buf: &[u8], eof: bool, i: usize, k: Class) -> (r: Option<usize>)
    requires
        i <= buf@.len(),
    ensures
        match scan(buf@, eof, i as int, k) {
            Some(e) => r == Some(e as usize),
            None => r is None,
        },
        r matches Some(e) ==> i <= e <= buf@.len() && scan(buf@, eof, i as int, k) == Some(e as int),
{
    proof {
        lemma_scan(buf@, eof, i as int, k);
    }
    let mut j = i;
    while j < buf.len() && byte_in_class(k, buf[j])
        invariant
            i <= j <= buf@.len(),
            scan(buf@, eof, i as int, k) == scan(buf@, eof, j as int, k),
        decreases buf@.len() - j,
    {
        j = j + 1;
    }
    if j < buf.len() {
        Some(j)
    } else if eof {
        Some(j)
    } else {
        None
    }
}

/// Compares the stream from `i` with `lit` byte by byte: `true` when all of
/// it matches; `false` at the first difference, the matching bytes read; at
/// the end of the stream first, `UnexpectedEof`.
pub open spec fn spec_skip_fixed(b: Seq<u8>, eof: bool, i: int, lit: Seq<u8>, k: int) -> Res<bool>
    decreases lit.len() - k,
{
    if k >= lit.len() {
        Res::Done(true, i + k)
    } else {
        match peek(b, eof, i + k) {
            None => Res::More,
            Some(None) => Res::Fail(ParseErrorV::UnexpectedEof),
            Some(Some(c)) => if c != lit[k] {
                Res::Done(false, i + k)
            } else {
                spec_skip_fixed(b, eof, i, lit, k + 1)
            },
        }
    }
}

pub fn skip_fixed(buf: &[u8], eof: bool, i: usize, lit: &[u8]) -> (r: Parsed<bool>)
    requires
        i <= buf@.len(),
    ensures
        agrees(r, spec_skip_fixed(buf@, eof, i as int, lit@, 0), |x: bool| x),
        ends_within(r, i as int, buf@.len() as int),
{
    let n: usize = buf.len();
    let mut k: usize = 0;
    while k < lit.len()
        invariant
            n == buf@.len(),
            i <= n,
            k <= lit@.len(),
            k <= n - i,
            spec_skip_fixed(buf@, eof, i as int, lit@, 0) == spec_skip_fixed(buf@, eof, i as int, lit@, k as int),
        decreases lit@.len() - k,
    {
        if k >= n - i {
            if eof {
                return Parsed::Fail(ParseError::UnexpectedEof);
            } else {
                return Parsed::More;
            }
        }
        if buf[i + k] != lit[k] {
            return Parsed::Done(false, i + k);
        }
        k = k + 1;
    }
    Parsed::Done(true, i + k)
}

/// Skipping a literal over bytes that agree with it from `k` to `j` goes on
/// as from `j`.
proof fn lemma_skip_fixed_agreeing(b: Seq<u8>, eof: bool, i: int, lit: Seq<u8>, k: int, j: int)
    requires
        0 <= i,
        0 <= k <= j <= lit.len(),
        i + j <= b.len(),
        forall|t: int| k <= t < j ==> b[i + t] == lit[t],
    ensures
        spec_skip_fixed(b, eof, i, lit, k) == spec_skip_fixed(b, eof, i, lit, j),
    decreases j - k,
{
    if k < j {
        lemma_skip_fixed_agreeing(b, eof, i, lit, k + 1, j);
    }
}

/// At the end of the input, skipping a non-empty literal `lit` at `i`, with
/// `s` the bytes from `i` on: where `s` starts with `lit`, the answer is yes
/// and exactly `lit` is taken; where they first differ at `j`, the answer is
/// no and the bytes before `j` are taken; where `s` is a proper prefix of
/// `lit`, the input ended too early.
pub proof fn law_skip_fixed_at_end(b: Seq<u8>, i: int, lit: Seq<u8>)
    requires
        0 <= i <= b.len(),
        lit.len() > 0,
    ensures
        ({
            let s = b.skip(i);
            &&& lit.len() <= s.len() && s.take(lit.len() as int) == lit ==> spec_skip_fixed(
                b,
                true,
                i,
                lit,
                0,
            ) == Res::<bool>::Done(true, i + lit.len())
            &&& forall|j: int|
                0 <= j < s.len() && j < lit.len() && s.take(j) == lit.take(j) && s[j] != lit[j]
                    ==> spec_skip_fixed(b, true, i, lit, 0) == Res::<bool>::Done(false, i + j)
            &&& s.len() < lit.len() && lit.take(s.len() as int) == s ==> spec_skip_fixed(
                b,
                true,
                i,
                lit,
                0,
            ) == Res::<bool>::Fail(ParseErrorV::UnexpectedEof)
        }),
{
    let s = b.skip(i);
    if lit.len() <= s.len() && s.take(lit.len() as int) == lit {
        assert forall|t: int| 0 <= t < lit.len() implies b[i + t] == lit[t] by {
            assert(s.take(lit.len() as int)[t] == lit[t]);
        }
        lemma_skip_fixed_agreeing(b, true, i, lit, 0, lit.len() as int);
    }
    assert forall|j: int|
        0 <= j < s.len() && j < lit.len() && s.take(j) == lit.take(j) && s[j] != lit[j]
            implies spec_skip_fixed(b, true, i, lit, 0) == Res::<bool>::Done(false, i + j) by {
        assert forall|t: int| 0 <= t < j implies b[i + t] == lit[t] by {
            assert(s.take(j)[t] == lit.take(j)[t]);
        }
        lemma_skip_fixed_agreeing(b, true, i, lit, 0, j);
    }
    if s.len() < lit.len() && lit.take(s.len() as int) == s {
        assert forall|t: int| 0 <= t < s.len() implies b[i + t] == lit[t] by {
            assert(lit.take(s.len() as int)[t] == s[t]);
        }
        lemma_skip_fixed_agreeing(b, true, i, lit, 0, s.len() as int);
    }
}

/// The bytes from `i` up to the first one outside class `k` (or the end).
pub open spec fn spec_read_run(b: Seq<u8>, eof: bool, i: int, k: Class) -> Res<Seq<u8>> {
    match scan(b, eof, i, k) {
        None => Res::More,
        Some(e) => Res::Done(b.subrange(i, e), e),
    }
}

pub fn read_run(buf: &[u8], eof: bool, i: usize, k: Class) -> (r: Parsed<Vec<u8>>)
    requires
        i <= buf@.len(),
    ensures
        agrees(r, spec_read_run(buf@, eof, i as int, k), |v: Vec<u8>| v@),
        ends_within(r, i as int, buf@.len() as int),
{
    match scan_class(buf, eof, i, k) {
        None => Parsed::More,
        Some(e) => {
            let mut v: Vec<u8> = Vec::new();
            let mut j = i;
            while j < e
                invariant
                    i <= j <= e <= buf@.len(),
                    v@ == buf@.subrange(i as int, j as int),
                decreases e - j,
            {
                v.push(buf[j]);
                j = j + 1;
                assert(v@ =~= buf@.subrange(i as int, j as int));
            }
            Parsed::Done(v, e)
        },
    }
}

/// A token, as a string of its ASCII characters.
pub open spec fn bytes_as_chars(s: Seq<u8>) -> Seq<char> {
    s.map_values(|c: u8| c as char)
}

pub open spec fn spec_read_token(b: Seq<u8>, eof: bool, i: int) -> Res<Seq<char>> {
    match spec_read_run(b, eof, i, Class::Tchar) {
        Res::Done(v, e) => Res::Done(bytes_as_chars(v), e),
        Res::Fail(x) => Res::Fail(x),
        Res::More => Res::More,
        Res::Abort => Res::Abort,
    }
}

/// Reads a token: a run of token characters.
pub fn read_token(buf: &[u8], eof: bool, i: usize) -> (r: Parsed<String>)
    requires
        i <= buf@.len(),
    ensures
        agrees(r, spec_read_token(buf@, eof, i as int), |s: String| s@),
        ends_within(r, i as int, buf@.len() as int),
{
    match read_run(buf, eof, i, Class::Tchar) {
        Parsed::Done(v, e) => {
            let mut cs: Vec<char> = Vec::new();
            let mut j: usize = 0;
            while j < v.len()
                invariant
                    j <= v@.len(),
                    cs@ == bytes_as_chars(v@.take(j as int)),
                decreases v@.len() - j,
            {
                cs.push(v[j] as char);
                j = j + 1;
                assert(cs@ =~= bytes_as_chars(v@.take(j as int)));
            }
            assert(v@.take(v@.len() as int) =~= v@);
            Parsed::Done(crate::text::string_from_chars(cs.as_slice()), e)
        },
        Parsed::Fail(x) => Parsed::Fail(x),
        Parsed::More => Parsed::More,
        Parsed::Abort => Parsed::Abort,
    }
}

/// Reads bytes up to (not including) the first of class `stop`'s complement,
/// i.e. while they are in class `k`.
pub fn read_until(buf: &[u8], eof: bool, i: usize, k: Class) -> (r: Parsed<Vec<u8>>)
    requires
        i <= buf@.len(),
    ensures
        agrees(r, spec_read_run(buf@, eof, i as int, k), |v: Vec<u8>| v@),
        ends_within(r, i as int, buf@.len() as int),
{
    read_run(buf, eof, i, k)
}

/// Skips through the first line feed (or to the end of the stream).
pub open spec fn spec_skip_line(b: Seq<u8>, eof: bool, i: int) -> Option<int>
    decreases b.len() - i,
{
    match peek(b, eof, i) {
        None => None,
        Some(None) => Some(i),
        Some(Some(c)) => if c == 0x0a {
            Some(i + 1)
        } else {
            spec_skip_line(b, eof, i + 1)
        },
    }
}

pub proof fn lemma_skip_line(b: Seq<u8>, eof: bool, i: int)
    requires
        0 <= i <= b.len(),
    ensures
        spec_skip_line(b, eof, i) matches Some(e) ==> i <= e <= b.len() && (i < b.len() ==> i < e),
    decreases b.len() - i,
{
    if i < b.len() && b[i] != 0x0a {
        lemma_skip_line(b, eof, i + 1);
    }
}

pub fn skip_until_inclusive(buf: &[u8], eof: bool, i: usize) -> (r: Option<usize>)
    requires
        i <= buf@.len(),
    ensures
        match spec_skip_line(buf@, eof, i as int) {
            Some(e) => r matches Some(x) && x == e && i <= e <= buf@.len(),
            None => r is None,
        },
{
    let mut j = i;
    while j < buf.len()
        invariant
            i <= j <= buf@.len(),
            spec_skip_line(buf@, eof, i as int) == spec_skip_line(buf@, eof, j as int),
        decreases buf@.len() - j,
    {
        if buf[j] == 0x0a {
            return Some(j + 1);
        }
        j = j + 1;
    }
    if eof {
        Some(j)
    } else {
        None
    }
}

/// Skips through the first `stop` byte (or to the end of the stream).
pub open spec fn spec_skip_through(b: Seq<u8>, eof: bool, i: int, stop: u8) -> Option<int>
    decreases b.len() - i,
{
    match peek(b, eof, i) {
        None => None,
        Some(None) => Some(i),
        Some(Some(c)) => if c == stop {
            Some(i + 1)
        } else {
            spec_skip_through(b, eof, i + 1, stop)
        },
    }
}

pub fn skip_through(buf: &[u8], eof: bool, i: usize, stop: u8) -> (r: Option<usize>)
    requires
        i <= buf@.len(),
    ensures
        match spec_skip_through(buf@, eof, i as int, stop) {
            Some(e) => r matches Some(x) && x == e && i <= e <= buf@.len(),
            None => r is None,
        },
{
    let mut j = i;
    while j < buf.len()
        invariant
            i <= j <= buf@.len(),
            spec_skip_through(buf@, eof, i as int, stop) == spec_skip_through(buf@, eof, j as int, stop),
        decreases buf@.len() - j,
    {
        if buf[j] == stop {
            return Some(j + 1);
        }
        j = j + 1;
    }
    if eof {
        Some(j)
    } else {
        None
    }
}

/// A CR LF line end: `true` after one, `false` at the end of the stream.
pub open spec fn spec_try_skip_newline(b: Seq<u8>, eof: bool, i: int) -> Res<bool> {
    match peek(b, eof, i) {
        None => Res::More,
        Some(None) => Res::Done(false, i),
        Some(Some(c)) => if c == 0x0d {
            match spec_read_byte(b, eof, i + 1) {
                Res::Done(d, e) => if d != 0x0a {
                    Res::Fail(ParseErrorV::ExpectedLineFeed)
                } else {
                    Res::Done(true, e)
                },
                Res::Fail(x) => Res::Fail(x),
                Res::More => Res::More,
                Res::Abort => Res::Abort,
            }
        } else {
            Res::Fail(ParseErrorV::ExpectedNewline)
        },
    }
}

pub fn try_skip_newline(buf: &[u8], eof: bool, i: usize) -> (r: Parsed<bool>)
    requires
        i <= buf@.len(),
    ensures
        agrees(r, spec_try_skip_newline(buf@, eof, i as int), |x: bool| x),
        ends_within(r, i as int, buf@.len() as int),
{
    if i >= buf.len() {
        if eof {
            return Parsed::Done(false, i);
        } else {
            return Parsed::More;
        }
    }
    match Some(buf[i]) {
        None => Parsed::More,
        Some(c) => {
            if c == 0x0d {
                match read_byte(buf, eof, i + 1) {
                    Parsed::Done(d, e) => {
                        if d != 0x0a {
                            Parsed::Fail(ParseError::ExpectedLineFeed)
                        } else {
                            Parsed::Done(true, e)
                        }
                    },
                    Parsed::Fail(x) => Parsed::Fail(x),
                    Parsed::More => Parsed::More,
                    Parsed::Abort => Parsed::Abort,
                }
            } else {
                Parsed::Fail(ParseError::ExpectedNewline)
            }
        },
    }
}

/// Skips spaces and tabs.
pub fn skip_whitespace(buf: &[u8], eof: bool, i: usize) -> (r: Option<usize>)
    requires
        i <= buf@.len(),
    ensures
        match scan(buf@, eof, i as int, Class::Ws) {
            Some(e) => r == Some(e as usize),
            None => r is None,
        },
        r matches Some(e) ==> i <= e <= buf@.len(),
{
    scan_class(buf, eof, i, Class::Ws)
}

/// Up to `n` bytes from `i`: fewer only where the stream ends first.
pub open spec fn spec_read_n(b: Seq<u8>, eof: bool, i: int, n: int) -> Res<Seq<u8>> {
    if b.len() - i >= n {
        Res::Done(b.subrange(i, i + n), i + n)
    } else if eof {
        Res::Done(b.subrange(i, b.len() as int), b.len() as int)
    } else {
        Res::More
    }
}

pub fn read_n_bytes(buf: &[u8], eof: bool, i: usize, n: usize) -> (r: Parsed<Vec<u8>>)
    requires
        i <= buf@.len(),
    ensures
        agrees(r, spec_read_n(buf@, eof, i as int, n as int), |v: Vec<u8>| v@),
        ends_within(r, i as int, buf@.len() as int),
{
    let end = if buf.len() - i >= n {
        i + n
    } else if eof {
        buf.len()
    } else {
        return Parsed::More;
    };
    let mut v: Vec<u8> = Vec::new();
    let mut j = i;
    while j < end
        invariant
            i <= j <= end <= buf@.len(),
            v@ == buf@.subrange(i as int, j as int),
        decreases end - j,
    {
        v.push(buf[j]);
        j = j + 1;
        assert(v@ =~= buf@.subrange(i as int, j as int));
    }
    Parsed::Done(v, end)
}

} // verus!
