//! Characters, strings and integer literals: the small pieces every parser of
//! this crate is built from.
use vstd::prelude::*;
use vstd::utf8::*;

verus! {

// ----------------------------------------------------------------------------
// ASCII classes
// ----------------------------------------------------------------------------

pub open spec fn is_lower(c: char) -> bool {
    'a' <= c && c <= 'z'
}

pub open spec fn is_upper(c: char) -> bool {
    'A' <= c && c <= 'Z'
}

pub open spec fn is_alpha(c: char) -> bool {
    is_lower(c) || is_upper(c)
}

pub open spec fn is_digit(c: char) -> bool {
    '0' <= c && c <= '9'
}

pub open spec fn is_alnum(c: char) -> bool {
    is_alpha(c) || is_digit(c)
}

pub open spec fn upper(c: char) -> char {
    if is_lower(c) {
        ((c as u32) - 32) as char
    } else {
        c
    }
}

pub open spec fn lower(c: char) -> char {
    if is_upper(c) {
        ((c as u32) + 32) as char
    } else {
        c
    }
}

pub fn char_is_alpha(c: char) -> (r: bool)
    ensures
        r == is_alpha(c),
{
    ('a' <= c && c <= 'z') || ('A' <= c && c <= 'Z')
}

pub fn char_is_lower(c: char) -> (r: bool)
    ensures
        r == is_lower(c),
{
    'a' <= c && c <= 'z'
}

pub fn char_is_alnum(c: char) -> (r: bool)
    ensures
        r == is_alnum(c),
{
    ('a' <= c && c <= 'z') || ('A' <= c && c <= 'Z') || ('0' <= c && c <= '9')
}

pub fn char_upper(c: char) -> (r: char)
    ensures
        r == upper(c),
{
    if 'a' <= c && c <= 'z' {
        ((c as u8) - 32) as char
    } else {
        c
    }
}

pub fn char_lower(c: char) -> (r: char)
    ensures
        r == lower(c),
{
    if 'A' <= c && c <= 'Z' {
        ((c as u8) + 32) as char
    } else {
        c
    }
}

/// The bytes that `u8::is_ascii_whitespace` accepts: space, tab, line feed,
/// form feed and carriage return.
pub open spec fn is_ascii_ws_byte(b: u8) -> bool {
    b == 0x20 || b == 0x09 || b == 0x0a || b == 0x0c || b == 0x0d
}

pub fn byte_is_ascii_ws(b: u8) -> (r: bool)
    ensures
        r == is_ascii_ws_byte(b),
{
    b == 0x20 || b == 0x09 || b == 0x0a || b == 0x0c || b == 0x0d
}

// ----------------------------------------------------------------------------
// Strings as sequences of characters
// ----------------------------------------------------------------------------

/// The characters of a string, in order.
pub fn chars_of(s: &str) -> (v: Vec<char>)
    ensures
        v@ == s@,
{
    let mut v: Vec<char> = Vec::new();
    for c in it: s.chars()
        invariant
            v@ == it.seq().take(it.index() as int),
    {
        v.push(c);
    }
    v
}

/// Collects characters into a `String` (std's `FromIterator<&char>` for
/// `String`). Trusted: the string holds exactly the given characters, in
/// order.
#[verifier::external_body]
pub(crate) fn string_from_chars(v: &[char]) -> (s: String)
    ensures
        s@ == v@,
{
    String::from_iter(v.iter())
}

/// `String::from_utf8`. Trusted: it succeeds exactly on valid UTF-8 and then
/// holds the decoded characters.
#[verifier::external_body]
pub(crate) fn string_from_utf8(bytes: Vec<u8>) -> (r: Option<String>)
    ensures
        r is Some <==> valid_utf8(bytes@),
        r matches Some(s) ==> s@ == decode_utf8(bytes@),
{
    String::from_utf8(bytes).ok()
}

/// Compares two character sequences.
pub fn chars_eq(a: &[char], b: &[char]) -> (r: bool)
    ensures
        r == (a@ == b@),
{
    if a.len() != b.len() {
        return false;
    }
    let mut i: usize = 0;
    while i < a.len()
        invariant
            a@.len() == b@.len(),
            i <= a@.len(),
            forall|j: int| 0 <= j < i ==> a@[j] == b@[j],
        decreases a@.len() - i,
    {
        if a[i] != b[i] {
            return false;
        }
        i = i + 1;
    }
    assert(a@ =~= b@);
    true
}

/// Compares a string with another one.
pub fn str_eq(a: &str, b: &str) -> (r: bool)
    ensures
        r == (a@ == b@),
{
    let x = chars_of(a);
    let y = chars_of(b);
    chars_eq(x.as_slice(), y.as_slice())
}

/// Whether `p` is a prefix of `s`.
pub open spec fn is_prefix(p: Seq<char>, s: Seq<char>) -> bool {
    p.len() <= s.len() && s.take(p.len() as int) == p
}

pub fn chars_starts_with(s: &[char], p: &[char]) -> (r: bool)
    ensures
        r == is_prefix(p@, s@),
{
    if p.len() > s.len() {
        return false;
    }
    let mut i: usize = 0;
    while i < p.len()
        invariant
            p@.len() <= s@.len(),
            i <= p@.len(),
            forall|j: int| 0 <= j < i ==> p@[j] == s@[j],
        decreases p@.len() - i,
    {
        if p[i] != s[i] {
            assert(s@.take(p@.len() as int)[i as int] != p@[i as int]);
            return false;
        }
        i = i + 1;
    }
    assert(s@.take(p@.len() as int) =~= p@);
    true
}

pub open spec fn is_suffix(p: Seq<char>, s: Seq<char>) -> bool {
    p.len() <= s.len() && s.skip(s.len() - p.len()) == p
}

/// `str::ends_with`.
pub fn str_ends_with(s: &str, p: &str) -> (r: bool)
    ensures
        r == is_suffix(p@, s@),
{
    let sc = chars_of(s);
    let pc = chars_of(p);
    if pc.len() > sc.len() {
        return false;
    }
    let tail = chars_range(sc.as_slice(), sc.len() - pc.len(), sc.len());
    assert(tail@ =~= s@.skip(s@.len() - p@.len()));
    chars_eq(tail.as_slice(), pc.as_slice())
}

/// Copies a range of characters out of a slice.
pub fn chars_range(s: &[char], from: usize, to: usize) -> (r: Vec<char>)
    requires
        from <= to <= s@.len(),
    ensures
        r@ == s@.subrange(from as int, to as int),
{
    let mut r: Vec<char> = Vec::new();
    let mut i = from;
    while i < to
        invariant
            from <= i <= to <= s@.len(),
            r@ == s@.subrange(from as int, i as int),
        decreases to - i,
    {
        r.push(s[i]);
        i = i + 1;
        assert(r@ =~= s@.subrange(from as int, i as int));
    }
    r
}

/// Appends characters to a vector.
pub fn push_all(out: &mut Vec<char>, s: &[char])
    ensures
        final(out)@ == old(out)@ + s@,
{
    let mut i: usize = 0;
    while i < s.len()
        invariant
            i <= s@.len(),
            out@ == old(out)@ + s@.take(i as int),
        decreases s@.len() - i,
    {
        out.push(s[i]);
        i = i + 1;
        assert(out@ =~= old(out)@ + s@.take(i as int));
    }
    assert(s@.take(s@.len() as int) =~= s@);
}

/// Appends the characters of a string to a vector.
pub fn push_str(out: &mut Vec<char>, s: &str)
    ensures
        final(out)@ == old(out)@ + s@,
{
    let v = chars_of(s);
    push_all(out, v.as_slice());
}

/// Index of the first occurrence of `c` in `s`, if any.
pub open spec fn find_char(s: Seq<char>, c: char) -> Option<int>
    decreases s.len(),
{
    if s.len() == 0 {
        None
    } else if s[0] == c {
        Some(0)
    } else {
        match find_char(s.drop_first(), c) {
            Some(i) => Some(i + 1),
            None => None,
        }
    }
}

pub proof fn lemma_find_char(s: Seq<char>, c: char)
    ensures
        match find_char(s, c) {
            Some(i) => 0 <= i < s.len() && s[i] == c && forall|j: int| 0 <= j < i ==> s[j] != c,
            None => forall|j: int| 0 <= j < s.len() ==> s[j] != c,
        },
    decreases s.len(),
{
    if s.len() > 0 {
        lemma_find_char(s.drop_first(), c);
        if s[0] != c {
            match find_char(s.drop_first(), c) {
                Some(i) => {
                    assert forall|j: int| 0 <= j < i + 1 implies s[j] != c by {
                        if j > 0 {
                            assert(s[j] == s.drop_first()[j - 1]);
                        }
                    }
                },
                None => {
                    assert forall|j: int| 0 <= j < s.len() implies s[j] != c by {
                        if j > 0 {
                            assert(s[j] == s.drop_first()[j - 1]);
                        }
                    }
                },
            }
        }
    }
}

/// Characterises `find_char` by the position it returns.
pub proof fn lemma_find_char_at(s: Seq<char>, c: char, i: int)
    requires
        0 <= i <= s.len(),
        forall|j: int| 0 <= j < i ==> s[j] != c,
        i < s.len() ==> s[i] == c,
    ensures
        find_char(s, c) == (if i < s.len() { Some(i) } else { None::<int> }),
{
    lemma_find_char(s, c);
    match find_char(s, c) {
        Some(k) => {
            if k < i {
            } else if k > i {
                assert(s[i] != c);
            }
        },
        None => {
            if i < s.len() {
                assert(s[i] != c);
            }
        },
    }
}

pub fn chars_find(s: &[char], c: char) -> (r: Option<usize>)
    ensures
        r matches Some(i) ==> i < s@.len() && s@[i as int] == c && find_char(s@, c) == Some(i as int),
        r is None ==> find_char(s@, c) is None,
        match find_char(s@, c) {
            Some(i) => r == Some(i as usize),
            None => r is None,
        },
{
    let mut i: usize = 0;
    while i < s.len()
        invariant
            i <= s@.len(),
            forall|j: int| 0 <= j < i ==> s@[j] != c,
        decreases s@.len() - i,
    {
        if s[i] == c {
            proof {
                lemma_find_char_at(s@, c, i as int);
            }
            return Some(i);
        }
        i = i + 1;
    }
    proof {
        lemma_find_char_at(s@, c, i as int);
    }
    None
}

// ----------------------------------------------------------------------------
// Integer literals, as `str::parse` and `from_str_radix` read them
// ----------------------------------------------------------------------------

/// Why an integer literal was refused (mirrors std's `IntErrorKind`).
#[derive(Debug, Clone, Copy, PartialEq, Eq)]
pub enum IntErrorKind {
    Empty,
    InvalidDigit,
    PosOverflow,
    NegOverflow,
}

/// The value of a digit in the given radix (at most 36), if it is one.
pub open spec fn digit_value(c: char, radix: int) -> Option<int> {
    let v: int = if is_digit(c) {
        c as int - '0' as int
    } else if is_lower(c) {
        c as int - 'a' as int + 10
    } else if is_upper(c) {
        c as int - 'A' as int + 10
    } else {
        99
    };
    if v < radix {
        Some(v)
    } else {
        None
    }
}

/// Reads the digits left to right, stopping at the first bad digit or overflow.
pub open spec fn fold_digits(
    s: Seq<char>,
    radix: int,
    acc: int,
    negative: bool,
    min: int,
    max: int,
) -> Result<int, IntErrorKind>
    decreases s.len(),
{
    if s.len() == 0 {
        Ok(acc)
    } else {
        match digit_value(s[0], radix) {
            None => Err(IntErrorKind::InvalidDigit),
            Some(d) => {
                let next = if negative {
                    acc * radix - d
                } else {
                    acc * radix + d
                };
                if negative && next < min {
                    Err(IntErrorKind::NegOverflow)
                } else if !negative && next > max {
                    Err(IntErrorKind::PosOverflow)
                } else {
                    fold_digits(s.drop_first(), radix, next, negative, min, max)
                }
            },
        }
    }
}

/// An integer literal in the given radix, with an optional sign (a minus only
/// for signed types), in the range `min..=max`.
pub open spec fn spec_parse_int(s: Seq<char>, radix: int, signed: bool, min: int, max: int) -> Result<
    int,
    IntErrorKind,
> {
    if s.len() == 0 {
        Err(IntErrorKind::Empty)
    } else if (s[0] == '+' || s[0] == '-') && s.len() == 1 {
        Err(IntErrorKind::InvalidDigit)
    } else if s[0] == '+' {
        fold_digits(s.drop_first(), radix, 0, false, min, max)
    } else if s[0] == '-' && signed {
        fold_digits(s.drop_first(), radix, 0, true, min, max)
    } else {
        fold_digits(s, radix, 0, false, min, max)
    }
}

proof fn lemma_fold_digits_range(
    s: Seq<char>,
    radix: int,
    acc: int,
    negative: bool,
    min: int,
    max: int,
)
    requires
        radix >= 2,
        min <= 0 <= max,
        min <= acc <= max,
        negative ==> acc <= 0,
        !negative ==> acc >= 0,
    ensures
        fold_digits(s, radix, acc, negative, min, max) matches Ok(v) ==> min <= v <= max,
    decreases s.len(),
{
    if s.len() > 0 {
        if let Some(d) = digit_value(s[0], radix) {
            if negative {
                assert(acc * radix <= 0) by (nonlinear_arith)
                    requires
                        acc <= 0,
                        radix >= 2,
                ;
            } else {
                assert(acc * radix >= 0) by (nonlinear_arith)
                    requires
                        acc >= 0,
                        radix >= 2,
                ;
            }
            let next = if negative {
                acc * radix - d
            } else {
                acc * radix + d
            };
            if !(negative && next < min) && !(!negative && next > max) {
                lemma_fold_digits_range(s.drop_first(), radix, next, negative, min, max);
            }
        }
    }
}

/// A literal that is read lies in the range it was read for.
pub proof fn lemma_parse_int_range(s: Seq<char>, radix: int, signed: bool, min: int, max: int)
    requires
        radix >= 2,
        min <= 0 <= max,
    ensures
        spec_parse_int(s, radix, signed, min, max) matches Ok(v) ==> min <= v <= max,
{
    if s.len() > 0 {
        lemma_fold_digits_range(s.drop_first(), radix, 0, false, min, max);
        lemma_fold_digits_range(s.drop_first(), radix, 0, true, min, max);
        lemma_fold_digits_range(s, radix, 0, false, min, max);
    }
}

fn digit_of(c: char, radix: u32) -> (r: Option<u32>)
    requires
        2 <= radix <= 36,
    ensures
        match digit_value(c, radix as int) {
            Some(d) => r == Some(d as u32),
            None => r is None,
        },
{
    let v: u32 = if '0' <= c && c <= '9' {
        (c as u32) - ('0' as u32)
    } else if 'a' <= c && c <= 'z' {
        (c as u32) - ('a' as u32) + 10
    } else if 'A' <= c && c <= 'Z' {
        (c as u32) - ('A' as u32) + 10
    } else {
        99
    };
    if v < radix {
        Some(v)
    } else {
        None
    }
}

/// Parses an integer literal of range `min..=max` in the given radix.
pub fn parse_int(s: &[char], radix: u32, signed: bool, min: i128, max: i128) -> (r: Result<
    i128,
    IntErrorKind,
>)
    requires
        2 <= radix <= 36,
        -0x1_0000_0000_0000_0000 <= min <= 0 <= max <= 0x1_0000_0000_0000_0000,
    ensures
        match spec_parse_int(s@, radix as int, signed, min as int, max as int) {
            Ok(v) => r == Ok::<i128, IntErrorKind>(v as i128) && min <= v <= max,
            Err(e) => r == Err::<i128, IntErrorKind>(e),
        },
{
    if s.len() == 0 {
        return Err(IntErrorKind::Empty);
    }
    if (s[0] == '+' || s[0] == '-') && s.len() == 1 {
        return Err(IntErrorKind::InvalidDigit);
    }
    let mut i: usize = 0;
    let mut negative = false;
    if s[0] == '+' {
        i = 1;
    } else if s[0] == '-' && signed {
        i = 1;
        negative = true;
    }
    proof {
        if i == 1 {
            assert(s@.skip(1) =~= s@.drop_first());
        } else {
            assert(s@.skip(0) =~= s@);
        }
    }
    let ghost goal = spec_parse_int(s@, radix as int, signed, min as int, max as int);
    let mut acc: i128 = 0;
    while i < s.len()
        invariant
            i <= s@.len(),
            min <= acc <= max,
            -0x1_0000_0000_0000_0000 <= min <= 0 <= max <= 0x1_0000_0000_0000_0000,
            2 <= radix <= 36,
            negative ==> acc <= 0,
            !negative ==> acc >= 0,
            goal == spec_parse_int(s@, radix as int, signed, min as int, max as int),
            goal == fold_digits(s@.skip(i as int), radix as int, acc as int, negative, min as int, max as int),
        decreases s@.len() - i,
    {
        let ghost rest = s@.skip(i as int);
        assert(rest[0] == s@[i as int]);
        assert(rest.drop_first() =~= s@.skip(i + 1));
        match digit_of(s[i], radix) {
            None => {
                assert(goal == Err::<int, IntErrorKind>(IntErrorKind::InvalidDigit));
                return Err(IntErrorKind::InvalidDigit);
            },
            Some(d) => {
                let r = radix as i128;
                let dd = d as i128;
                assert(-0x1_0000_0000_0000_0000 * 36 <= acc * r <= 0x1_0000_0000_0000_0000 * 36) by (nonlinear_arith)
                    requires
                        -0x1_0000_0000_0000_0000 <= acc <= 0x1_0000_0000_0000_0000,
                        2 <= r <= 36,
                ;
                let next: i128 = if negative {
                    acc * r - dd
                } else {
                    acc * r + dd
                };
                if negative && next < min {
                    return Err(IntErrorKind::NegOverflow);
                }
                if !negative && next > max {
                    assert(goal == Err::<int, IntErrorKind>(IntErrorKind::PosOverflow));
                    return Err(IntErrorKind::PosOverflow);
                }
                proof {
                    if negative {
                        assert(acc * r <= 0) by (nonlinear_arith)
                            requires
                                acc <= 0,
                                r >= 2,
                        ;
                    } else {
                        assert(acc * r >= 0) by (nonlinear_arith)
                            requires
                                acc >= 0,
                                r >= 2,
                        ;
                    }
                }
                acc = next;
                i = i + 1;
            },
        }
    }
    assert(s@.skip(i as int).len() == 0);
    Ok(acc)
}

pub open spec fn spec_parse_u16(s: Seq<char>) -> Result<int, IntErrorKind> {
    spec_parse_int(s, 10, false, 0, 0xffff)
}

pub open spec fn spec_parse_u64(s: Seq<char>) -> Result<int, IntErrorKind> {
    spec_parse_int(s, 10, false, 0, 0xffff_ffff_ffff_ffff)
}

pub open spec fn spec_parse_i16(s: Seq<char>) -> Result<int, IntErrorKind> {
    spec_parse_int(s, 10, true, -0x8000, 0x7fff)
}

pub open spec fn spec_parse_usize(s: Seq<char>, radix: int) -> Result<int, IntErrorKind> {
    spec_parse_int(s, radix, false, 0, usize::MAX as int)
}

/// `str::parse::<u16>`.
pub fn parse_u16(s: &str) -> (r: Result<u16, IntErrorKind>)
    ensures
        match spec_parse_u16(s@) {
            Ok(v) => r == Ok::<u16, IntErrorKind>(v as u16),
            Err(e) => r == Err::<u16, IntErrorKind>(e),
        },
{
    let v = chars_of(s);
    match parse_int(v.as_slice(), 10, false, 0, 0xffff) {
        Ok(x) => Ok(x as u16),
        Err(e) => Err(e),
    }
}

/// `str::parse::<u64>`.
pub fn parse_u64(s: &str) -> (r: Result<u64, IntErrorKind>)
    ensures
        match spec_parse_u64(s@) {
            Ok(v) => r == Ok::<u64, IntErrorKind>(v as u64),
            Err(e) => r == Err::<u64, IntErrorKind>(e),
        },
{
    let v = chars_of(s);
    match parse_int(v.as_slice(), 10, false, 0, 0xffff_ffff_ffff_ffff) {
        Ok(x) => Ok(x as u64),
        Err(e) => Err(e),
    }
}

/// `str::parse::<i16>`.
pub fn parse_i16(s: &str) -> (r: Result<i16, IntErrorKind>)
    ensures
        match spec_parse_i16(s@) {
            Ok(v) => r == Ok::<i16, IntErrorKind>(v as i16),
            Err(e) => r == Err::<i16, IntErrorKind>(e),
        },
{
    let v = chars_of(s);
    match parse_int(v.as_slice(), 10, true, -0x8000, 0x7fff) {
        Ok(x) => Ok(x as i16),
        Err(e) => Err(e),
    }
}

/// `usize::from_str_radix` (radix 10 is `str::parse::<usize>`).
pub fn parse_usize(s: &str, radix: u32) -> (r: Result<usize, IntErrorKind>)
    requires
        2 <= radix <= 36,
    ensures
        match spec_parse_usize(s@, radix as int) {
            Ok(v) => r == Ok::<usize, IntErrorKind>(v as usize),
            Err(e) => r == Err::<usize, IntErrorKind>(e),
        },
{
    let v = chars_of(s);
    match parse_int(v.as_slice(), radix, false, 0, usize::MAX as i128) {
        Ok(x) => Ok(x as usize),
        Err(e) => Err(e),
    }
}

// ----------------------------------------------------------------------------
// Writing bytes
// ----------------------------------------------------------------------------

/// The character of a decimal digit.
pub open spec fn digit_char(d: int) -> char {
    ((d + 48) as u32) as char
}

/// The decimal digits of `n`, without leading zeros.
pub open spec fn decimal(n: nat) -> Seq<char>
    decreases n,
{
    if n < 10 {
        seq![digit_char(n as int)]
    } else {
        decimal(n / 10).push(digit_char((n % 10) as int))
    }
}

/// `n` in decimal, with a minus sign where it is negative.
pub open spec fn int_text(n: int) -> Seq<char> {
    if n < 0 {
        seq!['-'] + decimal((-n) as nat)
    } else {
        decimal(n as nat)
    }
}

/// `itoa::Buffer::format`. Trusted: the text is the integer in decimal, with
/// a leading minus sign for a negative one and no leading zeros.
#[verifier::external_body]
pub(crate) fn format_int(n: i128) -> (s: String)
    ensures
        s@ == int_text(n as int),
{
    itoa::Buffer::new().format(n).to_owned()
}

/// Appends the bytes of `bytes`.
pub fn push_bytes(out: &mut Vec<u8>, bytes: &[u8])
    ensures
        final(out)@ == old(out)@ + bytes@,
{
    let mut k: usize = 0;
    while k < bytes.len()
        invariant
            k <= bytes@.len(),
            out@ == old(out)@ + bytes@.take(k as int),
        decreases bytes@.len() - k,
    {
        out.push(bytes[k]);
        k = k + 1;
        assert(out@ =~= old(out)@ + bytes@.take(k as int));
    }
    assert(bytes@.take(k as int) =~= bytes@);
}

/// Appends the UTF-8 encoding of `s`.
pub fn push_utf8(out: &mut Vec<u8>, s: &str)
    ensures
        final(out)@ == old(out)@ + encode_utf8(s@),
{
    push_bytes(out, s.as_bytes());
}

/// The lower-case hex digit of `d` (below 16).
pub open spec fn hex_char(d: int) -> char {
    if d < 10 {
        (d + 0x30) as char
    } else {
        (d - 10 + 0x61) as char
    }
}

/// How `std::ascii::escape_default` writes byte `b`: `\t`, `\r`, `\n`,
/// `\'`, `\"` and `\\` for those six, printable ASCII as it is, any other
/// byte as `\x` and two lower-case hex digits.
pub open spec fn ascii_escape(b: u8) -> Seq<char> {
    if b == 0x09 {
        seq!['\\', 't']
    } else if b == 0x0d {
        seq!['\\', 'r']
    } else if b == 0x0a {
        seq!['\\', 'n']
    } else if b == 0x27 {
        seq!['\\', '\'']
    } else if b == 0x22 {
        seq!['\\', '"']
    } else if b == 0x5c {
        seq!['\\', '\\']
    } else if 0x20 <= b <= 0x7e {
        seq![b as char]
    } else {
        seq!['\\', 'x', hex_char(b as int / 16), hex_char(b as int % 16)]
    }
}

fn hex_digit_char(d: u8) -> (c: char)
    requires
        d < 16,
    ensures
        c == hex_char(d as int),
{
    if d < 10 {
        (d + 0x30) as char
    } else {
        (d - 10 + 0x61) as char
    }
}

/// The text of `b` written as `std::ascii::escape_default` writes it (see
/// `ascii_escape`).
pub fn escape_byte(b: u8) -> (s: String)
    ensures
        s@ == ascii_escape(b),
{
    let v: Vec<char> = if b == 0x09 {
        vec!['\\', 't']
    } else if b == 0x0d {
        vec!['\\', 'r']
    } else if b == 0x0a {
        vec!['\\', 'n']
    } else if b == 0x27 {
        vec!['\\', '\'']
    } else if b == 0x22 {
        vec!['\\', '"']
    } else if b == 0x5c {
        vec!['\\', '\\']
    } else if 0x20 <= b && b <= 0x7e {
        vec![b as char]
    } else {
        vec!['\\', 'x', hex_digit_char(b / 16), hex_digit_char(b % 16)]
    };
    assert(v@ =~= ascii_escape(b));
    string_from_chars(v.as_slice())
}

/// Number of bytes of the UTF-8 encoding of `c`.
pub open spec fn utf8_width(c: char) -> int {
    encode_scalar(c as u32).len() as int
}

/// How many characters at the start of `s` make up its first `b` bytes in
/// UTF-8: `None` where `b` falls inside a character or past the end.
pub open spec fn prefix_chars(s: Seq<char>, b: int) -> Option<int>
    decreases s.len(),
{
    if b == 0 {
        Some(0)
    } else if b < 0 || s.len() == 0 {
        None
    } else {
        match prefix_chars(s.drop_first(), b - utf8_width(s[0])) {
            Some(k) => Some(k + 1),
            None => None,
        }
    }
}

/// The characters that `prefix_chars` counts are in `s`.
pub proof fn lemma_prefix_chars_fits(s: Seq<char>, b: int)
    ensures
        prefix_chars(s, b) matches Some(k) ==> 0 <= k <= s.len(),
    decreases s.len(),
{
    if b != 0 && b >= 0 && s.len() > 0 {
        lemma_prefix_chars_fits(s.drop_first(), b - utf8_width(s[0]));
    }
}

/// Number of bytes of `c` in UTF-8.
pub fn char_width(c: char) -> (w: usize)
    ensures
        w == utf8_width(c),
{
    proof {
        char_is_scalar(c);
    }
    let v = c as u32;
    if v <= 0x7f {
        1
    } else if v <= 0x7ff {
        2
    } else if v <= 0xffff {
        3
    } else {
        4
    }
}

/// `prefix_chars` of `s` and `b`.
pub fn byte_prefix_chars(s: &[char], b: usize) -> (r: Option<usize>)
    ensures
        match prefix_chars(s@, b as int) {
            Some(k) => r matches Some(x) && x == k,
            None => r is None,
        },
{
    let mut i: usize = 0;
    let mut rest: usize = b;
    assert(s@.skip(0) =~= s@);
    while rest > 0
        invariant
            i <= s@.len(),
            prefix_chars(s@, b as int) == (match prefix_chars(s@.skip(i as int), rest as int) {
                Some(k) => Some(k + i),
                None => None,
            }),
        decreases rest,
    {
        if i == s.len() {
            assert(s@.skip(i as int).len() == 0);
            return None;
        }
        let w = char_width(s[i]);
        assert(s@.skip(i as int).drop_first() =~= s@.skip(i as int + 1));
        assert(s@.skip(i as int)[0] == s@[i as int]);
        if w > rest {
            return None;
        }
        rest = rest - w;
        i = i + 1;
    }
    Some(i)
}

} // verus!
