//! Tokens of the configuration language: words, quoted strings with escapes,
//! comments, line ends and braces.
use vstd::prelude::*;
use vstd::utf8::{valid_utf8, decode_utf8};
use crate::text::{is_ascii_ws_byte, byte_is_ascii_ws, string_from_utf8, str_eq, ascii_escape, escape_byte};
use super::error::{ParseError, ParseErrorV, Halt};

verus! {

/// The configuration text and how much of it has been read.
pub struct ByteReader {
    data: Vec<u8>,
    pos: usize,
}

impl ByteReader {
    #[verifier::type_invariant]
    spec fn inv(self) -> bool {
        self.pos <= self.data@.len()
    }

    /// All the bytes.
    pub closed spec fn data(&self) -> Seq<u8> {
        self.data@
    }

    /// How many bytes have been read.
    pub closed spec fn pos(&self) -> int {
        self.pos as int
    }

    /// A reader at the start of `data`.
    pub fn new(data: Vec<u8>) -> (r: ByteReader)
        ensures
            r.data() == data@,
            r.pos() == 0,
    {
        ByteReader { data, pos: 0 }
    }

    /// Where a reader stands: never past the end.
    pub fn position(&self) -> (p: usize)
        ensures
            p == self.pos(),
            p <= self.data().len(),
    {
        proof {
            use_type_invariant(self);
        }
        self.pos
    }
}

/// Reading modes of the tokenizer.
#[derive(Clone, Copy, PartialEq, Eq)]
pub enum Mode {
    Normal,
    Quoted,
    Comment,
    Escape,
}

/// End of the blanks (whitespace other than line feeds) from `i` on.
pub open spec fn ws_end(d: Seq<u8>, i: int) -> int
    decreases d.len() - i,
{
    if 0 <= i < d.len() && is_ascii_ws_byte(d[i]) && d[i] != 0x0a {
        ws_end(d, i + 1)
    } else {
        i
    }
}

/// The byte a backslash escape stands for.
pub open spec fn escaped(c: u8) -> Option<u8> {
    if c == 0x6e {
        Some(0x0a)
    } else if c == 0x72 {
        Some(0x0d)
    } else if c == 0x74 {
        Some(0x09)
    } else if c == 0x5c {
        Some(0x5c)
    } else if c == 0x22 {
        Some(0x22)
    } else {
        None
    }
}

/// Reads one token from index `i` on, in the given mode with the bytes read so
/// far; gives the token's bytes and where reading stopped, or the byte of a
/// bad escape.
pub open spec fn scan(d: Seq<u8>, i: int, mode: Mode, tok: Seq<u8>) -> Result<(Seq<u8>, int), u8>
    decreases d.len() - i,
{
    if i < 0 || i >= d.len() {
        Ok((tok, i))
    } else {
        let c = d[i];
        match mode {
            Mode::Escape => match escaped(c) {
                Some(e) => scan(d, i + 1, Mode::Quoted, tok.push(e)),
                None => Err(c),
            },
            Mode::Quoted => if c == 0x22 {
                Ok((tok, i + 1))
            } else if c == 0x5c {
                scan(d, i + 1, Mode::Escape, tok)
            } else {
                scan(d, i + 1, Mode::Quoted, tok.push(c))
            },
            Mode::Comment => if c == 0x0a {
                if tok.len() == 0 {
                    Ok((seq![c], i + 1))
                } else {
                    Ok((tok, i))
                }
            } else {
                scan(d, i + 1, Mode::Comment, tok)
            },
            Mode::Normal => if c == 0x23 {
                scan(d, i + 1, Mode::Comment, tok)
            } else if c == 0x22 {
                if tok.len() == 0 {
                    scan(d, i + 1, Mode::Quoted, tok)
                } else {
                    Ok((tok, i))
                }
            } else if c == 0x0a && tok.len() == 0 {
                Ok((seq![c], i + 1))
            } else if is_ascii_ws_byte(c) {
                Ok((tok, i))
            } else if c == 0x7d && tok.len() > 0 {
                Ok((tok, i))
            } else {
                scan(d, i + 1, Mode::Normal, tok.push(c))
            },
        }
    }
}

/// The next token at `p` and where the reader stands after it.
pub open spec fn tok_at(d: Seq<u8>, p: int) -> Result<(Seq<char>, int), ParseErrorV> {
    match scan(d, ws_end(d, p), Mode::Normal, Seq::empty()) {
        Err(b) => Err(ParseErrorV::UnknownEscape(ascii_escape(b))),
        Ok((t, e)) => if valid_utf8(t) {
            Ok((decode_utf8(t), e))
        } else {
            Err(ParseErrorV::Utf8Error)
        },
    }
}

/// The position after the next token if it is `expected`.
pub open spec fn spec_consume(d: Seq<u8>, p: int, expected: Seq<char>) -> Result<int, ParseErrorV> {
    match tok_at(d, p) {
        Ok((t, e)) => if t == expected {
            Ok(e)
        } else {
            Err(ParseErrorV::UnexpectedToken(t, expected))
        },
        Err(x) => Err(x),
    }
}

/// The tokens up to the next line feed, and the position after it.
pub open spec fn spec_line(d: Seq<u8>, p: int) -> Result<(Seq<Seq<char>>, int), Halt>
    decreases d.len() - p,
{
    match tok_at(d, p) {
        Err(x) => Err(Halt::Error(x)),
        Ok((t, e)) => if t == seq!['\n'] {
            Ok((Seq::empty(), e))
        } else if e <= p || e > d.len() {
            Err(Halt::Endless)
        } else {
            match spec_line(d, e) {
                Ok((ts, e2)) => Ok((seq![t] + ts, e2)),
                Err(x) => Err(x),
            }
        },
    }
}

pub proof fn lemma_ws_end(d: Seq<u8>, i: int)
    requires
        0 <= i <= d.len(),
    ensures
        i <= ws_end(d, i) <= d.len(),
    decreases d.len() - i,
{
    if 0 <= i < d.len() && is_ascii_ws_byte(d[i]) && d[i] != 0x0a {
        lemma_ws_end(d, i + 1);
    }
}

/// A token is read forward: it ends within the input, and a token that grew
/// took at least one byte.
pub proof fn lemma_scan(d: Seq<u8>, i: int, mode: Mode, tok: Seq<u8>)
    requires
        0 <= i <= d.len(),
    ensures
        scan(d, i, mode, tok) matches Ok((t, e)) ==> i <= e <= d.len() && (t != tok ==> e > i),
    decreases d.len() - i,
{
    if i < d.len() {
        let c = d[i];
        match mode {
            Mode::Escape => {
                if let Some(x) = escaped(c) {
                    lemma_scan(d, i + 1, Mode::Quoted, tok.push(x));
                }
            },
            Mode::Quoted => {
                if c == 0x22 {
                } else if c == 0x5c {
                    lemma_scan(d, i + 1, Mode::Escape, tok);
                } else {
                    lemma_scan(d, i + 1, Mode::Quoted, tok.push(c));
                }
            },
            Mode::Comment => {
                if c != 0x0a {
                    lemma_scan(d, i + 1, Mode::Comment, tok);
                }
            },
            Mode::Normal => {
                if c == 0x23 {
                    lemma_scan(d, i + 1, Mode::Comment, tok);
                } else if c == 0x22 {
                    if tok.len() == 0 {
                        lemma_scan(d, i + 1, Mode::Quoted, tok);
                    }
                } else if c == 0x0a && tok.len() == 0 {
                } else if is_ascii_ws_byte(c) {
                } else if c == 0x7d && tok.len() > 0 {
                } else {
                    lemma_scan(d, i + 1, Mode::Normal, tok.push(c));
                }
            },
        }
    }
}

/// Reading a token never goes back nor past the end, and a non-empty token
/// moves the reader forward.
pub proof fn lemma_tok_at(d: Seq<u8>, p: int)
    requires
        0 <= p <= d.len(),
    ensures
        tok_at(d, p) matches Ok((t, e)) ==> p <= e <= d.len() && (t.len() > 0 ==> e > p),
{
    lemma_ws_end(d, p);
    lemma_scan(d, ws_end(d, p), Mode::Normal, Seq::empty());
    if let Ok((t, e)) = scan(d, ws_end(d, p), Mode::Normal, Seq::empty()) {
        if valid_utf8(t) && decode_utf8(t).len() > 0 {
            if t.len() == 0 {
                assert(decode_utf8(t) =~= Seq::<char>::empty());
            }
        }
    }
}

fn skip_blanks(d: &Vec<u8>, p: usize) -> (w: usize)
    requires
        p <= d@.len(),
    ensures
        w == ws_end(d@, p as int),
        p <= w <= d@.len(),
{
    let mut i = p;
    while i < d.len() && byte_is_ascii_ws(d[i]) && d[i] != 0x0a
        invariant
            p <= i <= d@.len(),
            ws_end(d@, p as int) == ws_end(d@, i as int),
        decreases d@.len() - i,
    {
        i = i + 1;
    }
    i
}

fn escape_of(c: u8) -> (r: Option<u8>)
    ensures
        r == escaped(c),
{
    if c == 0x6e {
        Some(0x0a)
    } else if c == 0x72 {
        Some(0x0d)
    } else if c == 0x74 {
        Some(0x09)
    } else if c == 0x5c {
        Some(0x5c)
    } else if c == 0x22 {
        Some(0x22)
    } else {
        None
    }
}

/// Scans one token from `start`.
fn scan_token(d: &Vec<u8>, start: usize) -> (r: Result<(Vec<u8>, usize), u8>)
    requires
        start <= d@.len(),
    ensures
        match scan(d@, start as int, Mode::Normal, Seq::empty()) {
            Ok((t, e)) => r matches Ok((v, x)) && v@ == t && x == e,
            Err(b) => r == Err::<(Vec<u8>, usize), u8>(b),
        },
{
    let mut tok: Vec<u8> = Vec::new();
    let mut mode = Mode::Normal;
    let mut i = start;
    let ghost goal = scan(d@, start as int, Mode::Normal, Seq::empty());
    assert(tok@ =~= Seq::<u8>::empty());
    while i < d.len()
        invariant
            start <= i <= d@.len(),
            goal == scan(d@, start as int, Mode::Normal, Seq::empty()),
            goal == scan(d@, i as int, mode, tok@),
        decreases d@.len() - i,
    {
        let c = d[i];
        match mode {
            Mode::Escape => {
                match escape_of(c) {
                    Some(e) => {
                        tok.push(e);
                        mode = Mode::Quoted;
                    },
                    None => {
                        return Err(c);
                    },
                }
            },
            Mode::Quoted => {
                if c == 0x22 {
                    return Ok((tok, i + 1));
                } else if c == 0x5c {
                    mode = Mode::Escape;
                } else {
                    tok.push(c);
                }
            },
            Mode::Comment => {
                if c == 0x0a {
                    if tok.len() == 0 {
                        let mut t: Vec<u8> = Vec::new();
                        t.push(c);
                        assert(t@ =~= seq![c]);
                        return Ok((t, i + 1));
                    } else {
                        return Ok((tok, i));
                    }
                }
            },
            Mode::Normal => {
                if c == 0x23 {
                    mode = Mode::Comment;
                } else if c == 0x22 {
                    if tok.len() == 0 {
                        mode = Mode::Quoted;
                    } else {
                        return Ok((tok, i));
                    }
                } else if c == 0x0a && tok.len() == 0 {
                    let mut t: Vec<u8> = Vec::new();
                    t.push(c);
                    assert(t@ =~= seq![c]);
                    return Ok((t, i + 1));
                } else if byte_is_ascii_ws(c) {
                    return Ok((tok, i));
                } else if c == 0x7d && tok.len() > 0 {
                    return Ok((tok, i));
                } else {
                    tok.push(c);
                }
            },
        }
        i = i + 1;
    }
    Ok((tok, i))
}

/// Reads the next token: blanks are skipped; `#` starts a comment up to the
/// line end; a line feed is a token of its own; `"` starts a quoted string in
/// which `\n`, `\r`, `\t`, `\\` and `\"` are escapes; a `}` ends a word.
/// At the end of the input the token is empty. On an error the reader stays.
pub fn next_token(reader: &mut ByteReader) -> (r: Result<String, ParseError>)
    ensures
        final(reader).data() == old(reader).data(),
        match tok_at(old(reader).data(), old(reader).pos()) {
            Ok((t, e)) => r matches Ok(s) && s@ == t && final(reader).pos() == e,
            Err(x) => r matches Err(y) && y@ == x && final(reader).pos() == old(reader).pos(),
        },
{
    proof {
        use_type_invariant(&*reader);
    }
    let w = skip_blanks(&reader.data, reader.pos);
    match scan_token(&reader.data, w) {
        Err(b) => Err(ParseError::UnknownEscape(escape_byte(b))),
        Ok((t, e)) => {
            proof {
                lemma_scan(reader.data@, w as int, Mode::Normal, Seq::empty());
            }
            match string_from_utf8(t) {
                Some(s) => {
                    reader.pos = e;
                    Ok(s)
                },
                None => Err(ParseError::Utf8Error),
            }
        },
    }
}

/// Reads the next token and checks that it is `expected`.
pub fn consume_fixed(reader: &mut ByteReader, expected: &str) -> (r: Result<(), ParseError>)
    ensures
        final(reader).data() == old(reader).data(),
        match spec_consume(old(reader).data(), old(reader).pos(), expected@) {
            Ok(e) => r is Ok && final(reader).pos() == e,
            Err(x) => r matches Err(y) && y@ == x,
        },
        match tok_at(old(reader).data(), old(reader).pos()) {
            Ok((t, e)) => final(reader).pos() == e,
            Err(_) => final(reader).pos() == old(reader).pos(),
        },
{
    let token = next_token(reader)?;
    if !str_eq(token.as_str(), expected) {
        Err(ParseError::UnexpectedToken(token, expected.to_owned()))
    } else {
        Ok(())
    }
}

/// The line-feed token.
pub open spec fn newline() -> Seq<char> {
    seq!['\n']
}

pub fn is_newline(s: &String) -> (r: bool)
    ensures
        r == (s@ == newline()),
{
    let v = crate::text::chars_of(s.as_str());
    if v.len() == 1 && v[0] == '\n' {
        assert(s@ =~= newline());
        true
    } else {
        false
    }
}

/// Reads tokens up to the next line-feed token. Where the input ends before
/// one, the reader would wait forever: that is `Halt::Endless`.
pub(crate) fn read_line_tokens(reader: &mut ByteReader) -> (r: Result<Vec<String>, Option<ParseError>>)
    ensures
        final(reader).data() == old(reader).data(),
        match spec_line(old(reader).data(), old(reader).pos()) {
            Ok((ts, e)) => r matches Ok(v) && crate::config::strings_view(v@) == ts
                && final(reader).pos() == e,
            Err(Halt::Error(x)) => r matches Err(Some(y)) && y@ == x,
            Err(Halt::Endless) => r matches Err(None),
        },
{
    let ghost d = reader.data();
    let ghost p0 = reader.pos();
    let mut result: Vec<String> = Vec::new();
    proof {
        use_type_invariant(&*reader);
    }
    loop
        invariant
            reader.data() == d,
            d == old(reader).data(),
            p0 == old(reader).pos(),
            0 <= p0 <= reader.pos() <= d.len(),
            spec_line(d, p0) == (match spec_line(d, reader.pos()) {
                Ok((ts, e)) => Ok((crate::config::strings_view(result@) + ts, e)),
                Err(x) => Err(x),
            }),
        decreases d.len() - reader.pos(),
    {
        let p = reader.position();
        proof {
            lemma_tok_at(d, p as int);
        }
        let token = match next_token(reader) {
            Ok(t) => t,
            Err(e) => {
                return Err(Some(e));
            },
        };
        if is_newline(&token) {
            assert(crate::config::strings_view(result@) + Seq::<Seq<char>>::empty() =~= crate::config::strings_view(result@));
            return Ok(result);
        }
        let q = reader.position();
        if q <= p {
            return Err(None);
        }
        let ghost before = crate::config::strings_view(result@);
        let ghost tv = token@;
        result.push(token);
        proof {
            assert(crate::config::strings_view(result@) =~= before.push(tv));
            match spec_line(d, q as int) {
                Ok((ts, e)) => {
                    assert(before + (seq![tv] + ts) =~= before.push(tv) + ts);
                },
                Err(_) => {},
            }
        }
    }
}

/// `read_tokens_until_newline` on any input: `None` where no line-feed token
/// follows, so that the reader would read empty tokens forever.
pub fn try_read_tokens_until_newline(reader: &mut ByteReader) -> (r: Option<
    Result<Vec<String>, ParseError>,
>)
    ensures
        final(reader).data() == old(reader).data(),
        match spec_line(old(reader).data(), old(reader).pos()) {
            Ok((ts, e)) => r matches Some(Ok(v)) && crate::config::strings_view(v@) == ts
                && final(reader).pos() == e,
            Err(Halt::Error(x)) => r matches Some(Err(y)) && y@ == x,
            Err(Halt::Endless) => r is None,
        },
{
    match read_line_tokens(reader) {
        Ok(v) => Some(Ok(v)),
        Err(Some(e)) => Some(Err(e)),
        Err(None) => None,
    }
}

/// Reads tokens up to the next line-feed token. Requires that there is one:
/// otherwise it would read empty tokens at the end forever (see
/// `try_read_tokens_until_newline`).
pub fn read_tokens_until_newline(reader: &mut ByteReader) -> (r: Result<Vec<String>, ParseError>)
    requires
        !(spec_line(old(reader).data(), old(reader).pos()) matches Err(Halt::Endless)),
    ensures
        final(reader).data() == old(reader).data(),
        match spec_line(old(reader).data(), old(reader).pos()) {
            Ok((ts, e)) => r matches Ok(v) && crate::config::strings_view(v@) == ts
                && final(reader).pos() == e,
            Err(Halt::Error(x)) => r matches Err(y) && y@ == x,
            Err(Halt::Endless) => false,
        },
{
    match read_line_tokens(reader) {
        Ok(v) => Ok(v),
        Err(Some(e)) => Err(e),
        Err(None) => Err(ParseError::UnexpectedEof),
    }
}

} // verus!
