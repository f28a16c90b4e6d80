//! Variables: `$name` in configuration values and in responses.
use vstd::prelude::*;
use crate::strmap::{Entries, StrMap, spec_get, spec_insert};
use crate::text::{
    is_alnum, is_alpha, is_lower, is_prefix, upper, char_is_alnum, char_is_alpha, char_is_lower,
    char_upper, chars_of, chars_range, chars_starts_with, string_from_chars, push_all, push_str,
};
use crate::http::{Request, RequestV};
use crate::uri::{uri_host, uri_wf};

verus! {

/// Characters that may follow `$` in a variable's name.
pub open spec fn is_name_char(c: char) -> bool {
    is_alnum(c) || c == '_'
}

pub fn char_is_name(c: char) -> (r: bool)
    ensures
        r == is_name_char(c),
{
    char_is_alnum(c) || c == '_'
}

/// Length of the longest prefix of `s` made of name characters.
pub open spec fn name_len(s: Seq<char>) -> nat
    decreases s.len(),
{
    if s.len() > 0 && is_name_char(s[0]) {
        1 + name_len(s.drop_first())
    } else {
        0
    }
}

pub proof fn lemma_name_len(s: Seq<char>)
    ensures
        name_len(s) <= s.len(),
        forall|i: int| 0 <= i < name_len(s) ==> is_name_char(s[i]),
        name_len(s) < s.len() ==> !is_name_char(s[name_len(s) as int]),
    decreases s.len(),
{
    if s.len() > 0 && is_name_char(s[0]) {
        lemma_name_len(s.drop_first());
        assert forall|i: int| 0 <= i < name_len(s) implies is_name_char(s[i]) by {
            if i > 0 {
                assert(s[i] == s.drop_first()[i - 1]);
            }
        }
        if name_len(s) < s.len() {
            assert(s[name_len(s) as int] == s.drop_first()[name_len(s.drop_first()) as int]);
        }
    }
}

/// `name_len` is the length of a scan that stops at the first non-name character.
pub proof fn lemma_name_len_at(s: Seq<char>, n: int)
    requires
        0 <= n <= s.len(),
        forall|i: int| 0 <= i < n ==> is_name_char(s[i]),
        n < s.len() ==> !is_name_char(s[n]),
    ensures
        name_len(s) == n,
    decreases s.len(),
{
    if n > 0 {
        assert forall|i: int| 0 <= i < n - 1 implies is_name_char(s.drop_first()[i]) by {
            assert(s.drop_first()[i] == s[i + 1]);
        }
        if n - 1 < s.len() - 1 {
            assert(s.drop_first()[n - 1] == s[n]);
        }
        lemma_name_len_at(s.drop_first(), n - 1);
    }
}

/// The value of a name in the first scope that holds it.
pub open spec fn scopes_lookup(scopes: Seq<Entries>, name: Seq<char>) -> Option<Seq<char>>
    decreases scopes.len(),
{
    if scopes.len() == 0 {
        None
    } else {
        match spec_get(scopes[0], name) {
            Some(v) => Some(v),
            None => scopes_lookup(scopes.drop_first(), name),
        }
    }
}

/// What `$name` becomes: its value, or `$name` itself when no scope holds it.
pub open spec fn static_value(scopes: Seq<Entries>, name: Seq<char>) -> Seq<char> {
    match scopes_lookup(scopes, name) {
        Some(v) => v,
        None => seq!['$'] + name,
    }
}

/// `s` with every `$name` replaced by its value in the scopes.
pub open spec fn spec_replace_static(s: Seq<char>, scopes: Seq<Entries>) -> Seq<char>
    decreases s.len(),
{
    if s.len() == 0 {
        Seq::empty()
    } else if s[0] == '$' {
        let t = s.drop_first();
        let n = name_len(t);
        proof {
            lemma_name_len(t);
        }
        static_value(scopes, t.take(n as int)) + spec_replace_static(t.skip(n as int), scopes)
    } else {
        seq![s[0]] + spec_replace_static(s.drop_first(), scopes)
    }
}

/// The scopes' entries, innermost first.
pub open spec fn scopes_view(scopes: Seq<&StrMap>) -> Seq<Entries> {
    scopes.map_values(|m: &StrMap| m@)
}

fn lookup_scopes<'a>(scopes: &[&'a StrMap], name: &str) -> (r: Option<&'a String>)
    ensures
        match scopes_lookup(scopes_view(scopes@), name@) {
            Some(v) => r matches Some(x) && x@ == v,
            None => r is None,
        },
{
    let mut k: usize = 0;
    assert(scopes_view(scopes@).skip(0) =~= scopes_view(scopes@));
    while k < scopes.len()
        invariant
            k <= scopes@.len(),
            scopes_lookup(scopes_view(scopes@), name@) == scopes_lookup(
                scopes_view(scopes@).skip(k as int),
                name@,
            ),
        decreases scopes@.len() - k,
    {
        let ghost rest = scopes_view(scopes@).skip(k as int);
        assert(rest[0] == scopes[k as int]@);
        assert(rest.drop_first() =~= scopes_view(scopes@).skip(k + 1));
        match scopes[k].get(name) {
            Some(v) => {
                return Some(v);
            },
            None => {},
        }
        k = k + 1;
    }
    None
}

/// Replaces each `$name` in `s` (a name is a run of ASCII letters, digits and
/// underscores) by its value in the first of `scopes` that sets it; a name that
/// no scope sets stays as it is.
pub fn replace_static_vars(s: &str, scopes: &[&StrMap]) -> (r: String)
    ensures
        r@ == spec_replace_static(s@, scopes_view(scopes@)),
{
    let chars = chars_of(s);
    let n = chars.len();
    let mut out: Vec<char> = Vec::new();
    let mut i: usize = 0;
    let ghost sc = scopes_view(scopes@);
    assert(chars@.skip(0) =~= chars@);
    while i < n
        invariant
            n == chars@.len(),
            chars@ == s@,
            sc == scopes_view(scopes@),
            i <= n,
            spec_replace_static(s@, sc) == out@ + spec_replace_static(chars@.skip(i as int), sc),
        decreases n - i,
    {
        let ghost rest = chars@.skip(i as int);
        assert(rest[0] == chars@[i as int]);
        if chars[i] == '$' {
            let mut j = i + 1;
            while j < n && char_is_name(chars[j])
                invariant
                    i < j <= n,
                    n == chars@.len(),
                    forall|q: int| i + 1 <= q < j ==> is_name_char(chars@[q]),
                decreases n - j,
            {
                j = j + 1;
            }
            let ghost t = rest.drop_first();
            proof {
                assert forall|q: int| 0 <= q < j - i - 1 implies is_name_char(t[q]) by {
                    assert(t[q] == chars@[i + 1 + q]);
                }
                if j - i - 1 < t.len() {
                    assert(t[j - i - 1] == chars@[j as int]);
                }
                lemma_name_len_at(t, j - i - 1);
            }
            let name_chars = crate::text::chars_range(chars.as_slice(), i + 1, j);
            let name = string_from_chars(name_chars.as_slice());
            assert(name@ =~= t.take((j - i - 1) as int));
            let ghost before = out@;
            match lookup_scopes(scopes, name.as_str()) {
                Some(v) => {
                    push_str(&mut out, v.as_str());
                },
                None => {
                    out.push('$');
                    push_all(&mut out, name_chars.as_slice());
                },
            }
            assert(out@ =~= before + static_value(sc, t.take((j - i - 1) as int)));
            assert(t.skip((j - i - 1) as int) =~= chars@.skip(j as int));
            i = j;
        } else {
            out.push(chars[i]);
            assert(rest.drop_first() =~= chars@.skip(i + 1));
            i = i + 1;
        }
    }
    assert(chars@.skip(i as int) =~= Seq::<char>::empty());
    string_from_chars(out.as_slice())
}

// ----------------------------------------------------------------------------
// Variables of a request
// ----------------------------------------------------------------------------

/// Why a variable could not be replaced.
#[derive(Debug, PartialEq, Eq)]
pub enum VarError {
    /// No variable has this name.
    UnknownVar(String),
}

impl View for VarError {
    type V = Seq<char>;

    /// The name that has no value.
    open spec fn view(&self) -> Seq<char> {
        match self {
            VarError::UnknownVar(n) => n@,
        }
    }
}

/// The header a `$http_...` variable names: a lower-case letter that follows
/// no letter in upper case, `_` as `-`, anything else as it is.
pub open spec fn var_header_name(s: Seq<char>) -> Seq<char> {
    Seq::new(
        s.len(),
        |j: int|
            if is_lower(s[j]) && !(j > 0 && is_alpha(s[j - 1])) {
                upper(s[j])
            } else if s[j] == '_' {
                '-'
            } else {
                s[j]
            },
    )
}

fn to_pascal_case(s: &[char]) -> (r: String)
    ensures
        r@ == var_header_name(s@),
{
    let mut out: Vec<char> = Vec::new();
    let mut prev_letter = false;
    let mut j: usize = 0;
    while j < s.len()
        invariant
            j <= s@.len(),
            out@ == var_header_name(s@).take(j as int),
            prev_letter == (j > 0 && is_alpha(s@[j - 1])),
        decreases s@.len() - j,
    {
        let c = s[j];
        if char_is_lower(c) && !prev_letter {
            out.push(char_upper(c));
        } else if c == '_' {
            out.push('-');
        } else {
            out.push(c);
        }
        prev_letter = char_is_alpha(c);
        j = j + 1;
        assert(out@ =~= var_header_name(s@).take(j as int));
    }
    assert(var_header_name(s@).take(j as int) =~= var_header_name(s@));
    string_from_chars(out.as_slice())
}

/// `s` with ASCII letters in upper case.
pub open spec fn ascii_upper(s: Seq<char>) -> Seq<char> {
    s.map_values(|c: char| upper(c))
}

fn to_ascii_uppercase(s: &[char]) -> (r: String)
    ensures
        r@ == ascii_upper(s@),
{
    let mut out: Vec<char> = Vec::new();
    let mut j: usize = 0;
    while j < s.len()
        invariant
            j <= s@.len(),
            out@ == ascii_upper(s@).take(j as int),
        decreases s@.len() - j,
    {
        out.push(char_upper(s[j]));
        j = j + 1;
        assert(out@ =~= ascii_upper(s@).take(j as int));
    }
    assert(ascii_upper(s@).take(j as int) =~= ascii_upper(s@));
    string_from_chars(out.as_slice())
}

/// The host a request names: the URI's host, or where that is empty the
/// `Host` header (or nothing).
pub open spec fn request_host(q: RequestV) -> Seq<char> {
    if uri_host(q.start_line.uri).len() == 0 {
        match spec_get(q.headers, "Host"@) {
            Some(h) => h,
            None => Seq::empty(),
        }
    } else {
        uri_host(q.start_line.uri)
    }
}

/// The value of variable `name` for request `q`, with `env` as the process
/// environment: `http_<name>` is a header of the request, `env_<name>` an
/// environment variable (the name in upper case), where either is set; then
/// `uri` is the full URI, `host` the host the request names, and `method`
/// the URI's host as well. Other names have none.
pub open spec fn var_value(name: Seq<char>, q: RequestV, env: Entries) -> Option<Seq<char>> {
    let header = var_header_name(name.skip("http_"@.len() as int));
    let env_name = ascii_upper(name.skip("env_"@.len() as int));
    if is_prefix("http_"@, name) && spec_get(q.headers, header) is Some {
        spec_get(q.headers, header)
    } else if is_prefix("env_"@, name) && spec_get(env, env_name) is Some {
        spec_get(env, env_name)
    } else if name == "uri"@ {
        Some(q.start_line.uri.full)
    } else if name == "host"@ {
        Some(request_host(q))
    } else if name == "method"@ {
        Some(uri_host(q.start_line.uri))
    } else {
        None
    }
}

/// `s` past the prefix `p`, where it starts with `p`.
fn strip_prefix(s: &[char], p: &str) -> (r: Option<Vec<char>>)
    ensures
        r is Some <==> is_prefix(p@, s@),
        r matches Some(t) ==> t@ == s@.skip(p@.len() as int),
{
    let pc = chars_of(p);
    if chars_starts_with(s, pc.as_slice()) {
        Some(chars_range(s, pc.len(), s.len()))
    } else {
        None
    }
}

fn write_var(name: &[char], out: &mut Vec<char>, request: &Request, env: &StrMap) -> (r: Result<
    (),
    VarError,
>)
    requires
        uri_wf(request.start_line.uri@),
    ensures
        match var_value(name@, request@, env@) {
            Some(v) => r is Ok && final(out)@ == old(out)@ + v,
            None => r matches Err(VarError::UnknownVar(n)) && n@ == name@ && final(out)@ == old(
                out,
            )@,
        },
{
    if let Some(rest) = strip_prefix(name, "http_") {
        let header = to_pascal_case(rest.as_slice());
        if let Some(value) = request.headers.get(header.as_str()) {
            push_str(out, value.as_str());
            return Ok(());
        }
    }
    if let Some(rest) = strip_prefix(name, "env_") {
        let key = to_ascii_uppercase(rest.as_slice());
        if let Some(value) = env.get(key.as_str()) {
            push_str(out, value.as_str());
            return Ok(());
        }
    }
    let uri = chars_of("uri");
    let host = chars_of("host");
    let method = chars_of("method");
    if crate::text::chars_eq(name, uri.as_slice()) {
        push_str(out, request.start_line.uri.full());
    } else if crate::text::chars_eq(name, host.as_slice()) {
        let h = request.start_line.uri.host();
        if chars_of(h).len() == 0 {
            match request.headers.get("Host") {
                Some(v) => push_str(out, v.as_str()),
                None => {},
            }
        } else {
            push_str(out, h);
        }
    } else if crate::text::chars_eq(name, method.as_slice()) {
        push_str(out, request.start_line.uri.host());
    } else {
        return Err(VarError::UnknownVar(string_from_chars(name)));
    }
    Ok(())
}

/// `s` with every `$name` replaced by its value for the request; the first
/// name that has none is the error.
pub open spec fn spec_replace_vars(s: Seq<char>, q: RequestV, env: Entries) -> Result<
    Seq<char>,
    Seq<char>,
>
    decreases s.len(),
{
    if s.len() == 0 {
        Ok(Seq::empty())
    } else if s[0] == '$' {
        let t = s.drop_first();
        let n = name_len(t);
        proof {
            lemma_name_len(t);
        }
        match var_value(t.take(n as int), q, env) {
            None => Err(t.take(n as int)),
            Some(v) => match spec_replace_vars(t.skip(n as int), q, env) {
                Ok(r) => Ok(v + r),
                Err(e) => Err(e),
            },
        }
    } else {
        match spec_replace_vars(s.drop_first(), q, env) {
            Ok(r) => Ok(seq![s[0]] + r),
            Err(e) => Err(e),
        }
    }
}

/// Replaces each `$name` in `s` (a name is a run of ASCII letters, digits and
/// underscores, possibly empty) by its value for `request` (see `var_value`),
/// with `env` as the process environment. A name without a value is an error.
pub fn replace_vars(s: &str, request: &Request, env: &StrMap) -> (r: Result<String, VarError>)
    requires
        uri_wf(request.start_line.uri@),
    ensures
        match spec_replace_vars(s@, request@, env@) {
            Ok(v) => r matches Ok(x) && x@ == v,
            Err(n) => r matches Err(VarError::UnknownVar(x)) && x@ == n,
        },
{
    let chars = chars_of(s);
    let n = chars.len();
    let mut out: Vec<char> = Vec::new();
    let mut i: usize = 0;
    let ghost goal = spec_replace_vars(s@, request@, env@);
    assert(chars@.skip(0) =~= chars@);
    while i < n
        invariant
            n == chars@.len(),
            chars@ == s@,
            i <= n,
            uri_wf(request.start_line.uri@),
            goal == spec_replace_vars(s@, request@, env@),
            goal == (match spec_replace_vars(chars@.skip(i as int), request@, env@) {
                Ok(r) => Ok(out@ + r),
                Err(e) => Err(e),
            }),
        decreases n - i,
    {
        let ghost rest = chars@.skip(i as int);
        assert(rest[0] == chars@[i as int]);
        if chars[i] == '$' {
            let mut j = i + 1;
            while j < n && char_is_name(chars[j])
                invariant
                    i < j <= n,
                    n == chars@.len(),
                    forall|q: int| i + 1 <= q < j ==> is_name_char(chars@[q]),
                decreases n - j,
            {
                j = j + 1;
            }
            let ghost t = rest.drop_first();
            proof {
                assert forall|q: int| 0 <= q < j - i - 1 implies is_name_char(t[q]) by {
                    assert(t[q] == chars@[i + 1 + q]);
                }
                if j - i - 1 < t.len() {
                    assert(t[j - i - 1] == chars@[j as int]);
                }
                lemma_name_len_at(t, j - i - 1);
            }
            let name = chars_range(chars.as_slice(), i + 1, j);
            assert(name@ =~= t.take((j - i - 1) as int));
            let ghost before = out@;
            match write_var(name.as_slice(), &mut out, request, env) {
                Ok(()) => {},
                Err(e) => {
                    return Err(e);
                },
            }
            assert(t.skip((j - i - 1) as int) =~= chars@.skip(j as int));
            proof {
                let v = var_value(name@, request@, env@).unwrap();
                match spec_replace_vars(chars@.skip(j as int), request@, env@) {
                    Ok(r) => {
                        assert(out@ + r =~= before + (v + r));
                    },
                    Err(e) => {},
                }
            }
            i = j;
        } else {
            let ghost before = out@;
            out.push(chars[i]);
            assert(rest.drop_first() =~= chars@.skip(i + 1));
            proof {
                match spec_replace_vars(chars@.skip(i + 1), request@, env@) {
                    Ok(r) => {
                        assert(out@ + r =~= before + (seq![chars@[i as int]] + r));
                    },
                    Err(e) => {},
                }
            }
            i = i + 1;
        }
    }
    assert(chars@.skip(i as int) =~= Seq::<char>::empty());
    assert(out@ + Seq::<char>::empty() =~= out@);
    Ok(string_from_chars(out.as_slice()))
}

/// The header fields `h` with `$name`s replaced in every value; the first
/// value with a name that has none is the error.
pub open spec fn spec_replace_headers(h: Entries, q: RequestV, env: Entries) -> Result<
    Entries,
    Seq<char>,
>
    decreases h.len(),
{
    if h.len() == 0 {
        Ok(Seq::empty())
    } else {
        match spec_replace_headers(h.drop_last(), q, env) {
            Err(e) => Err(e),
            Ok(r) => match spec_replace_vars(h.last().1, q, env) {
                Err(e) => Err(e),
                Ok(v) => Ok(spec_insert(r, h.last().0, v)),
            },
        }
    }
}

/// Replaces the variables in the values of `headers` (see `replace_vars`).
pub fn replace_dynamic_vars_headers(headers: &StrMap, request: &Request, env: &StrMap) -> (r: Result<
    StrMap,
    VarError,
>)
    requires
        uri_wf(request.start_line.uri@),
    ensures
        match spec_replace_headers(headers@, request@, env@) {
            Ok(v) => r matches Ok(x) && x@ == v,
            Err(n) => r matches Err(VarError::UnknownVar(x)) && x@ == n,
        },
{
    let mut out = StrMap::new();
    let mut i: usize = 0;
    while i < headers.len()
        invariant
            i <= headers@.len(),
            uri_wf(request.start_line.uri@),
            spec_replace_headers(headers@.take(i as int), request@, env@) == Ok::<
                Entries,
                Seq<char>,
            >(out@),
        decreases headers@.len() - i,
    {
        let (name, value) = headers.entry(i);
        let ghost t = headers@.take(i + 1);
        assert(t.drop_last() =~= headers@.take(i as int));
        let v = match replace_vars(value.as_str(), request, env) {
            Ok(v) => v,
            Err(e) => {
                proof {
                    lemma_replace_headers_err(headers@, request@, env@, i + 1);
                }
                return Err(e);
            },
        };
        out.insert(name.clone(), v);
        i = i + 1;
    }
    assert(headers@.take(i as int) =~= headers@);
    Ok(out)
}

/// An error in the first `k` values is the error of all of them.
proof fn lemma_replace_headers_err(h: Entries, q: RequestV, env: Entries, k: int)
    requires
        0 <= k <= h.len(),
        spec_replace_headers(h.take(k), q, env) is Err,
    ensures
        spec_replace_headers(h, q, env) == spec_replace_headers(h.take(k), q, env),
    decreases h.len() - k,
{
    if k < h.len() {
        let t = h.take(k + 1);
        assert(t.drop_last() =~= h.take(k));
        lemma_replace_headers_err(h, q, env, k + 1);
    } else {
        assert(h.take(k) =~= h);
    }
}

/// Text without `$` is left as it is by the static replacement.
pub proof fn law_static_without_vars(s: Seq<char>, scopes: Seq<Entries>)
    requires
        !s.contains('$'),
    ensures
        spec_replace_static(s, scopes) == s,
    decreases s.len(),
{
    if s.len() > 0 {
        assert(s[0] != '$') by {
            assert(s.contains(s[0]));
        }
        assert(!s.drop_first().contains('$')) by {
            if s.drop_first().contains('$') {
                let k = choose|k: int| 0 <= k < s.drop_first().len() && s.drop_first()[k] == '$';
                assert(s[k + 1] == '$');
            }
        }
        law_static_without_vars(s.drop_first(), scopes);
        assert(seq![s[0]] + s.drop_first() =~= s);
    }
}

/// Text without `$` is left as it is by the replacement for a request.
pub proof fn law_request_without_vars(s: Seq<char>, q: RequestV, env: Entries)
    requires
        !s.contains('$'),
    ensures
        spec_replace_vars(s, q, env) == Ok::<Seq<char>, Seq<char>>(s),
    decreases s.len(),
{
    if s.len() > 0 {
        assert(s[0] != '$') by {
            assert(s.contains(s[0]));
        }
        assert(!s.drop_first().contains('$')) by {
            if s.drop_first().contains('$') {
                let k = choose|k: int| 0 <= k < s.drop_first().len() && s.drop_first()[k] == '$';
                assert(s[k + 1] == '$');
            }
        }
        law_request_without_vars(s.drop_first(), q, env);
        assert(seq![s[0]] + s.drop_first() =~= s);
    } else {
        assert(s =~= Seq::<char>::empty());
    }
}

} // verus!
