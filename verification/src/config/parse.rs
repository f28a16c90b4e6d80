//! The configuration language: `set`, `server { ... }` with its `route`s, and
//! `upstream name { ... }`.
use vstd::prelude::*;
use crate::config::{
    Balancing, Config, ConfigV, Content, ContentV, ErrorPages, Route, RouteV, Server, ServerV,
    Upstream, UpstreamV, Upstreams, UriMatcher, strings_view, routes_view,
};
use crate::strmap::{Entries, StrMap, spec_insert};
use crate::config::{assoc_insert};
use crate::text::{spec_parse_i16, spec_parse_u16, spec_parse_u64, parse_i16, parse_u16, parse_u64, str_eq};
use crate::vars::{replace_static_vars, spec_replace_static, scopes_view};
use super::error::{Halt, ParseError, ParseErrorV};
use super::tokenizer::{
    ByteReader, consume_fixed, next_token, newline, is_newline, read_line_tokens, spec_consume,
    spec_line, tok_at,
};

verus! {

// ----------------------------------------------------------------------------
// What reading a configuration gives
// ----------------------------------------------------------------------------

/// One step of a block: the state after a directive, the end of the block,
/// or where reading stops.
pub enum Step<S> {
    Next(S, int),
    Done(S, int),
    Stop(Halt),
}

/// The next token with its variables replaced.
pub open spec fn spec_arg(d: Seq<u8>, p: int, scopes: Seq<Entries>) -> Result<
    (Seq<char>, int),
    ParseErrorV,
> {
    match tok_at(d, p) {
        Ok((t, e)) => Ok((spec_replace_static(t, scopes), e)),
        Err(x) => Err(x),
    }
}

/// `set name value`, the line feed included.
pub open spec fn spec_set(d: Seq<u8>, p: int, scopes: Seq<Entries>) -> Result<
    ((Seq<char>, Seq<char>), int),
    ParseErrorV,
> {
    match spec_arg(d, p, scopes) {
        Err(x) => Err(x),
        Ok((k, p1)) => match spec_arg(d, p1, scopes) {
            Err(x) => Err(x),
            Ok((v, p2)) => match spec_consume(d, p2, newline()) {
                Err(x) => Err(x),
                Ok(p3) => Ok(((k, v), p3)),
            },
        },
    }
}

pub open spec fn empty_entries() -> Entries {
    Seq::empty()
}

pub open spec fn new_route() -> RouteV {
    RouteV {
        uri: Seq::empty(),
        matcher: UriMatcher::Prefix,
        content: None,
        status: None,
        headers: Seq::empty(),
        default_content_type: None,
    }
}

/// `name value` of a header, the line feed included.
pub open spec fn spec_pair(d: Seq<u8>, p: int, scopes: Seq<Entries>) -> Result<
    ((Seq<char>, Seq<char>), int),
    ParseErrorV,
> {
    spec_set(d, p, scopes)
}

/// One directive inside `route ... { }`.
#[verifier::opaque]
pub open spec fn spec_route_step(
    d: Seq<u8>,
    p: int,
    r: RouteV,
    vars: Entries,
    sv: Entries,
    gv: Entries,
) -> Step<(RouteV, Entries)> {
    let sc = seq![vars, sv, gv];
    match tok_at(d, p) {
        Err(x) => Step::Stop(Halt::Error(x)),
        Ok((t, p1)) => if t == "status"@ {
            match spec_arg(d, p1, sc) {
                Err(x) => Step::Stop(Halt::Error(x)),
                Ok((a, p2)) => match spec_parse_i16(a) {
                    Err(k) => Step::Stop(Halt::Error(ParseErrorV::ParseIntError(k))),
                    Ok(v) => match spec_consume(d, p2, newline()) {
                        Err(x) => Step::Stop(Halt::Error(x)),
                        Ok(p3) => if r.status is None {
                            Step::Next((RouteV { status: Some(v as i16), ..r }, vars), p3)
                        } else {
                            Step::Stop(Halt::Error(ParseErrorV::DuplicateField(t)))
                        },
                    },
                },
            }
        } else if t == "nocontent"@ {
            if r.content is None {
                Step::Next((RouteV { content: Some(ContentV::NoContent), ..r }, vars), p1)
            } else {
                Step::Stop(Halt::Error(ParseErrorV::DuplicateContent(r.uri)))
            }
        } else if t == "body"@ || t == "redirect"@ {
            match spec_arg(d, p1, sc) {
                Err(x) => Step::Stop(Halt::Error(x)),
                Ok((a, p2)) => match spec_consume(d, p2, newline()) {
                    Err(x) => Step::Stop(Halt::Error(x)),
                    Ok(p3) => if r.content is None {
                        let c = if t == "body"@ {
                            ContentV::RawData(a)
                        } else {
                            ContentV::Redirect(a)
                        };
                        Step::Next((RouteV { content: Some(c), ..r }, vars), p3)
                    } else {
                        Step::Stop(Halt::Error(ParseErrorV::DuplicateContent(r.uri)))
                    },
                },
            }
        } else if t == "file"@ {
            match spec_line(d, p1) {
                Err(h) => Step::Stop(h),
                Ok((ts, p2)) => {
                    let paths = ts.map_values(|x: Seq<char>| spec_replace_static(x, sc));
                    match r.content {
                        None => Step::Next(
                            (RouteV { content: Some(ContentV::FileAny(paths)), ..r }, vars),
                            p2,
                        ),
                        Some(ContentV::FileAny(fs)) => Step::Next(
                            (RouteV { content: Some(ContentV::FileAny(fs + paths)), ..r }, vars),
                            p2,
                        ),
                        Some(_) => Step::Stop(Halt::Error(ParseErrorV::DuplicateContent(r.uri))),
                    }
                },
            }
        } else if t == "proxy"@ {
            match spec_arg(d, p1, sc) {
                Err(x) => Step::Stop(Halt::Error(x)),
                Ok((a, p2)) => match spec_consume(d, p2, newline()) {
                    Err(x) => Step::Stop(Halt::Error(x)),
                    Ok(p3) => match r.content {
                        None => Step::Next(
                            (
                                RouteV {
                                    content: Some(ContentV::Proxy { uri: a, headers: Seq::empty() }),
                                    ..r
                                },
                                vars,
                            ),
                            p3,
                        ),
                        Some(ContentV::Proxy { uri, headers }) => if uri.len() == 0 {
                            Step::Next(
                                (
                                    RouteV {
                                        content: Some(ContentV::Proxy { uri: a, headers }),
                                        ..r
                                    },
                                    vars,
                                ),
                                p3,
                            )
                        } else {
                            Step::Stop(Halt::Error(ParseErrorV::DuplicateContent(r.uri)))
                        },
                        Some(_) => Step::Stop(Halt::Error(ParseErrorV::DuplicateContent(r.uri))),
                    },
                },
            }
        } else if t == "proxy_header"@ {
            match spec_pair(d, p1, sc) {
                Err(x) => Step::Stop(Halt::Error(x)),
                Ok(((k, v), p2)) => match r.content {
                    None => Step::Next(
                        (
                            RouteV {
                                content: Some(
                                    ContentV::Proxy {
                                        uri: Seq::empty(),
                                        headers: spec_insert(Seq::empty(), k, v),
                                    },
                                ),
                                ..r
                            },
                            vars,
                        ),
                        p2,
                    ),
                    Some(ContentV::Proxy { uri, headers }) => Step::Next(
                        (
                            RouteV {
                                content: Some(
                                    ContentV::Proxy { uri, headers: spec_insert(headers, k, v) },
                                ),
                                ..r
                            },
                            vars,
                        ),
                        p2,
                    ),
                    Some(_) => Step::Stop(Halt::Error(ParseErrorV::DuplicateContent(r.uri))),
                },
            }
        } else if t == "header"@ {
            match spec_pair(d, p1, sc) {
                Err(x) => Step::Stop(Halt::Error(x)),
                Ok(((k, v), p2)) => Step::Next(
                    (RouteV { headers: spec_insert(r.headers, k, v), ..r }, vars),
                    p2,
                ),
            }
        } else if t == "set"@ {
            match spec_set(d, p1, sc) {
                Err(x) => Step::Stop(Halt::Error(x)),
                Ok(((k, v), p2)) => Step::Next((r, spec_insert(vars, k, v)), p2),
            }
        } else if t == newline() {
            Step::Next((r, vars), p1)
        } else if t == "}"@ {
            Step::Done((r, vars), p1)
        } else if t == ""@ {
            Step::Stop(Halt::Error(ParseErrorV::UnexpectedEof))
        } else {
            Step::Stop(Halt::Error(ParseErrorV::UnknownField(t)))
        },
    }
}

/// The directives of a route up to its closing brace.
pub open spec fn spec_route_body(
    d: Seq<u8>,
    p: int,
    r: RouteV,
    vars: Entries,
    sv: Entries,
    gv: Entries,
) -> Result<(RouteV, int), Halt>
    decreases d.len() - p,
{
    match spec_route_step(d, p, r, vars, sv, gv) {
        Step::Stop(h) => Err(h),
        Step::Done((r2, _), e) => Ok((r2, e)),
        Step::Next((r2, v2), e) => if p < e <= d.len() {
            spec_route_body(d, e, r2, v2, sv, gv)
        } else {
            Err(Halt::Endless)
        },
    }
}

/// The matcher named by a route's first word.
pub open spec fn spec_matcher(t: Seq<char>) -> Option<UriMatcher> {
    if t == "="@ {
        Some(UriMatcher::Exact)
    } else if t == "~"@ || t == "~*"@ {
        Some(UriMatcher::Regex)
    } else if t == "^~"@ {
        Some(UriMatcher::PrefixPrioritiesed)
    } else {
        None
    }
}

/// `route [matcher] uri {`: the route's uri and matcher.
pub open spec fn spec_route_head(d: Seq<u8>, p: int, sv: Entries, gv: Entries) -> Result<
    (RouteV, int),
    ParseErrorV,
> {
    let sc = seq![sv, gv];
    match spec_arg(d, p, sc) {
        Err(x) => Err(x),
        Ok((t1, p1)) => match spec_arg(d, p1, sc) {
            Err(x) => Err(x),
            Ok((t2, p2)) => if t2 == "{"@ {
                Ok((RouteV { uri: t1, ..new_route() }, p2))
            } else {
                match spec_matcher(t1) {
                    None => Err(ParseErrorV::UnknownMatcher(t1)),
                    Some(m) => {
                        let uri = if t1 == "~*"@ {
                            "(?i)"@ + t2
                        } else {
                            t2
                        };
                        match spec_consume(d, p2, "{"@) {
                            Err(x) => Err(x),
                            Ok(p3) => Ok((RouteV { uri, matcher: m, ..new_route() }, p3)),
                        }
                    },
                }
            },
        },
    }
}

/// A route head `~* p {` makes a regex route whose pattern is `(?i)`, the
/// flag that makes it ignore letter case, followed by `p`; `~ p {` makes a
/// regex route whose pattern is `p` itself (`star` telling which).
pub proof fn law_regex_route_head(
    d: Seq<u8>,
    p: int,
    sv: Entries,
    gv: Entries,
    star: bool,
    t2: Seq<char>,
    p1: int,
    p2: int,
    p3: int,
)
    requires
        spec_arg(d, p, seq![sv, gv]) == Ok::<(Seq<char>, int), ParseErrorV>(
            (if star { seq!['~', '*'] } else { seq!['~'] }, p1),
        ),
        spec_arg(d, p1, seq![sv, gv]) == Ok::<(Seq<char>, int), ParseErrorV>((t2, p2)),
        t2 != seq!['{'],
        spec_consume(d, p2, seq!['{']) == Ok::<int, ParseErrorV>(p3),
    ensures
        spec_route_head(d, p, sv, gv) matches Ok((r, e)) && e == p3 && r.matcher == UriMatcher::Regex
            && r.uri == (if star { seq!['(', '?', 'i', ')'] + t2 } else { t2 }),
{
    reveal_strlit("~*");
    reveal_strlit("~");
    reveal_strlit("{");
    reveal_strlit("(?i)");
    reveal_strlit("=");
    reveal_strlit("^~");
    assert("~*"@ =~= seq!['~', '*']);
    assert("~"@ =~= seq!['~']);
    assert("{"@ =~= seq!['{']);
    assert("(?i)"@ =~= seq!['(', '?', 'i', ')']);
    assert("="@ != seq!['~', '*'] && "="@ != seq!['~']) by {
        assert("="@[0] == '=');
    }
    assert("^~"@ != seq!['~', '*'] && "^~"@ != seq!['~']) by {
        assert("^~"@[0] == '^');
    }
}

/// The other route heads: `p {` makes a plain prefix route for `p`; `= p {`
/// an exact route and `^~ p {` a prefix route that takes priority, each for
/// `p` itself; any other first word before a pattern is refused as an
/// unknown matcher.
pub proof fn law_route_head_matchers(
    d: Seq<u8>,
    p: int,
    sv: Entries,
    gv: Entries,
    t1: Seq<char>,
    t2: Seq<char>,
    p1: int,
    p2: int,
    p3: int,
)
    requires
        spec_arg(d, p, seq![sv, gv]) == Ok::<(Seq<char>, int), ParseErrorV>((t1, p1)),
        spec_arg(d, p1, seq![sv, gv]) == Ok::<(Seq<char>, int), ParseErrorV>((t2, p2)),
        t2 != seq!['{'] ==> spec_consume(d, p2, seq!['{']) == Ok::<int, ParseErrorV>(p3),
    ensures
        t2 == seq!['{'] ==> (spec_route_head(d, p, sv, gv) matches Ok((r, e)) && e == p2 && r.matcher
            == UriMatcher::Prefix && r.uri == t1),
        t2 != seq!['{'] && t1 == seq!['='] ==> (spec_route_head(d, p, sv, gv) matches Ok((r, e)) && e
            == p3 && r.matcher == UriMatcher::Exact && r.uri == t2),
        t2 != seq!['{'] && t1 == seq!['^', '~'] ==> (spec_route_head(d, p, sv, gv) matches Ok((r, e))
            && e == p3 && r.matcher == UriMatcher::PrefixPrioritiesed && r.uri == t2),
        t2 != seq!['{'] && t1 != seq!['='] && t1 != seq!['^', '~'] && t1 != seq!['~'] && t1 != seq![
            '~',
            '*',
        ] ==> spec_route_head(d, p, sv, gv) == Err::<(RouteV, int), ParseErrorV>(
            ParseErrorV::UnknownMatcher(t1),
        ),
{
    reveal_strlit("~*");
    reveal_strlit("~");
    reveal_strlit("{");
    reveal_strlit("=");
    reveal_strlit("^~");
    assert("~*"@ =~= seq!['~', '*']);
    assert("~"@ =~= seq!['~']);
    assert("{"@ =~= seq!['{']);
    assert("="@ =~= seq!['=']);
    assert("^~"@ =~= seq!['^', '~']);
    if t1 == seq!['='] {
        assert(t1 != "~*"@);
    }
    if t1 == seq!['^', '~'] {
        assert(t1 != "~*"@ && t1 != "="@ && t1 != "~"@);
    }
}

/// A whole `route`, after the word `route`.
pub open spec fn spec_route(d: Seq<u8>, p: int, sv: Entries, gv: Entries) -> Result<
    (RouteV, int),
    Halt,
> {
    match spec_route_head(d, p, sv, gv) {
        Err(x) => Err(Halt::Error(x)),
        Ok((r, p1)) => spec_route_body(d, p1, r, empty_entries(), sv, gv),
    }
}

pub open spec fn new_server() -> ServerV {
    ServerV {
        port: None,
        ip: None,
        domain_names: Seq::empty(),
        is_default: false,
        routes: Seq::empty(),
        header_timeout: None,
        body_timeout: None,
        send_timeout: None,
        cert_path: None,
        keys_path: None,
        error_pages: Seq::empty(),
    }
}

/// A timeout in seconds, read without variables.
pub open spec fn spec_seconds(d: Seq<u8>, p: int) -> Result<(u64, int), ParseErrorV> {
    match tok_at(d, p) {
        Err(x) => Err(x),
        Ok((t, p1)) => match spec_parse_u64(t) {
            Err(k) => Err(ParseErrorV::ParseIntError(k)),
            Ok(v) => Ok((v as u64, p1)),
        },
    }
}

/// One directive inside `server { }`.
#[verifier::opaque]
pub open spec fn spec_server_step(d: Seq<u8>, p: int, s: ServerV, vars: Entries, gv: Entries) -> Step<
    (ServerV, Entries),
> {
    let sc = seq![vars, gv];
    match tok_at(d, p) {
        Err(x) => Step::Stop(Halt::Error(x)),
        Ok((t, p1)) => if t == "port"@ {
            match spec_arg(d, p1, sc) {
                Err(x) => Step::Stop(Halt::Error(x)),
                Ok((a, p2)) => match spec_parse_u16(a) {
                    Err(k) => Step::Stop(Halt::Error(ParseErrorV::ParseIntError(k))),
                    Ok(v) => match spec_consume(d, p2, newline()) {
                        Err(x) => Step::Stop(Halt::Error(x)),
                        Ok(p3) => if s.port is None {
                            Step::Next((ServerV { port: Some(v as u16), ..s }, vars), p3)
                        } else {
                            Step::Stop(Halt::Error(ParseErrorV::DuplicateField(t)))
                        },
                    },
                },
            }
        } else if t == "ip"@ {
            match spec_arg(d, p1, sc) {
                Err(x) => Step::Stop(Halt::Error(x)),
                Ok((a, p2)) => match spec_consume(d, p2, newline()) {
                    Err(x) => Step::Stop(Halt::Error(x)),
                    Ok(p3) => if s.ip is None {
                        Step::Next((ServerV { ip: Some(a), ..s }, vars), p3)
                    } else {
                        Step::Stop(Halt::Error(ParseErrorV::DuplicateField(t)))
                    },
                },
            }
        } else if t == "domain"@ {
            match spec_line(d, p1) {
                Err(h) => Step::Stop(h),
                Ok((ts, p2)) => Step::Next(
                    (ServerV { domain_names: s.domain_names + ts, ..s }, vars),
                    p2,
                ),
            }
        } else if t == "default"@ {
            match spec_consume(d, p1, newline()) {
                Err(x) => Step::Stop(Halt::Error(x)),
                Ok(p2) => if s.is_default {
                    Step::Stop(Halt::Error(ParseErrorV::DuplicateField(t)))
                } else {
                    Step::Next((ServerV { is_default: true, ..s }, vars), p2)
                },
            }
        } else if t == "route"@ {
            match spec_route(d, p1, vars, gv) {
                Err(h) => Step::Stop(h),
                Ok((r, p2)) => match spec_consume(d, p2, newline()) {
                    Err(x) => Step::Stop(Halt::Error(x)),
                    Ok(p3) => Step::Next((ServerV { routes: s.routes.push(r), ..s }, vars), p3),
                },
            }
        } else if t == "header_timeout"@ || t == "body_timeout"@ || t == "send_timeout"@ {
            match spec_seconds(d, p1) {
                Err(x) => Step::Stop(Halt::Error(x)),
                Ok((v, p2)) => if t == "header_timeout"@ {
                    if s.header_timeout is None {
                        Step::Next((ServerV { header_timeout: Some(v), ..s }, vars), p2)
                    } else {
                        Step::Stop(Halt::Error(ParseErrorV::DuplicateField(t)))
                    }
                } else if t == "body_timeout"@ {
                    if s.body_timeout is None {
                        Step::Next((ServerV { body_timeout: Some(v), ..s }, vars), p2)
                    } else {
                        Step::Stop(Halt::Error(ParseErrorV::DuplicateField(t)))
                    }
                } else {
                    if s.send_timeout is None {
                        Step::Next((ServerV { send_timeout: Some(v), ..s }, vars), p2)
                    } else {
                        Step::Stop(Halt::Error(ParseErrorV::DuplicateField(t)))
                    }
                },
            }
        } else if t == "ssl_cert"@ || t == "ssl_keys"@ {
            match tok_at(d, p1) {
                Err(x) => Step::Stop(Halt::Error(x)),
                Ok((a, p2)) => if t == "ssl_cert"@ {
                    if s.cert_path is None {
                        Step::Next((ServerV { cert_path: Some(a), ..s }, vars), p2)
                    } else {
                        Step::Stop(Halt::Error(ParseErrorV::DuplicateField(t)))
                    }
                } else {
                    if s.keys_path is None {
                        Step::Next((ServerV { keys_path: Some(a), ..s }, vars), p2)
                    } else {
                        Step::Stop(Halt::Error(ParseErrorV::DuplicateField(t)))
                    }
                },
            }
        } else if t == "error_page"@ {
            match spec_arg(d, p1, sc) {
                Err(x) => Step::Stop(Halt::Error(x)),
                Ok((a, p2)) => match spec_parse_i16(a) {
                    Err(k) => Step::Stop(Halt::Error(ParseErrorV::ParseIntError(k))),
                    Ok(v) => match spec_arg(d, p2, sc) {
                        Err(x) => Step::Stop(Halt::Error(x)),
                        Ok((page, p3)) => match spec_consume(d, p3, newline()) {
                            Err(x) => Step::Stop(Halt::Error(x)),
                            Ok(p4) => Step::Next(
                                (
                                    ServerV {
                                        error_pages: assoc_insert(s.error_pages, v as i16, page),
                                        ..s
                                    },
                                    vars,
                                ),
                                p4,
                            ),
                        },
                    },
                },
            }
        } else if t == "set"@ {
            match spec_set(d, p1, sc) {
                Err(x) => Step::Stop(Halt::Error(x)),
                Ok(((k, v), p2)) => Step::Next((s, spec_insert(vars, k, v)), p2),
            }
        } else if t == newline() {
            Step::Next((s, vars), p1)
        } else if t == "}"@ {
            Step::Done((s, vars), p1)
        } else if t == ""@ {
            Step::Stop(Halt::Error(ParseErrorV::UnexpectedEof))
        } else {
            Step::Stop(Halt::Error(ParseErrorV::UnknownField(t)))
        },
    }
}

pub open spec fn spec_server_body(d: Seq<u8>, p: int, s: ServerV, vars: Entries, gv: Entries) -> Result<
    (ServerV, int),
    Halt,
>
    decreases d.len() - p,
{
    match spec_server_step(d, p, s, vars, gv) {
        Step::Stop(h) => Err(h),
        Step::Done((s2, _), e) => Ok((s2, e)),
        Step::Next((s2, v2), e) => if p < e <= d.len() {
            spec_server_body(d, e, s2, v2, gv)
        } else {
            Err(Halt::Endless)
        },
    }
}

/// A whole `server { ... }`, after the word `server`: certificate and key
/// paths must come together.
pub open spec fn spec_server(d: Seq<u8>, p: int, gv: Entries) -> Result<(ServerV, int), Halt> {
    match spec_consume(d, p, "{"@) {
        Err(x) => Err(Halt::Error(x)),
        Ok(p1) => match spec_server_body(d, p1, new_server(), empty_entries(), gv) {
            Err(h) => Err(h),
            Ok((s, e)) => if s.cert_path is Some && s.keys_path is None {
                Err(Halt::Error(ParseErrorV::MissingField("key_path"@)))
            } else if s.cert_path is None && s.keys_path is Some {
                Err(Halt::Error(ParseErrorV::MissingField("cert_path"@)))
            } else {
                Ok((s, e))
            },
        },
    }
}

pub open spec fn new_upstream() -> UpstreamV {
    UpstreamV {
        servers: Seq::empty(),
        balancing: None,
        max_fails: None,
        fail_timeout: None,
        connect_timeout: None,
        header_timeout: None,
        body_timeout: None,
        send_timeout: None,
    }
}

pub open spec fn balancing_of(t: Seq<char>) -> Option<Balancing> {
    if t == "round_robin"@ {
        Some(Balancing::RoundRobin)
    } else if t == "least_conn"@ {
        Some(Balancing::LeastConnected)
    } else if t == "ip_hash"@ {
        Some(Balancing::IpHash)
    } else {
        None
    }
}

/// One directive inside `upstream name { }`.
#[verifier::opaque]
pub open spec fn spec_upstream_step(
    d: Seq<u8>,
    p: int,
    name: Seq<char>,
    u: UpstreamV,
    vars: Entries,
    gv: Entries,
) -> Step<(UpstreamV, Entries)> {
    let sc = seq![vars, gv];
    match tok_at(d, p) {
        Err(x) => Step::Stop(Halt::Error(x)),
        Ok((t, p1)) => if t == "server"@ {
            match spec_arg(d, p1, sc) {
                Err(x) => Step::Stop(Halt::Error(x)),
                Ok((a, p2)) => Step::Next((UpstreamV { servers: u.servers.push(a), ..u }, vars), p2),
            }
        } else if balancing_of(t) is Some {
            if u.balancing is None {
                Step::Next((UpstreamV { balancing: balancing_of(t), ..u }, vars), p1)
            } else {
                Step::Stop(Halt::Error(ParseErrorV::DuplicateBalancing(name)))
            }
        } else if t == "connect_timeout"@ || t == "header_timeout"@ || t == "send_timeout"@ {
            match spec_seconds(d, p1) {
                Err(x) => Step::Stop(Halt::Error(x)),
                Ok((v, p2)) => if t == "connect_timeout"@ {
                    if u.connect_timeout is None {
                        Step::Next((UpstreamV { connect_timeout: Some(v), ..u }, vars), p2)
                    } else {
                        Step::Stop(Halt::Error(ParseErrorV::DuplicateField(t)))
                    }
                } else if t == "header_timeout"@ {
                    if u.header_timeout is None {
                        Step::Next((UpstreamV { header_timeout: Some(v), ..u }, vars), p2)
                    } else {
                        Step::Stop(Halt::Error(ParseErrorV::DuplicateField(t)))
                    }
                } else {
                    if u.send_timeout is None {
                        Step::Next((UpstreamV { send_timeout: Some(v), ..u }, vars), p2)
                    } else {
                        Step::Stop(Halt::Error(ParseErrorV::DuplicateField(t)))
                    }
                },
            }
        } else if t == "set"@ {
            match spec_set(d, p1, sc) {
                Err(x) => Step::Stop(Halt::Error(x)),
                Ok(((k, v), p2)) => Step::Next((u, spec_insert(vars, k, v)), p2),
            }
        } else if t == newline() {
            Step::Next((u, vars), p1)
        } else if t == "}"@ {
            Step::Done((u, vars), p1)
        } else if t == ""@ {
            Step::Stop(Halt::Error(ParseErrorV::UnexpectedEof))
        } else {
            Step::Stop(Halt::Error(ParseErrorV::UnknownField(t)))
        },
    }
}

pub open spec fn spec_upstream_body(
    d: Seq<u8>,
    p: int,
    name: Seq<char>,
    u: UpstreamV,
    vars: Entries,
    gv: Entries,
) -> Result<(UpstreamV, int), Halt>
    decreases d.len() - p,
{
    match spec_upstream_step(d, p, name, u, vars, gv) {
        Step::Stop(h) => Err(h),
        Step::Done((u2, _), e) => Ok((u2, e)),
        Step::Next((u2, v2), e) => if p < e <= d.len() {
            spec_upstream_body(d, e, name, u2, v2, gv)
        } else {
            Err(Halt::Endless)
        },
    }
}

/// A whole `upstream name { ... }`, after the word `upstream`.
pub open spec fn spec_upstream(d: Seq<u8>, p: int, gv: Entries) -> Result<
    ((Seq<char>, UpstreamV), int),
    Halt,
> {
    match tok_at(d, p) {
        Err(x) => Err(Halt::Error(x)),
        Ok((name, p1)) => match spec_consume(d, p1, "{"@) {
            Err(x) => Err(Halt::Error(x)),
            Ok(p2) => match spec_upstream_body(d, p2, name, new_upstream(), empty_entries(), gv) {
                Err(h) => Err(h),
                Ok((u, e)) => Ok(((name, u), e)),
            },
        },
    }
}

/// One item at the top level.
#[verifier::opaque]
pub open spec fn spec_config_step(d: Seq<u8>, p: int, c: ConfigV, vars: Entries) -> Step<
    (ConfigV, Entries),
> {
    match tok_at(d, p) {
        Err(x) => Step::Stop(Halt::Error(x)),
        Ok((t, p1)) => if t == "server"@ {
            match spec_server(d, p1, vars) {
                Err(h) => Step::Stop(h),
                Ok((s, p2)) => Step::Next((ConfigV { servers: c.servers.push(s), ..c }, vars), p2),
            }
        } else if t == "upstream"@ {
            match spec_upstream(d, p1, vars) {
                Err(h) => Step::Stop(h),
                Ok(((name, u), p2)) => Step::Next(
                    (ConfigV { upstreams: assoc_insert(c.upstreams, name, u), ..c }, vars),
                    p2,
                ),
            }
        } else if t == "set"@ {
            match spec_set(d, p1, seq![vars]) {
                Err(x) => Step::Stop(Halt::Error(x)),
                Ok(((k, v), p2)) => Step::Next((c, spec_insert(vars, k, v)), p2),
            }
        } else if t == newline() {
            Step::Next((c, vars), p1)
        } else if t == ""@ {
            Step::Done((c, vars), p1)
        } else {
            Step::Stop(Halt::Error(ParseErrorV::UnknownField(t)))
        },
    }
}

pub open spec fn spec_config_from(d: Seq<u8>, p: int, c: ConfigV, vars: Entries) -> Result<
    ConfigV,
    Halt,
>
    decreases d.len() - p,
{
    match spec_config_step(d, p, c, vars) {
        Step::Stop(h) => Err(h),
        Step::Done((c2, _), _) => Ok(c2),
        Step::Next((c2, v2), e) => if p < e <= d.len() {
            spec_config_from(d, e, c2, v2)
        } else {
            Err(Halt::Endless)
        },
    }
}

/// What a whole configuration text reads as.
pub open spec fn spec_config(d: Seq<u8>) -> Result<ConfigV, Halt> {
    spec_config_from(d, 0, ConfigV { servers: Seq::empty(), upstreams: Seq::empty() }, empty_entries())
}

} // verus!

verus! {

// ----------------------------------------------------------------------------
// Reading
// ----------------------------------------------------------------------------

/// The next token with the variables of the scopes replaced.
fn arg(reader: &mut ByteReader, scopes: &[&StrMap]) -> (r: Result<String, ParseError>)
    ensures
        final(reader).data() == old(reader).data(),
        match spec_arg(old(reader).data(), old(reader).pos(), scopes_view(scopes@)) {
            Ok((a, e)) => r matches Ok(s) && s@ == a && final(reader).pos() == e,
            Err(x) => r matches Err(y) && y@ == x,
        },
{
    let t = next_token(reader)?;
    Ok(replace_static_vars(t.as_str(), scopes))
}

/// `set name value`: both words with the variables of the scopes replaced.
fn parse_set(reader: &mut ByteReader, scopes: &[&StrMap]) -> (r: Result<(String, String), ParseError>)
    ensures
        final(reader).data() == old(reader).data(),
        match spec_set(old(reader).data(), old(reader).pos(), scopes_view(scopes@)) {
            Ok(((k, v), e)) => r matches Ok((a, b)) && a@ == k && b@ == v && final(reader).pos() == e,
            Err(x) => r matches Err(y) && y@ == x,
        },
{
    proof {
        lemma_newline_lit();
    }
    let var = arg(reader, scopes)?;
    let value = arg(reader, scopes)?;
    consume_fixed(reader, "\n")?;
    Ok((var, value))
}

proof fn lemma_newline_lit()
    ensures
        "\n"@ == newline(),
{
    reveal_strlit("\n");
    assert("\n"@ =~= newline());
}

fn lift<T>(r: Result<T, ParseError>) -> (o: Result<T, Option<ParseError>>)
    ensures
        match r {
            Ok(v) => o == Ok::<T, Option<ParseError>>(v),
            Err(e) => o == Err::<T, Option<ParseError>>(Some(e)),
        },
{
    match r {
        Ok(v) => Ok(v),
        Err(e) => Err(Some(e)),
    }
}

} // verus!

verus! {

fn new_route_value() -> (r: Route)
    ensures
        r@ == new_route(),
{
    let r = Route {
        uri: String::new(),
        matcher: UriMatcher::Prefix,
        content: None,
        status: None,
        headers: StrMap::new(),
        default_content_type: None,
    };
    assert(r@.headers =~= Seq::<(Seq<char>, Seq<char>)>::empty());
    assert(r@.uri =~= Seq::<char>::empty());
    r
}

/// One directive inside a route.
#[verifier::rlimit(60)]
fn route_step(
    reader: &mut ByteReader,
    route: &mut Route,
    vars: &mut StrMap,
    sv: &StrMap,
    gv: &StrMap,
) -> (r: Result<bool, Option<ParseError>>)
    ensures
        final(reader).data() == old(reader).data(),
        match spec_route_step(old(reader).data(), old(reader).pos(), old(route)@, old(vars)@, sv@, gv@) {
            Step::Next((r2, v2), e) => r == Ok::<bool, Option<ParseError>>(false) && final(route)@ == r2
                && final(vars)@ == v2 && final(reader).pos() == e,
            Step::Done((r2, v2), e) => r == Ok::<bool, Option<ParseError>>(true) && final(route)@ == r2
                && final(vars)@ == v2 && final(reader).pos() == e,
            Step::Stop(Halt::Error(x)) => r matches Err(Some(y)) && y@ == x,
            Step::Stop(Halt::Endless) => r matches Err(None),
        },
{
    proof {
        lemma_newline_lit();
        reveal(spec_route_step);
    }
    let ghost sc = seq![old(vars)@, sv@, gv@];
    let token = lift(next_token(reader))?;
    if str_eq(token.as_str(), "status") {
        let a = {
            let scopes = [&*vars, sv, gv];
            assert(scopes_view(scopes@) =~= sc);
            lift(arg(reader, &scopes))?
        };
        let v = match parse_i16(a.as_str()) {
            Ok(v) => v,
            Err(k) => {
                return Err(Some(ParseError::ParseIntError(k)));
            },
        };
        lift(consume_fixed(reader, "\n"))?;
        if route.status.is_none() {
            route.status = Some(v);
            Ok(false)
        } else {
            Err(Some(ParseError::DuplicateField(token)))
        }
    } else if str_eq(token.as_str(), "nocontent") {
        if route.content.is_none() {
            route.content = Some(Content::NoContent);
            Ok(false)
        } else {
            Err(Some(ParseError::DuplicateContent(route.uri.clone())))
        }
    } else if str_eq(token.as_str(), "body") || str_eq(token.as_str(), "redirect") {
        let a = {
            let scopes = [&*vars, sv, gv];
            assert(scopes_view(scopes@) =~= sc);
            lift(arg(reader, &scopes))?
        };
        lift(consume_fixed(reader, "\n"))?;
        if route.content.is_none() {
            if str_eq(token.as_str(), "body") {
                route.content = Some(Content::RawData(a));
            } else {
                route.content = Some(Content::Redirect(a));
            }
            Ok(false)
        } else {
            Err(Some(ParseError::DuplicateContent(route.uri.clone())))
        }
    } else if str_eq(token.as_str(), "file") {
        let ghost p1 = reader.pos();
        let tokens = read_line_tokens(reader)?;
        let mut paths: Vec<String> = Vec::new();
        let ghost ts = strings_view(tokens@);
        let mut i: usize = 0;
        while i < tokens.len()
            invariant
                i <= tokens@.len(),
                ts == strings_view(tokens@),
                sc == seq![vars@, sv@, gv@],
                strings_view(paths@) =~= ts.take(i as int).map_values(
                    |x: Seq<char>| spec_replace_static(x, sc),
                ),
            decreases tokens@.len() - i,
        {
            let scopes = [&*vars, sv, gv];
            assert(scopes_view(scopes@) =~= sc);
            let p = replace_static_vars(tokens[i].as_str(), &scopes);
            let ghost before = strings_view(paths@);
            let ghost pv1 = p@;
            assert(ts[i as int] == tokens@[i as int]@);
            paths.push(p);
            assert(strings_view(paths@) =~= before.push(pv1));
            i = i + 1;
            assert(ts.take(i as int) =~= ts.take(i - 1).push(ts[i - 1]));
            assert(ts.take(i as int).map_values(|x: Seq<char>| spec_replace_static(x, sc))
                =~= ts.take(i - 1).map_values(|x: Seq<char>| spec_replace_static(x, sc)).push(pv1));
        }
        assert(ts.take(i as int) =~= ts);
        let ghost pv = strings_view(paths@);
        match route.content.take() {
            None => {
                route.content = Some(Content::FileAny(paths));
                Ok(false)
            },
            Some(Content::FileAny(mut files)) => {
                let ghost fv = strings_view(files@);
                files.append(&mut paths);
                assert(strings_view(files@) =~= fv + pv);
                route.content = Some(Content::FileAny(files));
                Ok(false)
            },
            Some(other) => {
                route.content = Some(other);
                Err(Some(ParseError::DuplicateContent(route.uri.clone())))
            },
        }
    } else if str_eq(token.as_str(), "proxy") {
        let a = {
            let scopes = [&*vars, sv, gv];
            assert(scopes_view(scopes@) =~= sc);
            lift(arg(reader, &scopes))?
        };
        lift(consume_fixed(reader, "\n"))?;
        match route.content.take() {
            None => {
                route.content = Some(Content::Proxy { uri: a, headers: StrMap::new() });
                Ok(false)
            },
            Some(Content::Proxy { uri, headers }) => {
                if uri.as_str().is_empty() {
                    route.content = Some(Content::Proxy { uri: a, headers });
                    Ok(false)
                } else {
                    Err(Some(ParseError::DuplicateContent(route.uri.clone())))
                }
            },
            Some(other) => {
                route.content = Some(other);
                Err(Some(ParseError::DuplicateContent(route.uri.clone())))
            },
        }
    } else if str_eq(token.as_str(), "proxy_header") {
        let (k, v) = {
            let scopes = [&*vars, sv, gv];
            assert(scopes_view(scopes@) =~= sc);
            lift(parse_set(reader, &scopes))?
        };
        match route.content.take() {
            None => {
                let mut h = StrMap::new();
                h.insert(k, v);
                route.content = Some(Content::Proxy { uri: String::new(), headers: h });
                Ok(false)
            },
            Some(Content::Proxy { uri, mut headers }) => {
                headers.insert(k, v);
                route.content = Some(Content::Proxy { uri, headers });
                Ok(false)
            },
            Some(other) => {
                route.content = Some(other);
                Err(Some(ParseError::DuplicateContent(route.uri.clone())))
            },
        }
    } else if str_eq(token.as_str(), "header") {
        let (k, v) = {
            let scopes = [&*vars, sv, gv];
            assert(scopes_view(scopes@) =~= sc);
            lift(parse_set(reader, &scopes))?
        };
        route.headers.insert(k, v);
        Ok(false)
    } else if str_eq(token.as_str(), "set") {
        let (k, v) = {
            let scopes = [&*vars, sv, gv];
            assert(scopes_view(scopes@) =~= sc);
            lift(parse_set(reader, &scopes))?
        };
        vars.insert(k, v);
        Ok(false)
    } else if is_newline(&token) {
        Ok(false)
    } else if str_eq(token.as_str(), "}") {
        Ok(true)
    } else if str_eq(token.as_str(), "") {
        Err(Some(ParseError::UnexpectedEof))
    } else {
        Err(Some(ParseError::UnknownField(token)))
    }
}

} // verus!

verus! {

/// `route [matcher] uri {`.
fn route_head(reader: &mut ByteReader, gv: &StrMap, sv: &StrMap) -> (r: Result<Route, ParseError>)
    ensures
        final(reader).data() == old(reader).data(),
        match spec_route_head(old(reader).data(), old(reader).pos(), sv@, gv@) {
            Ok((rv, e)) => r matches Ok(x) && x@ == rv && final(reader).pos() == e,
            Err(x) => r matches Err(y) && y@ == x,
        },
{
    let scopes = [sv, gv];
    assert(scopes_view(scopes@) =~= seq![sv@, gv@]);
    let token1 = arg(reader, &scopes)?;
    let token2 = arg(reader, &scopes)?;
    let mut route = new_route_value();
    if str_eq(token2.as_str(), "{") {
        route.uri = token1;
    } else {
        route.matcher = if str_eq(token1.as_str(), "=") {
            UriMatcher::Exact
        } else if str_eq(token1.as_str(), "~") || str_eq(token1.as_str(), "~*") {
            UriMatcher::Regex
        } else if str_eq(token1.as_str(), "^~") {
            UriMatcher::PrefixPrioritiesed
        } else {
            return Err(ParseError::UnknownMatcher(token1));
        };
        if str_eq(token1.as_str(), "~*") {
            let mut u = crate::text::chars_of("(?i)");
            crate::text::push_str(&mut u, token2.as_str());
            route.uri = crate::text::string_from_chars(u.as_slice());
        } else {
            route.uri = token2;
        }
        consume_fixed(reader, "{")?;
    }
    Ok(route)
}

/// Reads a route after the word `route`: its head, then its directives up to
/// the closing brace. `sv` are the server's variables, `gv` the global ones.
pub(crate) fn parse_route(reader: &mut ByteReader, gv: &StrMap, sv: &StrMap) -> (r: Result<
    Route,
    Option<ParseError>,
>)
    ensures
        final(reader).data() == old(reader).data(),
        match spec_route(old(reader).data(), old(reader).pos(), sv@, gv@) {
            Ok((rv, e)) => r matches Ok(x) && x@ == rv && final(reader).pos() == e,
            Err(Halt::Error(x)) => r matches Err(Some(y)) && y@ == x,
            Err(Halt::Endless) => r matches Err(None),
        },
{
    let mut route = lift(route_head(reader, gv, sv))?;
    let mut vars = StrMap::new();
    let ghost d = reader.data();
    let ghost goal = spec_route(old(reader).data(), old(reader).pos(), sv@, gv@);
    assert(vars@ =~= empty_entries());
    loop
        invariant
            reader.data() == d,
            d == old(reader).data(),
            goal == spec_route(old(reader).data(), old(reader).pos(), sv@, gv@),
            goal == spec_route_body(d, reader.pos(), route@, vars@, sv@, gv@),
        decreases d.len() - reader.pos(),
    {
        let p = reader.position();
        let done = route_step(reader, &mut route, &mut vars, sv, gv)?;
        if done {
            return Ok(route);
        }
        let q = reader.position();
        if q <= p {
            return Err(None);
        }
    }
}

} // verus!

verus! {

fn new_server_value() -> (s: Server)
    ensures
        s@ == new_server(),
{
    let s = Server {
        port: None,
        ip: None,
        domain_names: Vec::new(),
        is_default: false,
        routes: Vec::new(),
        header_timeout: None,
        body_timeout: None,
        send_timeout: None,
        cert_path: None,
        keys_path: None,
        error_pages: ErrorPages::new(),
    };
    assert(s@.domain_names =~= Seq::<Seq<char>>::empty());
    assert(s@.routes =~= Seq::<RouteV>::empty());
    s
}

/// A timeout in seconds.
fn seconds(reader: &mut ByteReader) -> (r: Result<u64, ParseError>)
    ensures
        final(reader).data() == old(reader).data(),
        match spec_seconds(old(reader).data(), old(reader).pos()) {
            Ok((v, e)) => r == Ok::<u64, ParseError>(v) && final(reader).pos() == e,
            Err(x) => r matches Err(y) && y@ == x,
        },
{
    let t = next_token(reader)?;
    match parse_u64(t.as_str()) {
        Ok(v) => Ok(v),
        Err(k) => Err(ParseError::ParseIntError(k)),
    }
}

/// One directive inside a server.
#[verifier::rlimit(80)]
fn server_step(reader: &mut ByteReader, server: &mut Server, vars: &mut StrMap, gv: &StrMap) -> (r: Result<
    bool,
    Option<ParseError>,
>)
    ensures
        final(reader).data() == old(reader).data(),
        match spec_server_step(old(reader).data(), old(reader).pos(), old(server)@, old(vars)@, gv@) {
            Step::Next((s2, v2), e) => r == Ok::<bool, Option<ParseError>>(false) && final(server)@ == s2
                && final(vars)@ == v2 && final(reader).pos() == e,
            Step::Done((s2, v2), e) => r == Ok::<bool, Option<ParseError>>(true) && final(server)@ == s2
                && final(vars)@ == v2 && final(reader).pos() == e,
            Step::Stop(Halt::Error(x)) => r matches Err(Some(y)) && y@ == x,
            Step::Stop(Halt::Endless) => r matches Err(None),
        },
{
    proof {
        lemma_newline_lit();
        reveal(spec_server_step);
    }
    let ghost sc = seq![old(vars)@, gv@];
    let token = lift(next_token(reader))?;
    if str_eq(token.as_str(), "port") {
        let a = {
            let scopes = [&*vars, gv];
            assert(scopes_view(scopes@) =~= sc);
            lift(arg(reader, &scopes))?
        };
        let v = match parse_u16(a.as_str()) {
            Ok(v) => v,
            Err(k) => {
                return Err(Some(ParseError::ParseIntError(k)));
            },
        };
        lift(consume_fixed(reader, "\n"))?;
        if server.port.is_none() {
            server.port = Some(v);
            Ok(false)
        } else {
            Err(Some(ParseError::DuplicateField(token)))
        }
    } else if str_eq(token.as_str(), "ip") {
        let a = {
            let scopes = [&*vars, gv];
            assert(scopes_view(scopes@) =~= sc);
            lift(arg(reader, &scopes))?
        };
        lift(consume_fixed(reader, "\n"))?;
        if server.ip.is_none() {
            server.ip = Some(a);
            Ok(false)
        } else {
            Err(Some(ParseError::DuplicateField(token)))
        }
    } else if str_eq(token.as_str(), "domain") {
        let mut domains = read_line_tokens(reader)?;
        let ghost before = strings_view(server.domain_names@);
        let ghost dv = strings_view(domains@);
        server.domain_names.append(&mut domains);
        assert(strings_view(server.domain_names@) =~= before + dv);
        Ok(false)
    } else if str_eq(token.as_str(), "default") {
        lift(consume_fixed(reader, "\n"))?;
        if server.is_default {
            Err(Some(ParseError::DuplicateField(token)))
        } else {
            server.is_default = true;
            Ok(false)
        }
    } else if str_eq(token.as_str(), "route") {
        let route = parse_route(reader, gv, &*vars)?;
        lift(consume_fixed(reader, "\n"))?;
        let ghost before = routes_view(server.routes@);
        let ghost rv = route@;
        server.routes.push(route);
        assert(routes_view(server.routes@) =~= before.push(rv));
        Ok(false)
    } else if str_eq(token.as_str(), "header_timeout") || str_eq(token.as_str(), "body_timeout")
        || str_eq(token.as_str(), "send_timeout") {
        let v = lift(seconds(reader))?;
        if str_eq(token.as_str(), "header_timeout") {
            if server.header_timeout.is_none() {
                server.header_timeout = Some(v);
                Ok(false)
            } else {
                Err(Some(ParseError::DuplicateField(token)))
            }
        } else if str_eq(token.as_str(), "body_timeout") {
            if server.body_timeout.is_none() {
                server.body_timeout = Some(v);
                Ok(false)
            } else {
                Err(Some(ParseError::DuplicateField(token)))
            }
        } else {
            if server.send_timeout.is_none() {
                server.send_timeout = Some(v);
                Ok(false)
            } else {
                Err(Some(ParseError::DuplicateField(token)))
            }
        }
    } else if str_eq(token.as_str(), "ssl_cert") || str_eq(token.as_str(), "ssl_keys") {
        let a = lift(next_token(reader))?;
        if str_eq(token.as_str(), "ssl_cert") {
            if server.cert_path.is_none() {
                server.cert_path = Some(a);
                Ok(false)
            } else {
                Err(Some(ParseError::DuplicateField(token)))
            }
        } else {
            if server.keys_path.is_none() {
                server.keys_path = Some(a);
                Ok(false)
            } else {
                Err(Some(ParseError::DuplicateField(token)))
            }
        }
    } else if str_eq(token.as_str(), "error_page") {
        let (a, page) = {
            let scopes = [&*vars, gv];
            assert(scopes_view(scopes@) =~= sc);
            let a = lift(arg(reader, &scopes))?;
            let status = match parse_i16(a.as_str()) {
                Ok(v) => v,
                Err(k) => {
                    return Err(Some(ParseError::ParseIntError(k)));
                },
            };
            let page = lift(arg(reader, &scopes))?;
            (status, page)
        };
        lift(consume_fixed(reader, "\n"))?;
        server.error_pages.insert(a, page);
        Ok(false)
    } else if str_eq(token.as_str(), "set") {
        let (k, v) = {
            let scopes = [&*vars, gv];
            assert(scopes_view(scopes@) =~= sc);
            lift(parse_set(reader, &scopes))?
        };
        vars.insert(k, v);
        Ok(false)
    } else if is_newline(&token) {
        Ok(false)
    } else if str_eq(token.as_str(), "}") {
        Ok(true)
    } else if str_eq(token.as_str(), "") {
        Err(Some(ParseError::UnexpectedEof))
    } else {
        Err(Some(ParseError::UnknownField(token)))
    }
}

/// The directives of a server up to its closing brace.
fn server_body(reader: &mut ByteReader, gv: &StrMap) -> (r: Result<Server, Option<ParseError>>)
    ensures
        final(reader).data() == old(reader).data(),
        match spec_server_body(old(reader).data(), old(reader).pos(), new_server(), empty_entries(), gv@) {
            Ok((sv, e)) => r matches Ok(x) && x@ == sv && final(reader).pos() == e,
            Err(Halt::Error(x)) => r matches Err(Some(y)) && y@ == x,
            Err(Halt::Endless) => r matches Err(None),
        },
{
    let mut server = new_server_value();
    let mut vars = StrMap::new();
    let ghost d = reader.data();
    assert(vars@ =~= empty_entries());
    loop
        invariant
            reader.data() == d,
            d == old(reader).data(),
            spec_server_body(d, old(reader).pos(), new_server(), empty_entries(), gv@)
                == spec_server_body(d, reader.pos(), server@, vars@, gv@),
        decreases d.len() - reader.pos(),
    {
        let p = reader.position();
        let done = server_step(reader, &mut server, &mut vars, gv)?;
        if done {
            return Ok(server);
        }
        let q = reader.position();
        if q <= p {
            return Err(None);
        }
    }
}

/// Reads a server after the word `server`: `{`, its directives, `}`.
/// `gv` are the global variables.
pub(crate) fn parse_server_config(reader: &mut ByteReader, gv: &StrMap) -> (r: Result<
    Server,
    Option<ParseError>,
>)
    ensures
        final(reader).data() == old(reader).data(),
        match spec_server(old(reader).data(), old(reader).pos(), gv@) {
            Ok((sv, e)) => r matches Ok(x) && x@ == sv && final(reader).pos() == e,
            Err(Halt::Error(x)) => r matches Err(Some(y)) && y@ == x,
            Err(Halt::Endless) => r matches Err(None),
        },
{
    lift(consume_fixed(reader, "{"))?;
    let server = server_body(reader, gv)?;
    if server.cert_path.is_some() && server.keys_path.is_none() {
        return Err(Some(ParseError::MissingField("key_path".to_owned())));
    } else if server.cert_path.is_none() && server.keys_path.is_some() {
        return Err(Some(ParseError::MissingField("cert_path".to_owned())));
    }
    Ok(server)
}

} // verus!

verus! {

fn new_upstream_value() -> (u: Upstream)
    ensures
        u@ == new_upstream(),
{
    let u = Upstream {
        servers: Vec::new(),
        balancing: None,
        max_fails: None,
        fail_timeout: None,
        connect_timeout: None,
        header_timeout: None,
        body_timeout: None,
        send_timeout: None,
    };
    assert(u@.servers =~= Seq::<Seq<char>>::empty());
    u
}

fn balancing_named(t: &str) -> (r: Option<Balancing>)
    ensures
        r == balancing_of(t@),
{
    if str_eq(t, "round_robin") {
        Some(Balancing::RoundRobin)
    } else if str_eq(t, "least_conn") {
        Some(Balancing::LeastConnected)
    } else if str_eq(t, "ip_hash") {
        Some(Balancing::IpHash)
    } else {
        None
    }
}

/// One directive inside an upstream.
#[verifier::rlimit(60)]
fn upstream_step(
    reader: &mut ByteReader,
    name: &String,
    upstream: &mut Upstream,
    vars: &mut StrMap,
    gv: &StrMap,
) -> (r: Result<bool, Option<ParseError>>)
    ensures
        final(reader).data() == old(reader).data(),
        match spec_upstream_step(old(reader).data(), old(reader).pos(), name@, old(upstream)@, old(vars)@, gv@) {
            Step::Next((u2, v2), e) => r == Ok::<bool, Option<ParseError>>(false) && final(upstream)@ == u2
                && final(vars)@ == v2 && final(reader).pos() == e,
            Step::Done((u2, v2), e) => r == Ok::<bool, Option<ParseError>>(true) && final(upstream)@ == u2
                && final(vars)@ == v2 && final(reader).pos() == e,
            Step::Stop(Halt::Error(x)) => r matches Err(Some(y)) && y@ == x,
            Step::Stop(Halt::Endless) => r matches Err(None),
        },
{
    proof {
        lemma_newline_lit();
        reveal(spec_upstream_step);
    }
    let ghost sc = seq![old(vars)@, gv@];
    let token = lift(next_token(reader))?;
    if str_eq(token.as_str(), "server") {
        let a = {
            let scopes = [&*vars, gv];
            assert(scopes_view(scopes@) =~= sc);
            lift(arg(reader, &scopes))?
        };
        let ghost before = strings_view(upstream.servers@);
        let ghost av = a@;
        upstream.servers.push(a);
        assert(strings_view(upstream.servers@) =~= before.push(av));
        Ok(false)
    } else if let Some(b) = balancing_named(token.as_str()) {
        if upstream.balancing.is_none() {
            upstream.balancing = Some(b);
            Ok(false)
        } else {
            Err(Some(ParseError::DuplicateBalancing(name.clone())))
        }
    } else if str_eq(token.as_str(), "connect_timeout") || str_eq(token.as_str(), "header_timeout")
        || str_eq(token.as_str(), "send_timeout") {
        let v = lift(seconds(reader))?;
        if str_eq(token.as_str(), "connect_timeout") {
            if upstream.connect_timeout.is_none() {
                upstream.connect_timeout = Some(v);
                Ok(false)
            } else {
                Err(Some(ParseError::DuplicateField(token)))
            }
        } else if str_eq(token.as_str(), "header_timeout") {
            if upstream.header_timeout.is_none() {
                upstream.header_timeout = Some(v);
                Ok(false)
            } else {
                Err(Some(ParseError::DuplicateField(token)))
            }
        } else {
            if upstream.send_timeout.is_none() {
                upstream.send_timeout = Some(v);
                Ok(false)
            } else {
                Err(Some(ParseError::DuplicateField(token)))
            }
        }
    } else if str_eq(token.as_str(), "set") {
        let (k, v) = {
            let scopes = [&*vars, gv];
            assert(scopes_view(scopes@) =~= sc);
            lift(parse_set(reader, &scopes))?
        };
        vars.insert(k, v);
        Ok(false)
    } else if is_newline(&token) {
        Ok(false)
    } else if str_eq(token.as_str(), "}") {
        Ok(true)
    } else if str_eq(token.as_str(), "") {
        Err(Some(ParseError::UnexpectedEof))
    } else {
        Err(Some(ParseError::UnknownField(token)))
    }
}

fn upstream_body(reader: &mut ByteReader, name: &String, gv: &StrMap) -> (r: Result<
    Upstream,
    Option<ParseError>,
>)
    ensures
        final(reader).data() == old(reader).data(),
        match spec_upstream_body(old(reader).data(), old(reader).pos(), name@, new_upstream(), empty_entries(), gv@) {
            Ok((u, e)) => r matches Ok(x) && x@ == u && final(reader).pos() == e,
            Err(Halt::Error(x)) => r matches Err(Some(y)) && y@ == x,
            Err(Halt::Endless) => r matches Err(None),
        },
{
    let mut upstream = new_upstream_value();
    let mut vars = StrMap::new();
    let ghost d = reader.data();
    assert(vars@ =~= empty_entries());
    loop
        invariant
            reader.data() == d,
            d == old(reader).data(),
            spec_upstream_body(d, old(reader).pos(), name@, new_upstream(), empty_entries(), gv@)
                == spec_upstream_body(d, reader.pos(), name@, upstream@, vars@, gv@),
        decreases d.len() - reader.pos(),
    {
        let p = reader.position();
        let done = upstream_step(reader, name, &mut upstream, &mut vars, gv)?;
        if done {
            return Ok(upstream);
        }
        let q = reader.position();
        if q <= p {
            return Err(None);
        }
    }
}

fn upstream_config(reader: &mut ByteReader, gv: &StrMap) -> (r: Result<
    (String, Upstream),
    Option<ParseError>,
>)
    ensures
        final(reader).data() == old(reader).data(),
        match spec_upstream(old(reader).data(), old(reader).pos(), gv@) {
            Ok(((n, u), e)) => r matches Ok((a, b)) && a@ == n && b@ == u && final(reader).pos() == e,
            Err(Halt::Error(x)) => r matches Err(Some(y)) && y@ == x,
            Err(Halt::Endless) => r matches Err(None),
        },
{
    let name = lift(next_token(reader))?;
    lift(consume_fixed(reader, "{"))?;
    let upstream = upstream_body(reader, &name, gv)?;
    Ok((name, upstream))
}

/// `parse_upstream_config` on any input: `None` where the input ends inside
/// a line that is read to its end, so that the reader could never finish.
pub fn try_parse_upstream_config(reader: &mut ByteReader, global_vars: &StrMap) -> (r: Option<
    Result<(String, Upstream), ParseError>,
>)
    ensures
        final(reader).data() == old(reader).data(),
        match spec_upstream(old(reader).data(), old(reader).pos(), global_vars@) {
            Ok(((n, u), e)) => r matches Some(Ok((a, b))) && a@ == n && b@ == u && final(reader).pos() == e,
            Err(Halt::Error(x)) => r matches Some(Err(y)) && y@ == x,
            Err(Halt::Endless) => r is None,
        },
{
    match upstream_config(reader, global_vars) {
        Ok(v) => Some(Ok(v)),
        Err(Some(e)) => Some(Err(e)),
        Err(None) => None,
    }
}

/// Reads an upstream group after the word `upstream`: its name, `{`, its
/// directives (`server`, a balancing mode, timeouts, `set`), `}`.
/// `global_vars` are the variables set at the top level. Requires that the
/// input does not end inside a line that is read to its end (see
/// `try_parse_upstream_config`).
pub fn parse_upstream_config(reader: &mut ByteReader, global_vars: &StrMap) -> (r: Result<
    (String, Upstream),
    ParseError,
>)
    requires
        !(spec_upstream(old(reader).data(), old(reader).pos(), global_vars@) matches Err(Halt::Endless)),
    ensures
        final(reader).data() == old(reader).data(),
        match spec_upstream(old(reader).data(), old(reader).pos(), global_vars@) {
            Ok(((n, u), e)) => r matches Ok((a, b)) && a@ == n && b@ == u && final(reader).pos() == e,
            Err(Halt::Error(x)) => r matches Err(y) && y@ == x,
            Err(Halt::Endless) => false,
        },
{
    match upstream_config(reader, global_vars) {
        Ok(v) => Ok(v),
        Err(Some(e)) => Err(e),
        Err(None) => Err(ParseError::UnexpectedEof),
    }
}

fn config_step(reader: &mut ByteReader, config: &mut Config, vars: &mut StrMap) -> (r: Result<
    bool,
    Option<ParseError>,
>)
    ensures
        final(reader).data() == old(reader).data(),
        match spec_config_step(old(reader).data(), old(reader).pos(), old(config)@, old(vars)@) {
            Step::Next((c2, v2), e) => r == Ok::<bool, Option<ParseError>>(false) && final(config)@ == c2
                && final(vars)@ == v2 && final(reader).pos() == e,
            Step::Done((c2, v2), _) => r == Ok::<bool, Option<ParseError>>(true) && final(config)@ == c2
                && final(vars)@ == v2,
            Step::Stop(Halt::Error(x)) => r matches Err(Some(y)) && y@ == x,
            Step::Stop(Halt::Endless) => r matches Err(None),
        },
{
    proof {
        lemma_newline_lit();
        reveal(spec_config_step);
    }
    let token = lift(next_token(reader))?;
    if str_eq(token.as_str(), "server") {
        let server = parse_server_config(reader, &*vars)?;
        let ghost before = config@.servers;
        let ghost sv = server@;
        config.servers.push(server);
        assert(config@.servers =~= before.push(sv));
        Ok(false)
    } else if str_eq(token.as_str(), "upstream") {
        let (name, upstream) = upstream_config(reader, &*vars)?;
        config.upstreams.insert(name, upstream);
        Ok(false)
    } else if str_eq(token.as_str(), "set") {
        let (k, v) = {
            let scopes = [&*vars];
            assert(scopes_view(scopes@) =~= seq![old(vars)@]);
            lift(parse_set(reader, &scopes))?
        };
        vars.insert(k, v);
        Ok(false)
    } else if is_newline(&token) {
        Ok(false)
    } else if str_eq(token.as_str(), "") {
        Ok(true)
    } else {
        Err(Some(ParseError::UnknownField(token)))
    }
}

fn config_from(reader: &mut ByteReader) -> (r: Result<Config, Option<ParseError>>)
    requires
        old(reader).pos() == 0,
    ensures
        match spec_config(old(reader).data()) {
            Ok(c) => r matches Ok(x) && x@ == c,
            Err(Halt::Error(x)) => r matches Err(Some(y)) && y@ == x,
            Err(Halt::Endless) => r matches Err(None),
        },
{
    let mut config = Config { servers: Vec::new(), upstreams: Upstreams::new() };
    let mut vars = StrMap::new();
    let ghost d = reader.data();
    assert(vars@ =~= empty_entries());
    assert(config@.servers =~= Seq::<ServerV>::empty());
    assert(config@ == ConfigV { servers: Seq::empty(), upstreams: Seq::empty() });
    loop
        invariant
            reader.data() == d,
            d == old(reader).data(),
            spec_config(d) == spec_config_from(d, reader.pos(), config@, vars@),
        decreases d.len() - reader.pos(),
    {
        let p = reader.position();
        let done = config_step(reader, &mut config, &mut vars)?;
        if done {
            return Ok(config);
        }
        let q = reader.position();
        if q <= p {
            return Err(None);
        }
    }
}

/// Reads a whole configuration. Gives `None` on a text whose reading the
/// reader could never finish: one that ends inside a `file` or `domain` line.
pub fn try_parse_config(data: Vec<u8>) -> (r: Option<Result<Config, ParseError>>)
    ensures
        match spec_config(data@) {
            Ok(c) => r matches Some(Ok(x)) && x@ == c,
            Err(Halt::Error(x)) => r matches Some(Err(y)) && y@ == x,
            Err(Halt::Endless) => r is None,
        },
{
    let mut reader = ByteReader::new(data);
    match config_from(&mut reader) {
        Ok(c) => Some(Ok(c)),
        Err(Some(e)) => Some(Err(e)),
        Err(None) => None,
    }
}

/// Reads a whole configuration: top-level `set`s, `server` blocks and
/// `upstream` blocks, until the input ends. Requires a text whose reading
/// finishes (see `try_parse_config`).
pub fn parse_config(data: Vec<u8>) -> (r: Result<Config, ParseError>)
    requires
        !(spec_config(data@) matches Err(Halt::Endless)),
    ensures
        match spec_config(data@) {
            Ok(c) => r matches Ok(x) && x@ == c,
            Err(Halt::Error(x)) => r matches Err(y) && y@ == x,
            Err(Halt::Endless) => false,
        },
{
    match try_parse_config(data) {
        Some(r) => r,
        None => Err(ParseError::UnexpectedEof),
    }
}

} // verus!
