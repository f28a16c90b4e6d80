//! Answering a connection: which server and route take a request, what the
//! route answers with, and which status an error becomes. Reading files,
//! talking to upstream servers and the sockets themselves are left to the
//! caller, which hands the outcomes back.
use vstd::prelude::*;
use crate::config::{Server, ServerGroup, ServerV, ContentV, RouteV, Content};
use crate::strmap::{Entries, StrMap, spec_get, spec_insert, insert_all};
use crate::text::{
    is_suffix, str_ends_with, chars_of, chars_range, chars_find, find_char, string_from_chars,
    push_str, push_utf8, str_eq, prefix_chars, byte_prefix_chars, lemma_prefix_chars_fits,
};
use crate::http::{ParseError, Request, RequestV, Response, ResponseV};
use crate::http::error::ParseErrorV;
use crate::uri::{self, Uri, UriV, uri_path, uri_host, uri_wf, spec_parse_uri, try_parse_uri};
use crate::route_matching::{Match, spec_find_route, regexes_compile, try_find_matching_route};
use vstd::utf8::*;
use crate::vars::{VarError, replace_vars, replace_dynamic_vars_headers, spec_replace_vars, spec_replace_headers};
use crate::proxy::ProxyError;

verus! {

// ----------------------------------------------------------------------------
// Content types
// ----------------------------------------------------------------------------

/// What a served file holds, as told by its name.
#[derive(Debug, Clone, Copy, PartialEq, Eq, Structural)]
pub enum ContentType {
    Unknown,
    Html,
    Css,
    Js,
    Json,
    Xml,
}

/// The type of a file by the end of its path.
pub open spec fn type_by_path(p: Seq<char>) -> ContentType {
    if is_suffix(".html"@, p) || is_suffix(".htm"@, p) {
        ContentType::Html
    } else if is_suffix(".css"@, p) {
        ContentType::Css
    } else if is_suffix(".js"@, p) {
        ContentType::Js
    } else if is_suffix(".json"@, p) {
        ContentType::Json
    } else if is_suffix(".xml"@, p) {
        ContentType::Xml
    } else {
        ContentType::Unknown
    }
}

/// The MIME type sent for a content type.
pub open spec fn mime(t: ContentType) -> Option<Seq<char>> {
    match t {
        ContentType::Html => Some("text/html"@),
        ContentType::Css => Some("text/css"@),
        ContentType::Js => Some("application/javascript"@),
        ContentType::Json => Some("application/json"@),
        ContentType::Xml => Some("application/xml"@),
        ContentType::Unknown => None,
    }
}

/// Whether `p` ends with the text `e`.
pub open spec fn ends_with(p: Seq<char>, e: Seq<char>) -> bool {
    e.len() <= p.len() && forall|k: int| 0 <= k < e.len() ==> p[p.len() - e.len() + k] == #[trigger] e[k]
}

/// A file is sent with the MIME type its extension names: `.html` and
/// `.htm` as `text/html`, `.css` as `text/css`, `.js` as
/// `application/javascript`, `.json` as `application/json`, `.xml` as
/// `application/xml`; any other path with none.
pub proof fn law_mime_by_extension(p: Seq<char>)
    ensures
        ends_with(p, seq!['.', 'h', 't', 'm', 'l']) || ends_with(p, seq!['.', 'h', 't', 'm']) ==> mime(
            type_by_path(p),
        ) == Some("text/html"@),
        ends_with(p, seq!['.', 'c', 's', 's']) ==> mime(type_by_path(p)) == Some("text/css"@),
        ends_with(p, seq!['.', 'j', 's']) ==> mime(type_by_path(p)) == Some("application/javascript"@),
        ends_with(p, seq!['.', 'j', 's', 'o', 'n']) ==> mime(type_by_path(p)) == Some("application/json"@),
        ends_with(p, seq!['.', 'x', 'm', 'l']) ==> mime(type_by_path(p)) == Some("application/xml"@),
        !ends_with(p, seq!['.', 'h', 't', 'm', 'l']) && !ends_with(p, seq!['.', 'h', 't', 'm'])
            && !ends_with(p, seq!['.', 'c', 's', 's']) && !ends_with(p, seq!['.', 'j', 's'])
            && !ends_with(p, seq!['.', 'j', 's', 'o', 'n']) && !ends_with(p, seq!['.', 'x', 'm', 'l'])
            ==> mime(type_by_path(p)) is None,
{
    reveal_strlit(".html");
    reveal_strlit(".htm");
    reveal_strlit(".css");
    reveal_strlit(".js");
    reveal_strlit(".json");
    reveal_strlit(".xml");
    assert(".html"@ =~= seq!['.', 'h', 't', 'm', 'l']);
    lemma_suffix_is(p, ".html"@, seq!['.', 'h', 't', 'm', 'l']);
    assert(".htm"@ =~= seq!['.', 'h', 't', 'm']);
    lemma_suffix_is(p, ".htm"@, seq!['.', 'h', 't', 'm']);
    assert(".css"@ =~= seq!['.', 'c', 's', 's']);
    lemma_suffix_is(p, ".css"@, seq!['.', 'c', 's', 's']);
    assert(".js"@ =~= seq!['.', 'j', 's']);
    lemma_suffix_is(p, ".js"@, seq!['.', 'j', 's']);
    assert(".json"@ =~= seq!['.', 'j', 's', 'o', 'n']);
    lemma_suffix_is(p, ".json"@, seq!['.', 'j', 's', 'o', 'n']);
    assert(".xml"@ =~= seq!['.', 'x', 'm', 'l']);
    lemma_suffix_is(p, ".xml"@, seq!['.', 'x', 'm', 'l']);
    let n = p.len() as int;
    if ends_with(p, seq!['.', 'h', 't', 'm', 'l']) {
        assert(p[n - 1] == 'l');
    }
    if ends_with(p, seq!['.', 'h', 't', 'm']) {
        assert(p[n - 1] == 'm');
    }
    if ends_with(p, seq!['.', 'c', 's', 's']) {
        assert(p[n - 1] == 's' && p[n - 2] == 's');
    }
    if ends_with(p, seq!['.', 'j', 's']) {
        assert(p[n - 1] == 's' && p[n - 2] == 'j');
    }
    if ends_with(p, seq!['.', 'j', 's', 'o', 'n']) {
        assert(p[n - 1] == 'n');
    }
    if ends_with(p, seq!['.', 'x', 'm', 'l']) {
        assert(p[n - 1] == 'l' && p[n - 2] == 'm' && p[n - 3] == 'x');
    }
}

/// `is_suffix` of a literal is `ends_with` of its characters.
proof fn lemma_suffix_is(p: Seq<char>, lit: Seq<char>, e: Seq<char>)
    requires
        lit == e,
    ensures
        is_suffix(lit, p) == ends_with(p, e),
{
    if ends_with(p, e) {
        assert(p.skip(p.len() - e.len()) =~= e);
    }
    if is_suffix(lit, p) {
        assert forall|k: int| 0 <= k < e.len() implies p[p.len() - e.len() + k] == #[trigger] e[k] by {
            assert(p.skip(p.len() - e.len())[k] == e[k]);
        }
    }
}

impl ContentType {
    pub fn by_path(path: &str) -> (r: ContentType)
        ensures
            r == type_by_path(path@),
    {
        if str_ends_with(path, ".html") || str_ends_with(path, ".htm") {
            ContentType::Html
        } else if str_ends_with(path, ".css") {
            ContentType::Css
        } else if str_ends_with(path, ".js") {
            ContentType::Js
        } else if str_ends_with(path, ".json") {
            ContentType::Json
        } else if str_ends_with(path, ".xml") {
            ContentType::Xml
        } else {
            ContentType::Unknown
        }
    }

    pub fn to_mime(self) -> (r: Option<&'static str>)
        ensures
            match mime(self) {
                Some(m) => r matches Some(x) && x@ == m,
                None => r is None,
            },
    {
        match self {
            ContentType::Html => Some("text/html"),
            ContentType::Css => Some("text/css"),
            ContentType::Js => Some("application/javascript"),
            ContentType::Json => Some("application/json"),
            ContentType::Xml => Some("application/xml"),
            ContentType::Unknown => None,
        }
    }
}

/// The file served for a directory: `index.html` in it.
pub open spec fn index_file(p: Seq<char>) -> Seq<char> {
    (if p.len() > 0 && p.last() == '/' {
        p
    } else {
        p.push('/')
    }) + "index.html"@
}

pub fn index_path(path: &str) -> (r: String)
    ensures
        r@ == index_file(path@),
{
    let mut out = chars_of(path);
    if !(out.len() > 0 && out[out.len() - 1] == '/') {
        out.push('/');
    }
    push_str(&mut out, "index.html");
    string_from_chars(out.as_slice())
}

// ----------------------------------------------------------------------------
// Errors
// ----------------------------------------------------------------------------

/// Why a route could not answer.
#[derive(Debug)]
pub enum ServerError {
    /// A file could not be read.
    IoError,
    VarError(VarError),
    UriParseError(uri::ParseError),
    ProxyError(ProxyError),
    NotFound,
}

/// The status a request that could not be read is answered with.
pub open spec fn parse_error_status(e: ParseErrorV) -> i16 {
    match e {
        ParseErrorV::Timeout => 408,
        ParseErrorV::UnknownTransferEncoding(_) => 501,
        _ => 400,
    }
}

pub fn status_for_parse_error(e: &ParseError) -> (r: i16)
    ensures
        r == parse_error_status(e@),
{
    match e {
        ParseError::Timeout => 408,
        ParseError::UnknownTransferEncoding(_) => 501,
        _ => 400,
    }
}

/// The status a route that failed is answered with: 404 where nothing was
/// found, else 500.
pub fn status_for_server_error(e: &ServerError) -> (r: i16)
    ensures
        r == (if e is NotFound {
            404i16
        } else {
            500i16
        }),
{
    match e {
        ServerError::NotFound => 404,
        _ => 500,
    }
}

/// The answer when nothing better can be sent: the status alone.
pub fn plain_response(status: i16) -> (r: Response)
    ensures
        r@.status == status,
        r@.headers.len() == 0,
        r@.body.len() == 0,
{
    Response { status, headers: StrMap::new(), body: Vec::new() }
}

/// The seconds to wait where the configuration sets none.
pub fn timeout_or_default(secs: Option<u64>) -> (r: u64)
    ensures
        r == match secs {
            Some(s) => s,
            None => 60,
        },
{
    match secs {
        Some(s) => s,
        None => 60,
    }
}

// ----------------------------------------------------------------------------
// Choosing the server
// ----------------------------------------------------------------------------

/// The host a request is for: the URI's host, else the `Host` header up to
/// its first colon.
pub open spec fn spec_get_host(q: RequestV) -> Seq<char> {
    if uri_host(q.start_line.uri).len() > 0 {
        uri_host(q.start_line.uri)
    } else {
        let hp = spec_get(q.headers, "Host"@).unwrap();
        match find_char(hp, ':') {
            Some(e) => hp.take(e),
            None => hp,
        }
    }
}

/// Requires the request to name a host somewhere: where the URI has none,
/// the header fields are indexed by `Host`, which panics without it.
pub fn get_host(request: &Request) -> (r: String)
    requires
        uri_wf(request@.start_line.uri),
        uri_host(request@.start_line.uri).len() > 0 || spec_get(request@.headers, "Host"@) is Some,
    ensures
        r@ == spec_get_host(request@),
{
    let h = request.start_line.uri.host();
    let hc = chars_of(h);
    if hc.len() > 0 {
        return string_from_chars(hc.as_slice());
    }
    let host_port = request.headers.get("Host").unwrap();
    let hp = chars_of(host_port.as_str());
    match chars_find(hp.as_slice(), ':') {
        Some(e) => {
            let cut = chars_range(hp.as_slice(), 0, e);
            assert(cut@ =~= hp@.take(e as int));
            string_from_chars(cut.as_slice())
        },
        None => string_from_chars(hp.as_slice()),
    }
}

pub open spec fn servers_view(v: Seq<Server>) -> Seq<ServerV> {
    v.map_values(|s: Server| s@)
}

/// The first server that has `host` among its domain names.
pub open spec fn first_named(servers: Seq<ServerV>, host: Seq<char>) -> Option<int>
    decreases servers.len(),
{
    if servers.len() == 0 {
        None
    } else {
        match first_named(servers.drop_last(), host) {
            Some(i) => Some(i),
            None => if servers.last().domain_names.contains(host) {
                Some(servers.len() - 1)
            } else {
                None
            },
        }
    }
}

/// The server that answers for `host`: the first that names it, else the
/// group's default.
pub open spec fn server_for_host(g: Seq<ServerV>, default: int, host: Seq<char>) -> int {
    match first_named(g, host) {
        Some(i) => i,
        None => default,
    }
}

fn names_host(names: &Vec<String>, host: &str) -> (r: bool)
    ensures
        r == crate::config::strings_view(names@).contains(host@),
{
    let ghost nv = crate::config::strings_view(names@);
    let mut i: usize = 0;
    while i < names.len()
        invariant
            i <= names@.len(),
            nv == crate::config::strings_view(names@),
            forall|j: int| 0 <= j < i ==> nv[j] != host@,
        decreases names@.len() - i,
    {
        if str_eq(names[i].as_str(), host) {
            assert(nv[i as int] == host@);
            return true;
        }
        i = i + 1;
    }
    false
}

/// Which server of `group` answers for `host` (see `server_for_host`).
pub fn select_server(group: &ServerGroup, host: &str) -> (r: usize)
    requires
        group.default < group.servers@.len(),
    ensures
        r == server_for_host(servers_view(group.servers@), group.default as int, host@),
        r < group.servers@.len(),
{
    let ghost sv = servers_view(group.servers@);
    let mut i: usize = 0;
    while i < group.servers.len()
        invariant
            i <= group.servers@.len(),
            sv == servers_view(group.servers@),
            first_named(sv.take(i as int), host@) is None,
        decreases group.servers@.len() - i,
    {
        assert(sv.take(i + 1).drop_last() =~= sv.take(i as int));
        if names_host(&group.servers[i].domain_names, host) {
            proof {
                lemma_first_named_prefix(sv, host@, i + 1);
            }
            return i;
        }
        i = i + 1;
    }
    assert(sv.take(i as int) =~= sv);
    group.default
}

/// A server found among the first `k` is the first of all.
proof fn lemma_first_named_prefix(s: Seq<ServerV>, host: Seq<char>, k: int)
    requires
        0 <= k <= s.len(),
        first_named(s.take(k), host) is Some,
    ensures
        first_named(s, host) == first_named(s.take(k), host),
    decreases s.len() - k,
{
    if k < s.len() {
        assert(s.take(k + 1).drop_last() =~= s.take(k));
        lemma_first_named_prefix(s, host, k + 1);
    } else {
        assert(s.take(k) =~= s);
    }
}

// ----------------------------------------------------------------------------
// What a route answers with
// ----------------------------------------------------------------------------

/// What to do to answer a request.
pub enum Plan {
    /// Send this response.
    Respond(Response),
    /// Serve the file at `path` with status 200; where it is missing, an
    /// empty 200 when `empty_ok`, else not found.
    File { path: String, empty_ok: bool, headers: StrMap },
    /// Read the files at `paths` in order and serve the last one found with
    /// `status` (none found: not found); then `error`, if any, is the answer.
    Files { paths: Vec<String>, error: Option<VarError>, status: i16, headers: StrMap },
    /// Pass the request on to `uri` (see `proxy::proxy_target`), the route
    /// having matched the first `prefix_len` bytes of the path; the response
    /// gets `headers` on top of its own.
    Proxy { uri: Uri, prefix_len: usize, proxy_headers: StrMap, headers: StrMap },
}

pub enum PlanV {
    Respond(ResponseV),
    File { path: Seq<char>, empty_ok: bool, headers: Entries },
    Files { paths: Seq<Seq<char>>, error: Option<Seq<char>>, status: i16, headers: Entries },
    Proxy { uri: UriV, prefix_len: int, proxy_headers: Entries, headers: Entries },
}

pub open spec fn opt_var_error_view(e: Option<VarError>) -> Option<Seq<char>> {
    match e {
        Some(x) => Some(x@),
        None => None,
    }
}

impl View for Plan {
    type V = PlanV;

    open spec fn view(&self) -> PlanV {
        match self {
            Plan::Respond(r) => PlanV::Respond(r@),
            Plan::File { path, empty_ok, headers } => PlanV::File {
                path: path@,
                empty_ok: *empty_ok,
                headers: headers@,
            },
            Plan::Files { paths, error, status, headers } => PlanV::Files {
                paths: crate::config::strings_view(paths@),
                error: opt_var_error_view(*error),
                status: *status,
                headers: headers@,
            },
            Plan::Proxy { uri, prefix_len, proxy_headers, headers } => PlanV::Proxy {
                uri: uri@,
                prefix_len: *prefix_len as int,
                proxy_headers: proxy_headers@,
                headers: headers@,
            },
        }
    }
}

/// Why no plan was made.
pub enum PlanError {
    Var(Seq<char>),
    UriParse(uri::ParseError),
}

/// The status of the route, or `d` where it sets none.
pub open spec fn status_or(s: Option<i16>, d: i16) -> i16 {
    match s {
        Some(x) => x,
        None => d,
    }
}

/// The path of the request without its leading `/`.
pub open spec fn served_path(q: RequestV) -> Seq<char> {
    let p = uri_path(q.start_line.uri);
    if p.len() > 0 && p[0] == '/' {
        p.drop_first()
    } else {
        p
    }
}

/// The files to read: each configured name with its variables replaced and
/// `tail` (the rest of the request's path) after it, up to the first name
/// that fails, whose error comes last. `None` where a name is replaced but
/// there is no tail (the path is shorter than the matched prefix, which
/// panics).
pub open spec fn file_paths(
    files: Seq<Seq<char>>,
    q: RequestV,
    env: Entries,
    tail: Option<Seq<char>>,
) -> Option<(Seq<Seq<char>>, Option<Seq<char>>)>
    decreases files.len(),
{
    if files.len() == 0 {
        Some((Seq::empty(), None))
    } else {
        match spec_replace_vars(files[0], q, env) {
            Err(n) => Some((Seq::empty(), Some(n))),
            Ok(f) => match tail {
                None => None,
                Some(t) => match file_paths(files.drop_first(), q, env, tail) {
                    None => None,
                    Some((ps, e)) => Some((seq![f + t] + ps, e)),
                },
            },
        }
    }
}

/// What route `r` answers request `q` with, `prefix` being how many bytes of
/// the path it matched: the route's header fields with variables replaced, and
/// per content a response, files to serve or a place to pass the request to.
/// `None` where the program panics.
pub open spec fn spec_plan(r: RouteV, prefix: int, q: RequestV, env: Entries) -> Option<
    Result<PlanV, PlanError>,
> {
    match spec_replace_headers(r.headers, q, env) {
        Err(n) => Some(Err(PlanError::Var(n))),
        Ok(h) => match r.content {
            None => if r.status is None || r.status == Some(200i16) {
                Some(Ok(PlanV::File { path: served_path(q), empty_ok: r.status is Some, headers: h }))
            } else {
                Some(
                    Ok(
                        PlanV::Respond(
                            ResponseV { status: r.status.unwrap(), headers: h, body: Seq::empty() },
                        ),
                    ),
                )
            },
            Some(ContentV::NoContent) => Some(
                Ok(
                    PlanV::Respond(
                        ResponseV { status: status_or(r.status, 200), headers: h, body: Seq::empty() },
                    ),
                ),
            ),
            Some(ContentV::RawData(d)) => match spec_replace_vars(d, q, env) {
                Err(n) => Some(Err(PlanError::Var(n))),
                Ok(t) => Some(
                    Ok(
                        PlanV::Respond(
                            ResponseV {
                                status: status_or(r.status, 200),
                                headers: h,
                                body: encode_utf8(t),
                            },
                        ),
                    ),
                ),
            },
            Some(ContentV::FileAny(files)) => {
                let path = uri_path(q.start_line.uri);
                let tail = match prefix_chars(path, prefix) {
                    Some(k) => Some(path.skip(k)),
                    None => None,
                };
                match file_paths(files, q, env, tail) {
                    None => None,
                    Some((ps, e)) => Some(
                        Ok(
                            PlanV::Files {
                                paths: ps,
                                error: e,
                                status: status_or(r.status, 200),
                                headers: h,
                            },
                        ),
                    ),
                }
            },
            Some(ContentV::Redirect(u)) => match spec_replace_vars(u, q, env) {
                Err(n) => Some(Err(PlanError::Var(n))),
                Ok(t) => Some(
                    Ok(
                        PlanV::Respond(
                            ResponseV {
                                status: status_or(r.status, 308),
                                headers: spec_insert(h, "Location"@, t),
                                body: Seq::empty(),
                            },
                        ),
                    ),
                ),
            },
            Some(ContentV::Proxy { uri: u, headers: ph }) => match spec_replace_vars(u, q, env) {
                Err(n) => Some(Err(PlanError::Var(n))),
                Ok(t) => match spec_replace_headers(ph, q, env) {
                    Err(n) => Some(Err(PlanError::Var(n))),
                    Ok(ph2) => match spec_parse_uri(t) {
                        Err(None) => None,
                        Err(Some(e)) => Some(Err(PlanError::UriParse(e))),
                        Ok(target) => Some(
                            Ok(
                                PlanV::Proxy {
                                    uri: target,
                                    prefix_len: prefix,
                                    proxy_headers: ph2,
                                    headers: h,
                                },
                            ),
                        ),
                    },
                },
            },
        },
    }
}

/// `plan` agrees with what `spec_plan` gives.
pub open spec fn plan_agrees(
    r: Option<Result<Plan, ServerError>>,
    s: Option<Result<PlanV, PlanError>>,
) -> bool {
    match s {
        None => r is None,
        Some(Ok(p)) => r matches Some(Ok(x)) && x@ == p,
        Some(Err(PlanError::Var(n))) => r matches Some(Err(ServerError::VarError(e))) && e@ == n,
        Some(Err(PlanError::UriParse(e))) => r matches Some(Err(ServerError::UriParseError(x)))
            && x == e,
    }
}

fn collect_file_paths(
    files: &Vec<String>,
    request: &Request,
    env: &StrMap,
    tail: &Option<Vec<char>>,
) -> (r: Option<(Vec<String>, Option<VarError>)>)
    requires
        uri_wf(request@.start_line.uri),
    ensures
        match file_paths(
            crate::config::strings_view(files@),
            request@,
            env@,
            match tail {
                Some(t) => Some(t@),
                None => None,
            },
        ) {
            None => r is None,
            Some((ps, e)) => r matches Some((x, y)) && crate::config::strings_view(x@) == ps
                && opt_var_error_view(y) == e,
        },
{
    let ghost fv = crate::config::strings_view(files@);
    let ghost tv = match tail {
        Some(t) => Some(t@),
        None => None,
    };
    let mut paths: Vec<String> = Vec::new();
    let mut i: usize = 0;
    assert(fv.skip(0) =~= fv);
    while i < files.len()
        invariant
            i <= files@.len(),
            fv == crate::config::strings_view(files@),
            uri_wf(request@.start_line.uri),
            tv == match tail {
                Some(t) => Some(t@),
                None => None,
            },
            file_paths(fv, request@, env@, tv) == match file_paths(fv.skip(i as int), request@, env@, tv) {
                None => None,
                Some((ps, e)) => Some((crate::config::strings_view(paths@) + ps, e)),
            },
        decreases files@.len() - i,
    {
        let ghost rest = fv.skip(i as int);
        assert(rest[0] == files@[i as int]@);
        assert(rest.drop_first() =~= fv.skip(i + 1));
        match replace_vars(files[i].as_str(), request, env) {
            Err(e) => {
                proof {
                    assert(crate::config::strings_view(paths@) + Seq::<Seq<char>>::empty() =~= crate::config::strings_view(paths@));
                }
                return Some((paths, Some(e)));
            },
            Ok(f) => {
                match tail {
                    None => {
                        return None;
                    },
                    Some(t) => {
                        let mut p = chars_of(f.as_str());
                        crate::text::push_all(&mut p, t.as_slice());
                        let ghost before = crate::config::strings_view(paths@);
                        paths.push(string_from_chars(p.as_slice()));
                        proof {
                            assert(crate::config::strings_view(paths@) =~= before.push(f@ + t@));
                            match file_paths(fv.skip(i + 1), request@, env@, tv) {
                                None => {},
                                Some((ps, e)) => {
                                    assert(before.push(f@ + t@) + ps =~= before + (seq![f@ + t@] + ps));
                                },
                            }
                        }
                    },
                }
            },
        }
        i = i + 1;
    }
    assert(fv.skip(i as int) =~= Seq::<Seq<char>>::empty());
    assert(crate::config::strings_view(paths@) + Seq::<Seq<char>>::empty() =~= crate::config::strings_view(paths@));
    Some((paths, None))
}

/// Works out how the matched route answers the request (see `spec_plan`);
/// `None` where the program panics.
pub fn plan_response(m: &Match, request: &Request, env: &StrMap) -> (r: Option<
    Result<Plan, ServerError>,
>)
    requires
        uri_wf(request@.start_line.uri),
    ensures
        plan_agrees(r, spec_plan(m.route@, m.matched_prefix_len as int, request@, env@)),
{
    let route = m.route;
    let headers = match replace_dynamic_vars_headers(&route.headers, request, env) {
        Ok(h) => h,
        Err(e) => return Some(Err(ServerError::VarError(e))),
    };
    match &route.content {
        None => {
            if route.status.is_none() || route.status == Some(200i16) {
                let pc = chars_of(request.start_line.uri.path());
                let path = if pc.len() > 0 && pc[0] == '/' {
                    let cut = chars_range(pc.as_slice(), 1, pc.len());
                    assert(cut@ =~= pc@.drop_first());
                    cut
                } else {
                    pc
                };
                Some(
                    Ok(
                        Plan::File {
                            path: string_from_chars(path.as_slice()),
                            empty_ok: route.status.is_some(),
                            headers,
                        },
                    ),
                )
            } else {
                let status = route.status.unwrap();
                Some(Ok(Plan::Respond(Response { status, headers, body: Vec::new() })))
            }
        },
        Some(Content::NoContent) => {
            let status = match route.status {
                Some(s) => s,
                None => 200,
            };
            Some(Ok(Plan::Respond(Response { status, headers, body: Vec::new() })))
        },
        Some(Content::RawData(data)) => {
            let text = match replace_vars(data.as_str(), request, env) {
                Ok(t) => t,
                Err(e) => return Some(Err(ServerError::VarError(e))),
            };
            let mut body: Vec<u8> = Vec::new();
            push_utf8(&mut body, text.as_str());
            let status = match route.status {
                Some(s) => s,
                None => 200,
            };
            Some(Ok(Plan::Respond(Response { status, headers, body })))
        },
        Some(Content::FileAny(files)) => {
            let pc = chars_of(request.start_line.uri.path());
            let tail = match byte_prefix_chars(pc.as_slice(), m.matched_prefix_len) {
                Some(k) => {
                    proof {
                        lemma_prefix_chars_fits(pc@, m.matched_prefix_len as int);
                    }
                    let t = chars_range(pc.as_slice(), k, pc.len());
                    assert(t@ =~= pc@.skip(k as int));
                    Some(t)
                },
                None => None,
            };
            let status = match route.status {
                Some(s) => s,
                None => 200,
            };
            match collect_file_paths(files, request, env, &tail) {
                None => None,
                Some((paths, error)) => Some(Ok(Plan::Files { paths, error, status, headers })),
            }
        },
        Some(Content::Redirect(u)) => {
            let target = match replace_vars(u.as_str(), request, env) {
                Ok(t) => t,
                Err(e) => return Some(Err(ServerError::VarError(e))),
            };
            let mut headers = headers;
            headers.insert("Location".to_string(), target);
            let status = match route.status {
                Some(s) => s,
                None => 308,
            };
            Some(Ok(Plan::Respond(Response { status, headers, body: Vec::new() })))
        },
        Some(Content::Proxy { uri: u, headers: ph }) => {
            let target = match replace_vars(u.as_str(), request, env) {
                Ok(t) => t,
                Err(e) => return Some(Err(ServerError::VarError(e))),
            };
            let proxy_headers = match replace_dynamic_vars_headers(ph, request, env) {
                Ok(h) => h,
                Err(e) => return Some(Err(ServerError::VarError(e))),
            };
            match try_parse_uri(target.as_str()) {
                None => None,
                Some(Err(e)) => Some(Err(ServerError::UriParseError(e))),
                Some(Ok(uri)) => Some(
                    Ok(
                        Plan::Proxy {
                            uri,
                            prefix_len: m.matched_prefix_len,
                            proxy_headers,
                            headers,
                        },
                    ),
                ),
            }
        },
    }
}

// ----------------------------------------------------------------------------
// Finishing a plan with what the caller found
// ----------------------------------------------------------------------------

/// The header fields with the content type of a served file, where it has
/// one.
pub open spec fn typed_headers(h: Entries, t: ContentType) -> Entries {
    match mime(t) {
        Some(m) => spec_insert(h, "Content-Type"@, m),
        None => h,
    }
}

fn add_content_type(headers: &mut StrMap, t: ContentType)
    ensures
        final(headers)@ == typed_headers(old(headers)@, t),
{
    if let Some(m) = t.to_mime() {
        headers.insert("Content-Type".to_string(), m.to_string());
    }
}

/// Answers a `Plan::File` with what reading the file gave: the file with
/// status 200, or where it is missing an empty 200 when `empty_ok`, else not
/// found.
pub fn serve_file(found: Option<(Vec<u8>, ContentType)>, empty_ok: bool, headers: StrMap) -> (r:
    Result<Response, ServerError>)
    ensures
        match found {
            Some((d, t)) => r matches Ok(x) && x@ == (ResponseV {
                status: 200,
                headers: typed_headers(headers@, t),
                body: d@,
            }),
            None => if empty_ok {
                r matches Ok(x) && x@ == (ResponseV {
                    status: 200,
                    headers: headers@,
                    body: Seq::empty(),
                })
            } else {
                r matches Err(ServerError::NotFound)
            },
        },
{
    let mut headers = headers;
    match found {
        Some((data, t)) => {
            add_content_type(&mut headers, t);
            Ok(Response { status: 200, headers, body: data })
        },
        None => {
            if empty_ok {
                Ok(Response { status: 200, headers, body: Vec::new() })
            } else {
                Err(ServerError::NotFound)
            }
        },
    }
}

/// The last file that was found.
pub open spec fn last_found(s: Seq<Option<(Seq<u8>, ContentType)>>) -> Option<(Seq<u8>, ContentType)>
    decreases s.len(),
{
    if s.len() == 0 {
        None
    } else {
        match s.last() {
            Some(f) => Some(f),
            None => last_found(s.drop_last()),
        }
    }
}

pub open spec fn found_view(v: Seq<Option<(Vec<u8>, ContentType)>>) -> Seq<
    Option<(Seq<u8>, ContentType)>,
> {
    v.map_values(
        |f: Option<(Vec<u8>, ContentType)>|
            match f {
                Some((d, t)) => Some((d@, t)),
                None => None,
            },
    )
}

fn serve_last_found(found: Vec<Option<(Vec<u8>, ContentType)>>, status: i16, headers: StrMap) -> (r:
    Result<Response, ServerError>)
    ensures
        match last_found(found_view(found@)) {
            Some((d, t)) => r matches Ok(x) && x@ == (ResponseV {
                status,
                headers: typed_headers(headers@, t),
                body: d,
            }),
            None => r matches Err(ServerError::NotFound),
        },
{
    let ghost fv = found_view(found@);
    let ghost h0 = headers@;
    let mut rest = found;
    let mut i = rest.len();
    assert(fv.take(i as int) =~= fv);
    while i > 0
        invariant
            i <= rest@.len(),
            found_view(rest@) == fv,
            fv == found_view(found@),
            h0 == headers@,
            last_found(fv) == last_found(fv.take(i as int)),
        decreases i,
    {
        let ghost pre = fv.take(i as int);
        assert(pre.drop_last() =~= fv.take(i - 1));
        assert(pre.last() == fv[i - 1]);
        if rest[i - 1].is_some() {
            let mut hs = headers;
            let f = rest.swap_remove(i - 1);
            let (data, t) = f.unwrap();
            assert(fv[i - 1] == Some((data@, t)));
            add_content_type(&mut hs, t);
            return Ok(Response { status, headers: hs, body: data });
        }
        i = i - 1;
    }
    assert(fv.take(0) =~= Seq::<Option<(Seq<u8>, ContentType)>>::empty());
    Err(ServerError::NotFound)
}

/// Answers a `Plan::Files` with what reading each file gave, in order: the
/// error of the plan if it has one, else the last file found with `status`,
/// else not found.
pub fn serve_files(
    found: Vec<Option<(Vec<u8>, ContentType)>>,
    error: Option<VarError>,
    status: i16,
    headers: StrMap,
) -> (r: Result<Response, ServerError>)
    ensures
        match error {
            Some(e) => r matches Err(ServerError::VarError(x)) && x@ == e@,
            None => match last_found(found_view(found@)) {
                Some((d, t)) => r matches Ok(x) && x@ == (ResponseV {
                    status,
                    headers: typed_headers(headers@, t),
                    body: d,
                }),
                None => r matches Err(ServerError::NotFound),
            },
        },
{
    match error {
        Some(e) => Err(ServerError::VarError(e)),
        None => serve_last_found(found, status, headers),
    }
}

/// A passed-on response with the route's header fields set on top of its own.
pub fn with_route_headers(response: Response, headers: &StrMap) -> (r: Response)
    ensures
        r@ == (ResponseV { headers: insert_all(response@.headers, headers@), ..response@ }),
{
    let mut response = response;
    response.headers.insert_all(headers);
    response
}

// ----------------------------------------------------------------------------
// Deciding how a connection is answered
// ----------------------------------------------------------------------------

/// How a request is answered: by server `server` following `plan`, by
/// `server`'s error page for `status`, or not at all where the program
/// panics.
pub enum Decision {
    Serve { server: usize, plan: Plan },
    Fail { server: usize, status: i16 },
    Abort,
}

pub enum DecisionV {
    Serve { server: int, plan: PlanV },
    Fail { server: int, status: i16 },
    Abort,
}

impl View for Decision {
    type V = DecisionV;

    open spec fn view(&self) -> DecisionV {
        match self {
            Decision::Serve { server, plan } => DecisionV::Serve {
                server: *server as int,
                plan: plan@,
            },
            Decision::Fail { server, status } => DecisionV::Fail {
                server: *server as int,
                status: *status,
            },
            Decision::Abort => DecisionV::Abort,
        }
    }
}

/// The server is the one for the request's host; its route for the path
/// answers (404 where none does), and an error in working out the answer is
/// a 500. Abort where the URI's parts do not lie within it, where no host is
/// named at all, where a regex route does not compile or where the plan
/// panics.
pub open spec fn spec_decide(g: Seq<ServerV>, default: int, q: RequestV, env: Entries) -> DecisionV {
    if !uri_wf(q.start_line.uri) || (uri_host(q.start_line.uri).len() == 0 && spec_get(
        q.headers,
        "Host"@,
    ) is None) {
        DecisionV::Abort
    } else {
        let s = server_for_host(g, default, spec_get_host(q));
        let routes = g[s].routes;
        if !regexes_compile(routes) {
            DecisionV::Abort
        } else {
            match spec_find_route(routes, uri_path(q.start_line.uri)) {
                None => DecisionV::Fail { server: s, status: 404 },
                Some((i, n)) => match spec_plan(
                    routes[i],
                    encode_utf8(uri_path(q.start_line.uri).take(n)).len() as int,
                    q,
                    env,
                ) {
                    None => DecisionV::Abort,
                    Some(Err(_)) => DecisionV::Fail { server: s, status: 500 },
                    Some(Ok(p)) => DecisionV::Serve { server: s, plan: p },
                },
            }
        }
    }
}

/// Decides how a request that was read is answered (see `spec_decide`).
pub fn decide(group: &ServerGroup, request: &Request, env: &StrMap) -> (r: Decision)
    requires
        group.default < group.servers@.len(),
    ensures
        r@ == spec_decide(servers_view(group.servers@), group.default as int, request@, env@),
        r matches Decision::Serve { server, .. } ==> server < group.servers@.len(),
        r matches Decision::Fail { server, .. } ==> server < group.servers@.len(),
{
    if !request.start_line.uri.is_valid() {
        return Decision::Abort;
    }
    let h = chars_of(request.start_line.uri.host());
    if h.len() == 0 && !request.headers.contains_key("Host") {
        return Decision::Abort;
    }
    let host = get_host(request);
    let s = select_server(group, host.as_str());
    let server = &group.servers[s];
    let ghost sv = servers_view(group.servers@);
    assert(sv[s as int] == server@);
    let m = match try_find_matching_route(server, request.start_line.uri.path()) {
        None => return Decision::Abort,
        Some(None) => return Decision::Fail { server: s, status: 404 },
        Some(Some(m)) => m,
    };
    proof {
        let path = uri_path(request@.start_line.uri);
        crate::route_matching::lemma_candidates_bounds(server@.routes, path, server@.routes.len() as int);
        let (i, n) = spec_find_route(server@.routes, path).unwrap();
        assert(server@.routes[i] == server.routes@[i]@);
    }
    match plan_response(&m, request, env) {
        None => Decision::Abort,
        Some(Err(_)) => Decision::Fail { server: s, status: 500 },
        Some(Ok(plan)) => Decision::Serve { server: s, plan },
    }
}

/// How a server's error page for `status` is made: the route that answers
/// the page set for the status plans it. `None` where the program panics,
/// `Some(None)` where there is nothing to follow (no page is set for the
/// status, no route answers the page, or working out the answer fails).
pub open spec fn spec_error_page_plan(s: ServerV, status: i16, q: RequestV, env: Entries) -> Option<
    Option<PlanV>,
> {
    match crate::config::page_for(s.error_pages, status) {
        None => Some(None),
        Some(page) => if !regexes_compile(s.routes) {
            None
        } else {
            match spec_find_route(s.routes, page) {
                None => Some(None),
                Some((i, n)) => match spec_plan(s.routes[i], encode_utf8(page.take(n)).len() as int, q, env) {
                    None => None,
                    Some(Err(_)) => Some(None),
                    Some(Ok(p)) => Some(Some(p)),
                },
            }
        },
    }
}

pub fn error_page_plan(server: &Server, status: i16, request: &Request, env: &StrMap) -> (r: Option<
    Option<Plan>,
>)
    requires
        uri_wf(request@.start_line.uri),
    ensures
        match spec_error_page_plan(server@, status, request@, env@) {
            None => r is None,
            Some(None) => r matches Some(None),
            Some(Some(p)) => r matches Some(Some(x)) && x@ == p,
        },
{
    let page = match server.error_pages.get(status) {
        Some(p) => p,
        None => return Some(None),
    };
    let m = match try_find_matching_route(server, page.as_str()) {
        None => return None,
        Some(None) => return Some(None),
        Some(Some(m)) => m,
    };
    proof {
        crate::route_matching::lemma_candidates_bounds(server@.routes, page@, server@.routes.len() as int);
        let (i, n) = spec_find_route(server@.routes, page@).unwrap();
        assert(server@.routes[i] == server.routes@[i]@);
    }
    match plan_response(&m, request, env) {
        None => None,
        Some(Err(_)) => Some(None),
        Some(Ok(plan)) => Some(Some(plan)),
    }
}

/// The error page once its plan has been followed: a page answered with 200
/// takes the error's status; a failure gives the status alone.
pub fn finish_error_page(result: Result<Response, ServerError>, status: i16) -> (r: Response)
    ensures
        match result {
            Ok(x) => r@ == (ResponseV {
                status: if x@.status == 200 {
                    status
                } else {
                    x@.status
                },
                ..x@
            }),
            Err(_) => r@.status == status && r@.headers.len() == 0 && r@.body.len() == 0,
        },
{
    match result {
        Ok(mut response) => {
            if response.status == 200 {
                response.status = status;
            }
            response
        },
        Err(_) => plain_response(status),
    }
}

} // verus!
