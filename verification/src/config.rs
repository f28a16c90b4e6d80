//! The configuration: servers with their routes, and upstream groups.
use vstd::prelude::*;
use crate::strmap::{Entries, StrMap};

pub mod error;
pub mod tokenizer;
pub mod parse;
pub mod repeats;

pub use error::ParseError;
pub use parse::{parse_config, parse_upstream_config, try_parse_config};

verus! {

/// What a route answers with.
#[derive(Debug, PartialEq, Eq)]
pub enum Content {
    NoContent,
    RawData(String),
    FileAny(Vec<String>),
    Redirect(String),
    Proxy { uri: String, headers: StrMap },
}

/// How a route's `uri` is compared with a request's path.
#[derive(Debug, Clone, Copy, PartialEq, Eq, Structural)]
pub enum UriMatcher {
    Prefix,
    Regex,
    PrefixPrioritiesed,
    Exact,
}

#[derive(Debug, PartialEq, Eq)]
pub struct Route {
    pub uri: String,
    pub matcher: UriMatcher,
    pub content: Option<Content>,
    pub status: Option<i16>,
    pub headers: StrMap,
    pub default_content_type: Option<String>,
}

/// Error pages by status, in the order they were set; a status set again
/// keeps its place and takes the new page.
#[derive(Debug, PartialEq, Eq)]
pub struct ErrorPages {
    pub pages: Vec<(i16, String)>,
}

/// One `server { ... }` block. Timeouts are in seconds; `ip` is the address
/// as written, to be read as an IP address where sockets are opened.
#[derive(Debug, PartialEq, Eq)]
pub struct Server {
    pub port: Option<u16>,
    pub ip: Option<String>,
    pub domain_names: Vec<String>,
    pub is_default: bool,
    pub routes: Vec<Route>,
    pub header_timeout: Option<u64>,
    pub body_timeout: Option<u64>,
    pub send_timeout: Option<u64>,
    pub cert_path: Option<String>,
    pub keys_path: Option<String>,
    pub error_pages: ErrorPages,
}

/// The servers that listen on one address, and which of them answers when
/// no domain name matches.
#[derive(Debug, PartialEq, Eq)]
pub struct ServerGroup {
    pub servers: Vec<Server>,
    pub default: usize,
}

#[derive(Debug, Clone, Copy, PartialEq, Eq, Structural)]
pub enum Balancing {
    RoundRobin,
    LeastConnected,
    IpHash,
}

/// One `upstream name { ... }` block. Timeouts are in seconds.
#[derive(Debug, PartialEq, Eq)]
pub struct Upstream {
    pub servers: Vec<String>,
    pub balancing: Option<Balancing>,
    pub max_fails: Option<usize>,
    pub fail_timeout: Option<u64>,
    pub connect_timeout: Option<u64>,
    pub header_timeout: Option<u64>,
    pub body_timeout: Option<u64>,
    pub send_timeout: Option<u64>,
}

/// Upstream groups by name, in the order they were defined; a name defined
/// again keeps its place and takes the new group.
#[derive(Debug, PartialEq, Eq)]
pub struct Upstreams {
    pub groups: Vec<(String, Upstream)>,
}

#[derive(Debug, PartialEq, Eq)]
pub struct Config {
    pub servers: Vec<Server>,
    pub upstreams: Upstreams,
}

/// Sets the value of `k` in a list of pairs: an existing key keeps its place,
/// a new one goes last.
pub open spec fn assoc_insert<K, V>(s: Seq<(K, V)>, k: K, v: V) -> Seq<(K, V)>
    decreases s.len(),
{
    if s.len() == 0 {
        seq![(k, v)]
    } else if s[0].0 == k {
        s.update(0, (k, v))
    } else {
        seq![s[0]] + assoc_insert(s.drop_first(), k, v)
    }
}

/// `assoc_insert` at the first index that holds the key.
pub proof fn lemma_assoc_insert<K, V>(s: Seq<(K, V)>, k: K, v: V, i: int)
    requires
        0 <= i <= s.len(),
        forall|j: int| 0 <= j < i ==> s[j].0 != k,
        i < s.len() ==> s[i].0 == k,
    ensures
        assoc_insert(s, k, v) == (if i < s.len() { s.update(i, (k, v)) } else { s.push((k, v)) }),
    decreases s.len(),
{
    if s.len() == 0 {
        assert(seq![(k, v)] =~= s.push((k, v)));
    } else if s[0].0 == k {
    } else {
        let t = s.drop_first();
        assert forall|j: int| 0 <= j < i - 1 implies t[j].0 != k by {
            assert(t[j] == s[j + 1]);
        }
        if i - 1 < t.len() {
            assert(t[i - 1] == s[i]);
        }
        lemma_assoc_insert(t, k, v, i - 1);
        if i < s.len() {
            assert(seq![s[0]] + t.update(i - 1, (k, v)) =~= s.update(i, (k, v)));
        } else {
            assert(seq![s[0]] + t.push((k, v)) =~= s.push((k, v)));
        }
    }
}

impl ErrorPages {
    pub fn new() -> (r: ErrorPages)
        ensures
            r@ == Seq::<(i16, Seq<char>)>::empty(),
    {
        let r = ErrorPages { pages: Vec::new() };
        assert(r@ =~= Seq::<(i16, Seq<char>)>::empty());
        r
    }

    /// Sets the page of `status`.
    pub fn insert(&mut self, status: i16, page: String)
        ensures
            final(self)@ == assoc_insert(old(self)@, status, page@),
    {
        let ghost pv = page@;
        let mut i: usize = 0;
        while i < self.pages.len()
            invariant
                i <= self@.len(),
                self@ == old(self)@,
                pv == page@,
                self.pages@.len() == self@.len(),
                forall|j: int| 0 <= j < i ==> self@[j].0 != status,
            decreases self@.len() - i,
        {
            assert(self@[i as int].0 == self.pages@[i as int].0);
            if self.pages[i].0 == status {
                proof {
                    lemma_assoc_insert(self@, status, pv, i as int);
                }
                let ghost prev = self.pages@;
                assert(pv == page@);
                self.pages.set(i, (status, page));
                assert(self.pages@ == prev.update(i as int, (status, page)));
                assert forall|j: int| 0 <= j < self@.len() implies self@[j] == old(self)@.update(i as int, (status, pv))[j] by {
                    if j != i {
                        assert(self.pages@[j] == prev[j]);
                    }
                }
                assert(self@ =~= old(self)@.update(i as int, (status, pv)));
                return;
            }
            i = i + 1;
        }
        proof {
            lemma_assoc_insert(self@, status, pv, i as int);
        }
        self.pages.push((status, page));
        assert(self@ =~= old(self)@.push((status, pv)));
    }

    /// The page of `status`, if one is set.
    pub fn get(&self, status: i16) -> (r: Option<&String>)
        ensures
            match page_for(self@, status) {
                Some(p) => r matches Some(x) && x@ == p,
                None => r is None,
            },
    {
        let mut i: usize = 0;
        assert(self@.skip(0) =~= self@);
        while i < self.pages.len()
            invariant
                i <= self@.len(),
                self.pages@.len() == self@.len(),
                page_for(self@, status) == page_for(self@.skip(i as int), status),
            decreases self@.len() - i,
        {
            let ghost rest = self@.skip(i as int);
            assert(rest[0] == self@[i as int]);
            assert(rest.drop_first() =~= self@.skip(i + 1));
            assert(self@[i as int].0 == self.pages@[i as int].0);
            if self.pages[i].0 == status {
                assert(self@[i as int] == (status, self.pages@[i as int].1@));
                return Some(&self.pages[i].1);
            }
            i = i + 1;
        }
        None
    }
}

/// The page set for `status`: the first entry for it.
pub open spec fn page_for(pages: Seq<(i16, Seq<char>)>, status: i16) -> Option<Seq<char>>
    decreases pages.len(),
{
    if pages.len() == 0 {
        None
    } else if pages[0].0 == status {
        Some(pages[0].1)
    } else {
        page_for(pages.drop_first(), status)
    }
}

impl Upstreams {
    pub fn new() -> (r: Upstreams)
        ensures
            r@ == Seq::<(Seq<char>, UpstreamV)>::empty(),
    {
        let r = Upstreams { groups: Vec::new() };
        assert(r@ =~= Seq::<(Seq<char>, UpstreamV)>::empty());
        r
    }

    /// Defines the group `name`.
    pub fn insert(&mut self, name: String, upstream: Upstream)
        ensures
            final(self)@ == assoc_insert(old(self)@, name@, upstream@),
    {
        let ghost nv = name@;
        let ghost uv = upstream@;
        let mut i: usize = 0;
        while i < self.groups.len()
            invariant
                i <= self@.len(),
                self@ == old(self)@,
                nv == name@,
                uv == upstream@,
                self.groups@.len() == self@.len(),
                forall|j: int| 0 <= j < i ==> self@[j].0 != nv,
            decreases self@.len() - i,
        {
            assert(self@[i as int].0 == self.groups@[i as int].0@);
            if crate::text::str_eq(self.groups[i].0.as_str(), name.as_str()) {
                proof {
                    lemma_assoc_insert(self@, nv, uv, i as int);
                }
                self.groups.set(i, (name, upstream));
                assert(self@ =~= old(self)@.update(i as int, (nv, uv)));
                return;
            }
            i = i + 1;
        }
        proof {
            lemma_assoc_insert(self@, nv, uv, i as int);
        }
        self.groups.push((name, upstream));
        assert(self@ =~= old(self)@.push((nv, uv)));
    }

    /// Number of groups.
    pub fn len(&self) -> (n: usize)
        ensures
            n == self@.len(),
    {
        self.groups.len()
    }
}

// ----------------------------------------------------------------------------
// Mathematical views
// ----------------------------------------------------------------------------

pub enum ContentV {
    NoContent,
    RawData(Seq<char>),
    FileAny(Seq<Seq<char>>),
    Redirect(Seq<char>),
    Proxy { uri: Seq<char>, headers: Entries },
}

pub struct RouteV {
    pub uri: Seq<char>,
    pub matcher: UriMatcher,
    pub content: Option<ContentV>,
    pub status: Option<i16>,
    pub headers: Entries,
    pub default_content_type: Option<Seq<char>>,
}

pub struct ServerV {
    pub port: Option<u16>,
    pub ip: Option<Seq<char>>,
    pub domain_names: Seq<Seq<char>>,
    pub is_default: bool,
    pub routes: Seq<RouteV>,
    pub header_timeout: Option<u64>,
    pub body_timeout: Option<u64>,
    pub send_timeout: Option<u64>,
    pub cert_path: Option<Seq<char>>,
    pub keys_path: Option<Seq<char>>,
    pub error_pages: Seq<(i16, Seq<char>)>,
}

pub struct UpstreamV {
    pub servers: Seq<Seq<char>>,
    pub balancing: Option<Balancing>,
    pub max_fails: Option<usize>,
    pub fail_timeout: Option<u64>,
    pub connect_timeout: Option<u64>,
    pub header_timeout: Option<u64>,
    pub body_timeout: Option<u64>,
    pub send_timeout: Option<u64>,
}

pub struct ConfigV {
    pub servers: Seq<ServerV>,
    pub upstreams: Seq<(Seq<char>, UpstreamV)>,
}

pub open spec fn strings_view(v: Seq<String>) -> Seq<Seq<char>> {
    v.map_values(|s: String| s@)
}

pub open spec fn opt_string_view(o: Option<String>) -> Option<Seq<char>> {
    match o {
        Some(s) => Some(s@),
        None => None,
    }
}

impl View for Content {
    type V = ContentV;

    open spec fn view(&self) -> ContentV {
        match self {
            Content::NoContent => ContentV::NoContent,
            Content::RawData(s) => ContentV::RawData(s@),
            Content::FileAny(v) => ContentV::FileAny(strings_view(v@)),
            Content::Redirect(s) => ContentV::Redirect(s@),
            Content::Proxy { uri, headers } => ContentV::Proxy { uri: uri@, headers: headers@ },
        }
    }
}

pub open spec fn opt_content_view(o: Option<Content>) -> Option<ContentV> {
    match o {
        Some(c) => Some(c@),
        None => None,
    }
}

impl View for Route {
    type V = RouteV;

    open spec fn view(&self) -> RouteV {
        RouteV {
            uri: self.uri@,
            matcher: self.matcher,
            content: opt_content_view(self.content),
            status: self.status,
            headers: self.headers@,
            default_content_type: opt_string_view(self.default_content_type),
        }
    }
}

impl View for ErrorPages {
    type V = Seq<(i16, Seq<char>)>;

    open spec fn view(&self) -> Seq<(i16, Seq<char>)> {
        self.pages@.map_values(|e: (i16, String)| (e.0, e.1@))
    }
}

pub open spec fn routes_view(v: Seq<Route>) -> Seq<RouteV> {
    v.map_values(|r: Route| r@)
}

impl View for Server {
    type V = ServerV;

    open spec fn view(&self) -> ServerV {
        ServerV {
            port: self.port,
            ip: opt_string_view(self.ip),
            domain_names: strings_view(self.domain_names@),
            is_default: self.is_default,
            routes: routes_view(self.routes@),
            header_timeout: self.header_timeout,
            body_timeout: self.body_timeout,
            send_timeout: self.send_timeout,
            cert_path: opt_string_view(self.cert_path),
            keys_path: opt_string_view(self.keys_path),
            error_pages: self.error_pages@,
        }
    }
}

impl View for Upstream {
    type V = UpstreamV;

    open spec fn view(&self) -> UpstreamV {
        UpstreamV {
            servers: strings_view(self.servers@),
            balancing: self.balancing,
            max_fails: self.max_fails,
            fail_timeout: self.fail_timeout,
            connect_timeout: self.connect_timeout,
            header_timeout: self.header_timeout,
            body_timeout: self.body_timeout,
            send_timeout: self.send_timeout,
        }
    }
}

impl View for Upstreams {
    type V = Seq<(Seq<char>, UpstreamV)>;

    open spec fn view(&self) -> Seq<(Seq<char>, UpstreamV)> {
        self.groups@.map_values(|e: (String, Upstream)| (e.0@, e.1@))
    }
}

impl View for Config {
    type V = ConfigV;

    open spec fn view(&self) -> ConfigV {
        ConfigV {
            servers: self.servers@.map_values(|s: Server| s@),
            upstreams: self.upstreams@,
        }
    }
}

// ----------------------------------------------------------------------------
// Servers by address
// ----------------------------------------------------------------------------

/// The address a server listens on, as configured.
pub open spec fn address_of(s: ServerV) -> (Option<Seq<char>>, Option<u16>) {
    (s.ip, s.port)
}

/// The first group whose servers listen on `a`.
pub open spec fn group_of(g: Seq<Seq<ServerV>>, a: (Option<Seq<char>>, Option<u16>)) -> Option<int>
    decreases g.len(),
{
    if g.len() == 0 {
        None
    } else {
        match group_of(g.drop_last(), a) {
            Some(i) => Some(i),
            None => if g.last().len() > 0 && address_of(g.last()[0]) == a {
                Some(g.len() - 1)
            } else {
                None
            },
        }
    }
}

/// The servers grouped by address: groups in the order their address first
/// comes, servers in their order within each group.
pub open spec fn spec_groups(s: Seq<ServerV>) -> Seq<Seq<ServerV>>
    decreases s.len(),
{
    if s.len() == 0 {
        Seq::empty()
    } else {
        let g = spec_groups(s.drop_last());
        let x = s.last();
        match group_of(g, address_of(x)) {
            Some(i) => g.update(i, g[i].push(x)),
            None => g.push(seq![x]),
        }
    }
}

/// The server that answers when no domain name matches: the first marked
/// `default`, else the first.
pub open spec fn default_of(g: Seq<ServerV>) -> int
    decreases g.len(),
{
    if g.len() == 0 {
        0
    } else {
        let d = default_of(g.drop_last());
        if d < g.len() - 1 && g[d].is_default {
            d
        } else if g.last().is_default {
            g.len() - 1
        } else {
            d
        }
    }
}

pub open spec fn group_view(g: ServerGroup) -> Seq<ServerV> {
    g.servers@.map_values(|s: Server| s@)
}

fn same_address(a: &Server, b: &Server) -> (r: bool)
    ensures
        r == (address_of(a@) == address_of(b@)),
{
    let same_ip = match (&a.ip, &b.ip) {
        (Some(x), Some(y)) => crate::text::str_eq(x.as_str(), y.as_str()),
        (None, None) => true,
        _ => false,
    };
    same_ip && a.port == b.port
}

proof fn lemma_default_of(g: Seq<ServerV>)
    ensures
        g.len() > 0 ==> 0 <= default_of(g) < g.len(),
    decreases g.len(),
{
    if g.len() > 0 {
        lemma_default_of(g.drop_last());
        if g.len() == 1 {
            assert(default_of(g.drop_last()) == 0);
        }
    }
}

proof fn lemma_group_of(g: Seq<Seq<ServerV>>, a: (Option<Seq<char>>, Option<u16>))
    ensures
        group_of(g, a) matches Some(i) ==> 0 <= i < g.len() && g[i].len() > 0 && address_of(g[i][0])
            == a,
        group_of(g, a) is None ==> forall|i: int|
            0 <= i < g.len() && g[i].len() > 0 ==> address_of(g[i][0]) != a,
    decreases g.len(),
{
    if g.len() > 0 {
        lemma_group_of(g.drop_last(), a);
        assert forall|i: int| 0 <= i < g.len() - 1 implies g[i] == g.drop_last()[i] by {}
    }
}

/// Groups the servers by the address they listen on (see `spec_groups`);
/// each group's default is its first server marked `default`, else its
/// first server. Addresses are compared as written, so a caller that groups
/// by the address itself writes each one in a single form first.
pub fn group_servers(servers: Vec<Server>) -> (r: Vec<ServerGroup>)
    ensures
        r@.map_values(|g: ServerGroup| group_view(g)) == spec_groups(
            servers@.map_values(|s: Server| s@),
        ),
        forall|i: int|
            0 <= i < r@.len() ==> #[trigger] r@[i].default == default_of(group_view(r@[i]))
                && r@[i].default < r@[i].servers@.len(),
{
    let ghost sv = servers@.map_values(|s: Server| s@);
    let n: usize = servers.len();
    let mut groups: Vec<Vec<Server>> = Vec::new();
    let mut rest = servers;
    // Take the servers out in order.
    let mut rev: Vec<Server> = Vec::new();
    while rest.len() > 0
        invariant
            rev@.len() + rest@.len() == sv.len(),
            forall|i: int| 0 <= i < rest@.len() ==> rest@[i]@ == sv[i],
            forall|i: int| 0 <= i < rev@.len() ==> rev@[i]@ == sv[sv.len() - 1 - i],
        decreases rest@.len(),
    {
        let s = rest.pop().unwrap();
        rev.push(s);
    }
    let mut k: usize = 0;
    while rev.len() > 0
        invariant
            k + rev@.len() == sv.len(),
            sv.len() == n,
            forall|i: int| 0 <= i < rev@.len() ==> rev@[i]@ == sv[sv.len() - 1 - i],
            groups@.map_values(|g: Vec<Server>| g@.map_values(|s: Server| s@)) == spec_groups(
                sv.take(k as int),
            ),
            forall|i: int| 0 <= i < groups@.len() ==> (#[trigger] groups@[i])@.len() > 0,
        decreases rev@.len(),
    {
        let s = rev.pop().unwrap();
        let ghost before = groups@.map_values(|g: Vec<Server>| g@.map_values(|s: Server| s@));
        assert(sv.take(k + 1).drop_last() =~= sv.take(k as int));
        assert(sv.take(k + 1).last() == s@);
        proof {
            lemma_group_of(before, address_of(s@));
        }
        let mut j: usize = 0;
        let mut found: Option<usize> = None;
        while found.is_none() && j < groups.len()
            invariant
                j <= groups@.len(),
                before == groups@.map_values(|g: Vec<Server>| g@.map_values(|s: Server| s@)),
                forall|i: int| 0 <= i < groups@.len() ==> (#[trigger] groups@[i])@.len() > 0,
                found is None ==> group_of(before.take(j as int), address_of(s@)) is None,
                found matches Some(f) ==> group_of(before, address_of(s@)) == Some(f as int) && f
                    < groups@.len(),
            decreases groups@.len() - j + (if found is None {
                1int
            } else {
                0int
            }),
        {
            assert(before.take(j + 1).drop_last() =~= before.take(j as int));
            assert(before.take(j + 1).last() == before[j as int]);
            assert(before[j as int] == groups@[j as int]@.map_values(|s: Server| s@));
            assert(before[j as int][0] == groups@[j as int]@[0]@);
            if same_address(&groups[j][0], &s) {
                proof {
                    lemma_group_of_prefix(before, address_of(s@), j + 1);
                }
                found = Some(j);
            } else {
                j = j + 1;
            }
        }
        proof {
            if found is None {
                assert(before.take(j as int) =~= before);
            }
        }
        match found {
            Some(f) => {
                let ghost sview = s@;
                let mut g = Vec::new();
                groups.set_and_swap(f, &mut g);
                let ghost old_g = g@.map_values(|x: Server| x@);
                assert(old_g == before[f as int]);
                g.push(s);
                assert(g@.map_values(|x: Server| x@) =~= old_g.push(sview));
                groups.set_and_swap(f, &mut g);
                assert(groups@.map_values(|g: Vec<Server>| g@.map_values(|s: Server| s@))
                    =~= before.update(f as int, before[f as int].push(s@)));
            },
            None => {
                let ghost sview = s@;
                let mut g = Vec::new();
                g.push(s);
                assert(g@.map_values(|x: Server| x@) =~= seq![sview]);
                groups.push(g);
                assert(groups@.map_values(|g: Vec<Server>| g@.map_values(|s: Server| s@))
                    =~= before.push(seq![s@]));
            },
        }
        k = k + 1;
    }
    assert(sv.take(k as int) =~= sv);
    let mut r: Vec<ServerGroup> = Vec::new();
    let ghost all = groups@.map_values(|g: Vec<Server>| g@.map_values(|s: Server| s@));
    let mut out_rev: Vec<Vec<Server>> = Vec::new();
    while groups.len() > 0
        invariant
            out_rev@.len() + groups@.len() == all.len(),
            forall|i: int| 0 <= i < groups@.len() ==> groups@[i]@.map_values(|s: Server| s@) == all[i],
            forall|i: int|
                0 <= i < out_rev@.len() ==> out_rev@[i]@.map_values(|s: Server| s@) == all[all.len()
                    - 1 - i],
            forall|i: int| 0 <= i < all.len() ==> (#[trigger] all[i]).len() > 0,
        decreases groups@.len(),
    {
        let g = groups.pop().unwrap();
        out_rev.push(g);
    }
    while out_rev.len() > 0
        invariant
            r@.len() + out_rev@.len() == all.len(),
            forall|i: int|
                0 <= i < out_rev@.len() ==> out_rev@[i]@.map_values(|s: Server| s@) == all[all.len()
                    - 1 - i],
            forall|i: int| 0 <= i < r@.len() ==> group_view(#[trigger] r@[i]) == all[i]
                && r@[i].default == default_of(all[i]) && r@[i].default < r@[i].servers@.len(),
            forall|i: int| 0 <= i < all.len() ==> (#[trigger] all[i]).len() > 0,
        decreases out_rev@.len(),
    {
        let g = out_rev.pop().unwrap();
        let d = default_index(&g);
        r.push(ServerGroup { servers: g, default: d });
    }
    assert(r@.map_values(|g: ServerGroup| group_view(g)) =~= all);
    r
}

/// A group found among the first `k` is the first of all.
proof fn lemma_group_of_prefix(g: Seq<Seq<ServerV>>, a: (Option<Seq<char>>, Option<u16>), k: int)
    requires
        0 <= k <= g.len(),
        group_of(g.take(k), a) is Some,
    ensures
        group_of(g, a) == group_of(g.take(k), a),
    decreases g.len() - k,
{
    if k < g.len() {
        assert(g.take(k + 1).drop_last() =~= g.take(k));
        lemma_group_of_prefix(g, a, k + 1);
    } else {
        assert(g.take(k) =~= g);
    }
}

fn default_index(g: &Vec<Server>) -> (d: usize)
    requires
        g@.len() > 0,
    ensures
        d == default_of(g@.map_values(|s: Server| s@)),
        d < g@.len(),
{
    let ghost v = g@.map_values(|s: Server| s@);
    let mut d: usize = 0;
    let mut i: usize = 0;
    while i < g.len()
        invariant
            i <= g@.len(),
            v == g@.map_values(|s: Server| s@),
            d == default_of(v.take(i as int)),
            d < g@.len(),
        decreases g@.len() - i,
    {
        let ghost t = v.take(i + 1);
        assert(t.drop_last() =~= v.take(i as int));
        proof {
            lemma_default_of(v.take(i as int));
        }
        assert(t.last() == g@[i as int]@);
        if i > 0 && d < i && g[d].is_default {
            assert(t[d as int] == g@[d as int]@);
        } else if g[i].is_default {
            d = i;
        } else {
            if i > 0 {
                assert(t[d as int] == g@[d as int]@);
            }
        }
        i = i + 1;
    }
    assert(v.take(i as int) =~= v);
    d
}

} // verus!
