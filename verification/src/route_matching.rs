//! Which route of a server answers a path.
use vstd::prelude::*;
use crate::config::{Route, RouteV, Server, UriMatcher, routes_view};
use vstd::utf8::encode_utf8;
use crate::text::{chars_of, chars_starts_with, chars_eq, is_prefix};

verus! {

/// Whether `regex::Regex::new` accepts the pattern.
pub uninterp spec fn spec_regex_compiles(pattern: Seq<char>) -> bool;

/// Whether the compiled pattern finds a match somewhere in `text`.
pub uninterp spec fn spec_regex_finds(pattern: Seq<char>, text: Seq<char>) -> bool;

/// `regex::Regex::new(pattern)`, then `Regex::find(text)` on the compiled
/// pattern. Trusted: `None` exactly when the pattern does not compile, else
/// whether a match was found; both depend on the pattern and the text alone.
#[verifier::external_body]
fn regex_find(pattern: &str, text: &str) -> (r: Option<bool>)
    ensures
        r is Some <==> spec_regex_compiles(pattern@),
        r matches Some(b) ==> b == spec_regex_finds(pattern@, text@),
{
    match regex::Regex::new(pattern) {
        Ok(re) => Some(re.find(text).is_some()),
        Err(_) => None,
    }
}

/// A route and how much of the path it matched, in bytes.
pub struct Match<'a> {
    pub route: &'a Route,
    pub matched_prefix_len: usize,
}

/// The best candidates after the first routes: (prioritised, regex, prefix).
pub type Candidates = (Option<int>, Option<int>, Option<int>);

/// A candidate replaced by route `i` when `i` matches at least as long.
pub open spec fn longer(routes: Seq<RouteV>, cur: Option<int>, i: int) -> Option<int> {
    match cur {
        None => Some(i),
        Some(c) => if routes[i].uri.len() >= routes[c].uri.len() {
            Some(i)
        } else {
            Some(c)
        },
    }
}

/// The candidates after looking at the first `n` routes.
pub open spec fn candidates(routes: Seq<RouteV>, path: Seq<char>, n: int) -> Candidates
    decreases n,
{
    if n <= 0 {
        (None, None, None)
    } else {
        let (pr, rx, pf) = candidates(routes, path, n - 1);
        let i = n - 1;
        let r = routes[i];
        match r.matcher {
            UriMatcher::Prefix => if is_prefix(r.uri, path) {
                (pr, rx, longer(routes, pf, i))
            } else {
                (pr, rx, pf)
            },
            UriMatcher::Regex => if spec_regex_finds(r.uri, path) && rx is None {
                (pr, Some(i), pf)
            } else {
                (pr, rx, pf)
            },
            UriMatcher::PrefixPrioritiesed => if is_prefix(r.uri, path) {
                (longer(routes, pr, i), rx, pf)
            } else {
                (pr, rx, pf)
            },
            UriMatcher::Exact => if path == r.uri {
                (longer(routes, pr, i), rx, pf)
            } else {
                (pr, rx, pf)
            },
        }
    }
}

/// The route that answers `path` and the matched length: the longest exact or
/// `^~` match (the later one among equals), else the first regex match, else
/// the longest prefix match (the later one among equals).
pub open spec fn spec_find_route(routes: Seq<RouteV>, path: Seq<char>) -> Option<(int, int)> {
    let (pr, rx, pf) = candidates(routes, path, routes.len() as int);
    match pr {
        Some(i) => Some((i, routes[i].uri.len() as int)),
        None => match rx {
            Some(i) => Some((i, 0)),
            None => match pf {
                Some(i) => Some((i, routes[i].uri.len() as int)),
                None => None,
            },
        },
    }
}

/// Every regex route's pattern compiles.
pub open spec fn regexes_compile(routes: Seq<RouteV>) -> bool {
    forall|i: int|
        0 <= i < routes.len() && routes[i].matcher == UriMatcher::Regex ==> spec_regex_compiles(
            routes[i].uri,
        )
}

pub proof fn lemma_candidates_bounds(routes: Seq<RouteV>, path: Seq<char>, n: int)
    requires
        0 <= n <= routes.len(),
    ensures
        ({
            let (pr, rx, pf) = candidates(routes, path, n);
            &&& pr matches Some(i) ==> 0 <= i < n
            &&& rx matches Some(i) ==> 0 <= i < n
            &&& pf matches Some(i) ==> 0 <= i < n
        }),
    decreases n,
{
    if n > 0 {
        lemma_candidates_bounds(routes, path, n - 1);
    }
}

/// The chosen exact, `^~` and prefix routes are no longer than the path.
pub proof fn lemma_candidates_fit(routes: Seq<RouteV>, path: Seq<char>, n: int)
    requires
        0 <= n <= routes.len(),
    ensures
        ({
            let (pr, rx, pf) = candidates(routes, path, n);
            &&& pr matches Some(i) ==> routes[i].uri.len() <= path.len()
                && path.take(routes[i].uri.len() as int) == routes[i].uri
            &&& pf matches Some(i) ==> routes[i].uri.len() <= path.len()
                && path.take(routes[i].uri.len() as int) == routes[i].uri
        }),
    decreases n,
{
    if n > 0 {
        lemma_candidates_fit(routes, path, n - 1);
        assert(path.take(path.len() as int) =~= path);
    }
}

/// Whether route `r` answers `path` by its own rule: a prefix of the path,
/// the whole path, or a regex that finds a match in it.
pub open spec fn route_matches(r: RouteV, path: Seq<char>) -> bool {
    match r.matcher {
        UriMatcher::Prefix => is_prefix(r.uri, path),
        UriMatcher::PrefixPrioritiesed => is_prefix(r.uri, path),
        UriMatcher::Exact => path == r.uri,
        UriMatcher::Regex => spec_regex_finds(r.uri, path),
    }
}

/// Exact and `^~` routes come before the others.
pub open spec fn is_priority(r: RouteV) -> bool {
    r.matcher == UriMatcher::Exact || r.matcher == UriMatcher::PrefixPrioritiesed
}

/// What each candidate after the first `n` routes is.
proof fn lemma_candidates_meaning(routes: Seq<RouteV>, path: Seq<char>, n: int)
    requires
        0 <= n <= routes.len(),
    ensures
        ({
            let (pr, rx, pf) = candidates(routes, path, n);
            &&& match pr {
                Some(i) => 0 <= i < n && is_priority(routes[i]) && route_matches(routes[i], path)
                    && forall|k: int|
                    0 <= k < n && is_priority(routes[k]) && route_matches(routes[k], path)
                        ==> routes[i].uri.len() >= routes[k].uri.len(),
                None => forall|k: int|
                    0 <= k < n && is_priority(routes[k]) ==> !route_matches(routes[k], path),
            }
            &&& match rx {
                Some(i) => 0 <= i < n && routes[i].matcher == UriMatcher::Regex && route_matches(
                    routes[i],
                    path,
                ) && forall|k: int|
                    0 <= k < i && routes[k].matcher == UriMatcher::Regex ==> !route_matches(
                        routes[k],
                        path,
                    ),
                None => forall|k: int|
                    0 <= k < n && routes[k].matcher == UriMatcher::Regex ==> !route_matches(
                        routes[k],
                        path,
                    ),
            }
            &&& match pf {
                Some(i) => 0 <= i < n && routes[i].matcher == UriMatcher::Prefix && route_matches(
                    routes[i],
                    path,
                ) && forall|k: int|
                    0 <= k < n && routes[k].matcher == UriMatcher::Prefix && route_matches(
                        routes[k],
                        path,
                    ) ==> routes[i].uri.len() >= routes[k].uri.len(),
                None => forall|k: int|
                    0 <= k < n && routes[k].matcher == UriMatcher::Prefix ==> !route_matches(
                        routes[k],
                        path,
                    ),
            }
        }),
    decreases n,
{
    if n > 0 {
        lemma_candidates_meaning(routes, path, n - 1);
    }
}

/// The index of the route found for `path`, or -1 when there is none.
pub open spec fn found_route(routes: Seq<RouteV>, path: Seq<char>) -> int {
    match spec_find_route(routes, path) {
        Some((i, _)) => i,
        None => -1,
    }
}

/// No route of a kind other than plain prefix answers the path.
pub open spec fn only_prefixes_match(routes: Seq<RouteV>, path: Seq<char>) -> bool {
    forall|p: int|
        0 <= p < routes.len() && routes[p].matcher != UriMatcher::Prefix ==> !route_matches(
            #[trigger] routes[p],
            path,
        )
}

/// No exact or `^~` route answers the path.
pub open spec fn no_priority_matches(routes: Seq<RouteV>, path: Seq<char>) -> bool {
    forall|p: int| 0 <= p < routes.len() && is_priority(#[trigger] routes[p]) ==> !route_matches(routes[p], path)
}

/// The route found for a path answers it by its own rule, and the matched
/// length is its text's (none for a regex). A path that some route answers
/// finds one. An exact or `^~` route that answers wins over every other
/// kind, and none of its kind that answers is longer; without those, the
/// first regex that answers wins over plain prefixes; without those, no
/// plain prefix that answers is longer than the one found.
pub proof fn law_found_route(routes: Seq<RouteV>, path: Seq<char>)
    ensures
        spec_find_route(routes, path) matches Some((i, n)) ==> 0 <= i < routes.len()
            && route_matches(routes[i], path) && n == (if routes[i].matcher == UriMatcher::Regex {
            0
        } else {
            routes[i].uri.len() as int
        }),
        (exists|k: int| 0 <= k < routes.len() && route_matches(#[trigger] routes[k], path))
            ==> found_route(routes, path) >= 0,
        forall|k: int|
            0 <= k < routes.len() && is_priority(#[trigger] routes[k]) && route_matches(routes[k], path)
                ==> found_route(routes, path) >= 0 && is_priority(routes[found_route(routes, path)])
                && routes[found_route(routes, path)].uri.len() >= routes[k].uri.len(),
        forall|k: int|
            0 <= k < routes.len() && (#[trigger] routes[k]).matcher == UriMatcher::Regex
                && route_matches(routes[k], path) && no_priority_matches(routes, path)
                ==> 0 <= found_route(routes, path) <= k && routes[found_route(routes, path)].matcher
                == UriMatcher::Regex,
        forall|k: int|
            0 <= k < routes.len() && (#[trigger] routes[k]).matcher == UriMatcher::Prefix
                && route_matches(routes[k], path) && only_prefixes_match(routes, path)
                ==> found_route(routes, path) >= 0 && routes[found_route(routes, path)].matcher
                == UriMatcher::Prefix && routes[found_route(routes, path)].uri.len()
                >= routes[k].uri.len(),
{
    lemma_candidates_meaning(routes, path, routes.len() as int);
    let (pr, rx, pf) = candidates(routes, path, routes.len() as int);
    assert forall|k: int| 0 <= k < routes.len() && route_matches(#[trigger] routes[k], path) implies found_route(
        routes,
        path,
    ) >= 0 by {
        match routes[k].matcher {
            UriMatcher::Prefix => {},
            UriMatcher::PrefixPrioritiesed => {},
            UriMatcher::Exact => {},
            UriMatcher::Regex => {},
        }
    }
    assert forall|k: int|
        0 <= k < routes.len() && (#[trigger] routes[k]).matcher == UriMatcher::Prefix
            && route_matches(routes[k], path) && only_prefixes_match(routes, path) implies found_route(
        routes,
        path,
    ) >= 0 && routes[found_route(routes, path)].matcher == UriMatcher::Prefix
        && routes[found_route(routes, path)].uri.len() >= routes[k].uri.len() by {
        if let Some(i) = pr {
            assert(routes[i].matcher != UriMatcher::Prefix);
        }
        if let Some(i) = rx {
            assert(routes[i].matcher != UriMatcher::Prefix);
        }
    }
}

fn pick_longer(routes: &Vec<Route>, cur: Option<usize>, i: usize) -> (r: Option<usize>)
    requires
        i < routes@.len(),
        cur matches Some(c) ==> c < routes@.len(),
    ensures
        r == match longer(routes_view(routes@), match cur { Some(c) => Some(c as int), None => None }, i as int) {
            Some(k) => Some(k as usize),
            None => None::<usize>,
        },
        r matches Some(k) ==> k < routes@.len(),
{
    match cur {
        None => Some(i),
        Some(c) => {
            let a = chars_of(routes[i].uri.as_str()).len();
            let b = chars_of(routes[c].uri.as_str()).len();
            assert(routes_view(routes@)[i as int].uri == routes@[i as int].uri@);
            assert(routes_view(routes@)[c as int].uri == routes@[c as int].uri@);
            if a >= b {
                Some(i)
            } else {
                Some(c)
            }
        },
    }
}

spec fn opt_int(o: Option<usize>) -> Option<int> {
    match o {
        Some(k) => Some(k as int),
        None => None,
    }
}

/// Finds the route of `server` that answers `path` (see `spec_find_route`).
/// Requires every regex route to compile, as each compiled pattern is
/// unwrapped (see `try_find_matching_route`).
pub fn find_matching_route<'a>(server: &'a Server, path: &str) -> (r: Option<Match<'a>>)
    requires
        regexes_compile(routes_view(server.routes@)),
    ensures
        match spec_find_route(routes_view(server.routes@), path@) {
            Some((i, n)) => r matches Some(m) && *m.route == server.routes@[i] && m.matched_prefix_len
                == encode_utf8(path@.take(n)).len(),
            None => r is None,
        },
{
    let routes = &server.routes;
    let ghost rv = routes_view(routes@);
    let p = chars_of(path);
    let mut prioritised: Option<usize> = None;
    let mut regex: Option<usize> = None;
    let mut prefix: Option<usize> = None;
    let mut i: usize = 0;
    while i < routes.len()
        invariant
            i <= routes@.len(),
            rv == routes_view(routes@),
            p@ == path@,
            regexes_compile(rv),
            candidates(rv, path@, i as int) == (opt_int(prioritised), opt_int(regex), opt_int(prefix)),
            prioritised matches Some(k) ==> k < routes@.len(),
            regex matches Some(k) ==> k < routes@.len(),
            prefix matches Some(k) ==> k < routes@.len(),
        decreases routes@.len() - i,
    {
        let route = &routes[i];
        let u = chars_of(route.uri.as_str());
        assert(rv[i as int] == route@);
        match route.matcher {
            UriMatcher::Prefix => {
                if chars_starts_with(p.as_slice(), u.as_slice()) {
                    prefix = pick_longer(routes, prefix, i);
                }
            },
            UriMatcher::Regex => {
                let found = match regex_find(route.uri.as_str(), path) {
                    Some(b) => b,
                    None => false,
                };
                if found && regex.is_none() {
                    regex = Some(i);
                }
            },
            UriMatcher::PrefixPrioritiesed => {
                if chars_starts_with(p.as_slice(), u.as_slice()) {
                    prioritised = pick_longer(routes, prioritised, i);
                }
            },
            UriMatcher::Exact => {
                if chars_eq(p.as_slice(), u.as_slice()) {
                    prioritised = pick_longer(routes, prioritised, i);
                }
            },
        }
        i = i + 1;
    }
    proof {
        lemma_candidates_fit(rv, path@, routes@.len() as int);
    }
    if let Some(k) = prioritised {
        let n = routes[k].uri.as_str().as_bytes().len();
        assert(rv[k as int] == routes@[k as int]@);
        assert(path@.take(rv[k as int].uri.len() as int) == rv[k as int].uri);
        assert(rv[k as int].uri == routes@[k as int].uri@);
        assert(n == encode_utf8(routes@[k as int].uri@).len());
        Some(Match { route: &routes[k], matched_prefix_len: n })
    } else if let Some(k) = regex {
        assert(path@.take(0) =~= Seq::<char>::empty());
        assert(encode_utf8(Seq::<char>::empty()).len() == 0);
        Some(Match { route: &routes[k], matched_prefix_len: 0 })
    } else if let Some(k) = prefix {
        let n = routes[k].uri.as_str().as_bytes().len();
        assert(rv[k as int] == routes@[k as int]@);
        assert(path@.take(rv[k as int].uri.len() as int) == rv[k as int].uri);
        assert(rv[k as int].uri == routes@[k as int].uri@);
        assert(n == encode_utf8(routes@[k as int].uri@).len());
        Some(Match { route: &routes[k], matched_prefix_len: n })
    } else {
        None
    }
}

/// `find_matching_route`, or `None` where a regex route does not compile
/// (where the program panics).
pub fn try_find_matching_route<'a>(server: &'a Server, path: &str) -> (r: Option<Option<Match<'a>>>)
    ensures
        !regexes_compile(routes_view(server.routes@)) <==> r is None,
        r matches Some(x) ==> match spec_find_route(routes_view(server.routes@), path@) {
            Some((i, n)) => x matches Some(m) && *m.route == server.routes@[i] && m.matched_prefix_len
                == encode_utf8(path@.take(n)).len(),
            None => x is None,
        },
{
    let ghost rv = routes_view(server.routes@);
    let mut i: usize = 0;
    while i < server.routes.len()
        invariant
            i <= server.routes@.len(),
            rv == routes_view(server.routes@),
            forall|j: int|
                0 <= j < i && rv[j].matcher == UriMatcher::Regex ==> spec_regex_compiles(rv[j].uri),
        decreases server.routes@.len() - i,
    {
        assert(rv[i as int] == server.routes@[i as int]@);
        if server.routes[i].matcher == UriMatcher::Regex {
            if regex_find(server.routes[i].uri.as_str(), path).is_none() {
                return None;
            }
        }
        i = i + 1;
    }
    Some(find_matching_route(server, path))
}

} // verus!
