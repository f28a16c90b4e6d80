use jjinx::config::{Content, ErrorPages, Route, Server, UriMatcher};
use jjinx::route_matching::{find_matching_route, try_find_matching_route};
use jjinx::strmap::StrMap;

fn route(uri: &str, matcher: UriMatcher, status: i16) -> Route {
    Route {
        uri: uri.to_string(),
        matcher,
        content: Some(Content::NoContent),
        status: Some(status),
        headers: StrMap::new(),
        default_content_type: None,
    }
}

fn server(routes: Vec<Route>) -> Server {
    Server {
        ip: None,
        port: Some(8080),
        domain_names: Vec::new(),
        is_default: true,
        routes,
        header_timeout: None,
        body_timeout: None,
        send_timeout: None,
        cert_path: None,
        keys_path: None,
        error_pages: ErrorPages { pages: Vec::new() },
    }
}

#[test]
fn test_find_matching_route() {
    let server = server(Vec::from([
        route("/exact", UriMatcher::Exact, 201),
        route("^/e.*t$", UriMatcher::Regex, 202),
        route("/exa", UriMatcher::PrefixPrioritiesed, 203),
        route("/ex", UriMatcher::Exact, 204),
    ]));

    assert_eq!(find_matching_route(&server, "/exact").unwrap().route.status.unwrap(), 201);
    assert_eq!(find_matching_route(&server, "/exct").unwrap().route.status.unwrap(), 202);
    assert_eq!(find_matching_route(&server, "/exat").unwrap().route.status.unwrap(), 203);
    assert_eq!(find_matching_route(&server, "/ex").unwrap().route.status.unwrap(), 204);
}

#[test]
fn longest_prefix_wins_and_reports_its_length() {
    let server = server(Vec::from([
        route("/", UriMatcher::Prefix, 1),
        route("/images/", UriMatcher::Prefix, 2),
        route("/img", UriMatcher::Prefix, 3),
    ]));
    let m = find_matching_route(&server, "/images/a.png").unwrap();
    assert_eq!(m.route.status, Some(2));
    assert_eq!(m.matched_prefix_len, 8);
    let m = find_matching_route(&server, "/other").unwrap();
    assert_eq!(m.route.status, Some(1));
    assert_eq!(m.matched_prefix_len, 1);
    assert!(find_matching_route(&server, "x").is_none());
}

#[test]
fn a_bad_regex_is_reported() {
    let server = server(Vec::from([route("(", UriMatcher::Regex, 1)]));
    assert!(try_find_matching_route(&server, "/").is_none());
}

#[test]
fn matched_prefix_length_counts_bytes() {
    let server = server(Vec::from([route("/é", UriMatcher::Prefix, 1)]));
    let m = find_matching_route(&server, "/éx").unwrap();
    assert_eq!(m.route.status, Some(1));
    assert_eq!(m.matched_prefix_len, 3);
}
