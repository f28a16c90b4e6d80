use jjinx::config::{Balancing, Upstream, Upstreams};
use jjinx::proxy::{check_server_name, domain_of_host, make_upstreams, ProxyError, NANOS_PER_SEC};

fn group(balancing: Option<Balancing>, servers: &[&str]) -> Upstreams {
    Upstreams {
        groups: Vec::from([(
            "backend".to_owned(),
            Upstream {
                servers: servers.iter().map(|s| s.to_string()).collect(),
                balancing,
                max_fails: None,
                fail_timeout: None,
                connect_timeout: None,
                header_timeout: None,
                body_timeout: None,
                send_timeout: Some(5),
            },
        )]),
    }
}

#[test]
fn round_robin_takes_servers_in_turn() {
    let mut pool = make_upstreams(group(None, &["a", "b", "c"]));
    assert_eq!(pool.len(), 1);
    assert_eq!(pool.find("backend"), Some(0));
    assert_eq!(pool.find("other"), None);
    let picks: Vec<usize> = (0..4).map(|_| pool.get_server(0, 0, 0)).collect();
    assert_eq!(picks, vec![0, 1, 2, 0]);
}

#[test]
fn a_failed_server_is_passed_over_while_its_failure_is_recent() {
    let mut pool = make_upstreams(group(Some(Balancing::RoundRobin), &["a", "b", "c"]));
    pool.add_failure(0, 0, 0);
    assert_eq!(pool.get_server(0, 0, 1), 1);
    let mut pool = make_upstreams(group(Some(Balancing::RoundRobin), &["a", "b", "c"]));
    pool.add_failure(0, 0, 0);
    // Ten seconds later the failure is old enough to be forgotten.
    assert_eq!(pool.get_server(0, 0, 11 * NANOS_PER_SEC), 0);
}

#[test]
fn least_connected_takes_the_least_busy_and_closing_gives_back() {
    let mut pool = make_upstreams(group(Some(Balancing::LeastConnected), &["a", "b"]));
    assert_eq!(pool.get_server(0, 0, 0), 0);
    assert_eq!(pool.get_server(0, 0, 0), 1);
    pool.close_connection(0, 0);
    assert_eq!(pool.get_server(0, 0, 0), 0);
}

#[test]
fn least_connected_avoids_failing_servers() {
    let mut pool = make_upstreams(group(Some(Balancing::LeastConnected), &["a", "b"]));
    pool.add_failure(0, 0, 0);
    assert_eq!(pool.get_server(0, 0, 0), 1);
    assert_eq!(pool.get_server(0, 0, 0), 1);
}

#[test]
fn ip_hash_picks_by_the_hash() {
    let mut pool = make_upstreams(group(Some(Balancing::IpHash), &["a", "b", "c"]));
    assert_eq!(pool.get_server(0, 7, 0), 1);
    assert_eq!(pool.get_server(0, 9, 0), 0);
}

#[test]
fn group_settings_are_kept() {
    let pool = make_upstreams(group(None, &["a:80"]));
    let g = pool.group(0);
    assert_eq!(g.len(), 1);
    assert_eq!(g.server(0), "a:80");
    let (connect, header, body, send) = g.timeouts();
    assert_eq!(connect, 60 * NANOS_PER_SEC);
    assert_eq!(header, 60 * NANOS_PER_SEC);
    assert_eq!(body, 60 * NANOS_PER_SEC);
    assert_eq!(send, 5 * NANOS_PER_SEC);
}

#[test]
fn server_names_for_tls_are_checked() {
    assert_eq!(domain_of_host("example.com:443"), "example.com");
    assert_eq!(domain_of_host("example.com"), "example.com");
    assert!(check_server_name("example.com", false).is_ok());
    assert!(check_server_name("127.0.0.1", true).is_ok());
    assert!(matches!(check_server_name("bad name!", false), Err(ProxyError::DomainNameError)));
}

use jjinx::http::io::Parsed;
use jjinx::http::request_parse::parse_request;
use jjinx::http::{HttpVersion, Request};
use jjinx::proxy::{proxy_done, proxy_request, proxy_target};
use jjinx::strmap::StrMap;
use jjinx::uri::parse_uri;

fn request(text: &str) -> Request {
    match parse_request(text.as_bytes(), true) {
        Parsed::Done(r, _) => r,
        _ => panic!("the request does not parse"),
    }
}

fn map(pairs: &[(&str, &str)]) -> StrMap {
    let mut m = StrMap::new();
    for (k, v) in pairs {
        m.insert(k.to_string(), v.to_string());
    }
    m
}

#[test]
fn a_passed_on_request_goes_to_a_server_of_the_group() {
    let mut pool = make_upstreams(group(None, &["10.0.0.1:9000", "10.0.0.2:9000"]));
    let q = request("GET /up/v1 HTTP/1.0\r\nHost: site\r\n\r\n");
    let target = parse_uri("http://backend/api/").unwrap();
    let extra = map(&[("X", "y")]);
    let t = match proxy_target(&target, &q, 4, &extra, &mut pool, 0, 0, &StrMap::new()) {
        Some(Ok(t)) => t,
        _ => panic!("expected a target"),
    };
    assert_eq!(t.upstream, Some((0, 0)));
    assert_eq!(t.host, "10.0.0.1:9000");
    assert!(!t.tls);
    assert_eq!(t.send_timeout, 5 * NANOS_PER_SEC);
    assert_eq!(t.request.start_line.version, HttpVersion(1, 1));
    assert_eq!(t.request.start_line.uri.full, "/api/v1");
    assert_eq!(t.request.headers, map(&[("Host", "site"), ("X", "y")]));

    // A failed exchange marks the server, which the next request avoids.
    proxy_done(&mut pool, t.upstream, true, 0);
    assert_eq!(pool.get_server(0, 0, 1), 1);
}

#[test]
fn a_target_outside_the_groups_is_reached_at_its_host() {
    let mut pool = make_upstreams(group(None, &["a"]));
    let q = request("GET http://site.example/p HTTP/1.1\r\n\r\n");
    let target = parse_uri("https://other.example:8443").unwrap();
    let t = match proxy_target(&target, &q, 0, &StrMap::new(), &mut pool, 0, 0, &StrMap::new()) {
        Some(Ok(t)) => t,
        _ => panic!("expected a target"),
    };
    assert_eq!(t.upstream, None);
    assert_eq!(t.host, "other.example:8443");
    assert!(t.tls);
    assert_eq!(t.connect_timeout, 60 * NANOS_PER_SEC);
    assert_eq!(t.request.headers, map(&[("Host", "site.example")]));
    assert_eq!(t.request.start_line.uri.full, "http://site.example/p");
}

#[test]
fn a_server_address_with_an_unknown_variable_is_an_error() {
    let mut pool = make_upstreams(group(Some(Balancing::LeastConnected), &["$nothing"]));
    let q = request("GET / HTTP/1.1\r\nHost: x\r\n\r\n");
    let target = parse_uri("http://backend/").unwrap();
    assert!(matches!(
        proxy_target(&target, &q, 0, &StrMap::new(), &mut pool, 0, 0, &StrMap::new()),
        Some(Err(ProxyError::VarError(_)))
    ));
    // The chosen server was released again.
    assert_eq!(pool.get_server(0, 0, 0), 0);
}

#[test]
fn the_path_prefix_is_replaced_by_the_target_path() {
    let q = request("GET /old/rest?q=1#f HTTP/1.1\r\n\r\n");
    let target = parse_uri("http://x/new").unwrap();
    let r = proxy_request(&q, &target, 4, &StrMap::new());
    assert_eq!(r.start_line.uri.full, "/new/rest?q=1#f");
    assert_eq!(r.start_line.uri.path(), "/new/rest");
    assert_eq!(r.start_line.uri.query(), "q=1");
}

#[test]
fn round_robin_goes_round_from_the_first_server() {
    let mut pool = make_upstreams(group(Some(Balancing::RoundRobin), &["a", "b", "c"]));
    let picks: Vec<usize> = (0..7).map(|k| pool.get_server(0, k, 0)).collect();
    assert_eq!(picks, vec![0, 1, 2, 0, 1, 2, 0]);
}

#[test]
fn least_connected_takes_the_first_of_the_least_busy() {
    let mut pool = make_upstreams(group(Some(Balancing::LeastConnected), &["a", "b", "c"]));
    assert_eq!(pool.get_server(0, 0, 0), 0);
    assert_eq!(pool.get_server(0, 0, 0), 1);
    assert_eq!(pool.get_server(0, 0, 0), 2);
    pool.close_connection(0, 1);
    assert_eq!(pool.get_server(0, 0, 0), 1);
    // With every server failing, the first of the least busy is taken.
    let mut pool = make_upstreams(group(Some(Balancing::LeastConnected), &["a", "b"]));
    assert_eq!(pool.get_server(0, 0, 0), 0);
    pool.add_failure(0, 0, 0);
    pool.add_failure(0, 1, 0);
    assert_eq!(pool.get_server(0, 0, 0), 1);
    assert_eq!(pool.get_server(0, 0, 0), 0);
}

#[test]
fn a_finished_exchange_releases_its_server() {
    let mut pool = make_upstreams(group(Some(Balancing::LeastConnected), &["a", "b"]));
    let q = request("GET /x HTTP/1.1\r\nHost: site\r\n\r\n");
    let target = parse_uri("http://backend/").unwrap();
    let t = match proxy_target(&target, &q, 0, &StrMap::new(), &mut pool, 0, 0, &StrMap::new()) {
        Some(Ok(t)) => t,
        _ => panic!("expected a target"),
    };
    assert_eq!(t.upstream, Some((0, 0)));
    proxy_done(&mut pool, t.upstream, false, 0);
    // The counts are back: the first server is the least busy again.
    assert_eq!(pool.get_server(0, 0, 0), 0);
}

#[test]
fn the_matched_prefix_is_counted_in_bytes() {
    // Each escaped byte becomes a character: the path is `/Ã©/v1`, whose
    // first five bytes are `/Ã©`.
    let q = request("GET /%C3%A9/v1 HTTP/1.1\r\nHost: site\r\n\r\n");
    assert_eq!(q.start_line.uri.path(), "/\u{c3}\u{a9}/v1");
    let target = parse_uri("http://other/api").unwrap();
    let mut pool = make_upstreams(group(None, &["a"]));
    let t = match proxy_target(&target, &q, 5, &StrMap::new(), &mut pool, 0, 0, &StrMap::new()) {
        Some(Ok(t)) => t,
        _ => panic!("expected a target"),
    };
    assert_eq!(t.request.start_line.uri.path(), "/api/v1");
    // Two bytes end inside `Ã`: the path cannot be cut there.
    assert!(proxy_target(&target, &q, 2, &StrMap::new(), &mut pool, 0, 0, &StrMap::new()).is_none());
}
