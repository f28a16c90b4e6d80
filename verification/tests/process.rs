use jjinx::config::{Content, ErrorPages, Route, Server, ServerGroup, UriMatcher};
use jjinx::route_matching::Match;
use jjinx::http::io::Parsed;
use jjinx::http::request_parse::parse_request;
use jjinx::http::{ParseError, Request, Response};
use jjinx::process::{
    decide, error_page_plan, plan_response, finish_error_page, get_host, index_path, plain_response, select_server,
    serve_file, serve_files, status_for_parse_error, status_for_server_error, timeout_or_default,
    with_route_headers, ContentType, Decision, Plan, ServerError,
};
use jjinx::strmap::StrMap;
use jjinx::vars::VarError;

fn request(text: &str) -> Request {
    match parse_request(text.as_bytes(), true) {
        Parsed::Done(r, _) => r,
        _ => panic!("the request does not parse"),
    }
}

fn map(pairs: &[(&str, &str)]) -> StrMap {
    let mut m = StrMap::new();
    for (k, v) in pairs {
        m.insert(k.to_string(), v.to_string());
    }
    m
}

fn route(uri: &str, matcher: UriMatcher, content: Option<Content>, status: Option<i16>) -> Route {
    Route {
        uri: uri.to_owned(),
        matcher,
        content,
        status,
        headers: StrMap::new(),
        default_content_type: None,
    }
}

fn server(names: &[&str], routes: Vec<Route>, pages: Vec<(i16, String)>) -> Server {
    Server {
        port: Some(8080),
        ip: None,
        domain_names: names.iter().map(|s| s.to_string()).collect(),
        is_default: false,
        routes,
        header_timeout: None,
        body_timeout: None,
        send_timeout: None,
        cert_path: None,
        keys_path: None,
        error_pages: ErrorPages { pages },
    }
}

fn group() -> ServerGroup {
    let main = server(
        &[],
        Vec::from([
            route("/", UriMatcher::Prefix, Some(Content::Redirect("/index.html".to_owned())), None),
            route("/get-host", UriMatcher::Prefix, Some(Content::RawData("Host: $host\n".to_owned())), None),
            route("/static/", UriMatcher::Prefix, Some(Content::FileAny(Vec::from(["/srv/a".to_owned(), "/srv/b".to_owned()]))), Some(203)),
            route("/files", UriMatcher::Prefix, None, None),
            route("/gone", UriMatcher::Exact, Some(Content::NoContent), Some(410)),
            route("/bad", UriMatcher::Prefix, Some(Content::RawData("$nothing".to_owned())), None),
            route(
                "/up/",
                UriMatcher::Prefix,
                Some(Content::Proxy { uri: "http://backend:8000/api/".to_owned(), headers: map(&[("X-Host", "$host")]) }),
                None,
            ),
        ]),
        Vec::from([(404, "/404".to_owned())]),
    );
    let other = server(
        &["example.com"],
        Vec::from([route("/x", UriMatcher::Prefix, Some(Content::NoContent), Some(204))]),
        Vec::new(),
    );
    ServerGroup { servers: Vec::from([main, other]), default: 0 }
}

#[test]
fn redirect_and_raw_data_are_answered_directly() {
    let g = group();
    let env = StrMap::new();
    match decide(&g, &request("GET / HTTP/1.1\r\nHost: site\r\n\r\n"), &env) {
        Decision::Serve { server: 0, plan: Plan::Respond(r) } => {
            assert_eq!(r.status, 308);
            assert_eq!(r.headers, map(&[("Location", "/index.html")]));
        }
        _ => panic!("expected a redirect"),
    }
    match decide(&g, &request("GET /get-host HTTP/1.1\r\nHost: site:81\r\n\r\n"), &env) {
        Decision::Serve { plan: Plan::Respond(r), .. } => {
            assert_eq!(r.status, 200);
            assert_eq!(r.body, b"Host: site:81\n".to_vec());
        }
        _ => panic!("expected a body"),
    }
    match decide(&g, &request("GET /gone HTTP/1.1\r\nHost: site\r\n\r\n"), &env) {
        Decision::Serve { plan: Plan::Respond(r), .. } => assert_eq!(r.status, 410),
        _ => panic!("expected no content"),
    }
}

#[test]
fn files_are_planned_with_the_rest_of_the_path() {
    let g = group();
    let env = StrMap::new();
    match decide(&g, &request("GET /static/img/a.png HTTP/1.1\r\nHost: site\r\n\r\n"), &env) {
        Decision::Serve { plan: Plan::Files { paths, error, status, .. }, .. } => {
            assert_eq!(paths, vec!["/srv/aimg/a.png".to_owned(), "/srv/bimg/a.png".to_owned()]);
            assert!(error.is_none());
            assert_eq!(status, 203);
        }
        _ => panic!("expected files"),
    }
    match decide(&g, &request("GET /files/x.css HTTP/1.1\r\nHost: site\r\n\r\n"), &env) {
        Decision::Serve { plan: Plan::File { path, empty_ok, .. }, .. } => {
            assert_eq!(path, "files/x.css");
            assert!(!empty_ok);
        }
        _ => panic!("expected a file"),
    }
}

#[test]
fn proxy_routes_name_their_target() {
    let g = group();
    match decide(&g, &request("GET /up/v1 HTTP/1.1\r\nHost: site\r\n\r\n"), &StrMap::new()) {
        Decision::Serve { plan: Plan::Proxy { uri, prefix_len, proxy_headers, .. }, .. } => {
            assert_eq!(uri.domain(), "backend");
            assert_eq!(uri.path(), "/api/");
            assert_eq!(prefix_len, 4);
            assert_eq!(proxy_headers, map(&[("X-Host", "site")]));
        }
        _ => panic!("expected a proxy plan"),
    }
}

#[test]
fn servers_are_chosen_by_host_and_failures_give_statuses() {
    let g = group();
    let env = StrMap::new();
    match decide(&g, &request("GET /x HTTP/1.1\r\nHost: example.com:8080\r\n\r\n"), &env) {
        Decision::Serve { server: 1, plan: Plan::Respond(r) } => assert_eq!(r.status, 204),
        _ => panic!("expected the second server"),
    }
    assert!(matches!(
        decide(&g, &request("GET /y HTTP/1.1\r\nHost: example.com\r\n\r\n"), &env),
        Decision::Fail { server: 1, status: 404 }
    ));
    assert!(matches!(
        decide(&g, &request("GET /bad HTTP/1.1\r\nHost: site\r\n\r\n"), &env),
        Decision::Fail { server: 0, status: 500 }
    ));
    assert!(matches!(decide(&g, &request("GET /x HTTP/1.1\r\n\r\n"), &env), Decision::Abort));
}

#[test]
fn host_and_server_selection() {
    let g = group();
    assert_eq!(get_host(&request("GET http://a.b:9/ HTTP/1.1\r\n\r\n")), "a.b:9");
    assert_eq!(get_host(&request("GET / HTTP/1.1\r\nHost: c.d:10\r\n\r\n")), "c.d");
    assert_eq!(select_server(&g, "example.com"), 1);
    assert_eq!(select_server(&g, "unknown"), 0);
}

#[test]
fn error_pages_take_the_error_status() {
    let g = group();
    let q = request("GET /nowhere HTTP/1.1\r\nHost: site\r\n\r\n");
    match error_page_plan(&g.servers[0], 404, &q, &StrMap::new()) {
        Some(Some(Plan::Respond(r))) => {
            assert_eq!(r.status, 308);
            let page = finish_error_page(Ok(r), 404);
            assert_eq!(page.status, 308);
        }
        _ => panic!("expected the page of 404"),
    }
    assert!(matches!(error_page_plan(&g.servers[0], 500, &q, &StrMap::new()), Some(None)));
    let ok = Response { status: 200, headers: StrMap::new(), body: b"page".to_vec() };
    let page = finish_error_page(Ok(ok), 404);
    assert_eq!(page.status, 404);
    assert_eq!(page.body, b"page".to_vec());
    let failed = finish_error_page(Err(ServerError::NotFound), 503);
    assert_eq!(failed.status, 503);
    assert!(failed.body.is_empty());
    assert_eq!(plain_response(418).status, 418);
}

#[test]
fn served_files_get_their_content_type() {
    let r = serve_file(Some((b"<p>".to_vec(), ContentType::Html)), false, StrMap::new()).unwrap();
    assert_eq!(r.status, 200);
    assert_eq!(r.headers, map(&[("Content-Type", "text/html")]));
    assert!(matches!(serve_file(None, false, StrMap::new()), Err(ServerError::NotFound)));
    let r = serve_file(None, true, StrMap::new()).unwrap();
    assert_eq!(r.status, 200);
    assert!(r.body.is_empty());

    let found = vec![Some((b"a".to_vec(), ContentType::Css)), None, Some((b"b".to_vec(), ContentType::Unknown))];
    let r = serve_files(found, None, 201, map(&[("X", "y")])).unwrap();
    assert_eq!(r.status, 201);
    assert_eq!(r.body, b"b".to_vec());
    assert_eq!(r.headers, map(&[("X", "y")]));
    assert!(matches!(serve_files(vec![None], None, 200, StrMap::new()), Err(ServerError::NotFound)));
    let err = serve_files(vec![], Some(VarError::UnknownVar("v".to_owned())), 200, StrMap::new());
    assert!(matches!(err, Err(ServerError::VarError(VarError::UnknownVar(n))) if n == "v"));
}

#[test]
fn content_types_follow_the_file_name() {
    assert_eq!(ContentType::by_path("a/b.html"), ContentType::Html);
    assert_eq!(ContentType::by_path("b.htm"), ContentType::Html);
    assert_eq!(ContentType::by_path("s.css"), ContentType::Css);
    assert_eq!(ContentType::by_path("s.js"), ContentType::Js);
    assert_eq!(ContentType::by_path("d.json"), ContentType::Json);
    assert_eq!(ContentType::by_path("d.xml"), ContentType::Xml);
    assert_eq!(ContentType::by_path("d.txt"), ContentType::Unknown);
    assert_eq!(ContentType::Js.to_mime(), Some("application/javascript"));
    assert_eq!(ContentType::Unknown.to_mime(), None);
    assert_eq!(index_path("/srv/www"), "/srv/www/index.html");
    assert_eq!(index_path("/srv/www/"), "/srv/www/index.html");
}

#[test]
fn statuses_for_errors() {
    assert_eq!(status_for_parse_error(&ParseError::Timeout), 408);
    assert_eq!(status_for_parse_error(&ParseError::UnknownTransferEncoding("x".to_owned())), 501);
    assert_eq!(status_for_parse_error(&ParseError::ExpectedColon), 400);
    assert_eq!(status_for_server_error(&ServerError::NotFound), 404);
    assert_eq!(status_for_server_error(&ServerError::IoError), 500);
    assert_eq!(timeout_or_default(None), 60);
    assert_eq!(timeout_or_default(Some(5)), 5);
}

#[test]
fn route_headers_go_on_top_of_a_passed_on_response() {
    let r = Response { status: 200, headers: map(&[("A", "1"), ("B", "2")]), body: Vec::new() };
    let r = with_route_headers(r, &map(&[("B", "3"), ("C", "4")]));
    assert_eq!(r.headers, map(&[("A", "1"), ("B", "3"), ("C", "4")]));
}

#[test]
fn the_matched_bytes_are_cut_from_the_path() {
    // Each escaped byte becomes a character: the path is `/Ã©x`.
    let r = route("/\u{c3}\u{a9}", UriMatcher::Prefix, Some(Content::FileAny(Vec::from(["/srv/".to_owned()]))), None);
    let g = ServerGroup { servers: Vec::from([server(&[], Vec::from([r]), Vec::new())]), default: 0 };
    match decide(&g, &request("GET /%C3%A9x HTTP/1.1\r\nHost: site\r\n\r\n"), &StrMap::new()) {
        Decision::Serve { plan: Plan::Files { paths, .. }, .. } => assert_eq!(paths, vec!["/srv/x".to_owned()]),
        _ => panic!("expected files"),
    }
    let q = request("GET /%C3%A9x HTTP/1.1\r\nHost: site\r\n\r\n");
    let inside = Match { route: &g.servers[0].routes[0], matched_prefix_len: 2 };
    assert!(plan_response(&inside, &q, &StrMap::new()).is_none());
    let whole = Match { route: &g.servers[0].routes[0], matched_prefix_len: 5 };
    match plan_response(&whole, &q, &StrMap::new()) {
        Some(Ok(Plan::Files { paths, .. })) => assert_eq!(paths, vec!["/srv/x".to_owned()]),
        _ => panic!("expected files"),
    }
}
