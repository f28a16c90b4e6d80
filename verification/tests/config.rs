use jjinx::config::{
    Balancing, Config, Content, ErrorPages, ParseError, Route, Server, Upstream, Upstreams,
    UriMatcher,
};
use jjinx::strmap::StrMap;
use jjinx::config::parse::try_parse_upstream_config;
use jjinx::config::tokenizer::{try_read_tokens_until_newline, ByteReader};

fn headers(pairs: &[(&str, &str)]) -> StrMap {
    let mut m = StrMap::new();
    for (k, v) in pairs {
        m.insert(k.to_string(), v.to_string());
    }
    m
}

fn route(uri: &str, matcher: UriMatcher, content: Option<Content>, status: Option<i16>, h: StrMap) -> Route {
    Route {
        uri: uri.to_owned(),
        matcher,
        content,
        status,
        headers: h,
        default_content_type: None,
    }
}

#[test]
fn parse_config() -> Result<(), ParseError> {
    let text = "set port 8080\n\
\n\
server {\n\
    port $port\n\
    default\n\
\n\
    set index_uri /index.html\n\
\n\
    route / {\n\
        redirect $index_uri\n\
    }\n\
\n\
    route $index_uri {\n\
        file /index.html /index.htm \"/has a space.html\"\n\
\n\
        set type text/html\n\
        header Content-Type $type\n\
    }\n\
\n\
    route /images/ {}\n\
\n\
    route /test {\n\
        body \"test test test\"\n\
    }\n\
\n\
    route /proxy {\n\
        proxy http://example.com\n\
        proxy_header Host $host\n\
    }\n\
}\n\
\n\
# a comment\n\
\n\
upstream backend {\n\
    least_conn\n\
    server app1.example.com\n\
    server app2.example.com\n\
    server app3.example.com\n\
}\n\
\n\
server {\n\
    port $port\n\
    ip 127.0.0.1\n\
    domain example.com\n\
    domain www.example.com\n\
\n\
    route = /blocked {\n\
        nocontent\n\
        status 404\n\
    }\n\
}\n";

    let expected = Config {
        servers: Vec::from([
            Server {
                port: Some(8080),
                ip: None,
                domain_names: Vec::new(),
                is_default: true,
                routes: Vec::from([
                    route(
                        "/",
                        UriMatcher::Prefix,
                        Some(Content::Redirect("/index.html".to_owned())),
                        None,
                        StrMap::new(),
                    ),
                    route(
                        "/index.html",
                        UriMatcher::Prefix,
                        Some(Content::FileAny(Vec::from([
                            "/index.html".into(),
                            "/index.htm".into(),
                            "/has a space.html".into(),
                        ]))),
                        None,
                        headers(&[("Content-Type", "text/html")]),
                    ),
                    route("/images/", UriMatcher::Prefix, None, None, StrMap::new()),
                    route(
                        "/test",
                        UriMatcher::Prefix,
                        Some(Content::RawData("test test test".to_owned())),
                        None,
                        StrMap::new(),
                    ),
                    route(
                        "/proxy",
                        UriMatcher::Prefix,
                        Some(Content::Proxy {
                            uri: "http://example.com".to_owned(),
                            headers: headers(&[("Host", "$host")]),
                        }),
                        None,
                        StrMap::new(),
                    ),
                ]),
                header_timeout: None,
                body_timeout: None,
                send_timeout: None,
                cert_path: None,
                keys_path: None,
                error_pages: ErrorPages { pages: Vec::new() },
            },
            Server {
                port: Some(8080),
                ip: Some("127.0.0.1".to_owned()),
                domain_names: Vec::from(["example.com".to_owned(), "www.example.com".to_owned()]),
                is_default: false,
                routes: Vec::from([route(
                    "/blocked",
                    UriMatcher::Exact,
                    Some(Content::NoContent),
                    Some(404),
                    StrMap::new(),
                )]),
                header_timeout: None,
                body_timeout: None,
                send_timeout: None,
                cert_path: None,
                keys_path: None,
                error_pages: ErrorPages { pages: Vec::new() },
            },
        ]),
        upstreams: Upstreams {
            groups: Vec::from([(
                "backend".to_owned(),
                Upstream {
                    balancing: Some(Balancing::LeastConnected),
                    servers: Vec::from([
                        "app1.example.com".to_owned(),
                        "app2.example.com".to_owned(),
                        "app3.example.com".to_owned(),
                    ]),
                    max_fails: None,
                    fail_timeout: None,
                    connect_timeout: None,
                    header_timeout: None,
                    body_timeout: None,
                    send_timeout: None,
                },
            )]),
        },
    };

    assert_eq!(jjinx::config::parse_config(text.as_bytes().to_vec())?, expected);
    Ok(())
}

#[test]
fn a_setting_named_twice_is_refused() {
    let text = "server {\nport 80\ndomain a\nport 81\n}\n";
    assert_eq!(
        jjinx::config::parse_config(text.as_bytes().to_vec()),
        Err(ParseError::DuplicateField("port".to_owned()))
    );
    let text = "server {\nssl_cert a\nssl_cert b\n}\n";
    assert_eq!(
        jjinx::config::parse_config(text.as_bytes().to_vec()),
        Err(ParseError::DuplicateField("ssl_cert".to_owned()))
    );
    let text = "server {\ndefault\ndefault\n}\n";
    assert_eq!(
        jjinx::config::parse_config(text.as_bytes().to_vec()),
        Err(ParseError::DuplicateField("default".to_owned()))
    );
}

#[test]
fn an_unknown_escape_is_reported_as_escape_default_writes_it() {
    let text = "set a \"x\\qy\"\n";
    assert_eq!(
        jjinx::config::parse_config(text.as_bytes().to_vec()),
        Err(ParseError::UnknownEscape("q".to_owned()))
    );
    let text = b"set a \"x\\\x01y\"\n".to_vec();
    assert_eq!(jjinx::config::parse_config(text), Err(ParseError::UnknownEscape("\\x01".to_owned())));
    assert_eq!(jjinx::text::escape_byte(b'\''), "\\'");
    assert_eq!(jjinx::text::escape_byte(0x9d), "\\x9d");
    assert_eq!(jjinx::text::escape_byte(b'\t'), "\\t");
}

#[test]
fn reading_a_line_needs_its_line_feed() {
    let mut r = ByteReader::new(b"a b\nc".to_vec());
    assert_eq!(try_read_tokens_until_newline(&mut r), Some(Ok(vec!["a".to_owned(), "b".to_owned()])));
    let mut r = ByteReader::new(b"a b".to_vec());
    assert_eq!(try_read_tokens_until_newline(&mut r), None);
}

#[test]
fn an_upstream_block_is_read_on_any_input() {
    let mut r = ByteReader::new(b"backend {\nserver a\n}\n".to_vec());
    match try_parse_upstream_config(&mut r, &StrMap::new()) {
        Some(Ok((name, up))) => {
            assert_eq!(name, "backend");
            assert_eq!(up.servers, vec!["a".to_owned()]);
        }
        _ => panic!("expected an upstream"),
    }
}

#[test]
fn escaped_bytes_read_as_std_writes_them() {
    for b in 0..=255u8 {
        assert_eq!(jjinx::text::escape_byte(b), std::ascii::escape_default(b).to_string());
    }
}
