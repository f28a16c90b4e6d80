use jjinx::http::io::Parsed;
use jjinx::http::parse::{parse_body, parse_headers, parse_http_version};
use jjinx::http::request_parse::{parse_request_head, parse_start_line};
use jjinx::http::response_parse::parse_response;
use jjinx::http::response_write::status_name;
use jjinx::http::{
    parse_request, write_request, write_response, HttpVersion, ParseError, Request, Response,
    StartLine,
};
use jjinx::strmap::StrMap;
use jjinx::uri::parse_uri;

fn done<T>(p: Parsed<T>) -> T {
    match p {
        Parsed::Done(v, _) => v,
        Parsed::Fail(e) => panic!("failed: {e:?}"),
        Parsed::More => panic!("needs more bytes"),
        Parsed::Abort => panic!("aborted"),
    }
}

fn fields(pairs: &[(&str, &str)]) -> StrMap {
    let mut m = StrMap::new();
    for (k, v) in pairs {
        m.insert(k.to_string(), v.to_string());
    }
    m
}

#[test]
fn request_parse_parse_http_version() {
    let version = done(parse_http_version(b"HTTP/1.1", true, 0));
    assert_eq!(version, HttpVersion(1, 1));
}

#[test]
fn request_parse_parse_start_line() {
    let start_line = done(parse_start_line(
        b"GET http://www.ics.uci.edu/pub/ietf/uri/#Related HTTP/1.1",
        true,
        0,
    ));
    assert_eq!(
        start_line,
        StartLine {
            method: "GET".to_owned(),
            uri: parse_uri("http://www.ics.uci.edu/pub/ietf/uri/#Related").unwrap(),
            version: HttpVersion(1, 1)
        }
    );
}

#[test]
fn request_parse_parse_headers() {
    let headers = done(parse_headers(b"Header1: value1\r\nheader2:value2  \r\n", true, 0));
    assert_eq!(headers, fields(&[("Header1", "value1"), ("Header2", "value2")]));
}

#[test]
fn request_parse_parse_request_full() {
    let text = "GET http://www.ics.uci.edu/pub/ietf/uri/#Related HTTP/1.1\r\n\
Header1: value1\r\n\
header2:value2  \r\n\
Content-Length: 48\r\n\
\r\n\
<html><body>something</body></html>";
    let request = done(parse_request(text.as_bytes(), true));
    assert_eq!(
        request,
        Request {
            start_line: StartLine {
                method: "GET".to_owned(),
                uri: parse_uri("http://www.ics.uci.edu/pub/ietf/uri/#Related").unwrap(),
                version: HttpVersion(1, 1)
            },
            headers: fields(&[
                ("Header1", "value1"),
                ("Header2", "value2"),
                ("Content-Length", "48"),
            ]),
            body: b"<html><body>something</body></html>".to_vec()
        }
    );
}

#[test]
fn request_parse_parse_request_no_body() {
    let text = "GET http://www.ics.uci.edu/pub/ietf/uri/#Related HTTP/1.1\r\n\
Header1: value1\r\n\
header2:value2  \r\n\
\r\n";
    let request = done(parse_request(text.as_bytes(), true));
    assert_eq!(
        request,
        Request {
            start_line: StartLine {
                method: "GET".to_owned(),
                uri: parse_uri("http://www.ics.uci.edu/pub/ietf/uri/#Related").unwrap(),
                version: HttpVersion(1, 1)
            },
            headers: fields(&[("Header1", "value1"), ("Header2", "value2")]),
            body: b"".to_vec()
        }
    );
}

#[test]
fn request_needs_more_bytes_until_the_head_ends() {
    let text = b"GET /a HTTP/1.1\r\nHost: x\r\n";
    assert!(matches!(parse_request(text, false), Parsed::More));
    assert!(matches!(parse_request_head(b"GET /a HTTP/1.1\r\n\r\n", false), Parsed::Done(_, 19)));
}

#[test]
fn request_with_bad_version_fails() {
    assert!(matches!(
        parse_request(b"GET / HTTQ/1.1\r\n\r\n", true),
        Parsed::Fail(ParseError::ParseVersionError)
    ));
    assert!(matches!(
        parse_request(b"GET / HTTP/x.1\r\n\r\n", true),
        Parsed::Fail(ParseError::ExpectedDigit)
    ));
}

#[test]
fn request_errors_name_their_cause() {
    assert!(matches!(parse_request(b"GET/ HTTP/1.1\r\n\r\n", true), Parsed::Fail(ParseError::ExpectedSpace)));
    assert!(matches!(
        parse_request(b"GET / HTTP/1.1\r\nBad header\r\n\r\n", true),
        Parsed::Fail(ParseError::ExpectedColon)
    ));
    assert!(matches!(
        parse_request(b"GET / HTTP/1.1\rX", true),
        Parsed::Fail(ParseError::ExpectedLineFeed)
    ));
    assert!(matches!(
        parse_request(b"GET / HTTP/1.1 \r\n", true),
        Parsed::Fail(ParseError::ExpectedNewline)
    ));
    assert!(matches!(parse_request(b"GET ", true), Parsed::Fail(ParseError::UnexpectedEof)));
    assert!(matches!(
        parse_request(b"GET / HTTP/1.1\r\nA: \xff\r\n\r\n", true),
        Parsed::Fail(ParseError::Utf8Error)
    ));
    assert!(matches!(
        parse_request(b"GET / HTTP/1.1\r\nContent-Length: x\r\n\r\n", true),
        Parsed::Fail(ParseError::ParseIntError(_))
    ));
    match parse_request(b"GET / HTTP/1.1\r\nTransfer-Encoding: gzip\r\n\r\n", true) {
        Parsed::Fail(ParseError::UnknownTransferEncoding(e)) => assert_eq!(e, "gzip"),
        _ => panic!("expected an unknown transfer encoding"),
    }
    assert!(matches!(
        parse_request(b"GET http://a.b:99999/ HTTP/1.1\r\n\r\n", true),
        Parsed::Fail(ParseError::UriError(_))
    ));
}

#[test]
fn chunked_body_is_read_and_transfer_encoding_taken_out() {
    let text = b"5\r\nhello\r\n0\r\n\r\n";
    let mut headers = fields(&[("Transfer-Encoding", "chunked"), ("A", "b")]);
    let body = done(parse_body(text, true, 0, &mut headers));
    assert_eq!(body, b"hello".to_vec());
    assert_eq!(headers, fields(&[("A", "b")]));

    let mut bad = fields(&[("Transfer-Encoding", "chunked")]);
    assert!(matches!(
        parse_body(b"zz\r\n", true, 0, &mut bad),
        Parsed::Fail(ParseError::ParseIntError(_))
    ));
    let mut bad = fields(&[("Transfer-Encoding", "chunked")]);
    assert!(matches!(
        parse_body(b"\xff\r\n", true, 0, &mut bad),
        Parsed::Fail(ParseError::Utf8ErrorStr)
    ));
}

#[test]
fn content_length_body_stops_at_the_length() {
    let mut headers = fields(&[("Content-Length", "3")]);
    assert_eq!(done(parse_body(b"abcdef", true, 0, &mut headers)), b"abc".to_vec());
    let mut headers = fields(&[("Content-Length", "3")]);
    assert!(matches!(parse_body(b"ab", false, 0, &mut headers), Parsed::More));
}

#[test]
fn response_is_read_with_status_and_body() {
    let text = b"HTTP/1.1 404 Not Found\r\nContent-Length: 2\r\n\r\nno";
    let response = done(parse_response(text, true));
    assert_eq!(response.status, 404);
    assert_eq!(response.headers, fields(&[("Content-Length", "2")]));
    assert_eq!(response.body, b"no".to_vec());
    assert!(matches!(
        parse_response(b"HTTP/2.0 200 OK\r\n\r\n", true),
        Parsed::Fail(ParseError::InvalidHttpVersion(HttpVersion(2, 0)))
    ));
}

#[test]
fn request_is_written_in_wire_format() {
    let request = Request {
        start_line: StartLine {
            method: "POST".to_owned(),
            uri: parse_uri("/submit").unwrap(),
            version: HttpVersion(1, 0),
        },
        headers: fields(&[("Host", "example.com")]),
        body: b"data".to_vec(),
    };
    assert_eq!(
        write_request(&request),
        b"POST /submit HTTP/1.1\r\nHost: example.com\r\n\r\ndata".to_vec()
    );
}

#[test]
fn response_is_written_with_length_and_connection() {
    let response = Response { status: 200, headers: fields(&[("A", "b")]), body: b"hi".to_vec() };
    assert_eq!(
        write_response(&response),
        b"HTTP/1.1 200 OK\r\nA: b\r\nContent-Length: 2\r\nConnection: close\r\n\r\nhi".to_vec()
    );
    let response = Response {
        status: 599,
        headers: fields(&[("Content-Length", "0"), ("Connection", "keep-alive")]),
        body: Vec::new(),
    };
    assert_eq!(
        write_response(&response),
        b"HTTP/1.1 599 Unknown\r\nContent-Length: 0\r\nConnection: keep-alive\r\n\r\n".to_vec()
    );
}

#[test]
fn status_names_follow_the_table() {
    assert_eq!(status_name(200), "OK");
    assert_eq!(status_name(308), "Permanent Redirect");
    assert_eq!(status_name(413), "Content Too Large");
    assert_eq!(status_name(-1), "Unknown");
}

#[test]
fn reading_in_pieces_gives_the_same_request() {
    let text: &[u8] = b"POST /a HTTP/1.1\r\nContent-Length: 3\r\nX: y\r\n\r\nabcEXTRA";
    let whole = done(parse_request(text, true));
    let mut settled_at = None;
    for n in 0..=text.len() {
        match parse_request(&text[..n], false) {
            Parsed::More => assert!(settled_at.is_none()),
            Parsed::Done(r, e) => {
                assert_eq!(r, whole);
                assert_eq!(e, text.len() - 5);
                settled_at.get_or_insert(n);
            }
            _ => panic!("a prefix of a good request cannot fail"),
        }
    }
    assert_eq!(settled_at, Some(text.len() - 5));
}

#[test]
fn an_ended_stream_never_needs_more() {
    for text in [&b""[..], b"GET", b"GET / HTTP/1.1\r\nA: b", b"GET / HTTP/1.1\r\nContent-Length: 9\r\n\r\nab"] {
        assert!(!matches!(parse_request(text, true), Parsed::More));
        assert!(!matches!(parse_response(text, true), Parsed::More));
    }
}
