use jjinx::parse::{
    parse_headers, parse_http_version, parse_request, parse_start_line, parse_uri, HttpVersion,
    ParseError, Reading, Request, StartLine, Uri,
};
use jjinx::respond::{write_response, Response};
use jjinx::strmap::FieldMap;

fn done<T>(r: Reading<T>) -> Result<T, ParseError> {
    match r {
        Reading::Done(v, _) => Ok(v),
        Reading::Fail(e) => Err(e),
        Reading::More => panic!("needs more bytes"),
        Reading::Abort => panic!("aborted"),
    }
}

fn fields(pairs: &[(&str, &str)]) -> FieldMap {
    let mut m = FieldMap::new();
    for (k, v) in pairs {
        m.insert(k.to_string(), v.as_bytes().to_vec());
    }
    m
}

#[test]
fn parse_parse_uri_full() -> Result<(), ParseError> {
    let text = b"http://www.ics.uci.edu/pub/ietf/uri/#Related";

    let expected = Uri {
        full: "http://www.ics.uci.edu/pub/ietf/uri/#Related".to_owned(),
        host: "www.ics.uci.edu".to_owned(),
        path: "/pub/ietf/uri/".to_owned(),
    };

    let uri = done(parse_uri(text, true, 0))?;
    assert_eq!(uri, expected);
    Ok(())
}

#[test]
fn parse_uri_no_authority() -> Result<(), ParseError> {
    let text = b"/pub/ietf/uri/#Related";

    let expected = Uri {
        full: "/pub/ietf/uri/#Related".to_owned(),
        host: "".to_owned(),
        path: "/pub/ietf/uri/".to_owned(),
    };

    let uri = done(parse_uri(text, true, 0))?;
    assert_eq!(uri, expected);
    Ok(())
}

#[test]
fn parse_parse_http_version() -> Result<(), ParseError> {
    let version = done(parse_http_version(b"HTTP/1.1", true, 0))?;
    assert_eq!(version, HttpVersion(1, 1));
    Ok(())
}

#[test]
fn parse_parse_start_line() -> Result<(), ParseError> {
    let text = b"GET http://www.ics.uci.edu/pub/ietf/uri/#Related HTTP/1.1";
    let start_line = done(parse_start_line(text, true, 0))?;
    assert_eq!(
        start_line,
        StartLine {
            method: "GET".to_owned(),
            uri: Uri {
                full: "http://www.ics.uci.edu/pub/ietf/uri/#Related".to_owned(),
                host: "www.ics.uci.edu".to_owned(),
                path: "/pub/ietf/uri/".to_owned(),
            },
            version: HttpVersion(1, 1)
        }
    );
    Ok(())
}

#[test]
fn parse_parse_headers() -> Result<(), ParseError> {
    let headers = done(parse_headers(b"header1: value1\r\nheader2:value2  \r\n", true, 0))?;
    assert_eq!(headers, fields(&[("header1", "value1"), ("header2", "value2")]));
    Ok(())
}

#[test]
fn parse_parse_request_full() -> Result<(), ParseError> {
    let text = "GET http://www.ics.uci.edu/pub/ietf/uri/#Related HTTP/1.1\r\n\
header1: value1\r\n\
header2:value2  \r\n\
Content-Length: 48\r\n\
\r\n\
<html><body>something</body></html>";
    let request = done(parse_request(text.as_bytes(), true))?;
    assert_eq!(
        request,
        Request {
            start_line: StartLine {
                method: "GET".to_owned(),
                uri: Uri {
                    full: "http://www.ics.uci.edu/pub/ietf/uri/#Related".to_owned(),
                    host: "www.ics.uci.edu".to_owned(),
                    path: "/pub/ietf/uri/".to_owned(),
                },
                version: HttpVersion(1, 1)
            },
            headers: fields(&[("header1", "value1"), ("header2", "value2"), ("Content-Length", "48")]),
            body: "<html><body>something</body></html>".as_bytes().to_owned()
        }
    );
    Ok(())
}

#[test]
fn parse_parse_request_no_body() -> Result<(), ParseError> {
    let text = "GET http://www.ics.uci.edu/pub/ietf/uri/#Related HTTP/1.1\r\n\
header1: value1\r\n\
header2:value2  \r\n\
\r\n";
    let request = done(parse_request(text.as_bytes(), true))?;
    assert_eq!(
        request,
        Request {
            start_line: StartLine {
                method: "GET".to_owned(),
                uri: Uri {
                    full: "http://www.ics.uci.edu/pub/ietf/uri/#Related".to_owned(),
                    host: "www.ics.uci.edu".to_owned(),
                    path: "/pub/ietf/uri/".to_owned(),
                },
                version: HttpVersion(1, 1)
            },
            headers: fields(&[("header1", "value1"), ("header2", "value2")]),
            body: Vec::new()
        }
    );
    Ok(())
}

#[test]
fn reader_errors_and_ports() {
    assert!(matches!(parse_http_version(b"HTTQ/1.1", true, 0), Reading::Fail(ParseError::InvalidVersion)));
    assert!(matches!(parse_headers(b"bad\r\n", true, 0), Reading::Fail(ParseError::ExpectedColon)));
    assert!(matches!(
        parse_request(b"GET / HTTP/1.1\r\nContent-Length: x\r\n\r\n", true),
        Reading::Fail(ParseError::ParseIntError(_))
    ));
    assert!(matches!(
        parse_request(b"GET / HTTP/1.1\r\nTransfer-Encoding: chunked\r\n\r\n", true),
        Reading::Abort
    ));
    assert!(matches!(parse_request(b"GET / HTTP/1.1\r\n", false), Reading::More));
    let uri = done(parse_uri(b"http://h:8080/p q", true, 0)).unwrap();
    assert_eq!(uri.host, "h");
    assert_eq!(uri.path, "/p");
    assert_eq!(uri.full, "http://h:8080/p");
}

#[test]
fn plain_responses_are_written_as_they_are() {
    let response = Response { status: 404, headers: fields(&[("A", "b")]), body: b"x".to_vec() };
    assert_eq!(write_response(&response), b"HTTP/1.1 404 TODO\r\nA: b\r\n\r\nx".to_vec());
}
