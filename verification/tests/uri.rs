use jjinx::uri::{parse_uri, try_parse_uri, ParseError};

#[test]
fn uri_parse_uri_full() -> Result<(), ParseError> {
    let string = "http://www.ics.uci.edu:80/pub/ietf/uri/#Related";
    let uri = parse_uri(&string)?;

    assert_eq!(uri.full, string);
    assert_eq!(uri.scheme(), "http");
    assert_eq!(uri.domain(), "www.ics.uci.edu");
    assert_eq!(uri.port, Some(80));
    assert_eq!(uri.host(), "www.ics.uci.edu:80");
    assert_eq!(uri.path(), "/pub/ietf/uri/");
    assert_eq!(uri.query(), "");
    assert_eq!(uri.fragment(), "Related");

    Ok(())
}

#[test]
fn path_is_decoded_and_dot_segments_resolved() {
    let uri = parse_uri("/a/./b/../%63d").unwrap();
    assert_eq!(uri.path(), "/a/cd");
}

#[test]
fn bad_percent_encodings_are_refused() {
    assert!(matches!(parse_uri("/a%2"), Err(ParseError::CutPersonEncoding)));
    assert!(matches!(parse_uri("/a%zz"), Err(ParseError::InvalidParcentEncodingDigit('z'))));
    assert!(matches!(parse_uri("http://h:x/"), Err(ParseError::PortError(_))));
}

#[test]
fn a_query_without_fragment_is_not_read() {
    assert!(try_parse_uri("/a?b=c").is_none());
    let uri = parse_uri("/a?b=c#d").unwrap();
    assert_eq!(uri.query(), "b=c");
    assert_eq!(uri.fragment(), "d");
}

#[test]
fn without_a_port_the_host_is_the_domain() {
    let uri = parse_uri("http://example.com/x").unwrap();
    assert_eq!(uri.port, None);
    assert_eq!(uri.host(), uri.domain());
    assert_eq!(uri.domain(), "example.com");
}

#[test]
fn a_dot_dot_segment_that_reaches_the_host_leaves_host_and_domain_alike() {
    let uri = parse_uri("http://h/../x").unwrap();
    assert!(uri.is_valid());
    assert_eq!(uri.port, None);
    assert_eq!(uri.host(), "x");
    assert_eq!(uri.domain(), "x");
}
