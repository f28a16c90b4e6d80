use jjinx::http::request_parse::parse_request;
use jjinx::http::io::Parsed;
use jjinx::http::Request;
use jjinx::strmap::StrMap;
use jjinx::vars::{replace_dynamic_vars_headers, replace_static_vars, replace_vars, VarError};

fn request(text: &str) -> Request {
    match parse_request(text.as_bytes(), true) {
        Parsed::Done(r, _) => r,
        _ => panic!("the request does not parse"),
    }
}

fn map(pairs: &[(&str, &str)]) -> StrMap {
    let mut m = StrMap::new();
    for (k, v) in pairs {
        m.insert(k.to_string(), v.to_string());
    }
    m
}

#[test]
fn static_variables_come_from_the_innermost_scope() {
    let inner = map(&[("a", "in")]);
    let outer = map(&[("a", "out"), ("b", "B")]);
    assert_eq!(replace_static_vars("x$a-$b/$c", &[&inner, &outer]), "xin-B/$c");
    assert_eq!(replace_static_vars("no variables", &[&inner]), "no variables");
}

#[test]
fn request_variables_are_replaced() {
    let q = request("GET http://h.example:81/p?x#y HTTP/1.1\r\nUser-Agent: t\r\nHost: other\r\n\r\n");
    let env = map(&[("HOME", "/root")]);
    assert_eq!(replace_vars("$http_user_agent", &q, &env).unwrap(), "t");
    assert_eq!(replace_vars("$env_home!", &q, &env).unwrap(), "/root!");
    assert_eq!(replace_vars("$uri", &q, &env).unwrap(), "http://h.example:81/p?x#y");
    assert_eq!(replace_vars("$host", &q, &env).unwrap(), "h.example:81");
    assert_eq!(replace_vars("$method", &q, &env).unwrap(), "h.example:81");
    assert_eq!(replace_vars("plain text", &q, &env).unwrap(), "plain text");
    match replace_vars("a $nope b", &q, &env) {
        Err(VarError::UnknownVar(name)) => assert_eq!(name, "nope"),
        Ok(_) => panic!("an unknown variable is an error"),
    }
}

#[test]
fn host_falls_back_to_the_host_field() {
    let q = request("GET /p HTTP/1.1\r\nHost: site:8080\r\n\r\n");
    assert_eq!(replace_vars("$host", &q, &StrMap::new()).unwrap(), "site:8080");
}

#[test]
fn header_values_get_their_variables_replaced() {
    let q = request("GET /p HTTP/1.1\r\nHost: site\r\n\r\n");
    let h = map(&[("X-Host", "$host"), ("X-Uri", "$uri")]);
    let r = replace_dynamic_vars_headers(&h, &q, &StrMap::new()).unwrap();
    assert_eq!(r, map(&[("X-Host", "site"), ("X-Uri", "/p")]));
    let bad = map(&[("X", "$unknown")]);
    assert!(replace_dynamic_vars_headers(&bad, &q, &StrMap::new()).is_err());
}
