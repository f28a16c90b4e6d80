use jjinx::config::{ErrorPages, Server};
use jjinx::tls::{any_certificate, choose_certificate, CertEntry};

fn entry(names: &[&str], has_cert: bool) -> CertEntry {
    CertEntry { domain_names: names.iter().map(|s| s.to_string()).collect(), has_cert }
}

#[test]
fn certificates_follow_the_name_asked_for() {
    let entries = vec![
        entry(&["a.example"], true),
        entry(&[], true),
        entry(&["b.example"], false),
        entry(&["a.example", "c.example"], true),
    ];
    assert_eq!(choose_certificate(&entries, Some("a.example")), Some(3));
    assert_eq!(choose_certificate(&entries, Some("c.example")), Some(3));
    assert_eq!(choose_certificate(&entries, Some("b.example")), Some(1));
    assert_eq!(choose_certificate(&entries, None), Some(1));
    assert_eq!(choose_certificate(&vec![entry(&["x"], true)], Some("y")), None);
}

fn server(cert: Option<&str>) -> Server {
    Server {
        ip: None,
        port: Some(443),
        domain_names: Vec::new(),
        is_default: false,
        routes: Vec::new(),
        header_timeout: None,
        body_timeout: None,
        send_timeout: None,
        cert_path: cert.map(|c| c.to_owned()),
        keys_path: cert.map(|c| c.to_owned()),
        error_pages: ErrorPages { pages: Vec::new() },
    }
}

#[test]
fn an_address_takes_tls_where_a_server_names_a_certificate() {
    assert!(!any_certificate(&Vec::from([server(None), server(None)])));
    assert!(any_certificate(&Vec::from([server(None), server(Some("a.pem"))])));
    assert!(!any_certificate(&Vec::new()));
}
