use jjinx::strmap::StrMap;

#[test]
fn reading_after_setting_gives_the_value() {
    let mut m = StrMap::new();
    m.insert("a".to_owned(), "1".to_owned());
    m.insert("b".to_owned(), "2".to_owned());
    m.insert("a".to_owned(), "3".to_owned());
    assert_eq!(m.get("a").map(|s| s.as_str()), Some("3"));
    assert_eq!(m.get("b").map(|s| s.as_str()), Some("2"));
    assert_eq!(m.len(), 2);
    let (k, v) = m.entry(0);
    assert_eq!((k.as_str(), v.as_str()), ("a", "3"));
}

#[test]
fn a_removed_key_is_gone_and_others_stay() {
    let mut m = StrMap::new();
    m.insert("a".to_owned(), "1".to_owned());
    m.insert("b".to_owned(), "2".to_owned());
    assert_eq!(m.remove("a"), Some("1".to_owned()));
    assert_eq!(m.remove("a"), None);
    assert!(!m.contains_key("a"));
    assert!(m.contains_key("b"));
    let mut c = m.copy();
    c.insert_all(&m);
    assert_eq!(c, m);
}
