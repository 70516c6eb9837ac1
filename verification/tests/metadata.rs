use sitegen::Metadata;

#[test]
fn new_metadata_is_empty() {
    let m = Metadata::new();
    assert!(m.is_empty());
    assert_eq!(m.len(), 0);
    assert!(m.get("anything").is_none());
    assert!(!m.contains_key("anything"));
    assert!(m.entry(0).is_none());
}

#[test]
fn inserted_value_is_found() {
    let mut m = Metadata::new();
    m.insert("title".to_string(), "Hello".to_string());
    assert!(!m.is_empty());
    assert_eq!(m.len(), 1);
    assert_eq!(m.get("title").map(|v| v.as_str()), Some("Hello"));
    assert!(m.contains_key("title"));
    assert!(!m.contains_key("Title"));
    assert!(!m.contains_key("titl"));
}

#[test]
fn insert_of_known_key_replaces_the_value_in_place() {
    let mut m = Metadata::new();
    m.insert("a".to_string(), "1".to_string());
    m.insert("b".to_string(), "2".to_string());
    m.insert("a".to_string(), "3".to_string());
    assert_eq!(m.len(), 2);
    assert_eq!(m.get("a").map(|v| v.as_str()), Some("3"));
    assert_eq!(m.get("b").map(|v| v.as_str()), Some("2"));
    let (k0, v0) = m.entry(0).unwrap();
    assert_eq!((k0.as_str(), v0.as_str()), ("a", "3"));
    let (k1, v1) = m.entry(1).unwrap();
    assert_eq!((k1.as_str(), v1.as_str()), ("b", "2"));
    assert!(m.entry(2).is_none());
}

#[test]
fn keys_are_compared_exactly() {
    let mut m = Metadata::new();
    m.insert("".to_string(), "empty".to_string());
    m.insert(" ".to_string(), "space".to_string());
    m.insert("é".to_string(), "e-acute".to_string());
    assert_eq!(m.len(), 3);
    assert_eq!(m.get("").map(|v| v.as_str()), Some("empty"));
    assert_eq!(m.get(" ").map(|v| v.as_str()), Some("space"));
    assert_eq!(m.get("é").map(|v| v.as_str()), Some("e-acute"));
    assert!(m.get("e").is_none());
}
