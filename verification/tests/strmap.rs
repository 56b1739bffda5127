use fast_multipart_parser::strmap::StrMap;

#[test]
fn new_map_is_empty() {
    let map: StrMap<String> = StrMap::new();
    assert!(map.is_empty());
    assert_eq!(map.len(), 0);
    assert_eq!(map.get("a"), None);
    assert!(!map.contains_key(""));
    assert!(map.entries().is_empty());
}

#[test]
fn insert_then_get() {
    let mut map: StrMap<String> = StrMap::new();
    map.insert("a".to_string(), "1".to_string());
    map.insert("b".to_string(), "2".to_string());
    map.insert("".to_string(), "3".to_string());
    assert_eq!(map.len(), 3);
    assert!(!map.is_empty());
    assert_eq!(map.get("a"), Some(&"1".to_string()));
    assert_eq!(map.get("b"), Some(&"2".to_string()));
    assert_eq!(map.get(""), Some(&"3".to_string()));
    assert_eq!(map.get("A"), None);
    assert!(map.contains_key("b"));
    assert!(!map.contains_key("c"));
}

#[test]
fn insert_under_a_key_that_is_there_replaces_the_value() {
    let mut map: StrMap<String> = StrMap::new();
    map.insert("a".to_string(), "1".to_string());
    map.insert("b".to_string(), "2".to_string());
    map.insert("a".to_string(), "3".to_string());
    assert_eq!(map.len(), 2);
    assert_eq!(map.get("a"), Some(&"3".to_string()));
    assert_eq!(map.get("b"), Some(&"2".to_string()));
    let entries: Vec<(String, String)> = map.into_entries();
    assert_eq!(
        entries,
        vec![("a".to_string(), "3".to_string()), ("b".to_string(), "2".to_string())]
    );
}

#[test]
fn keys_are_compared_character_by_character() {
    let mut map: StrMap<String> = StrMap::new();
    map.insert("é".to_string(), "one".to_string());
    map.insert("e\u{301}".to_string(), "two".to_string());
    map.insert("ab".to_string(), "three".to_string());
    map.insert("a".to_string(), "four".to_string());
    assert_eq!(map.len(), 4);
    assert_eq!(map.get("é"), Some(&"one".to_string()));
    assert_eq!(map.get("e\u{301}"), Some(&"two".to_string()));
    assert_eq!(map.get("a"), Some(&"four".to_string()));
    assert_eq!(map.get("abc"), None);
}
