use vdb::store::contains_substring;
use vdb::store::str_eq;
use vdb::store::KvStore;

#[test]
fn set_then_get_round_trip() {
    let mut store = KvStore::new();
    store.set("foo".to_string(), "bar".to_string());
    assert_eq!(store.get("foo"), Some("bar".to_string()));
}

#[test]
fn get_on_absent_key_is_none() {
    let mut store = KvStore::new();
    assert_eq!(store.get("missing"), None);
    store.set("foo".to_string(), "bar".to_string());
    assert_eq!(store.get("missing"), None);
}

#[test]
fn set_replaces_in_place_and_keeps_other_keys() {
    let mut store = KvStore::new();
    store.set("a".to_string(), "1".to_string());
    store.set("b".to_string(), "2".to_string());
    store.set("a".to_string(), "3".to_string());
    assert_eq!(store.get("a"), Some("3".to_string()));
    assert_eq!(store.get("b"), Some("2".to_string()));
    assert_eq!(store.entries.len(), 2);
    assert_eq!(store.entries[0].0, "a");
    assert_eq!(store.entries[1].0, "b");
}

#[test]
fn search_reports_matches_in_insertion_order() {
    let mut store = KvStore::new();
    store.set("apple".to_string(), "fruit".to_string());
    store.set("carrot".to_string(), "vegetable".to_string());
    store.set("pear".to_string(), "fruit".to_string());
    // Hits on the value.
    let hits = store.search("fruit");
    assert_eq!(hits, vec!["apple: fruit".to_string(), "pear: fruit".to_string()]);
    // Hits on the key.
    let hits = store.search("arro");
    assert_eq!(hits, vec!["carrot: vegetable".to_string()]);
    // Case-sensitive: no hit.
    let hits = store.search("Fruit");
    assert_eq!(hits.len(), 0);
}

#[test]
fn search_with_empty_query_matches_every_entry() {
    let mut store = KvStore::new();
    store.set("a".to_string(), "1".to_string());
    store.set("b".to_string(), "2".to_string());
    assert_eq!(store.search("").len(), 2);
}

#[test]
fn substring_scan_is_literal_and_case_sensitive() {
    assert!(contains_substring("hello world", "lo wo"));
    assert!(contains_substring("hello", "hello"));
    assert!(contains_substring("hello", ""));
    assert!(!contains_substring("hello", "Hello"));
    assert!(!contains_substring("hi", "hello"));
    assert!(!contains_substring("", "x"));
    assert!(contains_substring("", ""));
}

#[test]
fn string_equality_is_by_characters() {
    assert!(str_eq("abc", "abc"));
    assert!(!str_eq("abc", "abd"));
    assert!(!str_eq("abc", "ab"));
    assert!(str_eq("", ""));
}
