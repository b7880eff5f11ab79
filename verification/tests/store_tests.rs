use clip_history::store::{str_contains, str_eq, Kind, Store};
use clip_history::MAX_ITEMS;

fn text_entry(s: &str) -> (String, Kind) {
    (String::from(s), Kind::Text)
}

#[test]
fn insert_and_list_newest_first() {
    // the worked scenario: "hello", "hello" again (rejected), "world"
    let mut store = Store::new();
    assert!(store.set(String::from("hello"), Kind::Text));
    assert!(!store.set(String::from("hello"), Kind::Text));
    assert!(store.set(String::from("world"), Kind::Text));
    let listed = store.list(None);
    assert_eq!(listed.len(), 2);
    assert_eq!(listed[0].content, "world");
    assert_eq!(listed[0].kind, Kind::Text);
    assert_eq!(listed[1].content, "hello");
    assert_eq!(listed[1].kind, Kind::Text);

    assert!(store.delete("hello", Kind::Text));
    let listed = store.list(None);
    assert_eq!(listed.len(), 1);
    assert_eq!(listed[0].content, "world");
}

#[test]
fn dedup_second_insert_rejected() {
    let mut store = Store::new();
    assert!(store.set(String::from("same"), Kind::Text));
    let before = store.len();
    assert!(!store.set(String::from("same"), Kind::Text));
    assert_eq!(store.len(), before);
}

#[test]
fn same_content_different_kind_is_distinct() {
    let mut store = Store::new();
    assert!(store.set(String::from("payload"), Kind::Text));
    assert!(store.set(String::from("payload"), Kind::Image));
    assert_eq!(store.len(), 2);
}

#[test]
fn capacity_keeps_most_recent_fifty() {
    let mut store = Store::new();
    for i in 0..60 {
        assert!(store.set(format!("entry-{}", i), Kind::Text));
    }
    assert_eq!(store.len(), MAX_ITEMS);
    let listed = store.list(None);
    assert_eq!(listed.len(), MAX_ITEMS);
    // newest first: entry-59 down to entry-10; the ten oldest were evicted
    for (j, e) in listed.iter().enumerate() {
        assert_eq!(e.content, format!("entry-{}", 59 - j));
    }
}

#[test]
fn filter_returns_matching_subset_newest_first() {
    let mut store = Store::new();
    store.set(String::from("abc"), Kind::Text);
    store.set(String::from("xyz"), Kind::Text);
    store.set(String::from("zabu"), Kind::Text);
    store.set(String::from("nope"), Kind::Text);
    let listed = store.list(Some("ab"));
    assert_eq!(listed.len(), 2);
    assert_eq!(listed[0].content, "zabu");
    assert_eq!(listed[1].content, "abc");
}

#[test]
fn empty_filter_matches_all() {
    let mut store = Store::new();
    store.set(String::from("one"), Kind::Text);
    store.set(String::from("two"), Kind::Text);
    assert_eq!(store.list(Some("")).len(), 2);
    assert_eq!(store.list(None).len(), 2);
}

#[test]
fn delete_present_removes_exactly_one() {
    let mut store = Store::new();
    let (c, k) = text_entry("keep");
    store.set(c, k);
    store.set(String::from("gone"), Kind::Text);
    assert!(store.delete("gone", Kind::Text));
    assert_eq!(store.len(), 1);
    assert_eq!(store.list(None)[0].content, "keep");
}

#[test]
fn delete_absent_returns_not_found_and_changes_nothing() {
    let mut store = Store::new();
    store.set(String::from("present"), Kind::Text);
    assert!(!store.delete("absent", Kind::Text));
    assert!(!store.delete("present", Kind::Image));
    assert_eq!(store.len(), 1);
    assert_eq!(store.list(None)[0].content, "present");
}

#[test]
fn clear_empties_history() {
    let mut store = Store::new();
    store.set(String::from("a"), Kind::Text);
    store.set(String::from("b"), Kind::Text);
    store.clear();
    assert_eq!(store.len(), 0);
    assert!(store.list(None).is_empty());
}

#[test]
fn substring_search_is_case_sensitive_containment() {
    assert!(str_contains("hello world", "lo w"));
    assert!(str_contains("hello", ""));
    assert!(!str_contains("hello", "Hello"));
    assert!(!str_contains("hi", "hill"));
    assert!(str_eq("same", "same"));
    assert!(!str_eq("same", "Same"));
}
