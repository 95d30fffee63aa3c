use ech_k8s::keyed::{KeyedMap, StringMap};
use ech_k8s::text::{decimal_text, sort_texts, text_le};

#[test]
fn texts_are_compared_in_dictionary_order() {
    for (a, b) in [("", "a"), ("a", "ab"), ("a", "b"), ("Z", "a"), ("z", "\u{e9}")] {
        assert!(text_le(a, b));
        assert!(!text_le(b, a));
        assert_eq!(text_le(a, b), a <= b);
    }
    assert!(text_le("same", "same"));
    assert!(text_le("\u{ffff}", "\u{10000}"));
}

#[test]
fn texts_are_sorted_with_their_duplicates() {
    let items = ["b", "a", "c", "a", ""].map(String::from).to_vec();
    assert_eq!(sort_texts(items), ["", "a", "a", "b", "c"]);
    assert!(sort_texts(vec![]).is_empty());
}

#[test]
fn numbers_are_written_in_decimal() {
    for n in [0, 7, 10, 99, 1203, usize::MAX] {
        assert_eq!(decimal_text(n), n.to_string());
    }
}

#[test]
fn keyed_map_keeps_one_value_for_a_key() {
    let mut map = StringMap::new();
    map.insert("b".to_string(), "1".to_string());
    map.insert("a".to_string(), "2".to_string());
    map.insert("b".to_string(), "3".to_string());
    assert_eq!(map.len(), 2);
    assert_eq!(map.get("b").map(String::as_str), Some("3"));
    assert_eq!(map.get("a").map(String::as_str), Some("2"));
    assert_eq!(map.get("c"), None);
    assert_eq!(map.entry(0).0, "a");
    let keys: Vec<String> = map.into_entries().into_iter().map(|e| e.0).collect();
    assert_eq!(keys, ["a", "b"]);
}

#[test]
fn keyed_map_orders_its_keys() {
    let mut map = KeyedMap::new();
    for key in ["delta", "alpha", "echo", "charlie", "bravo"] {
        map.insert(key.to_string(), key.len());
    }
    let entries = map.into_entries();
    let keys: Vec<&str> = entries.iter().map(|e| e.0.as_str()).collect();
    assert_eq!(keys, ["alpha", "bravo", "charlie", "delta", "echo"]);
    assert_eq!(entries[2].1, 7);
}
