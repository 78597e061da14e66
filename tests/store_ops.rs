use vbank::{Document, KVStore, StoreError};

fn doc(text: &str) -> Document {
    Document::from_json(text.as_bytes().to_vec()).unwrap()
}

fn ns() -> String {
    "default".to_string()
}

fn text_of(d: &Document) -> String {
    String::from_utf8(d.json().clone()).unwrap()
}

#[test]
fn create_with_key_then_get() {
    let mut s = KVStore::new();
    let k = s.create_key_with_key(ns(), "alpha".to_string(), doc("{\"a\":1}")).unwrap();
    assert_eq!(k, "alpha");
    let got = s.get(ns(), "alpha".to_string()).unwrap();
    assert_eq!(text_of(&got), "{\"a\":1}");
}

#[test]
fn create_with_key_conflict_keeps_first() {
    let mut s = KVStore::new();
    s.create_key_with_key(ns(), "k".to_string(), doc("1")).unwrap();
    let second = s.create_key_with_key(ns(), "k".to_string(), doc("2"));
    assert_eq!(second.unwrap_err(), StoreError::AlreadyExists);
    assert_eq!(text_of(&s.get(ns(), "k".to_string()).unwrap()), "1");
    assert_eq!(s.len(), 1);
}

#[test]
fn upsert_overwrites() {
    let mut s = KVStore::new();
    assert_eq!(s.insert(ns(), "k".to_string(), doc("\"one\"")).unwrap(), "k");
    assert_eq!(s.insert(ns(), "k".to_string(), doc("\"two\"")).unwrap(), "k");
    assert_eq!(text_of(&s.get(ns(), "k".to_string()).unwrap()), "\"two\"");
    assert_eq!(s.len(), 1);
}

#[test]
fn delete_then_get_not_found() {
    let mut s = KVStore::new();
    s.insert(ns(), "k".to_string(), doc("true")).unwrap();
    assert_eq!(s.delete(ns(), "k".to_string()).unwrap(), "k");
    assert_eq!(s.get(ns(), "k".to_string()).unwrap_err(), StoreError::NotFound);
    assert_eq!(s.len(), 0);
}

#[test]
fn delete_absent_key() {
    let mut s = KVStore::new();
    assert_eq!(s.delete(ns(), "nope".to_string()).unwrap_err(), StoreError::NotFound);
}

#[test]
fn get_absent_key() {
    let s = KVStore::new();
    assert_eq!(s.get(ns(), "nope".to_string()).unwrap_err(), StoreError::NotFound);
}

fn five_records() -> KVStore {
    let mut s = KVStore::new();
    for k in ["d", "b", "e", "a", "c"] {
        s.create_key_with_key(ns(), k.to_string(), doc(&format!("\"{}\"", k))).unwrap();
    }
    s
}

#[test]
fn list_window_in_key_order() {
    let s = five_records();
    let page = s.list_keys(ns(), Some(1), Some(2)).unwrap();
    let keys: Vec<&str> = page.iter().map(|(k, _)| k.as_str()).collect();
    assert_eq!(keys, vec!["b", "c"]);
    assert_eq!(text_of(&page[0].1), "\"b\"");
    assert_eq!(text_of(&page[1].1), "\"c\"");
}

#[test]
fn list_skip_past_end() {
    let s = five_records();
    assert_eq!(s.list_keys(ns(), Some(10), Some(5)).unwrap_err(), StoreError::NoResults);
}

#[test]
fn list_defaults_return_everything() {
    let s = five_records();
    let all = s.list_keys(ns(), None, None).unwrap();
    let keys: Vec<&str> = all.iter().map(|(k, _)| k.as_str()).collect();
    assert_eq!(keys, vec!["a", "b", "c", "d", "e"]);
}

#[test]
fn list_zero_limit_and_empty_store() {
    let s = five_records();
    assert_eq!(s.list_keys(ns(), Some(0), Some(0)).unwrap_err(), StoreError::NoResults);
    let e = KVStore::new();
    assert_eq!(e.list_keys(ns(), None, None).unwrap_err(), StoreError::NoResults);
}

#[test]
fn list_limit_past_end_is_cut() {
    let s = five_records();
    let tail = s.list_keys(ns(), Some(3), Some(100)).unwrap();
    let keys: Vec<&str> = tail.iter().map(|(k, _)| k.as_str()).collect();
    assert_eq!(keys, vec!["d", "e"]);
}

#[test]
fn list_huge_skip_and_limit() {
    let s = five_records();
    assert_eq!(s.list_keys(ns(), Some(u64::MAX), Some(u64::MAX)).unwrap_err(), StoreError::NoResults);
    let all = s.list_keys(ns(), Some(0), Some(u64::MAX)).unwrap();
    assert_eq!(all.len(), 5);
}

#[test]
fn create_generates_fresh_alphanumeric_keys() {
    let mut s = KVStore::new();
    let mut keys = Vec::new();
    for _ in 0..50 {
        let k = s.create_key(ns(), doc("null")).unwrap();
        assert_eq!(k.chars().count(), 8);
        assert!(k.chars().all(|c| c.is_ascii_alphanumeric()));
        keys.push(k);
    }
    let mut sorted = keys.clone();
    sorted.sort();
    sorted.dedup();
    assert_eq!(sorted.len(), 50);
    assert_eq!(s.len(), 50);
    for k in keys {
        assert_eq!(text_of(&s.get(ns(), k).unwrap()), "null");
    }
}

#[test]
fn keys_order_by_code_point() {
    let mut s = KVStore::new();
    for k in ["b", "B", "ab", "a", "é", ""] {
        s.insert(ns(), k.to_string(), doc("0")).unwrap();
    }
    let all = s.list_keys(ns(), None, None).unwrap();
    let keys: Vec<&str> = all.iter().map(|(k, _)| k.as_str()).collect();
    assert_eq!(keys, vec!["", "B", "a", "ab", "b", "é"]);
}

#[test]
fn namespace_does_not_partition() {
    let mut s = KVStore::new();
    s.insert("one".to_string(), "k".to_string(), doc("1")).unwrap();
    assert_eq!(text_of(&s.get("two".to_string(), "k".to_string()).unwrap()), "1");
}
