use kvstore::store::KeyValueStore;
use kvstore::store::StoreError;

#[test]
fn round_trip_via_save_and_new() {
    let mut store = KeyValueStore::new("db.txt".to_string(), Some("")).unwrap();
    store.set("alpha".to_string(), "one".to_string());
    store.set("beta".to_string(), "two".to_string());
    store.set("gamma".to_string(), "three".to_string());
    let text = store.save();
    let reopened = KeyValueStore::new("db.txt".to_string(), Some(text.as_str())).unwrap();
    assert_eq!(reopened.len(), 3);
    assert_eq!(reopened.get("alpha").unwrap().as_str(), "one");
    assert_eq!(reopened.get("beta").unwrap().as_str(), "two");
    assert_eq!(reopened.get("gamma").unwrap().as_str(), "three");
}

#[test]
fn overwrite_keeps_size() {
    let mut store = KeyValueStore::new("db.txt".to_string(), Some("")).unwrap();
    store.set("k".to_string(), "v1".to_string());
    let size_after_first = store.len();
    store.set("k".to_string(), "v2".to_string());
    assert_eq!(store.get("k").unwrap().as_str(), "v2");
    assert_eq!(store.len(), size_after_first);
}

#[test]
fn delete_then_get_fails() {
    let mut store = KeyValueStore::new("db.txt".to_string(), Some("k:v\n")).unwrap();
    let removed = store.delete("k").unwrap();
    assert_eq!(removed.as_str(), "v");
    let err = store.get("k").unwrap_err();
    assert!(matches!(err, StoreError::KeyNotFound(k) if k == "k"));
}

#[test]
fn delete_absent_key_fails_without_change() {
    let mut store = KeyValueStore::new("db.txt".to_string(), Some("a:1\n")).unwrap();
    let before = store.save();
    let err = store.delete("missing").unwrap_err();
    assert!(matches!(err, StoreError::KeyNotFound(k) if k == "missing"));
    let after = store.save();
    assert_eq!(before, after);
    assert_eq!(store.len(), 1);
}

#[test]
fn malformed_line_contributes_nothing() {
    let store = KeyValueStore::new("db.txt".to_string(), Some("garbage\n")).unwrap();
    assert_eq!(store.len(), 0);
    let mixed = KeyValueStore::new("db.txt".to_string(), Some("garbage\nhello:world\n")).unwrap();
    assert_eq!(mixed.len(), 1);
    assert_eq!(mixed.get("hello").unwrap().as_str(), "world");
    assert!(matches!(mixed.get("garbage"), Err(StoreError::KeyNotFound(_))));
}

#[test]
fn unreadable_file_fails_construction() {
    let err = KeyValueStore::new("absent.txt".to_string(), None).unwrap_err();
    assert!(matches!(err, StoreError::IoError));
}

#[test]
fn concrete_scenario() {
    let mut store =
        KeyValueStore::new("db.txt".to_string(), Some("hello:world\nfoo:bar\n")).unwrap();
    assert_eq!(store.len(), 2);
    assert_eq!(store.get("hello").unwrap().as_str(), "world");
    assert_eq!(store.get("foo").unwrap().as_str(), "bar");

    store.set("hello".to_string(), "earth".to_string());
    let text = store.save();
    let reopened = KeyValueStore::new("db.txt".to_string(), Some(text.as_str())).unwrap();
    assert_eq!(reopened.len(), 2);
    assert_eq!(reopened.get("hello").unwrap().as_str(), "earth");
    assert_eq!(reopened.get("foo").unwrap().as_str(), "bar");

    let removed = store.delete("foo").unwrap();
    assert_eq!(removed.as_str(), "bar");
    assert_eq!(store.save(), "hello:earth\n");

    let err = store.get("foo").unwrap_err();
    assert!(matches!(err, StoreError::KeyNotFound(k) if k == "foo"));
}

#[test]
fn value_may_hold_the_delimiter() {
    let store = KeyValueStore::new("db.txt".to_string(), Some("a:b:c\n")).unwrap();
    assert_eq!(store.get("a").unwrap().as_str(), "b:c");
}

#[test]
fn later_line_overrides_earlier() {
    let store = KeyValueStore::new("db.txt".to_string(), Some("k:1\nk:2\n")).unwrap();
    assert_eq!(store.len(), 1);
    assert_eq!(store.get("k").unwrap().as_str(), "2");
}

#[test]
fn empty_key_and_empty_value_lines() {
    let store = KeyValueStore::new("db.txt".to_string(), Some(":v\nk:\n")).unwrap();
    assert_eq!(store.len(), 2);
    assert_eq!(store.get("").unwrap().as_str(), "v");
    assert_eq!(store.get("k").unwrap().as_str(), "");
}

#[test]
fn final_line_without_newline_counts() {
    let store = KeyValueStore::new("db.txt".to_string(), Some("a:1\nb:2")).unwrap();
    assert_eq!(store.len(), 2);
    assert_eq!(store.get("a").unwrap().as_str(), "1");
    assert_eq!(store.get("b").unwrap().as_str(), "2");
}

#[test]
fn save_writes_one_line_per_entry() {
    let mut store = KeyValueStore::new("db.txt".to_string(), Some("")).unwrap();
    assert_eq!(store.save(), "");
    store.set("k".to_string(), "v".to_string());
    assert_eq!(store.save(), "k:v\n");
}

#[test]
fn path_is_recorded() {
    let store = KeyValueStore::new("somewhere.db".to_string(), Some("")).unwrap();
    assert_eq!(store.path(), "somewhere.db");
}

#[test]
fn error_messages() {
    let not_found = StoreError::KeyNotFound("nope".to_string());
    assert_eq!(not_found.message(), "Key not found: nope");
    let io = StoreError::IoError;
    assert_eq!(io.message(), "IO error");
}
