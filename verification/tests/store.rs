use kvstore::store::{Store, StoreError};

fn encode_str(s: &str) -> Vec<u8> {
    bincode::serialize(&s.to_string()).expect("Failed to encode value")
}

fn decode_str(bytes: &[u8]) -> String {
    bincode::deserialize(bytes).expect("Failed to decode value")
}

fn create_store(path: &str) -> Store {
    Store::open(path.to_string(), None).expect("Failed to create store")
}

#[test]
fn test_store_initialization() {
    let store = create_store("db/test.db");

    assert!(Store::open("db/test.db".to_string(), Some(store.snapshot())).is_ok());
}

#[test]
fn test_set_and_get_value() {
    let mut store = create_store("db/test.db");

    store.set("key1".to_string(), encode_str("value1"));

    let value = decode_str(&store.get(&"key1".to_string()).expect("Failed to get value"));

    assert_eq!(value, "value1");
}

#[test]
fn test_get_non_existent_key() {
    let store = create_store("db/test.db");
    let result = store.get(&"nonexistent_key".to_string());

    assert!(matches!(result, Err(StoreError::KeyNotFound(_))));
}

#[test]
fn test_persistent_storage() {
    let snapshot = {
        let mut store = create_store("db/test.db");

        store.set("key1".to_string(), encode_str("persistent_value"))
    };

    let store = Store::open("db/test.db".to_string(), Some(snapshot)).expect("Failed to reopen");
    let value = decode_str(&store.get(&"key1".to_string()).expect("Failed to get value"));

    assert_eq!(value, "persistent_value");
}

#[test]
fn test_overwrite_value() {
    let mut store = create_store("db/test.db");

    store.set("key1".to_string(), encode_str("first"));
    store.set("key1".to_string(), encode_str("second"));

    let value = decode_str(&store.get(&"key1".to_string()).expect("Failed to get value"));

    assert_eq!(value, "second");
}

#[test]
fn test_remove_is_idempotent() {
    let mut store = create_store("db/test.db");

    store.set("key1".to_string(), encode_str("value1"));

    let first = store.remove(&"key1".to_string());
    let second = store.remove(&"key1".to_string());

    // removing an absent key changes nothing, so both snapshots agree
    assert_eq!(first, second);
    assert!(matches!(
        store.get(&"key1".to_string()),
        Err(StoreError::KeyNotFound(_))
    ));
}

#[test]
fn test_disjoint_keys_do_not_interfere() {
    let mut store = create_store("db/test.db");

    store.set("key1".to_string(), encode_str("concurrent_value1"));
    store.set("key2".to_string(), encode_str("concurrent_value2"));

    let value1 = decode_str(&store.get(&"key1".to_string()).expect("Failed to get value"));
    let value2 = decode_str(&store.get(&"key2".to_string()).expect("Failed to get value"));

    assert_eq!(value1, "concurrent_value1");
    assert_eq!(value2, "concurrent_value2");
}

#[test]
fn test_open_rejects_corrupt_snapshot() {
    let result = Store::open("db/test.db".to_string(), Some(vec![1u8, 2u8, 3u8]));

    assert!(matches!(result, Err(StoreError::Deserialization)));
}

#[test]
fn test_open_rejects_trailing_bytes() {
    let store = create_store("db/test.db");

    let mut bytes = store.snapshot();
    bytes.push(0u8);

    let result = Store::open("db/test.db".to_string(), Some(bytes));

    assert!(matches!(result, Err(StoreError::Deserialization)));
}

#[test]
fn test_snapshot_is_the_bincode_encoding() {
    let mut store = create_store("db/test.db");

    store.set("key1".to_string(), encode_str("value1"));

    let expected: Vec<(String, Vec<u8>)> = vec![("key1".to_string(), encode_str("value1"))];
    let expected_bytes = bincode::serialize(&expected).expect("Failed to encode");

    assert_eq!(store.snapshot(), expected_bytes);
}

#[test]
fn test_snapshot_keys_are_sorted() {
    let mut store = create_store("db/test.db");

    store.set("key2".to_string(), encode_str("value2"));
    store.set("key1".to_string(), encode_str("value1"));

    let expected: Vec<(String, Vec<u8>)> = vec![
        ("key1".to_string(), encode_str("value1")),
        ("key2".to_string(), encode_str("value2")),
    ];
    let expected_bytes = bincode::serialize(&expected).expect("Failed to encode");

    assert_eq!(store.snapshot(), expected_bytes);
}

#[test]
fn test_equal_contents_give_identical_snapshots() {
    let mut first = create_store("db/test.db");
    first.set("key1".to_string(), encode_str("value1"));
    first.set("key2".to_string(), encode_str("value2"));

    let mut second = create_store("db/test.db");
    second.set("key2".to_string(), encode_str("value2"));
    second.set("key1".to_string(), encode_str("stale"));
    second.set("key1".to_string(), encode_str("value1"));

    assert_eq!(first.snapshot(), second.snapshot());
}

#[test]
fn test_reopen_preserves_contents() {
    let mut store = create_store("db/test.db");

    store.set("key1".to_string(), encode_str("value1"));
    store.set("key2".to_string(), encode_str("value2"));

    let reopened = store.reopen();

    let value1 = decode_str(&reopened.get(&"key1".to_string()).expect("Failed to get value"));
    let value2 = decode_str(&reopened.get(&"key2".to_string()).expect("Failed to get value"));

    assert_eq!(value1, "value1");
    assert_eq!(value2, "value2");
}

#[test]
fn test_open_empty_then_set_get_remove() {
    // the full life of a fresh store: empty at first, one key set and
    // read back, then removed and gone
    let mut store = create_store("db/test.db");

    assert!(matches!(
        store.get(&"key1".to_string()),
        Err(StoreError::KeyNotFound(_))
    ));

    store.set("key1".to_string(), encode_str("value1"));

    let value = decode_str(&store.get(&"key1".to_string()).expect("Failed to get value"));
    assert_eq!(value, "value1");

    store.remove(&"key1".to_string());

    assert!(matches!(
        store.get(&"key1".to_string()),
        Err(StoreError::KeyNotFound(_))
    ));
}

#[test]
fn test_open_with_no_contents_is_empty() {
    let store = Store::open("db/test.db".to_string(), None).expect("Failed to create store");

    let empty: Vec<(String, Vec<u8>)> = Vec::new();
    let empty_bytes = bincode::serialize(&empty).expect("Failed to encode");

    assert_eq!(store.snapshot(), empty_bytes);
}
