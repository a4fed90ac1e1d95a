use rudis::storage::{Storage, StorageError};

#[test]
fn test_storage_set_get() {
    let mut storage = Storage::new();
    let key = "test_key".to_string();
    let value = "test_value".as_bytes().to_vec();

    assert!(storage.set(key.clone(), value.clone(), None).is_ok());

    let result = storage.get(&key);
    assert!(result.is_ok());
    assert_eq!(result.unwrap(), value);
}

#[test]
fn test_storage_expiration() {
    let mut storage = Storage::new();
    let key = "expiring_key".to_string();
    let value = "test_value".as_bytes().to_vec();

    // Set with a ten millisecond time-to-live at time 0.
    assert!(storage.set_at(key.clone(), value, Some(10), 0).is_ok());

    // Available immediately.
    assert!(storage.get_at(&key, 0).is_ok());

    // Expired twenty milliseconds later.
    assert!(matches!(storage.get_at(&key, 20), Err(StorageError::KeyExpired)));
}

#[test]
fn test_storage_fifo() {
    let mut storage = Storage::new();

    for i in 0..5 {
        let key = format!("key_{}", i);
        let value = format!("value_{}", i).as_bytes().to_vec();
        assert!(storage.set(key, value, None).is_ok());
    }

    for i in 0..5 {
        let result = storage.pop_fifo();
        assert!(result.is_ok());
        let (key, value) = result.unwrap();
        assert_eq!(key, format!("key_{}", i));
        assert_eq!(value, format!("value_{}", i).as_bytes().to_vec());
    }

    assert!(matches!(storage.pop_fifo(), Err(StorageError::KeyNotFound)));
}

#[test]
fn get_missing_key_is_not_found() {
    let mut storage = Storage::new();
    assert_eq!(storage.get("nope"), Err(StorageError::KeyNotFound));
}

#[test]
fn zero_ttl_expires_and_is_removed() {
    let mut storage = Storage::new();
    storage.set_at("k".to_string(), b"v".to_vec(), Some(0), 100).unwrap();
    // At the deadline itself the value is still there.
    assert_eq!(storage.get_at("k", 100), Ok(b"v".to_vec()));
    assert_eq!(storage.get_at("k", 101), Err(StorageError::KeyExpired));
    // The read removed it: now it is simply absent.
    assert_eq!(storage.get_at("k", 101), Err(StorageError::KeyNotFound));
    assert!(storage.keys_at("*", 101).is_empty());
}

#[test]
fn three_pops_in_insertion_order() {
    let mut storage = Storage::new();
    storage.set_at("k1".to_string(), b"a".to_vec(), None, 0).unwrap();
    storage.set_at("k2".to_string(), b"b".to_vec(), None, 0).unwrap();
    storage.set_at("k3".to_string(), b"c".to_vec(), None, 0).unwrap();
    assert_eq!(storage.pop_fifo_at(0), Ok(("k1".to_string(), b"a".to_vec())));
    assert_eq!(storage.pop_fifo_at(0), Ok(("k2".to_string(), b"b".to_vec())));
    assert_eq!(storage.pop_fifo_at(0), Ok(("k3".to_string(), b"c".to_vec())));
    assert_eq!(storage.pop_fifo_at(0), Err(StorageError::KeyNotFound));
}

#[test]
fn overwrite_moves_key_to_back() {
    let mut storage = Storage::new();
    storage.set_at("k".to_string(), b"old".to_vec(), None, 0).unwrap();
    storage.set_at("k2".to_string(), b"two".to_vec(), None, 0).unwrap();
    storage.set_at("k".to_string(), b"new".to_vec(), None, 0).unwrap();
    assert_eq!(storage.pop_fifo_at(0), Ok(("k2".to_string(), b"two".to_vec())));
    assert_eq!(storage.pop_fifo_at(0), Ok(("k".to_string(), b"new".to_vec())));
    assert_eq!(storage.pop_fifo_at(0), Err(StorageError::KeyNotFound));
}

#[test]
fn deleted_key_is_never_popped() {
    let mut storage = Storage::new();
    storage.set_at("first".to_string(), b"1".to_vec(), None, 0).unwrap();
    storage.set_at("second".to_string(), b"2".to_vec(), None, 0).unwrap();
    assert_eq!(storage.delete("first"), Ok(()));
    assert_eq!(storage.delete("first"), Err(StorageError::KeyNotFound));
    assert_eq!(storage.pop_fifo_at(0), Ok(("second".to_string(), b"2".to_vec())));
    assert_eq!(storage.pop_fifo_at(0), Err(StorageError::KeyNotFound));
}

#[test]
fn pop_skips_expired_entries() {
    let mut storage = Storage::new();
    storage.set_at("short".to_string(), b"s".to_vec(), Some(5), 0).unwrap();
    storage.set_at("long".to_string(), b"l".to_vec(), None, 0).unwrap();
    assert_eq!(storage.pop_fifo_at(10), Ok(("long".to_string(), b"l".to_vec())));
    assert_eq!(storage.get_at("short", 0), Err(StorageError::KeyNotFound));
}

fn sorted(mut v: Vec<String>) -> Vec<String> {
    v.sort();
    v
}

#[test]
fn keys_patterns() {
    let mut storage = Storage::new();
    storage.set_at("foo".to_string(), b"1".to_vec(), None, 0).unwrap();
    storage.set_at("foobar".to_string(), b"2".to_vec(), None, 0).unwrap();
    storage.set_at("fox".to_string(), b"3".to_vec(), None, 0).unwrap();
    storage.set_at("bar".to_string(), b"4".to_vec(), None, 0).unwrap();
    storage.set_at("food".to_string(), b"5".to_vec(), Some(1), 0).unwrap();

    assert_eq!(sorted(storage.keys_at("foo*", 0)), vec!["foo", "foobar", "food"]);
    assert_eq!(sorted(storage.keys_at("foo*", 2)), vec!["foo", "foobar"]);
    assert_eq!(sorted(storage.keys_at("*", 2)), vec!["bar", "foo", "foobar", "fox"]);
    assert_eq!(storage.keys_at("bar", 2), vec!["bar".to_string()]);
    assert!(storage.keys_at("baz", 2).is_empty());
    assert!(storage.keys_at("fo", 2).is_empty());
}

#[test]
fn cleanup_removes_only_expired() {
    let mut storage = Storage::new();
    storage.set_at("a".to_string(), b"1".to_vec(), Some(1), 0).unwrap();
    storage.set_at("b".to_string(), b"2".to_vec(), Some(100), 0).unwrap();
    storage.set_at("c".to_string(), b"3".to_vec(), None, 0).unwrap();
    assert_eq!(storage.cleanup_expired_at(50), 1);
    assert_eq!(storage.get_at("a", 0), Err(StorageError::KeyNotFound));
    assert_eq!(storage.get_at("b", 50), Ok(b"2".to_vec()));
    assert_eq!(storage.cleanup_expired_at(50), 0);
    assert_eq!(storage.cleanup_expired(), 0);
}

#[test]
fn huge_ttl_saturates() {
    let mut storage = Storage::new();
    storage.set_at("k".to_string(), b"v".to_vec(), Some(u64::MAX), 10).unwrap();
    assert_eq!(storage.get_at("k", u64::MAX), Ok(b"v".to_vec()));
}

#[test]
fn storage_error_messages() {
    assert_eq!(StorageError::KeyNotFound.message(), "key not found");
    assert_eq!(StorageError::KeyExpired.message(), "key expired");
    assert_eq!(StorageError::DeserializationError.message(), "value deserialization failed");
}

#[test]
fn fresh_store_is_not_full() {
    let storage = Storage::new();
    assert!(!storage.is_full());
}

#[test]
fn many_distinct_sets_are_all_kept() {
    let mut storage = Storage::new();
    for i in 0..200 {
        storage.set(format!("key:{}", i), format!("value:{}", i).into_bytes(), None).unwrap();
    }
    for i in (0..200).rev() {
        assert_eq!(storage.get(&format!("key:{}", i)), Ok(format!("value:{}", i).into_bytes()));
    }
    assert_eq!(storage.keys("key:*").len(), 200);
}

#[test]
fn set_makes_key_youngest() {
    let mut storage = Storage::new();
    storage.set("a".to_string(), b"1".to_vec(), None).unwrap();
    storage.set("b".to_string(), b"2".to_vec(), None).unwrap();
    storage.set("a".to_string(), b"3".to_vec(), None).unwrap();
    assert_eq!(storage.pop_fifo(), Ok(("b".to_string(), b"2".to_vec())));
    assert_eq!(storage.pop_fifo(), Ok(("a".to_string(), b"3".to_vec())));
    assert_eq!(storage.pop_fifo(), Err(StorageError::KeyNotFound));
}

#[test]
fn cleanup_counts_each_expired_key() {
    let mut storage = Storage::new();
    for i in 0..4 {
        storage.set_at(format!("short{}", i), b"x".to_vec(), Some(1), 0).unwrap();
    }
    storage.set_at("long".to_string(), b"y".to_vec(), None, 0).unwrap();
    assert_eq!(storage.cleanup_expired_at(10), 4);
    assert_eq!(storage.keys_at("*", 10), vec!["long".to_string()]);
}

#[test]
fn keys_come_in_insertion_order() {
    let mut storage = Storage::new();
    for name in ["c", "a", "d", "b"] {
        storage.set_at(name.to_string(), b"v".to_vec(), None, 0).unwrap();
    }
    storage.set_at("a".to_string(), b"w".to_vec(), None, 0).unwrap();
    let first = storage.keys_at("*", 0);
    assert_eq!(first, vec!["c", "d", "b", "a"]);
    assert_eq!(storage.keys_at("*", 0), first);
    assert_eq!(storage.keys("*"), first);
}
