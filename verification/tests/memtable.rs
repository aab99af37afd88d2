//! Memtable behavior: lookup, tombstones and size accounting.

use rocksdb_clone::memtable::{MemTable, Value};

#[test]
fn test_memtable_put_get() {
    let mut memtable = MemTable::new();

    let key1 = b"key1".to_vec();
    let value1 = b"value1".to_vec();

    assert!(memtable.put(key1.clone(), value1.clone()).is_none());
    assert_eq!(memtable.get(&key1), Some(&Value::Value(value1.clone())));

    let value2 = b"value2".to_vec();
    assert_eq!(
        memtable.put(key1.clone(), value2.clone()),
        Some(Value::Value(value1))
    );
    assert_eq!(memtable.get(&key1), Some(&Value::Value(value2)));

    assert_eq!(memtable.get(b"nonexistent"), None);
}

#[test]
fn test_memtable_delete() {
    let mut memtable = MemTable::new();

    let key = b"key1".to_vec();
    let value = b"value1".to_vec();

    memtable.put(key.clone(), value);
    assert!(memtable.get(&key).is_some());

    memtable.delete(key.clone());
    assert_eq!(memtable.get(&key), Some(&Value::Tombstone));

    assert!(memtable.delete(b"nonexistent".to_vec()).is_none());
}

#[test]
fn test_memtable_size() {
    let mut memtable = MemTable::new();

    assert_eq!(memtable.size(), 0);

    let key1 = b"key1".to_vec();
    let value1 = b"value1".to_vec();
    let value2 = b"value2".to_vec();
    let value3 = b"new_value1".to_vec();

    // Size should be key length + value length
    assert_eq!(memtable.size(), 0);
    memtable.put(key1.clone(), value1);
    assert_eq!(memtable.size(), 4 + 6); // "key1" (4) + "value1" (6)

    // Update with a different value of same length
    memtable.put(key1.clone(), value2);
    assert_eq!(memtable.size(), 4 + 6); // "key1" (4) + "value2" (6)

    // Update with a longer value
    memtable.put(key1.clone(), value3);
    assert_eq!(memtable.size(), 4 + 10); // "key1" (4) + "new_value1" (10)

    // Delete the key (replaces with tombstone)
    memtable.delete(key1.clone());
    // Tombstone adds 1 byte to the size (4 bytes for key + 1 byte for tombstone)
    assert_eq!(memtable.size(), 5); // Key size (4) + tombstone (1)

    memtable.clear();
    assert_eq!(memtable.size(), 0);
}

#[test]
fn test_memtable_iter_sorted_with_tombstones() {
    let mut memtable = MemTable::new();
    memtable.put(b"b".to_vec(), b"value_b".to_vec());
    memtable.put(b"a".to_vec(), b"value_a".to_vec());
    memtable.delete(b"c".to_vec());

    let entries = memtable.iter();
    assert_eq!(entries.len(), 3);
    assert_eq!(entries[0].0, b"a".to_vec());
    assert_eq!(entries[0].1, Value::Value(b"value_a".to_vec()));
    assert_eq!(entries[1].0, b"b".to_vec());
    assert_eq!(entries[1].1, Value::Value(b"value_b".to_vec()));
    assert_eq!(entries[2].0, b"c".to_vec());
    assert_eq!(entries[2].1, Value::Tombstone);

    assert!(!memtable.is_empty());
    memtable.clear();
    assert!(memtable.is_empty());
    assert_eq!(memtable.iter().len(), 0);
}

#[test]
fn test_memtable_empty_key_and_value() {
    let mut memtable = MemTable::new();
    memtable.put(Vec::new(), Vec::new());
    assert_eq!(memtable.get(b""), Some(&Value::Value(Vec::new())));
    assert_eq!(memtable.size(), 0);

    memtable.delete(Vec::new());
    assert_eq!(memtable.get(b""), Some(&Value::Tombstone));
    assert_eq!(memtable.size(), 1);
}
