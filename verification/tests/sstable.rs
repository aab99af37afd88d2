//! Sorted table round trips, lookups and corruption detection.

use rocksdb_clone::error::Error;
use rocksdb_clone::sstable::{LookupResult, SSTable};

#[test]
fn test_sstable_basic() {
    let mut sstable = SSTable::create();

    sstable
        .write_batch(&[
            (b"key1".to_vec(), Some(b"value1".to_vec())),
            (b"key2".to_vec(), Some(b"value2".to_vec())),
            (b"key3".to_vec(), Some(b"value3".to_vec())),
        ])
        .unwrap();

    assert_eq!(sstable.get(b"key1").unwrap(), Some(b"value1".to_vec()));
    assert_eq!(sstable.get(b"key2").unwrap(), Some(b"value2".to_vec()));
    assert_eq!(sstable.get(b"key3").unwrap(), Some(b"value3".to_vec()));

    // Test with a tombstone (deletion)
    sstable.write_batch(&[(b"key2".to_vec(), None)]).unwrap();
    assert_eq!(sstable.get(b"key2").unwrap(), None);

    assert_eq!(sstable.get(b"nonexistent").unwrap(), None);
}

#[test]
fn test_sstable_empty_keys_and_values() {
    // Test empty key with non-empty value
    let mut sstable = SSTable::create();
    sstable
        .write_batch(&[("".as_bytes().to_vec(), Some(b"value".to_vec()))])
        .unwrap();
    assert_eq!(sstable.get(b"").unwrap(), Some(b"value".to_vec()));

    // Test non-empty key with empty value
    sstable
        .write_batch(&[(b"key".to_vec(), Some(vec![]))])
        .unwrap();
    assert_eq!(sstable.get(b"key").unwrap(), Some(vec![]));

    // Test empty key with empty value
    sstable.write_batch(&[(vec![], Some(vec![]))]).unwrap();
    assert_eq!(sstable.get(b"").unwrap(), Some(vec![]));

    // Test tombstone with empty key
    sstable.write_batch(&[(vec![], None)]).unwrap();
    assert_eq!(sstable.get(b"").unwrap(), None);
}

#[test]
fn test_sstable_large_entries() {
    let large_key = vec![b'x'; 1024 * 1024]; // 1MB key
    let large_value = vec![b'y'; 2 * 1024 * 1024]; // 2MB value

    let mut sstable = SSTable::create();
    sstable
        .write_batch(&[(large_key.clone(), Some(large_value.clone()))])
        .unwrap();

    assert_eq!(sstable.get(&large_key).unwrap(), Some(large_value));

    // Test with tombstone
    sstable.write_batch(&[(large_key.clone(), None)]).unwrap();
    assert_eq!(sstable.get(&large_key).unwrap(), None);
}

#[test]
fn test_sstable_reopen() {
    // Create and write some data, then reopen the image as a fresh table.
    let mut sstable = SSTable::create();
    sstable
        .write_batch(&[
            (b"key1".to_vec(), Some(b"value1".to_vec())),
            (b"key2".to_vec(), None), // Tombstone
            (b"key3".to_vec(), Some(b"value3".to_vec())),
        ])
        .unwrap();
    let image = sstable.as_bytes().clone();

    let reopened = SSTable::open(image).unwrap();
    assert_eq!(reopened.get(b"key1").unwrap(), Some(b"value1".to_vec()));
    assert_eq!(reopened.get(b"key2").unwrap(), None);
    assert_eq!(reopened.get(b"key3").unwrap(), Some(b"value3".to_vec()));
}

#[test]
fn test_sstable_lookup_three_valued() {
    let mut sstable = SSTable::create();
    sstable
        .write_batch(&[
            (b"alive".to_vec(), Some(b"v".to_vec())),
            (b"dead".to_vec(), None),
        ])
        .unwrap();

    assert_eq!(
        sstable.lookup(b"alive"),
        LookupResult::Found(b"v".to_vec())
    );
    assert_eq!(sstable.lookup(b"dead"), LookupResult::Deleted);
    assert_eq!(sstable.lookup(b"gone"), LookupResult::NotFound);
}

#[test]
fn test_sstable_file_layout() {
    // One entry: key "k", value "vv". The image is bit-exact:
    // data block, index block, metadata, footer.
    let mut sstable = SSTable::create();
    sstable
        .write_batch(&[(b"k".to_vec(), Some(b"vv".to_vec()))])
        .unwrap();
    let image = sstable.as_bytes();

    let mut expected: Vec<u8> = Vec::new();
    // Data entry: key length, key, value length, value.
    expected.extend_from_slice(&1u64.to_le_bytes());
    expected.extend_from_slice(b"k");
    expected.extend_from_slice(&2u64.to_le_bytes());
    expected.extend_from_slice(b"vv");
    // Index entry: key length, key, data offset.
    expected.extend_from_slice(&1u64.to_le_bytes());
    expected.extend_from_slice(b"k");
    expected.extend_from_slice(&0u64.to_le_bytes());
    // Metadata: entry count, data size, index size, big-endian.
    expected.extend_from_slice(&1u64.to_be_bytes());
    expected.extend_from_slice(&19u64.to_be_bytes());
    expected.extend_from_slice(&17u64.to_be_bytes());
    // Footer: magic (big-endian), metadata length, metadata offset.
    expected.extend_from_slice(&0x1234567890ABCDEFu64.to_be_bytes());
    expected.extend_from_slice(&24u64.to_le_bytes());
    expected.extend_from_slice(&36u64.to_le_bytes());

    assert_eq!(image, &expected);
}

#[test]
fn test_sstable_tombstone_marker_encoding() {
    // A tombstone is encoded as value length u64::MAX with no value bytes.
    let mut sstable = SSTable::create();
    sstable.write_batch(&[(b"k".to_vec(), None)]).unwrap();
    let image = sstable.as_bytes();
    assert_eq!(&image[9..17], &u64::MAX.to_le_bytes());
}

#[test]
fn test_sstable_corruption_detection() {
    let mut sstable = SSTable::create();
    sstable
        .write_batch(&[(b"key".to_vec(), Some(b"value".to_vec()))])
        .unwrap();
    let image = sstable.as_bytes().clone();

    // The intact image opens.
    assert!(SSTable::open(image.clone()).is_ok());

    // Truncating by any number of bytes is detected here.
    for t in 1..=image.len() {
        let truncated = image[..image.len() - t].to_vec();
        assert!(SSTable::open(truncated).is_err());
    }

    // Flipping any byte of the footer magic is detected.
    let n = image.len();
    for i in n - 24..n - 16 {
        let mut flipped = image.clone();
        flipped[i] ^= 0xff;
        assert!(SSTable::open(flipped).is_err());
    }

    // Arbitrary bytes are rejected.
    match SSTable::open(b"corrupted data".to_vec()) {
        Ok(_) => panic!("corrupt image must not open"),
        Err(err) => assert!(matches!(err, Error::Custom(_))),
    }
}

#[test]
fn test_sstable_zeroed_footer_rejected() {
    // Write a valid table, then overwrite the last 24 bytes with zeros.
    let mut sstable = SSTable::create();
    sstable
        .write_batch(&[
            (b"a".to_vec(), Some(b"1".to_vec())),
            (b"b".to_vec(), Some(b"2".to_vec())),
        ])
        .unwrap();
    let mut image = sstable.as_bytes().clone();
    let n = image.len();
    for i in n - 24..n {
        image[i] = 0;
    }
    assert!(SSTable::open(image).is_err());
}
