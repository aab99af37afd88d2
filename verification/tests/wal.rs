//! Write-ahead log framing, replay and corruption reporting.

use rocksdb_clone::error::Error;
use rocksdb_clone::wal::{frame_record, WalOp, WriteAheadLog};

#[test]
fn test_wal_append_and_replay() {
    let mut wal = WriteAheadLog::new();
    wal.append(&WalOp::Put {
        key: b"key1".to_vec(),
        value: b"value1".to_vec(),
    });
    wal.append(&WalOp::Put {
        key: b"key2".to_vec(),
        value: b"value2".to_vec(),
    });
    wal.append(&WalOp::Delete {
        key: b"key1".to_vec(),
    });

    // Replay and verify
    let ops = WriteAheadLog::replay(wal.as_bytes()).unwrap();

    assert_eq!(ops.len(), 3);

    if let WalOp::Put { key, value } = &ops[0] {
        assert_eq!(key, b"key1");
        assert_eq!(value, b"value1");
    } else {
        panic!("Expected Put operation");
    }

    if let WalOp::Put { key, value } = &ops[1] {
        assert_eq!(key, b"key2");
        assert_eq!(value, b"value2");
    } else {
        panic!("Expected Put operation");
    }

    if let WalOp::Delete { key } = &ops[2] {
        assert_eq!(key, b"key1");
    } else {
        panic!("Expected Delete operation");
    }
}

#[test]
fn test_wal_append_returns_the_frame() {
    let mut wal = WriteAheadLog::new();
    let op = WalOp::Put {
        key: b"k".to_vec(),
        value: b"v".to_vec(),
    };
    let frame = wal.append(&op);
    // The frame is the whole log after one append, and matches the
    // stand-alone encoder.
    assert_eq!(&frame, wal.as_bytes());
    assert_eq!(frame, frame_record(&op));
    // Framing: 8-byte little-endian payload length, then the payload:
    // tag, key length, key, value length, value.
    assert_eq!(frame.len(), 8 + 1 + 8 + 1 + 8 + 1);
    assert_eq!(&frame[0..8], &19u64.to_le_bytes());
    assert_eq!(frame[8], 0);
}

#[test]
fn test_wal_replay_empty() {
    let ops = WriteAheadLog::replay(&[]).unwrap();
    assert_eq!(ops.len(), 0);
}

#[test]
fn test_wal_replay_rejects_truncated_record() {
    let mut wal = WriteAheadLog::new();
    wal.append(&WalOp::Put {
        key: b"key".to_vec(),
        value: b"value".to_vec(),
    });
    let bytes = wal.as_bytes();
    // Cut the final record short: the length prefix promises more bytes
    // than remain.
    let truncated = &bytes[..bytes.len() - 1];
    let err = WriteAheadLog::replay(truncated).unwrap_err();
    assert!(matches!(err, Error::Deserialization(_)));

    // A bad tag byte is a decode error.
    let mut mangled = bytes.clone();
    mangled[8] = 7;
    let err = WriteAheadLog::replay(&mangled).unwrap_err();
    assert!(matches!(err, Error::Deserialization(_)));
}

#[test]
fn test_wal_clear() {
    let mut wal = WriteAheadLog::new();
    wal.append(&WalOp::Delete { key: b"k".to_vec() });
    assert!(!wal.as_bytes().is_empty());
    wal.clear();
    assert!(wal.as_bytes().is_empty());
    assert_eq!(WriteAheadLog::replay(wal.as_bytes()).unwrap().len(), 0);
}
