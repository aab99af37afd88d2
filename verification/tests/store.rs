//! End-to-end scenarios against the database, with the host program's
//! file handling simulated by in-memory images.

use rocksdb_clone::store::{PersistentStore, Store};
use rocksdb_clone::wal::{frame_record, WalOp};
use rocksdb_clone::DB;

/// Simulates the data directory: the table files written so far and the
/// byte image of the log file.
struct SimDisk {
    tables: Vec<(u64, Vec<u8>)>,
    wal: Vec<u8>,
}

impl SimDisk {
    fn new() -> SimDisk {
        SimDisk {
            tables: Vec::new(),
            wal: Vec::new(),
        }
    }

    fn open(&self) -> DB {
        DB::open(self.tables.clone(), self.wal.clone()).unwrap()
    }

    /// The write path: the log file grows before the memtable changes.
    fn put(&mut self, db: &mut DB, key: &[u8], value: &[u8]) {
        let op = WalOp::Put {
            key: key.to_vec(),
            value: value.to_vec(),
        };
        self.wal.extend_from_slice(&frame_record(&op));
        db.put(key, value.to_vec()).unwrap();
    }

    fn delete(&mut self, db: &mut DB, key: &[u8]) {
        let op = WalOp::Delete { key: key.to_vec() };
        self.wal.extend_from_slice(&frame_record(&op));
        db.delete(key).unwrap();
    }

    /// The seal protocol: write the table file, commit the flush, then
    /// truncate the log file.
    fn flush(&mut self, db: &mut DB) {
        if let Some((id, image)) = db.seal_pending() {
            self.tables.push((id, image));
        }
        db.flush().unwrap();
        self.wal.clear();
    }
}

#[test]
fn test_db_basic_operations() {
    let disk = SimDisk::new();
    let mut db = disk.open();

    let key = b"test_key";
    let value = b"test_value".to_vec();

    let initial_get = db.get(key).unwrap();
    assert!(
        initial_get.is_none(),
        "Expected None for initial get, got {:?}",
        initial_get
    );

    db.put(key, value.clone()).unwrap();

    let after_put = db.get(key).unwrap();
    assert_eq!(
        after_put.as_deref(),
        Some(value.as_slice()),
        "Expected value after put, got {:?}",
        after_put
    );

    db.delete(key).unwrap();

    db.flush().unwrap();

    let after_delete = db.get(key).unwrap();
    assert!(
        after_delete.is_none(),
        "Expected None after delete, got {:?}",
        after_delete
    );
}

#[test]
fn test_store_basic_cycle() {
    // Open fresh; a missing key reads as absent; a put becomes visible;
    // a delete hides it even across a flush.
    let mut disk = SimDisk::new();
    let mut db = disk.open();

    assert_eq!(db.get(b"k").unwrap(), None);
    disk.put(&mut db, b"k", b"v");
    assert_eq!(db.get(b"k").unwrap(), Some(b"v".to_vec()));
    disk.delete(&mut db, b"k");
    disk.flush(&mut db);
    assert_eq!(db.get(b"k").unwrap(), None);
}

#[test]
fn test_store_persistence_across_reopen() {
    let mut disk = SimDisk::new();
    {
        let mut db = disk.open();
        disk.put(&mut db, b"a", b"1");
        disk.put(&mut db, b"b", b"2");
        disk.flush(&mut db);
    }
    let db = disk.open();
    assert_eq!(db.get(b"a").unwrap(), Some(b"1".to_vec()));
    assert_eq!(db.get(b"b").unwrap(), Some(b"2".to_vec()));
}

#[test]
fn test_store_tombstone_across_flush() {
    // The tombstone lands in a newer table and shadows the older value.
    let mut disk = SimDisk::new();
    let mut db = disk.open();

    disk.put(&mut db, b"k", b"old");
    disk.flush(&mut db); // sealed into the first table
    disk.delete(&mut db, b"k");
    disk.flush(&mut db); // sealed into the second table
    assert_eq!(db.get(b"k").unwrap(), None);

    // The shadowing survives a reopen too.
    let db2 = disk.open();
    assert_eq!(db2.get(b"k").unwrap(), None);
}

#[test]
fn test_store_many_entries() {
    let mut disk = SimDisk::new();
    let mut db = disk.open();

    for i in 0..1000 {
        let key = format!("key_{:04}", i).into_bytes();
        let value = format!("value_{}", i).into_bytes();
        disk.put(&mut db, &key, &value);
    }
    disk.flush(&mut db);

    for i in 0..1000 {
        if i % 2 == 0 {
            let key = format!("key_{:04}", i).into_bytes();
            disk.delete(&mut db, &key);
        }
    }
    disk.flush(&mut db);

    for i in 0..1000 {
        let key = format!("key_{:04}", i).into_bytes();
        let got = db.get(&key).unwrap();
        if i % 2 == 0 {
            assert_eq!(got, None, "even key {} should be deleted", i);
        } else {
            let expected = format!("value_{}", i).into_bytes();
            assert_eq!(got, Some(expected), "odd key {} should keep its value", i);
        }
    }
}

#[test]
fn test_store_wal_recovery_after_crash() {
    let mut disk = SimDisk::new();
    {
        let mut db = disk.open();
        disk.put(&mut db, b"k1", b"v1");
        disk.put(&mut db, b"k2", b"v2");
        // Crash: the database is dropped without a flush; the log file
        // still holds both records.
        drop(db);
    }
    let db = disk.open();
    assert_eq!(db.get(b"k1").unwrap(), Some(b"v1".to_vec()));
    assert_eq!(db.get(b"k2").unwrap(), Some(b"v2".to_vec()));
}

#[test]
fn test_store_replay_is_idempotent() {
    // Crash between writing the sealed table and truncating the log:
    // the log is replayed although its content is already in the newest
    // table. Reads agree with the clean state, and sealing again emits
    // an equivalent table.
    let mut disk = SimDisk::new();
    let mut db = disk.open();
    disk.put(&mut db, b"a", b"1");
    disk.delete(&mut db, b"b");

    // Seal, but "crash" before the log truncation.
    let (id, image) = db.seal_pending().unwrap();
    disk.tables.push((id, image));
    // The log file keeps its records; reopen replays them.
    let db2 = disk.open();
    assert_eq!(db2.get(b"a").unwrap(), Some(b"1".to_vec()));
    assert_eq!(db2.get(b"b").unwrap(), None);

    // The next seal emits a table equivalent to the first one.
    let (_, image2) = db2.seal_pending().unwrap();
    assert_eq!(disk.tables[0].1, image2);
}

#[test]
fn test_store_read_your_writes_with_neighbors() {
    // A put is visible afterwards; writes to other keys do not disturb it.
    let mut disk = SimDisk::new();
    let mut db = disk.open();
    disk.put(&mut db, b"k", b"v");
    disk.put(&mut db, b"other", b"x");
    disk.delete(&mut db, b"third");
    disk.flush(&mut db);
    disk.put(&mut db, b"other", b"y");
    assert_eq!(db.get(b"k").unwrap(), Some(b"v".to_vec()));
    assert_eq!(db.get(b"other").unwrap(), Some(b"y".to_vec()));
    assert_eq!(db.get(b"third").unwrap(), None);
}

#[test]
fn test_store_update_overwrites() {
    let mut disk = SimDisk::new();
    let mut db = disk.open();
    disk.put(&mut db, b"k", b"v1");
    disk.flush(&mut db);
    disk.put(&mut db, b"k", b"v2");
    assert_eq!(db.get(b"k").unwrap(), Some(b"v2".to_vec()));
    disk.flush(&mut db);
    assert_eq!(db.get(b"k").unwrap(), Some(b"v2".to_vec()));
    let db2 = disk.open();
    assert_eq!(db2.get(b"k").unwrap(), Some(b"v2".to_vec()));
}

#[test]
fn test_store_open_rejects_corrupt_table() {
    let mut disk = SimDisk::new();
    {
        let mut db = disk.open();
        disk.put(&mut db, b"a", b"1");
        disk.flush(&mut db);
    }
    // Damage the sealed table file.
    let n = disk.tables[0].1.len();
    disk.tables[0].1.truncate(n - 1);
    assert!(DB::open(disk.tables.clone(), disk.wal.clone()).is_err());
}

#[test]
fn test_store_open_rejects_corrupt_wal() {
    let mut disk = SimDisk::new();
    {
        let mut db = disk.open();
        disk.put(&mut db, b"a", b"1");
    }
    // Damage the log: drop the last byte of the final record.
    let n = disk.wal.len();
    disk.wal.truncate(n - 1);
    assert!(DB::open(disk.tables.clone(), disk.wal.clone()).is_err());
}

#[test]
fn test_store_tables_sorted_by_id_on_open() {
    // Hand the table files in the wrong order; recency still wins.
    let mut disk = SimDisk::new();
    let mut db = disk.open();
    disk.put(&mut db, b"k", b"old");
    disk.flush(&mut db);
    disk.put(&mut db, b"k", b"new");
    disk.flush(&mut db);

    disk.tables.reverse();
    let db2 = disk.open();
    assert_eq!(db2.get(b"k").unwrap(), Some(b"new".to_vec()));
}

#[test]
fn test_persistent_store_trait_interface() {
    let mut store = PersistentStore::open(Vec::new(), Vec::new()).unwrap();
    store.put(b"b", b"2".to_vec()).unwrap();
    store.put(b"a", b"1".to_vec()).unwrap();
    store.delete(b"c").unwrap();

    // iter yields the live pairs in ascending key order, skipping
    // tombstones.
    let live = store.iter();
    assert_eq!(live.len(), 2);
    assert_eq!(live[0], (b"a".to_vec(), b"1".to_vec()));
    assert_eq!(live[1], (b"b".to_vec(), b"2".to_vec()));

    assert_eq!(store.get(b"a").unwrap(), Some(b"1".to_vec()));
    assert_eq!(store.get(b"c").unwrap(), None);

    store.flush().unwrap();
    assert_eq!(store.get(b"a").unwrap(), Some(b"1".to_vec()));
    assert_eq!(store.get(b"b").unwrap(), Some(b"2".to_vec()));
    assert_eq!(store.get(b"c").unwrap(), None);
    // After the seal the memtable is empty.
    assert_eq!(store.iter().len(), 0);
    assert_eq!(store.memtable_size(), 0);
    assert_eq!(store.next_table_id(), 1);
}
