//! An embeddable ordered key-value store built as a simplified
//! log-structured merge tree.
//!
//! Keys and values are opaque byte sequences. Writes go to an in-memory
//! memtable after being recorded in a write-ahead log; `flush` seals the
//! memtable into an immutable sorted table. Reads consult the memtable
//! first and then the sorted tables from newest to oldest, honoring
//! tombstones at every layer.
//!
//! The library works on in-memory images of the log and table files; a
//! host program performs the actual file reads and writes and hands the
//! bytes in and out.

pub mod config;
pub mod encoding;
pub mod error;
pub mod filenames;
pub mod memtable;
pub mod model;
pub mod order;
pub mod sst_format;
pub mod sstable;
pub mod store;
pub mod wal;

use crate::error::Error;
use crate::store::{opened_from, pairs_view, PersistentStore, Store};
use crate::wal::spec_frame_op;
use vstd::prelude::*;

verus! {

/// The key-value store: a persistent storage backend behind the opening
/// interface.
pub struct DB {
    store: PersistentStore,
}

impl DB {
    /// The store is internally consistent.
    pub closed spec fn inv(&self) -> bool {
        self.store.inv()
    }

    /// The value visible for a key, if any.
    pub closed spec fn spec_lookup(&self, k: Seq<u8>) -> Option<Seq<u8>> {
        self.store.spec_lookup(k)
    }

    /// Installing this pair stays within the accounting size budget.
    pub closed spec fn can_put(&self, k: Seq<u8>, v: Seq<u8>) -> bool {
        self.store.can_put(k, v)
    }

    /// Deleting this key stays within the accounting size budget.
    pub closed spec fn can_delete(&self, k: Seq<u8>) -> bool {
        self.store.can_delete(k)
    }

    /// Sealing is possible: there is an id left for a new table.
    pub closed spec fn can_flush(&self) -> bool {
        self.store.can_flush()
    }

    /// The persistent state the database rests on.
    pub closed spec fn store_view(&self) -> PersistentStore {
        self.store
    }

    /// Opens a database from the table files and log found in its
    /// directory. The host program scans the directory, reads each table
    /// file recognized by [`crate::filenames::sst_id_of_filename`] and
    /// the log file, and hands the bytes in.
    pub fn open(tables: Vec<(u64, Vec<u8>)>, wal_bytes: Vec<u8>) -> (r: Result<DB, Error>)
        requires
            crate::store::ids_distinct(pairs_view(tables@)),
            forall|i: int| 0 <= i < tables@.len() ==> (#[trigger] tables@[i]).0 < u64::MAX,
        ensures
            match r {
                Ok(db) => db.inv() && opened_from(db.store_view(), pairs_view(tables@), wal_bytes@),
                Err(_) => (exists|i: int|
                    0 <= i < crate::store::spec_sort_by_id(pairs_view(tables@)).len()
                        && crate::sst_format::spec_parse_table(
                        (#[trigger] crate::store::spec_sort_by_id(pairs_view(tables@))[i]).1,
                    ) is None) || crate::wal::parse_wal(wal_bytes@) is None,
            },
    {
        match PersistentStore::open(tables, wal_bytes) {
            Ok(store) => Ok(DB { store }),
            Err(e) => Err(e),
        }
    }

    /// Retrieves the value visible for a key.
    pub fn get(&self, key: &[u8]) -> (r: Result<Option<Vec<u8>>, Error>)
        requires
            self.inv(),
        ensures
            r matches Ok(o) && (match self.spec_lookup(key@) {
                Some(v) => o matches Some(w) && w@ == v,
                None => o is None,
            }),
    {
        self.store.get(key)
    }

    /// Inserts or updates a key-value pair. Afterwards the key reads as
    /// this value and every other key reads as before.
    pub fn put(&mut self, key: &[u8], value: Vec<u8>) -> (r: Result<(), Error>)
        requires
            old(self).inv(),
            old(self).can_put(key@, value@),
        ensures
            final(self).inv(),
            r is Ok,
            final(self).spec_lookup(key@) == Some(value@),
            forall|k2: Seq<u8>|
                k2 != key@ ==> #[trigger] final(self).spec_lookup(k2) == old(self).spec_lookup(k2),
            final(self).store_view().wal_bytes() == old(self).store_view().wal_bytes()
                + spec_frame_op((key@, Some(value@))),
            final(self).store_view().disk_pairs() == old(self).store_view().disk_pairs(),
            final(self).store_view().next_id() == old(self).store_view().next_id(),
    {
        self.store.put(key, value)
    }

    /// Deletes a key. Afterwards the key reads as absent and every other
    /// key reads as before.
    pub fn delete(&mut self, key: &[u8]) -> (r: Result<(), Error>)
        requires
            old(self).inv(),
            old(self).can_delete(key@),
        ensures
            final(self).inv(),
            r is Ok,
            final(self).spec_lookup(key@) is None,
            forall|k2: Seq<u8>|
                k2 != key@ ==> #[trigger] final(self).spec_lookup(k2) == old(self).spec_lookup(k2),
            final(self).store_view().wal_bytes() == old(self).store_view().wal_bytes()
                + spec_frame_op((key@, None::<Seq<u8>>)),
            final(self).store_view().disk_pairs() == old(self).store_view().disk_pairs(),
            final(self).store_view().next_id() == old(self).store_view().next_id(),
    {
        self.store.delete(key)
    }

    /// Seals pending writes into a new table at the next id and empties
    /// the log, or does nothing when the memtable is empty. What is
    /// visible for every key is unchanged.
    pub fn flush(&mut self) -> (r: Result<(), Error>)
        requires
            old(self).inv(),
            old(self).can_flush(),
        ensures
            final(self).inv(),
            r is Ok,
            forall|k: Seq<u8>| #[trigger]
                final(self).spec_lookup(k) == old(self).spec_lookup(k),
            old(self).store_view().mem_view().len() == 0 ==> *final(self) == *old(self),
            old(self).store_view().mem_view().len() != 0 ==> final(self).store_view().mem_view()
                == Seq::<(Seq<u8>, Option<Seq<u8>>)>::empty(),
            old(self).store_view().mem_view().len() != 0 ==> final(self).store_view().wal_bytes()
                == Seq::<u8>::empty(),
            old(self).store_view().mem_view().len() != 0 ==> final(self).store_view().disk_pairs()
                == old(self).store_view().disk_pairs().push(
                (
                    old(self).store_view().next_id(),
                    crate::sst_format::spec_table_image(old(self).store_view().mem_view()),
                ),
            ),
            old(self).store_view().mem_view().len() != 0 ==> final(self).store_view().next_id()
                == old(self).store_view().next_id() + 1,
    {
        self.store.flush()
    }

    /// The memtable holds writes that a flush would seal.
    pub fn should_flush(&self) -> (r: bool)
        ensures
            r <==> self.store_view().mem_view().len() != 0,
    {
        self.store.should_flush()
    }

    /// The id and file image of the table a flush would seal now, if any.
    /// The host program writes the image before committing the flush.
    pub fn seal_pending(&self) -> (r: Option<(u64, Vec<u8>)>)
        requires
            self.inv(),
        ensures
            match r {
                None => self.store_view().mem_view().len() == 0,
                Some(p) => self.store_view().mem_view().len() != 0 && p.0
                    == self.store_view().next_id() && p.1@ == crate::sst_format::spec_table_image(
                    self.store_view().mem_view(),
                ),
            },
    {
        self.store.seal_pending()
    }

    /// The id the next sealed table will be written under.
    pub fn next_table_id(&self) -> (r: u64)
        ensures
            r == self.store_view().next_id(),
    {
        self.store.next_table_id()
    }

    /// The accounting size of the memtable, for the flush policy and the
    /// write budget.
    pub fn memtable_size(&self) -> (r: usize)
        requires
            self.inv(),
        ensures
            r == crate::model::size_sum(self.store_view().mem_view()),
    {
        self.store.memtable_size()
    }

    /// The database's predicates and views, spelled out against the
    /// persistent state for verified callers.
    pub proof fn lemma_store_view(&self)
        ensures
            self.inv() <==> self.store_view().inv(),
            self.can_flush() <==> self.store_view().can_flush(),
            forall|k: Seq<u8>| #[trigger] self.spec_lookup(k) == self.store_view().spec_lookup(k),
            forall|k: Seq<u8>, v: Seq<u8>|
                (#[trigger] self.can_put(k, v)) <==> self.store_view().can_put(k, v),
            forall|k: Seq<u8>| (#[trigger] self.can_delete(k)) <==> self.store_view().can_delete(
                k,
            ),
    {
    }
}

} // verus!
