//! The persistent store: memtable, write-ahead log and sorted tables.
//!
//! Reads consult the memtable first and then the tables from newest to
//! oldest, stopping at the first layer that answers with a value or a
//! tombstone. Writes append to the log before touching the memtable.
//! Sealing turns the memtable into a new table at the next id and clears
//! the log; because the log is cleared only after the table is written,
//! replaying it onto a fresh memtable reproduces exactly the state that
//! was sealed.
//!
//! The store works on byte images: the host program reads the table
//! files and the log at open and hands the bytes in, appends each
//! returned log frame to the log file before a write is acknowledged,
//! and writes the sealed table image out before committing a flush.

use crate::error::Error;
use crate::memtable::{val_view, MemTable, Value};
use crate::model::{assoc, replay_lookup, size_sum, strict_sorted};
use crate::sstable::{batch_view, LookupResult, SSTable};
use crate::sst_format::{batch_len_ok, spec_parse_table, spec_table_image};
use crate::wal::{op_view, ops_view, parse_wal, spec_frame_op, WalOp, WriteAheadLog};
use vstd::prelude::*;
use vstd::slice::slice_to_vec;

verus! {

/// Lookup through a stack of tables, newest last: the answer of the
/// newest table that mentions the key, with a tombstone answering
/// "nothing".
pub open spec fn sst_chain_lookup(tables: Seq<Seq<(Seq<u8>, Option<Seq<u8>>)>>, k: Seq<u8>) -> Option<
    Seq<u8>,
>
    decreases tables.len(),
{
    if tables.len() == 0 {
        None
    } else {
        match assoc(tables.last(), k) {
            Some(vopt) => vopt,
            None => sst_chain_lookup(tables.drop_last(), k),
        }
    }
}

/// The value visible for a key: the memtable answers first, then the
/// tables from newest to oldest.
pub open spec fn store_lookup(
    mem: Seq<(Seq<u8>, Option<Seq<u8>>)>,
    tables: Seq<Seq<(Seq<u8>, Option<Seq<u8>>)>>,
    k: Seq<u8>,
) -> Option<Seq<u8>> {
    match assoc(mem, k) {
        Some(vopt) => vopt,
        None => sst_chain_lookup(tables, k),
    }
}

/// The key-value pairs of a layer that are live, in layer order:
/// tombstones are dropped.
pub open spec fn live_view(s: Seq<(Seq<u8>, Option<Seq<u8>>)>) -> Seq<(Seq<u8>, Seq<u8>)>
    decreases s.len(),
{
    if s.len() == 0 {
        Seq::empty()
    } else {
        live_view(s.drop_last()) + match s.last().1 {
            Some(v) => seq![(s.last().0, v)],
            None => Seq::<(Seq<u8>, Seq<u8>)>::empty(),
        }
    }
}

/// Key-value storage: reads see the latest write, a delete hides every
/// older value, and a flush changes what is durable but never what is
/// visible.
pub trait Store {
    /// The store is internally consistent.
    spec fn inv(&self) -> bool;

    /// The value visible for a key, if any.
    spec fn spec_lookup(&self, k: Seq<u8>) -> Option<Seq<u8>>;

    /// The live key-value pairs of the in-memory layer, ascending by key.
    spec fn iter_view(&self) -> Seq<(Seq<u8>, Seq<u8>)>;

    /// Installing this pair stays within the accounting size budget.
    spec fn can_put(&self, k: Seq<u8>, v: Seq<u8>) -> bool;

    /// Deleting this key stays within the accounting size budget.
    spec fn can_delete(&self, k: Seq<u8>) -> bool;

    /// Sealing is possible: there is an id left for a new table.
    spec fn can_flush(&self) -> bool;

    /// Retrieves the value visible for a key.
    fn get(&self, key: &[u8]) -> (r: Result<Option<Vec<u8>>, Error>)
        requires
            self.inv(),
        ensures
            r matches Ok(o) && (match self.spec_lookup(key@) {
                Some(v) => o matches Some(w) && w@ == v,
                None => o is None,
            }),
    ;

    /// Inserts or updates a key-value pair. Afterwards the key reads as
    /// this value and every other key reads as before.
    fn put(&mut self, key: &[u8], value: Vec<u8>) -> (r: Result<(), Error>)
        requires
            old(self).inv(),
            old(self).can_put(key@, value@),
        ensures
            final(self).inv(),
            r is Ok,
            final(self).spec_lookup(key@) == Some(value@),
            forall|k2: Seq<u8>|
                k2 != key@ ==> #[trigger] final(self).spec_lookup(k2) == old(self).spec_lookup(k2),
    ;

    /// Deletes a key. Afterwards the key reads as absent and every other
    /// key reads as before.
    fn delete(&mut self, key: &[u8]) -> (r: Result<(), Error>)
        requires
            old(self).inv(),
            old(self).can_delete(key@),
        ensures
            final(self).inv(),
            r is Ok,
            final(self).spec_lookup(key@) is None,
            forall|k2: Seq<u8>|
                k2 != key@ ==> #[trigger] final(self).spec_lookup(k2) == old(self).spec_lookup(k2),
    ;

    /// The live key-value pairs of the in-memory layer.
    fn iter(&self) -> (r: Vec<(Vec<u8>, Vec<u8>)>)
        requires
            self.inv(),
        ensures
            r@.len() == self.iter_view().len(),
            forall|i: int|
                0 <= i < r@.len() ==> (#[trigger] r@[i].0@, r@[i].1@) == self.iter_view()[i],
    ;

    /// Seals the memtable into a new table if it holds anything. What is
    /// visible for every key is unchanged.
    fn flush(&mut self) -> (r: Result<(), Error>)
        requires
            old(self).inv(),
            old(self).can_flush(),
        ensures
            final(self).inv(),
            r is Ok,
            forall|k: Seq<u8>| #[trigger]
                final(self).spec_lookup(k) == old(self).spec_lookup(k),
    ;
}

/// A persistent store: the current memtable, the log that protects it,
/// and the sorted tables sealed so far, oldest first.
pub struct PersistentStore {
    memtable: MemTable,
    wal: WriteAheadLog,
    sstables: Vec<SSTable>,
    ids: Vec<u64>,
    next_sstable_id: u64,
}

/// The id and byte image of each table file on disk, oldest first.
pub open spec fn spec_insert_by_id(s: Seq<(u64, Seq<u8>)>, p: (u64, Seq<u8>)) -> Seq<(u64, Seq<u8>)>
    decreases s.len(),
{
    if s.len() == 0 {
        seq![p]
    } else if p.0 < s[0].0 {
        seq![p] + s
    } else {
        seq![s[0]] + spec_insert_by_id(s.drop_first(), p)
    }
}

/// Insertion sort of table files by id, oldest first.
pub open spec fn spec_sort_by_id(s: Seq<(u64, Seq<u8>)>) -> Seq<(u64, Seq<u8>)>
    decreases s.len(),
{
    if s.len() == 0 {
        Seq::empty()
    } else {
        spec_insert_by_id(spec_sort_by_id(s.drop_last()), s.last())
    }
}

/// Ids strictly ascend.
pub open spec fn ids_ascending(s: Seq<(u64, Seq<u8>)>) -> bool {
    forall|i: int, j: int| 0 <= i < j < s.len() ==> s[i].0 < s[j].0
}

/// No two files carry the same id.
pub open spec fn ids_distinct(s: Seq<(u64, Seq<u8>)>) -> bool {
    forall|i: int, j: int| 0 <= i < j < s.len() ==> s[i].0 != s[j].0
}

/// The id-image pairs as the model sees them.
pub open spec fn pairs_view(s: Seq<(u64, Vec<u8>)>) -> Seq<(u64, Seq<u8>)> {
    s.map_values(|p: (u64, Vec<u8>)| (p.0, p.1@))
}

/// Sorting a sequence whose ids already ascend changes nothing.
pub proof fn lemma_sort_of_sorted(s: Seq<(u64, Seq<u8>)>)
    requires
        ids_ascending(s),
    ensures
        spec_sort_by_id(s) == s,
    decreases s.len(),
{
    if s.len() > 0 {
        let pre = s.drop_last();
        assert(ids_ascending(pre));
        lemma_sort_of_sorted(pre);
        lemma_insert_at_end(pre, s.last());
        assert(pre.push(s.last()) =~= s);
    }
}

/// Inserting an element larger than everything appends it.
proof fn lemma_insert_at_end(s: Seq<(u64, Seq<u8>)>, p: (u64, Seq<u8>))
    requires
        forall|i: int| 0 <= i < s.len() ==> (#[trigger] s[i]).0 < p.0,
    ensures
        spec_insert_by_id(s, p) == s.push(p),
    decreases s.len(),
{
    if s.len() == 0 {
        assert(seq![p] =~= s.push(p));
    } else {
        lemma_insert_at_end(s.drop_first(), p);
        assert(seq![s[0]] + s.drop_first().push(p) =~= s.push(p));
    }
}

/// Inserting at the position where the scan stopped.
proof fn lemma_insert_at(s: Seq<(u64, Seq<u8>)>, p: (u64, Seq<u8>), j: int)
    requires
        0 <= j <= s.len(),
        forall|i: int| 0 <= i < j ==> (#[trigger] s[i]).0 <= p.0,
        j < s.len() ==> p.0 < s[j].0,
    ensures
        spec_insert_by_id(s, p) == s.subrange(0, j) + seq![p] + s.subrange(j, s.len() as int),
    decreases j,
{
    if s.len() == 0 {
        assert(seq![p] =~= s.subrange(0, j) + seq![p] + s.subrange(j, s.len() as int));
    } else if j == 0 {
        assert(seq![p] + s =~= s.subrange(0, 0) + seq![p] + s.subrange(0, s.len() as int));
    } else {
        let d = s.drop_first();
        assert(d.subrange(0, j - 1) =~= s.subrange(1, j));
        lemma_insert_at(d, p, j - 1);
        assert(seq![s[0]] + (d.subrange(0, j - 1) + seq![p] + d.subrange(j - 1, d.len() as int))
            =~= s.subrange(0, j) + seq![p] + s.subrange(j, s.len() as int));
    }
}

/// Inserting a fresh id into an ascending sequence keeps it ascending
/// and adds exactly that element.
proof fn lemma_insert_keeps_order(s: Seq<(u64, Seq<u8>)>, p: (u64, Seq<u8>))
    requires
        ids_ascending(s),
        forall|i: int| 0 <= i < s.len() ==> (#[trigger] s[i]).0 != p.0,
    ensures
        ids_ascending(spec_insert_by_id(s, p)),
        spec_insert_by_id(s, p).len() == s.len() + 1,
        forall|q: (u64, Seq<u8>)| #[trigger]
            spec_insert_by_id(s, p).contains(q) <==> s.contains(q) || q == p,
    decreases s.len(),
{
    let t = spec_insert_by_id(s, p);
    if s.len() == 0 {
        assert(t =~= seq![p]);
        assert forall|q: (u64, Seq<u8>)| #[trigger] t.contains(q) <==> s.contains(q) || q
            == p by {
            if q == p {
                assert(t[0] == p);
                assert(t.contains(p));
            }
        }
    } else if p.0 < s[0].0 {
        assert(t =~= seq![p] + s);
        assert forall|i: int, j: int| 0 <= i < j < t.len() implies t[i].0 < t[j].0 by {
            if i == 0 {
                assert(t[j] == s[j - 1]);
                if j > 1 {
                    assert(s[0].0 < s[j - 1].0);
                }
            } else {
                assert(t[i] == s[i - 1] && t[j] == s[j - 1]);
            }
        }
        assert forall|q: (u64, Seq<u8>)| #[trigger] t.contains(q) <==> s.contains(q) || q
            == p by {
            if t.contains(q) {
                let w = choose|w: int| 0 <= w < t.len() && t[w] == q;
                if w == 0 {
                } else {
                    assert(s[w - 1] == q);
                    assert(s.contains(q));
                }
            }
            if s.contains(q) {
                let w = choose|w: int| 0 <= w < s.len() && s[w] == q;
                assert(t[w + 1] == q);
                assert(t.contains(q));
            }
            if q == p {
                assert(t[0] == p);
                assert(t.contains(q));
            }
        }
    } else {
        let d = s.drop_first();
        assert(ids_ascending(d));
        lemma_insert_keeps_order(d, p);
        let u = spec_insert_by_id(d, p);
        assert(t == seq![s[0]] + u);
        assert(s[0].0 < p.0) by {
            assert(s[0].0 != p.0);
        }
        assert forall|i: int, j: int| 0 <= i < j < t.len() implies t[i].0 < t[j].0 by {
            if i == 0 {
                assert(t[j] == u[j - 1]);
                assert(u.contains(u[j - 1]));
                if u[j - 1] == p {
                } else {
                    assert(d.contains(u[j - 1]));
                    let w = choose|w: int| 0 <= w < d.len() && d[w] == u[j - 1];
                    assert(s[w + 1] == u[j - 1]);
                    assert(s[0].0 < s[w + 1].0);
                }
            } else {
                assert(t[i] == u[i - 1] && t[j] == u[j - 1]);
            }
        }
        assert forall|q: (u64, Seq<u8>)| #[trigger] t.contains(q) <==> s.contains(q) || q
            == p by {
            if t.contains(q) {
                let w = choose|w: int| 0 <= w < t.len() && t[w] == q;
                if w == 0 {
                    assert(s[0] == q);
                    assert(s.contains(q));
                } else {
                    assert(u[w - 1] == q);
                    assert(u.contains(q));
                    if q != p {
                        assert(d.contains(q));
                        let w2 = choose|w2: int| 0 <= w2 < d.len() && d[w2] == q;
                        assert(s[w2 + 1] == q);
                        assert(s.contains(q));
                    }
                }
            }
            if s.contains(q) {
                let w = choose|w: int| 0 <= w < s.len() && s[w] == q;
                if w == 0 {
                    assert(t[0] == q);
                } else {
                    assert(d[w - 1] == q);
                    assert(d.contains(q));
                    assert(u.contains(q));
                    let w2 = choose|w2: int| 0 <= w2 < u.len() && u[w2] == q;
                    assert(t[w2 + 1] == q);
                }
                assert(t.contains(q));
            }
            if q == p {
                assert(u.contains(p));
                let w2 = choose|w2: int| 0 <= w2 < u.len() && u[w2] == p;
                assert(t[w2 + 1] == q);
                assert(t.contains(q));
            }
        }
    }
}

/// Sorting distinct ids yields ascending ids over the same elements.
pub proof fn lemma_sort_ascending(s: Seq<(u64, Seq<u8>)>)
    requires
        ids_distinct(s),
    ensures
        ids_ascending(spec_sort_by_id(s)),
        spec_sort_by_id(s).len() == s.len(),
        forall|q: (u64, Seq<u8>)| #[trigger]
            spec_sort_by_id(s).contains(q) <==> s.contains(q),
    decreases s.len(),
{
    if s.len() > 0 {
        let pre = s.drop_last();
        let p = s.last();
        assert(ids_distinct(pre)) by {
            assert forall|i: int, j: int| 0 <= i < j < pre.len() implies pre[i].0 != pre[j].0 by {
                assert(s[i].0 != s[j].0);
            }
        }
        lemma_sort_ascending(pre);
        let u = spec_sort_by_id(pre);
        assert forall|i: int| 0 <= i < u.len() implies (#[trigger] u[i]).0 != p.0 by {
            assert(u.contains(u[i]));
            assert(pre.contains(u[i]));
            let w = choose|w: int| 0 <= w < pre.len() && pre[w] == u[i];
            assert(s[w].0 != s[s.len() - 1].0);
        }
        lemma_insert_keeps_order(u, p);
        assert forall|q: (u64, Seq<u8>)| #[trigger]
            spec_sort_by_id(s).contains(q) <==> s.contains(q) by {
            if spec_sort_by_id(s).contains(q) {
                if q == p {
                    assert(s[s.len() - 1] == q);
                    assert(s.contains(q));
                } else {
                    assert(pre.contains(q));
                    let w = choose|w: int| 0 <= w < pre.len() && pre[w] == q;
                    assert(s[w] == q);
                    assert(s.contains(q));
                }
            }
            if s.contains(q) {
                let w = choose|w: int| 0 <= w < s.len() && s[w] == q;
                if w == s.len() - 1 {
                } else {
                    assert(pre[w] == q);
                    assert(pre.contains(q));
                }
            }
        }
    }
}

impl PersistentStore {
    /// The entries of the memtable, ascending by key.
    pub closed spec fn mem_view(&self) -> Seq<(Seq<u8>, Option<Seq<u8>>)> {
        self.memtable@
    }

    /// The entries of each table, oldest table first.
    pub closed spec fn tables(&self) -> Seq<Seq<(Seq<u8>, Option<Seq<u8>>)>> {
        self.sstables@.map_values(|t: SSTable| t@)
    }

    /// The byte image of each table file, oldest first.
    pub closed spec fn disk_images(&self) -> Seq<Seq<u8>> {
        self.sstables@.map_values(|t: SSTable| t.image())
    }

    /// The id of each table file, oldest first.
    pub closed spec fn disk_ids(&self) -> Seq<u64> {
        self.ids@
    }

    /// The byte image of the write-ahead log file.
    pub closed spec fn wal_bytes(&self) -> Seq<u8> {
        self.wal@
    }

    /// The id the next sealed table will get.
    pub closed spec fn next_id(&self) -> u64 {
        self.next_sstable_id
    }

    /// The id and image of each table file on disk, oldest first.
    pub open spec fn disk_pairs(&self) -> Seq<(u64, Seq<u8>)> {
        Seq::new(self.disk_ids().len(), |i: int| (self.disk_ids()[i], self.disk_images()[i]))
    }
}

impl Store for PersistentStore {
    /// All layers are well formed; replaying the log rebuilds exactly the
    /// memtable; table ids ascend and stay below the next id.
    closed spec fn inv(&self) -> bool {
        &&& self.memtable.wf()
        &&& batch_len_ok(self.memtable@)
        &&& self.wal.wf()
        &&& forall|k: Seq<u8>| #[trigger]
            replay_lookup(self.wal.ops(), k) == assoc(self.memtable@, k)
        &&& self.ids@.len() == self.sstables@.len()
        &&& forall|i: int|
            0 <= i < self.sstables@.len() ==> spec_parse_table(
                (#[trigger] self.sstables@[i]).image(),
            ) == Some(self.sstables@[i]@)
        &&& forall|i: int, j: int| 0 <= i < j < self.ids@.len() ==> self.ids@[i] < self.ids@[j]
        &&& forall|i: int| 0 <= i < self.ids@.len() ==> #[trigger] self.ids@[i] < self.next_sstable_id
    }

    closed spec fn spec_lookup(&self, k: Seq<u8>) -> Option<Seq<u8>> {
        store_lookup(self.mem_view(), self.tables(), k)
    }

    closed spec fn iter_view(&self) -> Seq<(Seq<u8>, Seq<u8>)> {
        live_view(self.mem_view())
    }

    closed spec fn can_put(&self, k: Seq<u8>, v: Seq<u8>) -> bool {
        size_sum(self.mem_view()) + k.len() + v.len() <= usize::MAX && v.len() < u64::MAX
    }

    closed spec fn can_delete(&self, k: Seq<u8>) -> bool {
        size_sum(self.mem_view()) + k.len() + 1 <= usize::MAX
    }

    closed spec fn can_flush(&self) -> bool {
        self.next_sstable_id < u64::MAX || self.mem_view().len() == 0
    }

    fn get(&self, key: &[u8]) -> (r: Result<Option<Vec<u8>>, Error>) {
        match self.memtable.get(key) {
            Some(v) => match v {
                Value::Value(b) => Ok(Some(slice_to_vec(b.as_slice()))),
                Value::Tombstone => Ok(None),
            },
            None => {
                let n = self.sstables.len();
                let mut idx: usize = n;
                proof {
                    assert(self.tables().take(n as int) =~= self.tables());
                }
                while idx > 0
                    invariant
                        0 <= idx <= n,
                        n == self.sstables@.len(),
                        n == self.tables().len(),
                        assoc(self.mem_view(), key@) is None,
                        sst_chain_lookup(self.tables().take(idx as int), key@) == sst_chain_lookup(
                            self.tables(),
                            key@,
                        ),
                    decreases idx,
                {
                    idx = idx - 1;
                    let ghost pre = self.tables().take(idx + 1);
                    proof {
                        assert(pre.last() == self.tables()[idx as int]);
                        assert(self.tables()[idx as int] == self.sstables@[idx as int]@);
                        assert(pre.drop_last() =~= self.tables().take(idx as int));
                    }
                    match self.sstables[idx].lookup(key) {
                        LookupResult::Found(v) => {
                            return Ok(Some(v));
                        },
                        LookupResult::Deleted => {
                            return Ok(None);
                        },
                        LookupResult::NotFound => {},
                    }
                }
                proof {
                    assert(self.tables().take(0) =~= Seq::<
                        Seq<(Seq<u8>, Option<Seq<u8>>)>,
                    >::empty());
                }
                Ok(None)
            },
        }
    }

    fn put(&mut self, key: &[u8], value: Vec<u8>) -> (r: Result<(), Error>)
        ensures
            final(self).wal_bytes() == old(self).wal_bytes()
                + spec_frame_op((key@, Some(value@))),
            final(self).disk_pairs() == old(self).disk_pairs(),
            final(self).next_id() == old(self).next_id(),
    {
        let ghost old_ops = self.wal.ops();
        let ghost old_mem = self.memtable@;
        let key_for_op = slice_to_vec(key);
        let value_for_mem = slice_to_vec(value.as_slice());
        let op = WalOp::Put { key: key_for_op, value };
        let _frame = self.wal.append(&op);
        let key_for_mem = slice_to_vec(key);
        self.memtable.put(key_for_mem, value_for_mem);
        proof {
            let ops2 = self.wal.ops();
            assert(ops2 == old_ops.push(op_view(op)));
            assert(op_view(op).0 == key@);
            assert forall|k: Seq<u8>| #[trigger] replay_lookup(ops2, k) == assoc(
                self.memtable@,
                k,
            ) by {
                assert(ops2.last() == op_view(op));
                if k == key@ {
                } else {
                    assert(ops2.drop_last() =~= old_ops);
                    assert(replay_lookup(ops2, k) == replay_lookup(old_ops, k));
                }
            }
            assert(self.tables() =~= old(self).tables());
            assert(self.disk_pairs() =~= old(self).disk_pairs());
        }
        Ok(())
    }

    fn delete(&mut self, key: &[u8]) -> (r: Result<(), Error>)
        ensures
            final(self).wal_bytes() == old(self).wal_bytes()
                + spec_frame_op((key@, None::<Seq<u8>>)),
            final(self).disk_pairs() == old(self).disk_pairs(),
            final(self).next_id() == old(self).next_id(),
    {
        let ghost old_ops = self.wal.ops();
        let key_for_op = slice_to_vec(key);
        let op = WalOp::Delete { key: key_for_op };
        let _frame = self.wal.append(&op);
        let key_for_mem = slice_to_vec(key);
        self.memtable.delete(key_for_mem);
        proof {
            let ops2 = self.wal.ops();
            assert(ops2 == old_ops.push(op_view(op)));
            assert forall|k: Seq<u8>| #[trigger] replay_lookup(ops2, k) == assoc(
                self.memtable@,
                k,
            ) by {
                assert(ops2.last() == op_view(op));
                if k == key@ {
                } else {
                    assert(ops2.drop_last() =~= old_ops);
                    assert(replay_lookup(ops2, k) == replay_lookup(old_ops, k));
                }
            }
            assert(self.tables() =~= old(self).tables());
            assert(self.disk_pairs() =~= old(self).disk_pairs());
        }
        Ok(())
    }

    fn iter(&self) -> (r: Vec<(Vec<u8>, Vec<u8>)>) {
        let pairs = self.memtable.iter();
        let mut r: Vec<(Vec<u8>, Vec<u8>)> = Vec::new();
        let n = pairs.len();
        let mut i: usize = 0;
        proof {
            assert(self.mem_view().take(0) =~= Seq::<(Seq<u8>, Option<Seq<u8>>)>::empty());
        }
        while i < n
            invariant
                0 <= i <= n,
                n == pairs@.len(),
                n == self.mem_view().len(),
                forall|j: int|
                    0 <= j < n ==> (#[trigger] pairs@[j].0@, val_view(pairs@[j].1))
                        == self.mem_view()[j],
                r@.len() == live_view(self.mem_view().take(i as int)).len(),
                forall|j: int|
                    0 <= j < r@.len() ==> (#[trigger] r@[j].0@, r@[j].1@) == live_view(
                        self.mem_view().take(i as int),
                    )[j],
            decreases n - i,
        {
            let ghost pre = self.mem_view().take(i as int);
            let ghost cur = self.mem_view()[i as int];
            proof {
                assert(self.mem_view().take(i + 1).drop_last() =~= pre);
                assert(self.mem_view().take(i + 1).last() == cur);
            }
            match &pairs[i].1 {
                Value::Value(v) => {
                    let k = slice_to_vec(pairs[i].0.as_slice());
                    let vv = slice_to_vec(v.as_slice());
                    r.push((k, vv));
                    proof {
                        assert(live_view(self.mem_view().take(i + 1)) =~= live_view(pre) + seq![
                            (cur.0, cur.1.unwrap()),
                        ]);
                    }
                },
                Value::Tombstone => {
                    proof {
                        assert(live_view(self.mem_view().take(i + 1)) =~= live_view(pre));
                    }
                },
            }
            i = i + 1;
        }
        proof {
            assert(self.mem_view().take(n as int) =~= self.mem_view());
        }
        r
    }

    fn flush(&mut self) -> (r: Result<(), Error>)
        ensures
            old(self).mem_view().len() == 0 ==> *final(self) == *old(self),
            old(self).mem_view().len() != 0 ==> final(self).mem_view()
                == Seq::<(Seq<u8>, Option<Seq<u8>>)>::empty(),
            old(self).mem_view().len() != 0 ==> final(self).wal_bytes() == Seq::<u8>::empty(),
            old(self).mem_view().len() != 0 ==> final(self).disk_pairs()
                == old(self).disk_pairs().push(
                (old(self).next_id(), spec_table_image(old(self).mem_view())),
            ),
            old(self).mem_view().len() != 0 ==> final(self).next_id() == old(self).next_id() + 1,
            old(self).mem_view().len() != 0 ==> final(self).tables()
                == old(self).tables().push(old(self).mem_view()),
    {
        self.wal.flush();
        if self.memtable.is_empty() {
            return Ok(());
        }
        let ghost old_mem = self.memtable@;
        let ghost old_tables = self.tables();
        let batch = self.batch_from_memtable();
        let mut table = SSTable::create();
        proof {
            self.memtable.lemma_wf_sorted();
        }
        let res = table.write_batch(batch.as_slice());
        match res {
            Ok(()) => {},
            Err(e) => {
                return Err(e);
            },
        }
        self.sstables.push(table);
        self.ids.push(self.next_sstable_id);
        self.next_sstable_id = self.next_sstable_id + 1;
        self.memtable.clear();
        self.wal.clear();
        proof {
            let new_tables = self.tables();
            assert(new_tables =~= old_tables.push(old_mem));
            assert(self.disk_pairs() =~= old(self).disk_pairs().push(
                (old(self).next_id(), spec_table_image(old_mem)),
            )) by {
                assert forall|i: int| 0 <= i < self.ids@.len() implies self.disk_pairs()[i] == (
                    self.ids@[i],
                    self.sstables@[i].image(),
                ) by {}
            }
            assert forall|k: Seq<u8>| #[trigger] self.spec_lookup(k) == old(self).spec_lookup(
                k,
            ) by {
                assert(assoc(self.memtable@, k) == None::<Option<Seq<u8>>>);
                assert(new_tables.last() == old_mem);
                assert(new_tables.drop_last() =~= old_tables);
                assert(sst_chain_lookup(new_tables, k) == match assoc(old_mem, k) {
                    Some(vopt) => vopt,
                    None => sst_chain_lookup(old_tables, k),
                });
            }
            assert forall|k: Seq<u8>| #[trigger] replay_lookup(self.wal.ops(), k) == assoc(
                self.memtable@,
                k,
            ) by {}
            assert forall|i: int, j: int| 0 <= i < j < self.ids@.len() implies self.ids@[i]
                < self.ids@[j] by {
                if j < self.ids@.len() - 1 {
                    assert(old(self).disk_ids()[i] < old(self).disk_ids()[j]);
                }
            }
        }
        Ok(())
    }
}

impl PersistentStore {
    /// The memtable's entries as a batch for `write_batch`: a tombstone
    /// becomes `None` so the deletion is persisted.
    fn batch_from_memtable(&self) -> (r: Vec<(Vec<u8>, Option<Vec<u8>>)>)
        ensures
            batch_view(r@) == self.mem_view(),
    {
        let pairs = self.memtable.iter();
        let mut r: Vec<(Vec<u8>, Option<Vec<u8>>)> = Vec::new();
        let n = pairs.len();
        let mut i: usize = 0;
        proof {
            assert(batch_view(r@) =~= self.mem_view().take(0));
        }
        while i < n
            invariant
                0 <= i <= n,
                n == pairs@.len(),
                n == self.mem_view().len(),
                forall|j: int|
                    0 <= j < n ==> (#[trigger] pairs@[j].0@, val_view(pairs@[j].1))
                        == self.mem_view()[j],
                r@.len() == i,
                batch_view(r@) == self.mem_view().take(i as int),
            decreases n - i,
        {
            let k = slice_to_vec(pairs[i].0.as_slice());
            let v = match &pairs[i].1 {
                Value::Value(b) => Some(slice_to_vec(b.as_slice())),
                Value::Tombstone => None,
            };
            r.push((k, v));
            proof {
                assert(batch_view(r@) =~= self.mem_view().take(i + 1));
            }
            i = i + 1;
        }
        proof {
            assert(self.mem_view().take(n as int) =~= self.mem_view());
        }
        r
    }

    /// The policy deciding when the memtable is sealed: as soon as it
    /// holds anything.
    pub fn should_flush(&self) -> (r: bool)
        ensures
            r <==> self.mem_view().len() != 0,
    {
        !self.memtable.is_empty()
    }

    /// The id the next sealed table will be written under.
    pub fn next_table_id(&self) -> (r: u64)
        ensures
            r == self.next_id(),
    {
        self.next_sstable_id
    }

    /// The accounting size of the memtable, for the flush policy and the
    /// write budget.
    pub fn memtable_size(&self) -> (r: usize)
        requires
            self.inv(),
        ensures
            r == size_sum(self.mem_view()),
    {
        self.memtable.size()
    }

    /// The id and file image of the table a flush would seal now, if the
    /// memtable holds anything. The host program writes the image to the
    /// table file before committing the flush.
    pub fn seal_pending(&self) -> (r: Option<(u64, Vec<u8>)>)
        requires
            self.inv(),
        ensures
            match r {
                None => self.mem_view().len() == 0,
                Some(p) => self.mem_view().len() != 0 && p.0 == self.next_id() && p.1@
                    == spec_table_image(self.mem_view()),
            },
    {
        if self.memtable.is_empty() {
            return None;
        }
        let batch = self.batch_from_memtable();
        let mut table = SSTable::create();
        proof {
            self.memtable.lemma_wf_sorted();
        }
        let res = table.write_batch(batch.as_slice());
        match res {
            Ok(()) => {},
            Err(_) => {
                return None;
            },
        }
        let bytes = slice_to_vec(table.as_bytes().as_slice());
        Some((self.next_sstable_id, bytes))
    }
}

/// Every operation a log decodes to has a key that fits a length field
/// and a value shorter than the tombstone marker: both were encoded in
/// the log's bytes.
proof fn lemma_parse_wal_entries_ok(b: Seq<u8>)
    requires
        parse_wal(b) is Some,
        b.len() <= u64::MAX,
    ensures
        batch_len_ok(parse_wal(b).unwrap()),
    decreases b.len(),
{
    if b.len() == 0 {
    } else {
        let n = vstd::bytes::spec_u64_from_le_bytes(b.subrange(0, 8)) as int;
        let p = b.subrange(8, 8 + n);
        let o = crate::wal::spec_decode_op(p).unwrap();
        let rest = b.skip(8 + n);
        lemma_parse_wal_entries_ok(rest);
        let ops = parse_wal(b).unwrap();
        let rest_ops = parse_wal(rest).unwrap();
        assert(ops == seq![o] + rest_ops);
        let kl = vstd::bytes::spec_u64_from_le_bytes(p.subrange(1, 9)) as int;
        assert(o.0.len() <= u64::MAX && (o.1 matches Some(v) ==> v.len() < u64::MAX)) by {
            if p[0] == 0u8 {
                assert(o.0.len() == kl);
                assert(o.1.unwrap().len() == p.len() - 17 - kl);
            } else {
                assert(o.0.len() == kl);
            }
        }
        assert forall|i: int|
            0 <= i < ops.len() implies (#[trigger] ops[i]).0.len() <= u64::MAX && (ops[i].1
                matches Some(v) ==> v.len() < u64::MAX) by {
            if i == 0 {
                assert(ops[0] == o);
            } else {
                assert(ops[i] == rest_ops[i - 1]);
            }
        }
    }
}

/// What `open` leaves behind: the tables sorted by id with their parsed
/// entries, the log image adopted unchanged, and a memtable equal to
/// what replaying the log produces.
pub open spec fn opened_from(s: PersistentStore, pairs: Seq<(u64, Seq<u8>)>, wal: Seq<u8>) -> bool {
    let sorted = spec_sort_by_id(pairs);
    &&& s.disk_ids().len() == sorted.len()
    &&& s.disk_images().len() == sorted.len()
    &&& forall|i: int|
        0 <= i < sorted.len() ==> s.disk_ids()[i] == (#[trigger] sorted[i]).0
    &&& forall|i: int|
        0 <= i < sorted.len() ==> s.disk_images()[i] == (#[trigger] sorted[i]).1
    &&& s.tables().len() == sorted.len()
    &&& forall|i: int|
        0 <= i < sorted.len() ==> spec_parse_table((#[trigger] sorted[i]).1) == Some(s.tables()[i])
    &&& s.wal_bytes() == wal
    &&& parse_wal(wal) is Some
    &&& forall|k: Seq<u8>| #[trigger]
        assoc(s.mem_view(), k) == replay_lookup(parse_wal(wal).unwrap(), k)
    &&& s.next_id() == (if sorted.len() == 0 {
        0u64
    } else {
        (sorted.last().0 + 1) as u64
    })
}

impl PersistentStore {
    /// Sorts table files by id, oldest first.
    fn sort_tables(mut input: Vec<(u64, Vec<u8>)>) -> (r: Vec<(u64, Vec<u8>)>)
        ensures
            pairs_view(r@) == spec_sort_by_id(pairs_view(input@)),
    {
        let ghost orig = pairs_view(input@);
        let mut out: Vec<(u64, Vec<u8>)> = Vec::new();
        let ghost mut done: int = 0;
        proof {
            assert(pairs_view(out@) =~= spec_sort_by_id(orig.take(0)));
            assert(pairs_view(input@) =~= orig.skip(0));
        }
        while input.len() > 0
            invariant
                0 <= done <= orig.len(),
                pairs_view(input@) == orig.skip(done),
                pairs_view(out@) == spec_sort_by_id(orig.take(done)),
            decreases input@.len(),
        {
            let p = input.remove(0);
            proof {
                assert(pairs_view(input@) =~= orig.skip(done).drop_first());
                assert(orig.skip(done).drop_first() =~= orig.skip(done + 1));
                assert((p.0, p.1@) == orig.skip(done)[0]);
                assert(orig[done] == orig.skip(done)[0]);
            }
            let ghost sorted_pre = pairs_view(out@);
            let mut j: usize = 0;
            while j < out.len() && out[j].0 <= p.0
                invariant
                    0 <= j <= out@.len(),
                    forall|i: int| 0 <= i < j ==> (#[trigger] pairs_view(out@)[i]).0 <= p.0,
                    pairs_view(out@) == sorted_pre,
                decreases out@.len() - j,
            {
                proof {
                    assert(pairs_view(out@)[j as int].0 == out@[j as int].0);
                }
                j = j + 1;
            }
            proof {
                if j < out@.len() {
                    assert(pairs_view(out@)[j as int].0 == out@[j as int].0);
                }
                lemma_insert_at(sorted_pre, (p.0, p.1@), j as int);
            }
            out.insert(j, p);
            proof {
                assert(pairs_view(out@) =~= sorted_pre.subrange(0, j as int) + seq![
                    orig[done],
                ] + sorted_pre.subrange(j as int, sorted_pre.len() as int));
                assert(orig.take(done + 1).drop_last() =~= orig.take(done));
                assert(orig.take(done + 1).last() == orig[done]);
                assert(pairs_view(out@) =~= spec_sort_by_id(orig.take(done + 1)));
                done = done + 1;
            }
        }
        proof {
            assert(orig.take(done) =~= orig) by {
                assert(orig.skip(done).len() == 0);
            }
            assert(pairs_view(input@).len() == 0);
        }
        out
    }

    /// Opens a store from the table files and the log found in the data
    /// directory.
    ///
    /// The tables are sorted by id, oldest first, and each image is
    /// verified as it is opened; the next table id follows the largest
    /// found. If a log exists its records are replayed into a fresh
    /// memtable, so that writes that were never sealed become visible
    /// again. Fails when a table image is corrupt or the log does not
    /// decode.
    pub fn open(tables: Vec<(u64, Vec<u8>)>, wal_bytes: Vec<u8>) -> (r: Result<
        PersistentStore,
        Error,
    >)
        requires
            ids_distinct(pairs_view(tables@)),
            forall|i: int| 0 <= i < tables@.len() ==> (#[trigger] tables@[i]).0 < u64::MAX,
        ensures
            match r {
                Ok(s) => s.inv() && opened_from(s, pairs_view(tables@), wal_bytes@),
                Err(e) => (exists|i: int|
                    0 <= i < spec_sort_by_id(pairs_view(tables@)).len() && spec_parse_table(
                        (#[trigger] spec_sort_by_id(pairs_view(tables@))[i]).1,
                    ) is None) || parse_wal(wal_bytes@) is None,
            },
    {
        let ghost pairs0 = pairs_view(tables@);
        let ghost sorted_spec = spec_sort_by_id(pairs0);
        proof {
            lemma_sort_ascending(pairs0);
            assert forall|i: int|
                0 <= i < sorted_spec.len() implies (#[trigger] sorted_spec[i]).0 < u64::MAX by {
                assert(sorted_spec.contains(sorted_spec[i]));
                assert(pairs0.contains(sorted_spec[i]));
                let w = choose|w: int| 0 <= w < pairs0.len() && pairs0[w] == sorted_spec[i];
                assert(pairs0[w].0 == tables@[w].0);
            }
        }
        let mut sorted = Self::sort_tables(tables);
        let mut ssts: Vec<SSTable> = Vec::new();
        let mut ids: Vec<u64> = Vec::new();
        let mut next_id: u64 = 0;
        let ghost mut done: int = 0;
        proof {
            assert(pairs_view(sorted@) =~= sorted_spec.skip(0));
        }
        while sorted.len() > 0
            invariant
                sorted_spec == spec_sort_by_id(pairs_view(tables@)),
                0 <= done <= sorted_spec.len(),
                pairs_view(sorted@) == sorted_spec.skip(done),
                ids_ascending(sorted_spec),
                forall|i: int|
                    0 <= i < sorted_spec.len() ==> (#[trigger] sorted_spec[i]).0 < u64::MAX,
                ids@.len() == done,
                ssts@.len() == done,
                forall|i: int| 0 <= i < done ==> ids@[i] == (#[trigger] sorted_spec[i]).0,
                forall|i: int|
                    0 <= i < done ==> (#[trigger] ssts@[i]).image() == sorted_spec[i].1,
                forall|i: int|
                    0 <= i < done ==> spec_parse_table((#[trigger] sorted_spec[i]).1) == Some(
                        ssts@[i]@,
                    ),
                next_id == (if done == 0 {
                    0u64
                } else {
                    (sorted_spec[done - 1].0 + 1) as u64
                }),
            decreases sorted@.len(),
        {
            let ghost before = sorted@;
            let ghost tailp = pairs_view(before);
            proof {
                assert(tailp.len() == before.len());
                assert(done < sorted_spec.len()) by {
                    assert(sorted_spec.skip(done).len() == sorted_spec.len() - done);
                }
            }
            let (id, bytes) = sorted.remove(0);
            proof {
                assert((id, bytes@) == tailp[0]);
                assert(sorted_spec.skip(done)[0] == sorted_spec[done]);
                assert(pairs_view(sorted@) =~= tailp.drop_first()) by {
                    assert forall|i: int|
                        0 <= i < sorted@.len() implies #[trigger] pairs_view(sorted@)[i]
                            == tailp.drop_first()[i] by {
                        assert(sorted@[i] == before[i + 1]);
                        assert(pairs_view(sorted@)[i] == (sorted@[i].0, sorted@[i].1@));
                        assert(tailp[i + 1] == (before[i + 1].0, before[i + 1].1@));
                    }
                }
                assert(tailp.drop_first() =~= sorted_spec.skip(done + 1));
                assert(sorted_spec[done].0 < u64::MAX);
            }
            let t = match SSTable::open(bytes) {
                Ok(t) => t,
                Err(e) => {
                    proof {
                        assert(spec_parse_table(sorted_spec[done].1) is None);
                        assert(exists|i: int|
                            0 <= i < sorted_spec.len() && spec_parse_table(
                                (#[trigger] sorted_spec[i]).1,
                            ) is None);
                    }
                    return Err(e);
                },
            };
            ssts.push(t);
            ids.push(id);
            next_id = id + 1;
            proof {
                done = done + 1;
            }
        }
        proof {
            assert(done == sorted_spec.len()) by {
                assert(sorted_spec.skip(done).len() == 0);
            }
        }
        let ops = match WriteAheadLog::replay(wal_bytes.as_slice()) {
            Ok(ops) => ops,
            Err(e) => {
                return Err(e);
            },
        };
        let wal_len = wal_bytes.len();
        let wal = WriteAheadLog::from_bytes(wal_bytes);
        let ghost opsv = ops_view(ops@);
        let mut memtable = MemTable::new();
        let nops = ops.len();
        let mut i: usize = 0;
        proof {
            crate::wal::lemma_parse_wal_weight(wal@);
            lemma_parse_wal_entries_ok(wal@);
            assert(opsv.skip(0) =~= opsv);
            assert(opsv.take(0) =~= Seq::<(Seq<u8>, Option<Seq<u8>>)>::empty());
        }
        while i < nops
            invariant
                0 <= i <= nops,
                nops == ops@.len(),
                opsv == ops_view(ops@),
                opsv.len() == nops,
                batch_len_ok(opsv),
                memtable.wf(),
                batch_len_ok(memtable@),
                size_sum(memtable@) + size_sum(opsv.skip(i as int)) <= wal_len,
                forall|k: Seq<u8>| #[trigger]
                    assoc(memtable@, k) == replay_lookup(opsv.take(i as int), k),
            decreases nops - i,
        {
            let ghost o = opsv[i as int];
            let ghost tailops = opsv.skip(i as int);
            proof {
                assert(o == op_view(ops@[i as int]));
                assert(tailops[0] == o);
                assert(size_sum(tailops) == crate::model::entry_weight(o) + size_sum(
                    tailops.drop_first(),
                ));
                assert(tailops.drop_first() =~= opsv.skip(i + 1));
            }
            let ghost mem0 = memtable@;
            match &ops[i] {
                WalOp::Put { key, value } => {
                    proof {
                        assert(crate::model::entry_weight(o) == key@.len() + value@.len());
                    }
                    let k2 = slice_to_vec(key.as_slice());
                    let v2 = slice_to_vec(value.as_slice());
                    memtable.put(k2, v2);
                },
                WalOp::Delete { key } => {
                    proof {
                        assert(crate::model::entry_weight(o) == key@.len() + 1);
                    }
                    let k2 = slice_to_vec(key.as_slice());
                    memtable.delete(k2);
                },
            }
            proof {
                assert forall|k: Seq<u8>| #[trigger] assoc(memtable@, k) == replay_lookup(
                    opsv.take(i + 1),
                    k,
                ) by {
                    assert(opsv.take(i + 1).last() == o);
                    assert(opsv.take(i + 1).drop_last() =~= opsv.take(i as int));
                    if k != o.0 {
                        assert(assoc(mem0, k) == replay_lookup(opsv.take(i as int), k));
                    }
                }
                assert forall|j: int|
                    0 <= j < memtable@.len() implies (#[trigger] memtable@[j]).0.len()
                        <= u64::MAX && (memtable@[j].1 matches Some(v) ==> v.len()
                        < u64::MAX) by {
                    if !mem0.contains(memtable@[j]) {
                        assert(memtable@[j] == (o.0, o.1));
                        assert(o == opsv[i as int]);
                        assert(o.0.len() <= u64::MAX && (o.1 matches Some(v) ==> v.len()
                            < u64::MAX));
                    } else {
                        let w = choose|w: int| 0 <= w < mem0.len() && mem0[w] == memtable@[j];
                        assert(mem0[w].0.len() <= u64::MAX && (mem0[w].1 matches Some(v)
                            ==> v.len() < u64::MAX));
                    }
                }
            }
            i = i + 1;
        }
        proof {
            assert(opsv.take(nops as int) =~= opsv);
        }
        let store = PersistentStore { memtable, wal, sstables: ssts, ids, next_sstable_id: next_id };
        proof {
            assert forall|i: int, j: int| 0 <= i < j < store.ids@.len() implies store.ids@[i]
                < store.ids@[j] by {
                assert(store.ids@[i] == sorted_spec[i].0);
                assert(store.ids@[j] == sorted_spec[j].0);
            }
            assert forall|i: int|
                0 <= i < store.ids@.len() implies #[trigger] store.ids@[i]
                    < store.next_sstable_id by {
                assert(store.ids@[i] == sorted_spec[i].0);
                if i < store.ids@.len() - 1 {
                    assert(sorted_spec[i].0 < sorted_spec[sorted_spec.len() - 1].0);
                }
            }
            assert forall|i: int|
                0 <= i < store.sstables@.len() implies spec_parse_table(
                    (#[trigger] store.sstables@[i]).image(),
                ) == Some(store.sstables@[i]@) by {
                assert(store.sstables@[i].image() == sorted_spec[i].1);
            }
            assert forall|i: int|
                0 <= i < sorted_spec.len() implies store.disk_images()[i] == (
                #[trigger] sorted_spec[i]).1 by {
                assert(store.disk_images()[i] == store.sstables@[i].image());
            }
            assert forall|i: int|
                0 <= i < sorted_spec.len() implies spec_parse_table((#[trigger] sorted_spec[i]).1)
                    == Some(store.tables()[i]) by {
                assert(store.tables()[i] == store.sstables@[i]@);
            }
        }
        Ok(store)
    }
}


impl PersistentStore {
    /// What the write budget means, for verified callers that check it
    /// against `memtable_size`.
    pub proof fn lemma_can_put_means(&self, k: Seq<u8>, v: Seq<u8>)
        ensures
            self.can_put(k, v) <==> (size_sum(self.mem_view()) + k.len() + v.len() <= usize::MAX
                && v.len() < u64::MAX),
    {
    }

    /// What the delete budget means.
    pub proof fn lemma_can_delete_means(&self, k: Seq<u8>)
        ensures
            self.can_delete(k) <==> size_sum(self.mem_view()) + k.len() + 1 <= usize::MAX,
    {
    }

    /// What flushability means, for verified callers that check it
    /// against `next_table_id`.
    pub proof fn lemma_can_flush_means(&self)
        ensures
            self.can_flush() <==> (self.next_id() < u64::MAX || self.mem_view().len() == 0),
    {
    }

    /// What a lookup means: the memtable answers first, then the tables
    /// from newest to oldest.
    pub proof fn lemma_lookup_means(&self, k: Seq<u8>)
        ensures
            self.spec_lookup(k) == store_lookup(self.mem_view(), self.tables(), k),
    {
    }

    /// A consistent store has one id per table.
    pub proof fn lemma_inv_lengths(&self)
        requires
            self.inv(),
        ensures
            self.disk_ids().len() == self.tables().len(),
            self.disk_images().len() == self.tables().len(),
            self.disk_pairs().len() == self.tables().len(),
    {
    }
}

/// A store opened from an empty directory and an empty log is empty: it
/// holds nothing and reads every key as absent.
pub proof fn lemma_open_fresh(s: &PersistentStore)
    requires
        opened_from(*s, Seq::<(u64, Seq<u8>)>::empty(), Seq::<u8>::empty()),
    ensures
        s.mem_view() == Seq::<(Seq<u8>, Option<Seq<u8>>)>::empty(),
        s.tables() == Seq::<Seq<(Seq<u8>, Option<Seq<u8>>)>>::empty(),
        s.wal_bytes() == Seq::<u8>::empty(),
        s.next_id() == 0,
        forall|k: Seq<u8>| #[trigger] s.spec_lookup(k) is None,
        size_sum(s.mem_view()) == 0,
{
    assert(spec_sort_by_id(Seq::<(u64, Seq<u8>)>::empty()) =~= Seq::<(u64, Seq<u8>)>::empty());
    assert(s.tables() =~= Seq::<Seq<(Seq<u8>, Option<Seq<u8>>)>>::empty());
    assert(parse_wal(Seq::<u8>::empty()) == Some(Seq::<(Seq<u8>, Option<Seq<u8>>)>::empty()));
    if s.mem_view().len() > 0 {
        let k0 = s.mem_view()[0].0;
        assert(assoc(s.mem_view(), k0) == Some(s.mem_view()[0].1));
        assert(replay_lookup(Seq::<(Seq<u8>, Option<Seq<u8>>)>::empty(), k0) is None);
    }
    assert(s.mem_view() =~= Seq::<(Seq<u8>, Option<Seq<u8>>)>::empty());
    assert forall|k: Seq<u8>| #[trigger] s.spec_lookup(k) is None by {
        s.lemma_lookup_means(k);
    }
}

/// A consistent store's own disk state satisfies everything `open` asks
/// for and contains no corruption, so reopening it cannot fail.
pub proof fn lemma_reopen_succeeds(s: &PersistentStore)
    requires
        s.inv(),
    ensures
        ids_distinct(s.disk_pairs()),
        forall|i: int|
            0 <= i < s.disk_pairs().len() ==> (#[trigger] s.disk_pairs()[i]).0 < u64::MAX,
        spec_sort_by_id(s.disk_pairs()) == s.disk_pairs(),
        forall|i: int|
            0 <= i < s.disk_pairs().len() ==> spec_parse_table(
                (#[trigger] s.disk_pairs()[i]).1,
            ) == Some(s.tables()[i]),
        parse_wal(s.wal_bytes()) is Some,
{
    assert(ids_ascending(s.disk_pairs())) by {
        assert forall|i: int, j: int|
            0 <= i < j < s.disk_pairs().len() implies (#[trigger] s.disk_pairs()[i]).0
                < (#[trigger] s.disk_pairs()[j]).0 by {
            s.lemma_inv_ids(i, j);
        }
    }
    lemma_sort_of_sorted(s.disk_pairs());
    assert forall|i: int|
        0 <= i < s.disk_pairs().len() implies spec_parse_table((#[trigger] s.disk_pairs()[i]).1)
            == Some(s.tables()[i]) by {
        s.lemma_inv_table(i);
    }
}

/// Read-your-writes and delete-shadows-put at the newest layer: a key
/// the memtable answers for is settled there, whatever any table holds.
/// Right after a put the memtable answers with the value; right after a
/// delete it answers with a tombstone, hiding every older value.
pub proof fn lemma_memtable_shadows_tables(
    mem: Seq<(Seq<u8>, Option<Seq<u8>>)>,
    tables: Seq<Seq<(Seq<u8>, Option<Seq<u8>>)>>,
    k: Seq<u8>,
)
    requires
        assoc(mem, k) is Some,
    ensures
        store_lookup(mem, tables, k) == assoc(mem, k).unwrap(),
{
}

/// Delete shadows put across flushes: once a table carries a tombstone
/// for a key and no newer layer mentions the key again, the store reads
/// the key as absent, whatever older tables hold.
pub proof fn lemma_tombstone_shadows_older_tables(
    mem: Seq<(Seq<u8>, Option<Seq<u8>>)>,
    tables: Seq<Seq<(Seq<u8>, Option<Seq<u8>>)>>,
    i: int,
    k: Seq<u8>,
)
    requires
        assoc(mem, k) is None,
        0 <= i < tables.len(),
        assoc(tables[i], k) == Some(None::<Seq<u8>>),
        forall|j: int| i < j < tables.len() ==> assoc(#[trigger] tables[j], k) is None,
    ensures
        store_lookup(mem, tables, k) is None,
{
    lemma_tombstone_chain(tables, i, k);
}

/// The chain lookup stops at the newest table that mentions the key; a
/// tombstone there answers "nothing".
proof fn lemma_tombstone_chain(
    tables: Seq<Seq<(Seq<u8>, Option<Seq<u8>>)>>,
    i: int,
    k: Seq<u8>,
)
    requires
        0 <= i < tables.len(),
        assoc(tables[i], k) == Some(None::<Seq<u8>>),
        forall|j: int| i < j < tables.len() ==> assoc(#[trigger] tables[j], k) is None,
    ensures
        sst_chain_lookup(tables, k) is None,
    decreases tables.len(),
{
    if i == tables.len() - 1 {
    } else {
        assert(assoc(tables.last(), k) is None);
        let pre = tables.drop_last();
        assert(pre[i] == tables[i]);
        assert forall|j: int| i < j < pre.len() implies assoc(#[trigger] pre[j], k) is None by {
            assert(pre[j] == tables[j]);
        }
        lemma_tombstone_chain(pre, i, k);
    }
}

/// Durability across reopen: a store opened from the table files and the
/// log of a consistent store answers every lookup exactly as that store
/// did. This also covers recovery after a crash, since the log still
/// holds every operation the sealed tables do not.
pub proof fn lemma_reopen_preserves_reads(s1: &PersistentStore, s2: &PersistentStore, k: Seq<u8>)
    requires
        s1.inv(),
        opened_from(*s2, s1.disk_pairs(), s1.wal_bytes()),
    ensures
        s2.spec_lookup(k) == s1.spec_lookup(k),
{
    assert(ids_ascending(s1.disk_pairs())) by {
        assert forall|i: int, j: int|
            0 <= i < j < s1.disk_pairs().len() implies (#[trigger] s1.disk_pairs()[i]).0
                < (#[trigger] s1.disk_pairs()[j]).0 by {
            s1.lemma_inv_ids(i, j);
        }
    }
    lemma_sort_of_sorted(s1.disk_pairs());
    assert(s2.tables() =~= s1.tables()) by {
        assert forall|i: int|
            0 <= i < s1.tables().len() implies #[trigger] s2.tables()[i] == s1.tables()[i] by {
            assert(spec_parse_table(s1.disk_pairs()[i].1) == Some(s2.tables()[i]));
            s1.lemma_inv_table(i);
        }
    }
    assert(assoc(s2.mem_view(), k) == assoc(s1.mem_view(), k)) by {
        s1.lemma_inv_replay(k);
    }
}

/// Idempotent replay: when the memtable holds exactly what the newest
/// table holds — the state after a log replay that was already sealed —
/// every lookup answers as if the memtable were empty. Sealing again
/// therefore changes nothing visible.
pub proof fn lemma_replay_after_seal(
    mem: Seq<(Seq<u8>, Option<Seq<u8>>)>,
    tables: Seq<Seq<(Seq<u8>, Option<Seq<u8>>)>>,
    k: Seq<u8>,
)
    requires
        tables.len() > 0,
        tables.last() == mem,
    ensures
        store_lookup(mem, tables, k) == sst_chain_lookup(tables, k),
{
    match assoc(mem, k) {
        Some(vopt) => {
            assert(sst_chain_lookup(tables, k) == vopt);
        },
        None => {},
    }
}

impl PersistentStore {
    /// The invariant orders table ids strictly.
    pub proof fn lemma_inv_ids(&self, i: int, j: int)
        requires
            self.inv(),
            0 <= i < j < self.disk_ids().len(),
        ensures
            self.disk_ids()[i] < self.disk_ids()[j],
    {
    }

    /// Each table's image parses back to its entries.
    pub proof fn lemma_inv_table(&self, i: int)
        requires
            self.inv(),
            0 <= i < self.tables().len(),
        ensures
            spec_parse_table(self.disk_images()[i]) == Some(self.tables()[i]),
    {
        assert(spec_parse_table(self.sstables@[i].image()) == Some(self.sstables@[i]@));
    }

    /// Replaying the log rebuilds the memtable: the crash-consistency
    /// invariant the write path maintains.
    pub proof fn lemma_inv_replay(&self, k: Seq<u8>)
        requires
            self.inv(),
        ensures
            parse_wal(self.wal_bytes()) is Some,
            replay_lookup(parse_wal(self.wal_bytes()).unwrap(), k) == assoc(self.mem_view(), k),
    {
        assert(replay_lookup(self.wal.ops(), k) == assoc(self.memtable@, k));
    }
}


} // verus!
