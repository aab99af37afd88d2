//! The in-memory write buffer of the store.
//!
//! A memtable maps keys to entry states and keeps its entries in
//! ascending key order. A deleted key stays present as a tombstone so
//! that sealing the memtable into a table preserves the deletion. The
//! table tracks an accounting size: the sum over its entries of the key
//! length plus the value length, or plus one for a tombstone.

use crate::model::{assoc, entry_weight, size_sum, strict_sorted};
use crate::order::{lemma_lex_transitive, lemma_lex_trichotomy, lex_cmp, lex_lt};
use vstd::prelude::*;

verus! {

/// The state stored for a key: a live value or a tombstone left by a
/// deletion.
#[derive(Debug, PartialEq)]
pub enum Value {
    /// A value that exists in the database.
    Value(Vec<u8>),
    /// A marker recording that the key was deleted.
    Tombstone,
}

/// The entry state as the model sees it: a tombstone becomes `None`.
pub open spec fn val_view(v: Value) -> Option<Seq<u8>> {
    match v {
        Value::Value(b) => Some(b@),
        Value::Tombstone => None,
    }
}

/// An in-memory key-value buffer that keeps keys in sorted order.
pub struct MemTable {
    entries: Vec<(Vec<u8>, Value)>,
    size: usize,
}

impl View for MemTable {
    type V = Seq<(Seq<u8>, Option<Seq<u8>>)>;

    closed spec fn view(&self) -> Seq<(Seq<u8>, Option<Seq<u8>>)> {
        self.entries@.map_values(|e: (Vec<u8>, Value)| (e.0@, val_view(e.1)))
    }
}

impl MemTable {
    /// The entries are sorted strictly by key and the size counter equals
    /// the accounting formula.
    pub closed spec fn wf(&self) -> bool {
        &&& strict_sorted(self@)
        &&& self.size == size_sum(self@)
    }

    /// A well-formed memtable lists its entries in strictly ascending key
    /// order.
    pub proof fn lemma_wf_sorted(&self)
        requires
            self.wf(),
        ensures
            strict_sorted(self@),
    {
    }

    /// Creates a new, empty memtable.
    pub fn new() -> (r: MemTable)
        ensures
            r.wf(),
            r@ == Seq::<(Seq<u8>, Option<Seq<u8>>)>::empty(),
    {
        let r = MemTable { entries: Vec::new(), size: 0 };
        proof {
            assert(r@ =~= Seq::<(Seq<u8>, Option<Seq<u8>>)>::empty());
        }
        r
    }

    /// The number of leading entries whose key comes strictly before
    /// `key`.
    fn scan(entries: &Vec<(Vec<u8>, Value)>, key: &[u8]) -> (r: usize)
        ensures
            r <= entries@.len(),
            forall|j: int| 0 <= j < r ==> lex_lt(#[trigger] entries@[j].0@, key@),
            r < entries@.len() ==> !lex_lt(entries@[r as int].0@, key@),
    {
        let n = entries.len();
        let mut i: usize = 0;
        while i < n && lex_cmp(entries[i].0.as_slice(), key) == -1
            invariant
                0 <= i <= n,
                n == entries@.len(),
                forall|j: int| 0 <= j < i ==> lex_lt(#[trigger] entries@[j].0@, key@),
            decreases n - i,
        {
            i = i + 1;
        }
        i
    }

    /// Installs a value for a key, returning the prior entry state if the
    /// key was present.
    ///
    /// The accounting size grows by the key and value lengths for a fresh
    /// key, by the difference of the value lengths when a value is
    /// replaced, and by the value length less one when a tombstone is
    /// overwritten.
    pub fn put(&mut self, key: Vec<u8>, value: Vec<u8>) -> (prev: Option<Value>)
        requires
            old(self).wf(),
            size_sum(old(self)@) + key@.len() + value@.len() <= usize::MAX,
        ensures
            final(self).wf(),
            assoc(final(self)@, key@) == Some(Some(value@)),
            forall|k2: Seq<u8>| k2 != key@ ==> assoc(final(self)@, k2) == assoc(old(self)@, k2),
            match prev {
                None => assoc(old(self)@, key@) is None,
                Some(v) => assoc(old(self)@, key@) == Some(val_view(v)),
            },
            size_sum(final(self)@) + match assoc(old(self)@, key@) {
                None => 0nat,
                Some(Some(ov)) => (key@.len() + ov.len()) as nat,
                Some(None) => (key@.len() + 1) as nat,
            } == size_sum(old(self)@) + key@.len() + value@.len(),
            forall|i: int|
                0 <= i < final(self)@.len() ==> #[trigger] final(self)@[i] == (key@, Some(value@))
                    || old(self)@.contains(final(self)@[i]),
    {
        self.upsert(key, Value::Value(value))
    }

    /// Installs a tombstone for a key, returning the prior entry state if
    /// the key was present.
    ///
    /// The accounting size grows by the key length plus one for a fresh
    /// key, shrinks by the value length less one when a value is
    /// replaced, and does not change when the key already carries a
    /// tombstone.
    pub fn delete(&mut self, key: Vec<u8>) -> (prev: Option<Value>)
        requires
            old(self).wf(),
            size_sum(old(self)@) + key@.len() + 1 <= usize::MAX,
        ensures
            final(self).wf(),
            assoc(final(self)@, key@) == Some(None::<Seq<u8>>),
            forall|k2: Seq<u8>| k2 != key@ ==> assoc(final(self)@, k2) == assoc(old(self)@, k2),
            match prev {
                None => assoc(old(self)@, key@) is None,
                Some(v) => assoc(old(self)@, key@) == Some(val_view(v)),
            },
            size_sum(final(self)@) + match assoc(old(self)@, key@) {
                None => 0nat,
                Some(Some(ov)) => (key@.len() + ov.len()) as nat,
                Some(None) => (key@.len() + 1) as nat,
            } == size_sum(old(self)@) + key@.len() + 1,
            forall|i: int|
                0 <= i < final(self)@.len() ==> #[trigger] final(self)@[i] == (
                    key@,
                    None::<Seq<u8>>,
                ) || old(self)@.contains(final(self)@[i]),
    {
        self.upsert(key, Value::Tombstone)
    }

    /// Installs an entry state for a key, keeping the entries sorted and
    /// the accounting size exact.
    fn upsert(&mut self, key: Vec<u8>, value: Value) -> (prev: Option<Value>)
        requires
            old(self).wf(),
            size_sum(old(self)@) + key@.len() + match val_view(value) {
                Some(v) => v.len(),
                None => 1nat,
            } <= usize::MAX,
        ensures
            final(self).wf(),
            assoc(final(self)@, key@) == Some(val_view(value)),
            forall|k2: Seq<u8>| k2 != key@ ==> assoc(final(self)@, k2) == assoc(old(self)@, k2),
            match prev {
                None => assoc(old(self)@, key@) is None,
                Some(v) => assoc(old(self)@, key@) == Some(val_view(v)),
            },
            size_sum(final(self)@) + match assoc(old(self)@, key@) {
                None => 0nat,
                Some(Some(ov)) => (key@.len() + ov.len()) as nat,
                Some(None) => (key@.len() + 1) as nat,
            } == size_sum(old(self)@) + key@.len() + match val_view(value) {
                Some(v) => v.len(),
                None => 1nat,
            },
            forall|i: int|
                0 <= i < final(self)@.len() ==> #[trigger] final(self)@[i] == (
                    key@,
                    val_view(value),
                ) || old(self)@.contains(final(self)@[i]),
    {
        let ghost s0 = self@;
        let pos = Self::scan(&self.entries, key.as_slice());
        proof {
            assert forall|j: int| 0 <= j < pos implies s0[j].0 != key@ by {
                lemma_lex_trichotomy(s0[j].0, key@);
            }
        }
        if pos < self.entries.len() && lex_cmp(self.entries[pos].0.as_slice(), key.as_slice())
            == 0 {
            // The key is present: replace its entry state in place.
            let (old_key, old_val) = self.entries.remove(pos);
            let ghost removed = self@;
            proof {
                assert(removed =~= s0.remove(pos as int));
                crate::model::lemma_size_sum_remove(s0, pos as int);
                assert(entry_weight(s0[pos as int]) == old_key@.len() + match val_view(old_val) {
                    Some(ov) => ov.len(),
                    None => 1nat,
                });
            }
            let old_w: usize = old_key.len() + match &old_val {
                Value::Value(ov) => ov.len(),
                Value::Tombstone => 1,
            };
            let new_w: usize = key.len() + match &value {
                Value::Value(nv) => nv.len(),
                Value::Tombstone => 1,
            };
            self.size = self.size - old_w + new_w;
            self.entries.insert(pos, (key, value));
            proof {
                let s2 = self@;
                assert(removed =~= s0.remove(pos as int));
                assert(s2 =~= removed.insert(pos as int, (key@, val_view(value))));
                crate::model::lemma_size_sum_remove(s0, pos as int);
                crate::model::lemma_size_sum_insert(removed, pos as int, (key@, val_view(value)));
                crate::model::lemma_assoc_at(s0, pos as int, key@);
                crate::model::lemma_assoc_insert(removed, pos as int, key@, val_view(value));
                assert forall|k2: Seq<u8>| k2 != key@ implies assoc(s2, k2) == assoc(s0, k2) by {
                    crate::model::lemma_assoc_remove(s0, pos as int, k2);
                }
                assert forall|i: int, j: int| 0 <= i < j < s2.len() implies lex_lt(
                    s2[i].0,
                    s2[j].0,
                ) by {
                    assert(s2[i].0 == s0[i].0);
                    assert(s2[j].0 == s0[j].0);
                }
                assert forall|i: int|
                    0 <= i < s2.len() implies #[trigger] s2[i] == (key@, val_view(value))
                        || s0.contains(s2[i]) by {
                    if i < pos {
                        assert(s2[i] == s0[i]);
                        assert(s0.contains(s2[i]));
                    } else if i > pos {
                        assert(s2[i] == removed[i - 1]);
                        assert(removed[i - 1] == s0[i]);
                        assert(s0.contains(s2[i]));
                    }
                }
            }
            Some(old_val)
        } else {
            // The key is absent: insert a fresh entry at the scan point.
            proof {
                if pos < self.entries.len() {
                    lemma_lex_trichotomy(s0[pos as int].0, key@);
                }
                assert forall|j: int| pos <= j < s0.len() implies lex_lt(
                    key@,
                    #[trigger] s0[j].0,
                ) by {
                    if j > pos {
                        lemma_lex_transitive(key@, s0[pos as int].0, s0[j].0);
                    }
                }
                assert forall|j: int| 0 <= j < s0.len() implies s0[j].0 != key@ by {
                    lemma_lex_trichotomy(s0[j].0, key@);
                }
                crate::model::lemma_assoc_none(s0, key@);
            }
            self.size = self.size + key.len() + match &value {
                Value::Value(nv) => nv.len(),
                Value::Tombstone => 1,
            };
            self.entries.insert(pos, (key, value));
            proof {
                let s2 = self@;
                assert(s2 =~= s0.insert(pos as int, (key@, val_view(value))));
                crate::model::lemma_size_sum_insert(s0, pos as int, (key@, val_view(value)));
                crate::model::lemma_assoc_insert(s0, pos as int, key@, val_view(value));
                assert forall|i: int, j: int| 0 <= i < j < s2.len() implies lex_lt(
                    s2[i].0,
                    s2[j].0,
                ) by {
                    let p = pos as int;
                    if j < p {
                        assert(s2[i].0 == s0[i].0 && s2[j].0 == s0[j].0);
                    } else if i < p && j == p {
                        assert(s2[i].0 == s0[i].0 && s2[j].0 == key@);
                    } else if i < p && j > p {
                        assert(s2[i].0 == s0[i].0 && s2[j].0 == s0[j - 1].0);
                    } else if i == p {
                        assert(s2[i].0 == key@ && s2[j].0 == s0[j - 1].0);
                    } else {
                        assert(s2[i].0 == s0[i - 1].0 && s2[j].0 == s0[j - 1].0);
                    }
                }
                assert forall|i: int|
                    0 <= i < s2.len() implies #[trigger] s2[i] == (key@, val_view(value))
                        || s0.contains(s2[i]) by {
                    if i < pos {
                        assert(s2[i] == s0[i]);
                        assert(s0.contains(s2[i]));
                    } else if i > pos {
                        assert(s2[i] == s0[i - 1]);
                        assert(s0.contains(s2[i]));
                    }
                }
            }
            None
        }
    }

    /// Looks up the entry state recorded for a key, tombstones included.
    pub fn get(&self, key: &[u8]) -> (r: Option<&Value>)
        requires
            self.wf(),
        ensures
            match r {
                None => assoc(self@, key@) is None,
                Some(v) => assoc(self@, key@) == Some(val_view(*v)),
            },
    {
        let pos = Self::scan(&self.entries, key);
        proof {
            assert forall|j: int| 0 <= j < pos implies self@[j].0 != key@ by {
                lemma_lex_trichotomy(self@[j].0, key@);
            }
        }
        if pos < self.entries.len() && lex_cmp(self.entries[pos].0.as_slice(), key) == 0 {
            proof {
                crate::model::lemma_assoc_at(self@, pos as int, key@);
            }
            Some(&self.entries[pos].1)
        } else {
            proof {
                if pos < self.entries.len() {
                    lemma_lex_trichotomy(self@[pos as int].0, key@);
                }
                assert forall|j: int| 0 <= j < self@.len() implies self@[j].0 != key@ by {
                    if j > pos {
                        lemma_lex_transitive(key@, self@[pos as int].0, self@[j].0);
                    }
                    lemma_lex_trichotomy(self@[j].0, key@);
                }
                crate::model::lemma_assoc_none(self@, key@);
            }
            None
        }
    }

    /// All entries in ascending key order, tombstones included, so that a
    /// seal can persist deletions.
    pub fn iter(&self) -> (r: Vec<(Vec<u8>, Value)>)
        ensures
            r@.len() == self@.len(),
            forall|i: int| 0 <= i < r@.len() ==> (#[trigger] r@[i].0@, val_view(r@[i].1))
                == self@[i],
    {
        let mut r: Vec<(Vec<u8>, Value)> = Vec::new();
        let n = self.entries.len();
        let mut i: usize = 0;
        while i < n
            invariant
                0 <= i <= n,
                n == self.entries@.len(),
                n == self@.len(),
                r@.len() == i,
                forall|j: int| 0 <= j < i ==> (#[trigger] r@[j].0@, val_view(r@[j].1)) == self@[j],
            decreases n - i,
        {
            let k = vstd::slice::slice_to_vec(self.entries[i].0.as_slice());
            let v = match &self.entries[i].1 {
                Value::Value(b) => Value::Value(vstd::slice::slice_to_vec(b.as_slice())),
                Value::Tombstone => Value::Tombstone,
            };
            r.push((k, v));
            i = i + 1;
        }
        r
    }

    /// The accounting size: for each entry the key length plus the value
    /// length, or plus one for a tombstone.
    pub fn size(&self) -> (r: usize)
        requires
            self.wf(),
        ensures
            r == size_sum(self@),
    {
        self.size
    }

    /// The memtable holds no entries, not even tombstones.
    pub fn is_empty(&self) -> (r: bool)
        ensures
            r <==> self@.len() == 0,
    {
        self.entries.is_empty()
    }

    /// Removes every entry and resets the accounting size to zero.
    pub fn clear(&mut self)
        ensures
            final(self).wf(),
            final(self)@ == Seq::<(Seq<u8>, Option<Seq<u8>>)>::empty(),
    {
        self.entries.clear();
        self.size = 0;
        proof {
            assert(self@ =~= Seq::<(Seq<u8>, Option<Seq<u8>>)>::empty());
        }
    }
}

} // verus!
