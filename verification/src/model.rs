//! The logical model shared by every layer of the store.
//!
//! A layer's content is a sequence of entries, each a key paired with
//! either a value (`Some`) or a tombstone (`None`). Lookup is the first
//! match in the sequence; sorted layers with unique keys make that the
//! only match. The write-ahead log is modeled as the sequence of
//! operations it records, with the last write to a key winning.

use crate::order::lex_lt;
use vstd::prelude::*;

verus! {

/// First-match lookup of `k` in `s`: `None` when no entry carries the
/// key, `Some(None)` for a tombstone, `Some(Some(v))` for a value.
pub open spec fn assoc(s: Seq<(Seq<u8>, Option<Seq<u8>>)>, k: Seq<u8>) -> Option<Option<Seq<u8>>>
    decreases s.len(),
{
    if s.len() == 0 {
        None
    } else if s[0].0 == k {
        Some(s[0].1)
    } else {
        assoc(s.drop_first(), k)
    }
}

/// Keys strictly ascend in lexicographic order; in particular they are
/// unique.
pub open spec fn strict_sorted(s: Seq<(Seq<u8>, Option<Seq<u8>>)>) -> bool {
    forall|i: int, j: int| 0 <= i < j < s.len() ==> lex_lt(s[i].0, s[j].0)
}

/// The accounting weight of one entry: key length plus value length, or
/// key length plus one for a tombstone.
pub open spec fn entry_weight(e: (Seq<u8>, Option<Seq<u8>>)) -> nat {
    e.0.len() + match e.1 {
        Some(v) => v.len(),
        None => 1nat,
    }
}

/// The accounting size of a layer: the sum of its entry weights.
pub open spec fn size_sum(s: Seq<(Seq<u8>, Option<Seq<u8>>)>) -> nat
    decreases s.len(),
{
    if s.len() == 0 {
        0nat
    } else {
        entry_weight(s[0]) + size_sum(s.drop_first())
    }
}

/// The state a key is left in after a sequence of logged operations:
/// the last operation on the key wins.
pub open spec fn replay_lookup(ops: Seq<(Seq<u8>, Option<Seq<u8>>)>, k: Seq<u8>) -> Option<
    Option<Seq<u8>>,
>
    decreases ops.len(),
{
    if ops.len() == 0 {
        None
    } else if ops.last().0 == k {
        Some(ops.last().1)
    } else {
        replay_lookup(ops.drop_last(), k)
    }
}

/// Inserting a fresh entry at a position no earlier match precedes makes
/// its key resolve to it and leaves every other key unchanged.
pub proof fn lemma_assoc_insert(
    s: Seq<(Seq<u8>, Option<Seq<u8>>)>,
    i: int,
    k: Seq<u8>,
    v: Option<Seq<u8>>,
)
    requires
        0 <= i <= s.len(),
        forall|j: int| 0 <= j < i ==> s[j].0 != k,
    ensures
        assoc(s.insert(i, (k, v)), k) == Some(v),
        forall|k2: Seq<u8>| k2 != k ==> assoc(s.insert(i, (k, v)), k2) == assoc(s, k2),
    decreases i,
{
    let t = s.insert(i, (k, v));
    if i == 0 {
        assert(t.drop_first() =~= s);
        assert forall|k2: Seq<u8>| k2 != k implies assoc(t, k2) == assoc(s, k2) by {
            assert(t[0].0 == k);
            assert(assoc(t, k2) == assoc(t.drop_first(), k2));
        }
    } else {
        assert(t[0] == s[0]);
        assert(t.drop_first() =~= s.drop_first().insert(i - 1, (k, v)));
        lemma_assoc_insert(s.drop_first(), i - 1, k, v);
        assert(s[0].0 != k);
        assert forall|k2: Seq<u8>| k2 != k implies assoc(t, k2) == assoc(s, k2) by {
            if s[0].0 != k2 {
                assert(assoc(t, k2) == assoc(t.drop_first(), k2));
                assert(assoc(s, k2) == assoc(s.drop_first(), k2));
            }
        }
    }
}

/// Removing the entry at `i` leaves the lookup of every other key
/// unchanged.
pub proof fn lemma_assoc_remove(s: Seq<(Seq<u8>, Option<Seq<u8>>)>, i: int, k2: Seq<u8>)
    requires
        0 <= i < s.len(),
        s[i].0 != k2,
    ensures
        assoc(s.remove(i), k2) == assoc(s, k2),
    decreases i,
{
    let t = s.remove(i);
    if i == 0 {
        assert(t =~= s.drop_first());
    } else {
        assert(t[0] == s[0]);
        assert(t.drop_first() =~= s.drop_first().remove(i - 1));
        lemma_assoc_remove(s.drop_first(), i - 1, k2);
    }
}

/// If every entry before `i` misses `k` and entry `i` carries it, the
/// lookup of `k` resolves to entry `i`.
pub proof fn lemma_assoc_at(s: Seq<(Seq<u8>, Option<Seq<u8>>)>, i: int, k: Seq<u8>)
    requires
        0 <= i < s.len(),
        s[i].0 == k,
        forall|j: int| 0 <= j < i ==> s[j].0 != k,
    ensures
        assoc(s, k) == Some(s[i].1),
    decreases i,
{
    if i > 0 {
        lemma_assoc_at(s.drop_first(), i - 1, k);
    }
}

/// If no entry carries `k`, the lookup of `k` misses.
pub proof fn lemma_assoc_none(s: Seq<(Seq<u8>, Option<Seq<u8>>)>, k: Seq<u8>)
    requires
        forall|j: int| 0 <= j < s.len() ==> s[j].0 != k,
    ensures
        assoc(s, k) == None::<Option<Seq<u8>>>,
    decreases s.len(),
{
    if s.len() > 0 {
        lemma_assoc_none(s.drop_first(), k);
    }
}

/// In a sorted layer every key is unique, so each entry's key resolves
/// to exactly that entry: what a batch writes is what a lookup finds.
pub proof fn lemma_sorted_assoc(s: Seq<(Seq<u8>, Option<Seq<u8>>)>, i: int)
    requires
        strict_sorted(s),
        0 <= i < s.len(),
    ensures
        assoc(s, s[i].0) == Some(s[i].1),
{
    assert forall|j: int| 0 <= j < i implies s[j].0 != s[i].0 by {
        crate::order::lemma_lex_trichotomy(s[j].0, s[i].0);
    }
    lemma_assoc_at(s, i, s[i].0);
}

/// Inserting an entry adds its weight to the accounting size.
pub proof fn lemma_size_sum_insert(
    s: Seq<(Seq<u8>, Option<Seq<u8>>)>,
    i: int,
    e: (Seq<u8>, Option<Seq<u8>>),
)
    requires
        0 <= i <= s.len(),
    ensures
        size_sum(s.insert(i, e)) == size_sum(s) + entry_weight(e),
    decreases i,
{
    let t = s.insert(i, e);
    if i == 0 {
        assert(t.drop_first() =~= s);
    } else {
        assert(t[0] == s[0]);
        assert(t.drop_first() =~= s.drop_first().insert(i - 1, e));
        lemma_size_sum_insert(s.drop_first(), i - 1, e);
    }
}

/// Removing an entry subtracts its weight from the accounting size.
pub proof fn lemma_size_sum_remove(s: Seq<(Seq<u8>, Option<Seq<u8>>)>, i: int)
    requires
        0 <= i < s.len(),
    ensures
        size_sum(s) == size_sum(s.remove(i)) + entry_weight(s[i]),
    decreases i,
{
    let t = s.remove(i);
    if i == 0 {
        assert(t =~= s.drop_first());
    } else {
        assert(t[0] == s[0]);
        assert(t.drop_first() =~= s.drop_first().remove(i - 1));
        lemma_size_sum_remove(s.drop_first(), i - 1);
    }
}

} // verus!
