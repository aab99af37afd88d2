//! Lexicographic order on byte strings.
//!
//! Keys are compared as sequences of unsigned bytes. The order drives the
//! memtable's sorted layout and the ascending-key contract of table
//! batches.

use vstd::prelude::*;

verus! {

/// `a` comes strictly before `b` in lexicographic order on unsigned bytes.
pub open spec fn lex_lt(a: Seq<u8>, b: Seq<u8>) -> bool
    decreases a.len(),
{
    if b.len() == 0 {
        false
    } else if a.len() == 0 {
        true
    } else if a[0] < b[0] {
        true
    } else if a[0] > b[0] {
        false
    } else {
        lex_lt(a.drop_first(), b.drop_first())
    }
}

/// A strictly smaller byte string is never equal to the larger one.
pub proof fn lemma_lex_lt_irreflexive(a: Seq<u8>)
    ensures
        !lex_lt(a, a),
    decreases a.len(),
{
    if a.len() > 0 {
        lemma_lex_lt_irreflexive(a.drop_first());
    }
}

/// Any two byte strings are equal or ordered one way, never both.
pub proof fn lemma_lex_trichotomy(a: Seq<u8>, b: Seq<u8>)
    ensures
        lex_lt(a, b) || lex_lt(b, a) || a == b,
        lex_lt(a, b) ==> !lex_lt(b, a) && a != b,
        lex_lt(b, a) ==> !lex_lt(a, b) && a != b,
    decreases a.len(),
{
    lemma_lex_lt_irreflexive(a);
    lemma_lex_lt_irreflexive(b);
    if a.len() == 0 || b.len() == 0 {
        if a.len() == 0 && b.len() == 0 {
            assert(a =~= b);
        }
    } else if a[0] == b[0] {
        lemma_lex_trichotomy(a.drop_first(), b.drop_first());
        if a.drop_first() == b.drop_first() {
            assert forall|j: int| 0 <= j < a.len() implies a[j] == b[j] by {
                if j > 0 {
                    assert(a.drop_first()[j - 1] == b.drop_first()[j - 1]);
                }
            }
            assert(a =~= b);
        }
        if a == b {
            assert(a.drop_first() =~= b.drop_first());
        }
    }
}

/// Lexicographic order is transitive.
pub proof fn lemma_lex_transitive(a: Seq<u8>, b: Seq<u8>, c: Seq<u8>)
    requires
        lex_lt(a, b),
        lex_lt(b, c),
    ensures
        lex_lt(a, c),
    decreases a.len(),
{
    if a.len() == 0 {
    } else if c.len() == 0 {
    } else if b.len() == 0 {
    } else {
        if a[0] == b[0] && b[0] == c[0] {
            lemma_lex_transitive(a.drop_first(), b.drop_first(), c.drop_first());
        }
    }
}

/// Three-way comparison of two byte slices in lexicographic order:
/// `-1` when `a` comes first, `0` when they are equal, `1` when `b` comes
/// first.
pub fn lex_cmp(a: &[u8], b: &[u8]) -> (r: i8)
    ensures
        r == -1 <==> lex_lt(a@, b@),
        r == 0 <==> a@ == b@,
        r == 1 <==> lex_lt(b@, a@),
{
    proof {
        lemma_lex_trichotomy(a@, b@);
    }
    let alen: usize = a.len();
    let blen: usize = b.len();
    let n: usize = if alen < blen { alen } else { blen };
    let mut i: usize = 0;
    while i < n
        invariant
            0 <= i <= n,
            n <= a@.len(),
            n <= b@.len(),
            n == if a@.len() < b@.len() { a@.len() } else { b@.len() },
            a@.subrange(0, i as int) == b@.subrange(0, i as int),
        decreases n - i,
    {
        let x = a[i];
        let y = b[i];
        if x < y {
            proof {
                lemma_lex_lt_from_prefix(a@, b@, i as int);
                lemma_lex_trichotomy(a@, b@);
            }
            return -1;
        }
        if x > y {
            proof {
                lemma_lex_lt_from_prefix(b@, a@, i as int);
                lemma_lex_trichotomy(a@, b@);
            }
            return 1;
        }
        proof {
            assert(a@.subrange(0, i + 1) =~= b@.subrange(0, i + 1));
        }
        i = i + 1;
    }
    if alen < blen {
        proof {
            assert(a@ =~= b@.subrange(0, a@.len() as int));
            lemma_lex_lt_prefix(a@, b@);
        }
        -1
    } else if alen > blen {
        proof {
            assert(b@ =~= a@.subrange(0, b@.len() as int));
            lemma_lex_lt_prefix(b@, a@);
        }
        1
    } else {
        proof {
            assert forall|j: int| 0 <= j < a@.len() implies a@[j] == b@[j] by {
                assert(a@.subrange(0, n as int)[j] == a@[j]);
                assert(b@.subrange(0, n as int)[j] == b@[j]);
            }
            assert(a@ =~= b@);
        }
        0
    }
}

/// If `a` and `b` agree on their first `i` bytes and differ at `i`, the
/// one with the smaller byte comes first.
proof fn lemma_lex_lt_from_prefix(a: Seq<u8>, b: Seq<u8>, i: int)
    requires
        0 <= i < a.len(),
        i < b.len(),
        a.subrange(0, i) == b.subrange(0, i),
        a[i] < b[i],
    ensures
        lex_lt(a, b),
    decreases i,
{
    if i == 0 {
    } else {
        let sa = a.subrange(0, i);
        let sb = b.subrange(0, i);
        assert(a[0] == b[0]) by {
            assert(sa[0] == a[0]);
            assert(sb[0] == b[0]);
        }
        let da = a.drop_first();
        let db = b.drop_first();
        assert(da.subrange(0, i - 1) =~= db.subrange(0, i - 1)) by {
            assert forall|j: int| 0 <= j < i - 1 implies #[trigger] da.subrange(0, i - 1)[j]
                == db.subrange(0, i - 1)[j] by {
                assert(sa[j + 1] == a[j + 1]);
                assert(sb[j + 1] == b[j + 1]);
                assert(da[j] == a[j + 1]);
                assert(db[j] == b[j + 1]);
            }
        }
        assert(da[i - 1] == a[i] && db[i - 1] == b[i]);
        lemma_lex_lt_from_prefix(da, db, i - 1);
    }
}

/// A strict prefix comes before the byte string it is a prefix of.
proof fn lemma_lex_lt_prefix(a: Seq<u8>, b: Seq<u8>)
    requires
        a.len() < b.len(),
        a == b.subrange(0, a.len() as int),
    ensures
        lex_lt(a, b),
    decreases a.len(),
{
    if a.len() > 0 {
        let sb = b.subrange(0, a.len() as int);
        assert(a[0] == b[0]) by {
            assert(sb[0] == b[0]);
        }
        let da = a.drop_first();
        let db = b.drop_first();
        assert(da =~= db.subrange(0, da.len() as int)) by {
            assert forall|j: int| 0 <= j < da.len() implies #[trigger] da[j] == db.subrange(
                0,
                da.len() as int,
            )[j] by {
                assert(sb[j + 1] == b[j + 1]);
                assert(da[j] == a[j + 1]);
                assert(db[j] == b[j + 1]);
            }
        }
        lemma_lex_lt_prefix(da, db);
    }
}

} // verus!
