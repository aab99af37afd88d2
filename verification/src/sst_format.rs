//! The immutable sorted table file format.
//!
//! A table image is laid out from offset zero as a data block, an index
//! block, a fixed 24-byte metadata block and a 24-byte footer.
//!
//! Each data entry is the key length (64-bit little-endian), the key
//! bytes, the value length and the value bytes; a tombstone is encoded
//! by the reserved value length `u64::MAX` with no value bytes. Each
//! index entry is the key length, the key bytes, and the byte offset of
//! the matching data entry. The metadata block carries the entry count,
//! the data block size and the index block size as big-endian 64-bit
//! integers. The footer is the magic number (big-endian), the metadata
//! length (little-endian) and the metadata offset (little-endian).
//!
//! Parsing is strict: an image is accepted exactly when every block is
//! laid out this way and internally consistent, so any accepted image is
//! the canonical encoding of its entries.

use vstd::bytes::{spec_u64_from_le_bytes, spec_u64_to_le_bytes};
use vstd::prelude::*;

use crate::encoding::{spec_u64_from_be_bytes, spec_u64_to_be_bytes};

verus! {

/// Identifies a table file, stored big-endian at the start of the
/// footer.
pub const MAGIC_NUMBER: u64 = 0x1234567890ABCDEF;

/// Size in bytes of the footer: magic number, metadata length, metadata
/// offset.
pub const FOOTER_SIZE: u64 = 24;

/// The encoded size of one data entry.
pub open spec fn spec_entry_size(e: (Seq<u8>, Option<Seq<u8>>)) -> nat {
    16 + e.0.len() + match e.1 {
        Some(v) => v.len(),
        None => 0nat,
    }
}

/// The encoding of one data entry.
pub open spec fn spec_encode_entry(e: (Seq<u8>, Option<Seq<u8>>)) -> Seq<u8> {
    spec_u64_to_le_bytes(e.0.len() as u64) + e.0 + match e.1 {
        Some(v) => spec_u64_to_le_bytes(v.len() as u64) + v,
        None => spec_u64_to_le_bytes(u64::MAX),
    }
}

/// The data block: the concatenated encodings of the entries.
pub open spec fn spec_data_block(es: Seq<(Seq<u8>, Option<Seq<u8>>)>) -> Seq<u8>
    decreases es.len(),
{
    if es.len() == 0 {
        Seq::empty()
    } else {
        spec_encode_entry(es[0]) + spec_data_block(es.drop_first())
    }
}

/// The size of the data block, entry by entry.
pub open spec fn spec_data_size(es: Seq<(Seq<u8>, Option<Seq<u8>>)>) -> nat
    decreases es.len(),
{
    if es.len() == 0 {
        0nat
    } else {
        spec_entry_size(es[0]) + spec_data_size(es.drop_first())
    }
}

/// One index entry: the key and the data offset of its entry.
pub open spec fn spec_index_entry(e: (Seq<u8>, Option<Seq<u8>>), off: int) -> Seq<u8> {
    spec_u64_to_le_bytes(e.0.len() as u64) + e.0 + spec_u64_to_le_bytes(off as u64)
}

/// The index block for entries whose first data offset is `off`.
pub open spec fn spec_index_block_from(es: Seq<(Seq<u8>, Option<Seq<u8>>)>, off: int) -> Seq<u8>
    decreases es.len(),
{
    if es.len() == 0 {
        Seq::empty()
    } else {
        spec_index_entry(es[0], off) + spec_index_block_from(
            es.drop_first(),
            off + spec_entry_size(es[0]),
        )
    }
}

/// The index block of a table.
pub open spec fn spec_index_block(es: Seq<(Seq<u8>, Option<Seq<u8>>)>) -> Seq<u8> {
    spec_index_block_from(es, 0)
}

/// The size of the index block.
pub open spec fn spec_index_size(es: Seq<(Seq<u8>, Option<Seq<u8>>)>) -> nat
    decreases es.len(),
{
    if es.len() == 0 {
        0nat
    } else {
        16 + es[0].0.len() + spec_index_size(es.drop_first())
    }
}

/// The complete table image for a batch of entries.
pub open spec fn spec_table_image(es: Seq<(Seq<u8>, Option<Seq<u8>>)>) -> Seq<u8> {
    let d = spec_data_block(es);
    let ix = spec_index_block(es);
    d + ix + spec_u64_to_be_bytes(es.len() as u64) + spec_u64_to_be_bytes(d.len() as u64)
        + spec_u64_to_be_bytes(ix.len() as u64) + spec_u64_to_be_bytes(MAGIC_NUMBER)
        + spec_u64_to_le_bytes(FOOTER_SIZE) + spec_u64_to_le_bytes((d.len() + ix.len()) as u64)
}

/// Decodes a data block into its entries, or nothing if it is not an
/// exact concatenation of well-formed entries.
pub open spec fn spec_parse_data(b: Seq<u8>) -> Option<Seq<(Seq<u8>, Option<Seq<u8>>)>>
    decreases b.len(),
{
    if b.len() == 0 {
        Some(Seq::empty())
    } else if b.len() < 16 {
        None
    } else {
        let kl = spec_u64_from_le_bytes(b.subrange(0, 8)) as int;
        if b.len() < 16 + kl {
            None
        } else {
            let k = b.subrange(8, 8 + kl);
            let vlu = spec_u64_from_le_bytes(b.subrange(8 + kl, 16 + kl));
            if vlu == u64::MAX {
                match spec_parse_data(b.skip(16 + kl)) {
                    None => None,
                    Some(rest) => Some(seq![(k, None::<Seq<u8>>)] + rest),
                }
            } else {
                let vl = vlu as int;
                if b.len() < 16 + kl + vl {
                    None
                } else {
                    let v = b.subrange(16 + kl, 16 + kl + vl);
                    match spec_parse_data(b.skip(16 + kl + vl)) {
                        None => None,
                        Some(rest) => Some(seq![(k, Some(v))] + rest),
                    }
                }
            }
        }
    }
}

/// Decodes a table image into its entries.
///
/// The image is accepted exactly when the footer carries the magic
/// number, the fixed metadata length and an offset that places the
/// metadata directly before the footer; the metadata sizes tile the rest
/// of the image; the data block decodes; and the entry count and index
/// block match the decoded entries.
pub open spec fn spec_parse_table(b: Seq<u8>) -> Option<Seq<(Seq<u8>, Option<Seq<u8>>)>> {
    if b.len() < 48 {
        None
    } else {
        let n = b.len() as int;
        if b.subrange(n - 24, n - 16) != spec_u64_to_be_bytes(MAGIC_NUMBER) {
            None
        } else {
            let ml = spec_u64_from_le_bytes(b.subrange(n - 16, n - 8)) as int;
            let mo = spec_u64_from_le_bytes(b.subrange(n - 8, n)) as int;
            if ml != 24 || mo + 48 != n {
                None
            } else {
                let num = spec_u64_from_be_bytes(b.subrange(mo, mo + 8)) as int;
                let ds = spec_u64_from_be_bytes(b.subrange(mo + 8, mo + 16)) as int;
                let isz = spec_u64_from_be_bytes(b.subrange(mo + 16, mo + 24)) as int;
                if ds + isz != mo {
                    None
                } else {
                    match spec_parse_data(b.subrange(0, ds)) {
                        None => None,
                        Some(es) => if es.len() == num && b.subrange(ds, mo) == spec_index_block(
                            es,
                        ) {
                            Some(es)
                        } else {
                            None
                        },
                    }
                }
            }
        }
    }
}

/// Every key fits a length field and every value length stays below the
/// tombstone marker.
pub open spec fn batch_len_ok(es: Seq<(Seq<u8>, Option<Seq<u8>>)>) -> bool {
    forall|i: int|
        0 <= i < es.len() ==> (#[trigger] es[i]).0.len() <= u64::MAX && (es[i].1 matches Some(v)
            ==> v.len() < u64::MAX)
}

/// Appending an entry to a batch appends its encoding to the data block.
pub proof fn lemma_data_block_push(es: Seq<(Seq<u8>, Option<Seq<u8>>)>, e: (
    Seq<u8>,
    Option<Seq<u8>>,
))
    ensures
        spec_data_block(es.push(e)) == spec_data_block(es) + spec_encode_entry(e),
        spec_data_size(es.push(e)) == spec_data_size(es) + spec_entry_size(e),
    decreases es.len(),
{
    let t = es.push(e);
    if es.len() == 0 {
        assert(t.len() == 1);
        assert(t[0] == e);
        assert(t.drop_first() =~= Seq::<(Seq<u8>, Option<Seq<u8>>)>::empty());
        assert(spec_data_block(t) == spec_encode_entry(t[0]) + spec_data_block(t.drop_first()));
        assert(spec_data_block(t.drop_first()) == Seq::<u8>::empty());
        assert(spec_data_block(es) == Seq::<u8>::empty());
        assert(spec_data_block(es) + spec_encode_entry(e) =~= spec_encode_entry(e) + Seq::<
            u8,
        >::empty());
        assert(spec_data_size(t) == spec_entry_size(e) + spec_data_size(t.drop_first()));
        assert(spec_data_size(t.drop_first()) == 0);
    } else {
        assert(t[0] == es[0]);
        assert(t.drop_first() =~= es.drop_first().push(e));
        lemma_data_block_push(es.drop_first(), e);
        assert(spec_encode_entry(es[0]) + (spec_data_block(es.drop_first()) + spec_encode_entry(e))
            =~= (spec_encode_entry(es[0]) + spec_data_block(es.drop_first())) + spec_encode_entry(
            e,
        ));
    }
}

/// Appending an entry to a batch appends one entry to the index block,
/// at the offset where the data block ended.
pub proof fn lemma_index_block_push(
    es: Seq<(Seq<u8>, Option<Seq<u8>>)>,
    e: (Seq<u8>, Option<Seq<u8>>),
    off: int,
)
    ensures
        spec_index_block_from(es.push(e), off) == spec_index_block_from(es, off)
            + spec_index_entry(e, off + spec_data_size(es)),
        spec_index_size(es.push(e)) == spec_index_size(es) + 16 + e.0.len(),
    decreases es.len(),
{
    let t = es.push(e);
    if es.len() == 0 {
        assert(t.len() == 1);
        assert(t[0] == e);
        assert(t.drop_first() =~= Seq::<(Seq<u8>, Option<Seq<u8>>)>::empty());
        assert(spec_index_block_from(t, off) == spec_index_entry(e, off) + spec_index_block_from(
            t.drop_first(),
            off + spec_entry_size(e),
        ));
        assert(spec_index_block_from(t.drop_first(), off + spec_entry_size(e)) == Seq::<
            u8,
        >::empty());
        assert(spec_index_block_from(es, off) == Seq::<u8>::empty());
        assert(spec_data_size(es) == 0);
        assert(spec_index_block_from(es, off) + spec_index_entry(e, off) =~= spec_index_entry(
            e,
            off,
        ) + Seq::<u8>::empty());
        assert(spec_index_size(t) == 16 + e.0.len() + spec_index_size(t.drop_first()));
        assert(spec_index_size(t.drop_first()) == 0);
        assert(spec_index_size(es) == 0);
    } else {
        assert(t[0] == es[0]);
        assert(t.drop_first() =~= es.drop_first().push(e));
        lemma_index_block_push(es.drop_first(), e, off + spec_entry_size(es[0]));
        assert(spec_data_size(es) == spec_entry_size(es[0]) + spec_data_size(es.drop_first()));
        assert(spec_index_size(t) == 16 + es[0].0.len() + spec_index_size(t.drop_first()));
        assert(spec_index_entry(es[0], off) + (spec_index_block_from(
            es.drop_first(),
            off + spec_entry_size(es[0]),
        ) + spec_index_entry(e, off + spec_data_size(es))) =~= (spec_index_entry(es[0], off)
            + spec_index_block_from(es.drop_first(), off + spec_entry_size(es[0])))
            + spec_index_entry(e, off + spec_data_size(es)));
    }
}

/// The data block is as long as the entry sizes say, and likewise the
/// index block at any starting offset.
pub proof fn lemma_block_lens(es: Seq<(Seq<u8>, Option<Seq<u8>>)>, off: int)
    ensures
        spec_data_block(es).len() == spec_data_size(es),
        spec_index_block_from(es, off).len() == spec_index_size(es),
        es.len() * 16 <= spec_index_size(es),
    decreases es.len(),
{
    vstd::bytes::lemma_auto_spec_u64_to_from_le_bytes();
    if es.len() > 0 {
        lemma_block_lens(es.drop_first(), off + spec_entry_size(es[0]));
        assert((es.len() - 1) * 16 == es.len() * 16 - 16) by (nonlinear_arith);
    }
}

/// Decoding an encoded data block gives back its entries.
pub proof fn lemma_parse_data_block(es: Seq<(Seq<u8>, Option<Seq<u8>>)>)
    requires
        batch_len_ok(es),
    ensures
        spec_parse_data(spec_data_block(es)) == Some(es),
    decreases es.len(),
{
    vstd::bytes::lemma_auto_spec_u64_to_from_le_bytes();
    if es.len() == 0 {
        assert(spec_data_block(es) =~= Seq::<u8>::empty());
        assert(Some(Seq::<(Seq<u8>, Option<Seq<u8>>)>::empty()) == Some(es)) by {
            assert(Seq::<(Seq<u8>, Option<Seq<u8>>)>::empty() =~= es);
        }
    } else {
        let e = es[0];
        let b = spec_data_block(es);
        let kl = e.0.len() as int;
        let rest_block = spec_data_block(es.drop_first());
        lemma_parse_data_block(es.drop_first());
        lemma_block_lens(es, 0);
        lemma_block_lens(es.drop_first(), 0);
        assert(b == spec_encode_entry(e) + rest_block);
        assert(b.subrange(0, 8) =~= spec_u64_to_le_bytes(e.0.len() as u64));
        assert(b.subrange(8, 8 + kl) =~= e.0);
        match e.1 {
            Some(v) => {
                let vl = v.len() as int;
                assert(b.subrange(8 + kl, 16 + kl) =~= spec_u64_to_le_bytes(v.len() as u64));
                assert(b.subrange(16 + kl, 16 + kl + vl) =~= v);
                assert(b.skip(16 + kl + vl) =~= rest_block);
                assert(e == (e.0, Some(v)));
                assert(seq![e] + es.drop_first() =~= es);
            },
            None => {
                assert(b.subrange(8 + kl, 16 + kl) =~= spec_u64_to_le_bytes(u64::MAX));
                assert(b.skip(16 + kl) =~= rest_block);
                assert(e == (e.0, None::<Seq<u8>>));
                assert(seq![e] + es.drop_first() =~= es);
            },
        }
    }
}

/// Round trip: the image written for a batch decodes to that batch.
pub proof fn lemma_table_image_parses(es: Seq<(Seq<u8>, Option<Seq<u8>>)>)
    requires
        batch_len_ok(es),
        es.len() <= u64::MAX,
        spec_data_size(es) + spec_index_size(es) + 48 <= u64::MAX,
    ensures
        spec_parse_table(spec_table_image(es)) == Some(es),
        spec_table_image(es).len() == spec_data_size(es) + spec_index_size(es) + 48,
{
    vstd::bytes::lemma_auto_spec_u64_to_from_le_bytes();
    lemma_block_lens(es, 0);
    let d = spec_data_block(es);
    let ix = spec_index_block(es);
    let dl = d.len() as int;
    let il = ix.len() as int;
    let b = spec_table_image(es);
    let n = b.len() as int;
    let mo = dl + il;
    assert(n == mo + 48);
    crate::encoding::lemma_u64_be_bytes_roundtrip(es.len() as u64);
    crate::encoding::lemma_u64_be_bytes_roundtrip(d.len() as u64);
    crate::encoding::lemma_u64_be_bytes_roundtrip(ix.len() as u64);
    crate::encoding::lemma_u64_be_bytes_roundtrip(MAGIC_NUMBER);
    assert(b.subrange(n - 24, n - 16) =~= spec_u64_to_be_bytes(MAGIC_NUMBER));
    assert(b.subrange(n - 16, n - 8) =~= spec_u64_to_le_bytes(FOOTER_SIZE));
    assert(b.subrange(n - 8, n) =~= spec_u64_to_le_bytes((d.len() + ix.len()) as u64));
    assert(b.subrange(mo, mo + 8) =~= spec_u64_to_be_bytes(es.len() as u64));
    assert(b.subrange(mo + 8, mo + 16) =~= spec_u64_to_be_bytes(d.len() as u64));
    assert(b.subrange(mo + 16, mo + 24) =~= spec_u64_to_be_bytes(ix.len() as u64));
    assert(b.subrange(0, dl) =~= d);
    assert(b.subrange(dl, mo) =~= ix);
    lemma_parse_data_block(es);
}

/// The eight magic bytes, written out. They are pairwise distinct, which
/// makes a shifted footer recognizable.
proof fn lemma_magic_bytes()
    ensures
        spec_u64_to_be_bytes(MAGIC_NUMBER) =~= seq![
            0x12u8,
            0x34u8,
            0x56u8,
            0x78u8,
            0x90u8,
            0xabu8,
            0xcdu8,
            0xefu8,
        ],
{
    assert(((MAGIC_NUMBER >> 56) & 0xff) == 0x12 && ((MAGIC_NUMBER >> 48) & 0xff) == 0x34 && ((
    MAGIC_NUMBER >> 40) & 0xff) == 0x56 && ((MAGIC_NUMBER >> 32) & 0xff) == 0x78 && ((MAGIC_NUMBER
        >> 24) & 0xff) == 0x90 && ((MAGIC_NUMBER >> 16) & 0xff) == 0xab && ((MAGIC_NUMBER >> 8)
        & 0xff) == 0xcd && (MAGIC_NUMBER & 0xff) == 0xef) by (bit_vector);
}

/// Corruption detection: flipping any byte of the footer's magic number
/// leaves an image that no longer parses.
pub proof fn lemma_magic_corruption_detected(b: Seq<u8>, i: int, x: u8)
    requires
        spec_parse_table(b) is Some,
        b.len() - 24 <= i < b.len() - 16,
        x != b[i],
    ensures
        spec_parse_table(b.update(i, x)) is None,
{
    let n = b.len() as int;
    let c = b.update(i, x);
    assert(b.subrange(n - 24, n - 16) == spec_u64_to_be_bytes(MAGIC_NUMBER));
    assert(c.subrange(n - 24, n - 16)[i - (n - 24)] == x);
    assert(b.subrange(n - 24, n - 16)[i - (n - 24)] == b[i]);
    assert(c.subrange(n - 24, n - 16) != spec_u64_to_be_bytes(MAGIC_NUMBER));
}

/// The little-endian bytes of the metadata length, written out.
proof fn lemma_footer_size_le_bytes()
    ensures
        spec_u64_to_le_bytes(FOOTER_SIZE) =~= seq![0x18u8, 0u8, 0u8, 0u8, 0u8, 0u8, 0u8, 0u8],
{
    vstd::bytes::spec_u64_to_le_bytes_to_open(FOOTER_SIZE);
    assert((FOOTER_SIZE & 0xff) == 0x18 && ((FOOTER_SIZE >> 8) & 0xff) == 0 && ((FOOTER_SIZE >> 16)
        & 0xff) == 0 && ((FOOTER_SIZE >> 24) & 0xff) == 0 && ((FOOTER_SIZE >> 32) & 0xff) == 0 && ((
    FOOTER_SIZE >> 40) & 0xff) == 0 && ((FOOTER_SIZE >> 48) & 0xff) == 0 && ((FOOTER_SIZE >> 56)
        & 0xff) == 0) by (bit_vector);
}

/// Corruption detection: truncating an image by one to fifteen bytes
/// cuts into the footer — the magic number is shifted out of place, or
/// the first magic byte lands inside the metadata-length field — and
/// cutting below the metadata and footer leaves too few bytes; either
/// way the image no longer parses. A deeper truncation is detected
/// unless the remaining prefix happens to be a complete well-formed
/// image itself.
pub proof fn lemma_truncation_detected(b: Seq<u8>, t: int)
    requires
        spec_parse_table(b) is Some,
        1 <= t <= b.len(),
        t <= 15 || b.len() - t < 48,
    ensures
        spec_parse_table(b.take(b.len() - t)) is None,
{
    let n = b.len() as int;
    let c = b.take(n - t);
    let n2 = n - t;
    lemma_magic_bytes();
    if n2 >= 48 {
        assert(b.subrange(n - 24, n - 16) == spec_u64_to_be_bytes(MAGIC_NUMBER));
        assert(b[n - 24] == 0x12) by {
            assert(b.subrange(n - 24, n - 16)[0] == b[n - 24]);
        }
        if t <= 7 {
            // The claimed magic window still overlaps the real magic
            // number, whose bytes are pairwise distinct.
            if c.subrange(n2 - 24, n2 - 16) == spec_u64_to_be_bytes(MAGIC_NUMBER) {
                assert(c.subrange(n2 - 24, n2 - 16)[t] == c[n2 - 24 + t]);
                assert(c[n - 24] == b[n - 24]);
                assert(spec_u64_to_be_bytes(MAGIC_NUMBER)[t] == 0x12);
                assert(false);
            }
        } else {
            // The claimed metadata-length field now covers the first
            // magic byte, so it cannot decode to the fixed length.
            let w = c.subrange(n2 - 16, n2 - 8);
            assert(w[t - 8] == c[n2 - 16 + (t - 8)]);
            assert(c[n - 24] == b[n - 24]);
            assert(w[t - 8] == 0x12);
            if spec_u64_from_le_bytes(w) as int == 24 {
                vstd::bytes::lemma_auto_spec_u64_to_from_le_bytes();
                lemma_footer_size_le_bytes();
                assert(spec_u64_from_le_bytes(w) == FOOTER_SIZE);
                assert(w == spec_u64_to_le_bytes(spec_u64_from_le_bytes(w)));
                assert(w[t - 8] == seq![0x18u8, 0u8, 0u8, 0u8, 0u8, 0u8, 0u8, 0u8][t - 8]);
                assert(false);
            }
        }
    }
}


} // verus!
