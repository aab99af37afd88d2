//! Immutable sorted tables.
//!
//! A table is produced once from an ascending batch of entries and never
//! modified. It is modeled as the byte image of its file together with
//! the entries that image encodes; `write_batch` builds the image and
//! `open` validates one read back from disk. A lookup answers with the
//! value, with the fact that the key was deleted, or with the fact that
//! the table does not know the key — the caller needs the distinction to
//! stop at the newest authoritative layer.

use crate::encoding::{bytes_eq, push_bytes, push_u64_be, push_u64_le, u64_from_be, u64_from_le};
use crate::error::Error;
use crate::model::assoc;
use crate::sst_format::{
    batch_len_ok, lemma_data_block_push, lemma_index_block_push, lemma_block_lens,
    lemma_table_image_parses, spec_data_block, spec_data_size, spec_index_block,
    spec_index_block_from, spec_parse_data, spec_parse_table, spec_table_image, FOOTER_SIZE,
    MAGIC_NUMBER,
};
use crate::model::strict_sorted;
use vstd::prelude::*;
use vstd::slice::{slice_subrange, slice_to_vec};

verus! {

/// The outcome of a point lookup in one table.
#[derive(Debug, PartialEq)]
pub enum LookupResult {
    /// The key is present with this value.
    Found(Vec<u8>),
    /// The key is present as a tombstone: it was deleted at this layer.
    Deleted,
    /// The table does not mention the key.
    NotFound,
}

/// The entries of a batch as the model sees them.
pub open spec fn batch_view(s: Seq<(Vec<u8>, Option<Vec<u8>>)>) -> Seq<(Seq<u8>, Option<Seq<u8>>)> {
    s.map_values(
        |e: (Vec<u8>, Option<Vec<u8>>)|
            (
                e.0@,
                match e.1 {
                    Some(v) => Some(v@),
                    None => None,
                },
            ),
    )
}

/// An immutable sorted table: the byte image of its file and the entries
/// that image encodes.
pub struct SSTable {
    bytes: Vec<u8>,
    entries: Vec<(Vec<u8>, Option<Vec<u8>>)>,
}

impl View for SSTable {
    type V = Seq<(Seq<u8>, Option<Seq<u8>>)>;

    closed spec fn view(&self) -> Seq<(Seq<u8>, Option<Seq<u8>>)> {
        batch_view(self.entries@)
    }
}

impl SSTable {
    /// The byte image of the table file.
    pub closed spec fn image(&self) -> Seq<u8> {
        self.bytes@
    }

    /// Either nothing has been written yet, or the image decodes exactly
    /// to the held entries.
    pub closed spec fn wf(&self) -> bool {
        (self.bytes@.len() == 0 && self@.len() == 0) || spec_parse_table(self.bytes@) == Some(
            self@,
        )
    }

    /// Creates a new, empty table. The host program creates the file,
    /// refusing a path that already exists.
    pub fn create() -> (r: SSTable)
        ensures
            r.wf(),
            r@ == Seq::<(Seq<u8>, Option<Seq<u8>>)>::empty(),
            r.image() == Seq::<u8>::empty(),
    {
        let r = SSTable { bytes: Vec::new(), entries: Vec::new() };
        proof {
            assert(r@ =~= Seq::<(Seq<u8>, Option<Seq<u8>>)>::empty());
            assert(r.image() =~= Seq::<u8>::empty());
        }
        r
    }

    /// The byte image to be written to the table file.
    pub fn as_bytes(&self) -> (r: &Vec<u8>)
        ensures
            r@ == self.image(),
    {
        &self.bytes
    }

    /// Replaces the table's content with a batch of entries, building the
    /// complete file image: data block, index block, metadata and footer.
    ///
    /// The caller supplies the entries in ascending key order without
    /// duplicates; the table neither re-sorts nor de-duplicates. A value
    /// as long as the tombstone marker cannot be encoded.
    pub fn write_batch(&mut self, entries: &[(Vec<u8>, Option<Vec<u8>>)]) -> (r: Result<(), Error>)
        requires
            strict_sorted(batch_view(entries@)),
            batch_len_ok(batch_view(entries@)),
        ensures
            r is Ok,
            final(self)@ == batch_view(entries@),
            final(self).image() == spec_table_image(batch_view(entries@)),
            spec_parse_table(final(self).image()) == Some(batch_view(entries@)),
            final(self).wf(),
    {
        let ghost bv = batch_view(entries@);
        let n = entries.len();
        let mut out: Vec<u8> = Vec::new();
        let mut offsets: Vec<usize> = Vec::new();
        let mut i: usize = 0;
        proof {
            assert(bv.take(0) =~= Seq::<(Seq<u8>, Option<Seq<u8>>)>::empty());
        }
        while i < n
            invariant
                0 <= i <= n,
                n == entries@.len(),
                bv == batch_view(entries@),
                bv.len() == n,
                out@ == spec_data_block(bv.take(i as int)),
                out@.len() == spec_data_size(bv.take(i as int)),
                offsets@.len() == i,
                forall|j: int| 0 <= j < i ==> offsets@[j] == spec_data_size(bv.take(j)),
            decreases n - i,
        {
            let ghost prefix = bv.take(i as int);
            let ghost e = bv[i as int];
            proof {
                assert(e == (entries@[i as int].0@, match entries@[i as int].1 {
                    Some(v) => Some(v@),
                    None => None::<Seq<u8>>,
                }));
            }
            offsets.push(out.len());
            push_u64_le(&mut out, entries[i].0.len() as u64);
            push_bytes(&mut out, entries[i].0.as_slice());
            match &entries[i].1 {
                Some(v) => {
                    push_u64_le(&mut out, v.len() as u64);
                    push_bytes(&mut out, v.as_slice());
                },
                None => {
                    push_u64_le(&mut out, u64::MAX);
                },
            }
            proof {
                lemma_data_block_push(prefix, e);
                assert(bv.take(i + 1) =~= prefix.push(e));
                assert(out@ =~= spec_data_block(prefix) + crate::sst_format::spec_encode_entry(e));
                lemma_block_lens(bv.take(i + 1), 0);
            }
            i = i + 1;
        }
        proof {
            assert(bv.take(n as int) =~= bv);
            lemma_block_lens(bv, 0);
        }
        let ds = out.len();
        let mut j: usize = 0;
        proof {
            assert(bv.take(0) =~= Seq::<(Seq<u8>, Option<Seq<u8>>)>::empty());
            assert(out@ =~= spec_data_block(bv) + spec_index_block_from(bv.take(0), 0));
        }
        while j < n
            invariant
                0 <= j <= n,
                n == entries@.len(),
                bv == batch_view(entries@),
                bv.len() == n,
                ds == spec_data_size(bv),
                offsets@.len() == n,
                forall|jj: int| 0 <= jj < n ==> offsets@[jj] == spec_data_size(bv.take(jj)),
                out@ == spec_data_block(bv) + spec_index_block_from(bv.take(j as int), 0),
            decreases n - j,
        {
            let ghost prefix = bv.take(j as int);
            let ghost e = bv[j as int];
            proof {
                assert(e == (entries@[j as int].0@, match entries@[j as int].1 {
                    Some(v) => Some(v@),
                    None => None::<Seq<u8>>,
                }));
            }
            push_u64_le(&mut out, entries[j].0.len() as u64);
            push_bytes(&mut out, entries[j].0.as_slice());
            push_u64_le(&mut out, offsets[j] as u64);
            proof {
                lemma_index_block_push(prefix, e, 0);
                assert(bv.take(j + 1) =~= prefix.push(e));
                assert(out@ =~= spec_data_block(bv) + (spec_index_block_from(prefix, 0)
                    + crate::sst_format::spec_index_entry(e, spec_data_size(prefix) as int)));
                assert(spec_index_block_from(prefix, 0) + crate::sst_format::spec_index_entry(
                    e,
                    spec_data_size(prefix) as int,
                ) =~= spec_index_block_from(bv.take(j + 1), 0));
            }
            j = j + 1;
        }
        proof {
            assert(bv.take(n as int) =~= bv);
            lemma_block_lens(bv, 0);
        }
        let mo = out.len();
        push_u64_be(&mut out, n as u64);
        push_u64_be(&mut out, ds as u64);
        push_u64_be(&mut out, (mo - ds) as u64);
        push_u64_be(&mut out, MAGIC_NUMBER);
        push_u64_le(&mut out, FOOTER_SIZE);
        push_u64_le(&mut out, mo as u64);
        let total = out.len();
        proof {
            assert(out@ =~= spec_table_image(bv));
            assert(total == spec_data_size(bv) + crate::sst_format::spec_index_size(bv) + 48) by {
                vstd::bytes::lemma_auto_spec_u64_to_from_le_bytes();
                lemma_block_lens(bv, 0);
            }
            lemma_table_image_parses(bv);
        }
        let mut copy: Vec<(Vec<u8>, Option<Vec<u8>>)> = Vec::new();
        let mut i: usize = 0;
        proof {
            assert(batch_view(copy@) =~= bv.take(0));
        }
        while i < n
            invariant
                0 <= i <= n,
                n == entries@.len(),
                bv == batch_view(entries@),
                bv.len() == n,
                copy@.len() == i,
                batch_view(copy@) == bv.take(i as int),
            decreases n - i,
        {
            let k = slice_to_vec(entries[i].0.as_slice());
            let v = match &entries[i].1 {
                Some(v) => Some(slice_to_vec(v.as_slice())),
                None => None,
            };
            copy.push((k, v));
            proof {
                assert(batch_view(copy@) =~= bv.take(i + 1));
            }
            i = i + 1;
        }
        proof {
            assert(bv.take(n as int) =~= bv);
        }
        self.bytes = out;
        self.entries = copy;
        Ok(())
    }

    /// Validates a table image read from disk and takes it as this
    /// table's content.
    ///
    /// Fails when the image is shorter than the metadata and footer, when
    /// the magic number, metadata length or metadata offset is wrong,
    /// when the block sizes do not tile the image, or when the data or
    /// index block is inconsistent with the entries.
    #[verifier::rlimit(100)]
    pub fn open(bytes: Vec<u8>) -> (r: Result<SSTable, Error>)
        ensures
            match r {
                Ok(t) => spec_parse_table(bytes@) == Some(t@) && t.image() == bytes@ && t.wf(),
                Err(e) => spec_parse_table(bytes@) is None && e matches Error::Custom(_),
            },
    {
        let n = bytes.len();
        if n < 48 {
            return Err(Error::custom("table image too small".to_string()));
        }
        let mut magic: Vec<u8> = Vec::new();
        push_u64_be(&mut magic, MAGIC_NUMBER);
        proof {
            assert(magic@ =~= crate::encoding::spec_u64_to_be_bytes(MAGIC_NUMBER));
        }
        let magic_ok = bytes_eq(slice_subrange(bytes.as_slice(), n - 24, n - 16), magic.as_slice());
        if !magic_ok {
            return Err(Error::custom("bad table magic number".to_string()));
        }
        let ml = u64_from_le(slice_subrange(bytes.as_slice(), n - 16, n - 8));
        if ml != FOOTER_SIZE {
            return Err(Error::custom("bad metadata length".to_string()));
        }
        let mo64 = u64_from_le(slice_subrange(bytes.as_slice(), n - 8, n));
        if mo64 != (n - 48) as u64 {
            return Err(Error::custom("bad metadata offset".to_string()));
        }
        let mo = n - 48;
        let num64 = u64_from_be(slice_subrange(bytes.as_slice(), mo, mo + 8));
        let ds64 = u64_from_be(slice_subrange(bytes.as_slice(), mo + 8, mo + 16));
        let is64 = u64_from_be(slice_subrange(bytes.as_slice(), mo + 16, mo + 24));
        if ds64 > mo as u64 {
            return Err(Error::custom("bad block sizes".to_string()));
        }
        let ds = ds64 as usize;
        if is64 != (mo - ds) as u64 {
            return Err(Error::custom("bad block sizes".to_string()));
        }
        let ghost dseq = bytes@.subrange(0, ds as int);
        proof {
            assert(spec_parse_table(bytes@) == (match spec_parse_data(dseq) {
                None => None::<Seq<(Seq<u8>, Option<Seq<u8>>)>>,
                Some(es) => if es.len() == num64 as int && bytes@.subrange(ds as int, mo as int)
                    == spec_index_block(es) {
                    Some(es)
                } else {
                    None
                },
            }));
        }
        let mut entries: Vec<(Vec<u8>, Option<Vec<u8>>)> = Vec::new();
        let mut exp_ix: Vec<u8> = Vec::new();
        let mut pos: usize = 0;
        proof {
            assert(batch_view(entries@) =~= Seq::<(Seq<u8>, Option<Seq<u8>>)>::empty());
            assert(dseq.skip(0) =~= dseq);
            assert(exp_ix@ =~= spec_index_block_from(batch_view(entries@), 0));
        }
        while pos < ds
            invariant
                0 <= pos <= ds,
                ds <= mo == n - 48,
                n == bytes@.len(),
                dseq == bytes@.subrange(0, ds as int),
                pos == spec_data_size(batch_view(entries@)),
                entries@.len() <= pos,
                exp_ix@ == spec_index_block_from(batch_view(entries@), 0),
                spec_parse_table(bytes@) == (match spec_parse_data(dseq) {
                    None => None::<Seq<(Seq<u8>, Option<Seq<u8>>)>>,
                    Some(es) => if es.len() == num64 as int && bytes@.subrange(ds as int, mo as int)
                        == spec_index_block(es) {
                        Some(es)
                    } else {
                        None
                    },
                }),
                match spec_parse_data(dseq.skip(pos as int)) {
                    Some(rest) => spec_parse_data(dseq) == Some(batch_view(entries@) + rest),
                    None => spec_parse_data(dseq) is None,
                },
            decreases ds - pos,
        {
            let ghost tail = dseq.skip(pos as int);
            let ghost acc = batch_view(entries@);
            proof {
                assert(tail.len() == ds - pos);
            }
            if ds - pos < 16 {
                return Err(Error::custom("truncated data entry".to_string()));
            }
            let kl64 = u64_from_le(slice_subrange(bytes.as_slice(), pos, pos + 8));
            proof {
                assert(bytes@.subrange(pos as int, pos + 8) =~= tail.subrange(0, 8));
            }
            if kl64 > (ds - pos - 16) as u64 {
                return Err(Error::custom("truncated data entry key".to_string()));
            }
            let kl = kl64 as usize;
            let key = slice_to_vec(slice_subrange(bytes.as_slice(), pos + 8, pos + 8 + kl));
            proof {
                assert(key@ =~= tail.subrange(8, 8 + kl as int));
            }
            let vl64 = u64_from_le(
                slice_subrange(bytes.as_slice(), pos + 8 + kl, pos + 16 + kl),
            );
            proof {
                assert(bytes@.subrange(pos + 8 + kl as int, pos + 16 + kl as int) =~= tail.subrange(
                    8 + kl as int,
                    16 + kl as int,
                ));
            }
            if vl64 == u64::MAX {
                let ghost e = (key@, None::<Seq<u8>>);
                push_u64_le(&mut exp_ix, kl64);
                push_bytes(&mut exp_ix, key.as_slice());
                push_u64_le(&mut exp_ix, pos as u64);
                entries.push((key, None));
                proof {
                    assert(batch_view(entries@) =~= acc.push(e));
                    lemma_data_block_push(acc, e);
                    lemma_index_block_push(acc, e, 0);
                    assert(exp_ix@ =~= spec_index_block_from(acc.push(e), 0));
                    lemma_block_lens(acc.push(e), 0);
                    assert(dseq.skip(pos + 16 + kl as int) =~= tail.skip(16 + kl as int));
                    assert(spec_parse_data(tail) == (match spec_parse_data(tail.skip(
                        16 + kl as int,
                    )) {
                        None => None::<Seq<(Seq<u8>, Option<Seq<u8>>)>>,
                        Some(rest) => Some(seq![e] + rest),
                    }));
                    if spec_parse_data(tail.skip(16 + kl as int)) is Some {
                        let rest2 = spec_parse_data(tail.skip(16 + kl as int)).unwrap();
                        assert(acc + (seq![e] + rest2) =~= acc.push(e) + rest2);
                    }
                }
                pos = pos + 16 + kl;
            } else {
                if vl64 > (ds - pos - 16 - kl) as u64 {
                    return Err(Error::custom("truncated data entry value".to_string()));
                }
                let vl = vl64 as usize;
                let value = slice_to_vec(
                    slice_subrange(bytes.as_slice(), pos + 16 + kl, pos + 16 + kl + vl),
                );
                proof {
                    assert(value@ =~= tail.subrange(16 + kl as int, 16 + kl as int + vl as int));
                }
                let ghost e = (key@, Some(value@));
                push_u64_le(&mut exp_ix, kl64);
                push_bytes(&mut exp_ix, key.as_slice());
                push_u64_le(&mut exp_ix, pos as u64);
                entries.push((key, Some(value)));
                proof {
                    assert(batch_view(entries@) =~= acc.push(e));
                    lemma_data_block_push(acc, e);
                    lemma_index_block_push(acc, e, 0);
                    assert(exp_ix@ =~= spec_index_block_from(acc.push(e), 0));
                    lemma_block_lens(acc.push(e), 0);
                    assert(dseq.skip(pos + 16 + kl as int + vl as int) =~= tail.skip(
                        16 + kl as int + vl as int,
                    ));
                    assert(spec_parse_data(tail) == (match spec_parse_data(tail.skip(
                        16 + kl as int + vl as int,
                    )) {
                        None => None::<Seq<(Seq<u8>, Option<Seq<u8>>)>>,
                        Some(rest) => Some(seq![e] + rest),
                    }));
                    if spec_parse_data(tail.skip(16 + kl as int + vl as int)) is Some {
                        let rest2 = spec_parse_data(tail.skip(16 + kl as int + vl as int)).unwrap();
                        assert(acc + (seq![e] + rest2) =~= acc.push(e) + rest2);
                    }
                }
                pos = pos + 16 + kl + vl;
            }
        }
        proof {
            assert(dseq.skip(pos as int) =~= Seq::<u8>::empty());
            assert(spec_parse_data(dseq) == Some(batch_view(entries@) + Seq::<(
                Seq<u8>,
                Option<Seq<u8>>,
            )>::empty()));
            assert(batch_view(entries@) + Seq::<(Seq<u8>, Option<Seq<u8>>)>::empty() =~= batch_view(
                entries@,
            ));
        }
        if num64 != entries.len() as u64 {
            return Err(Error::custom("entry count mismatch".to_string()));
        }
        let ix_ok = bytes_eq(slice_subrange(bytes.as_slice(), ds, mo), exp_ix.as_slice());
        if !ix_ok {
            return Err(Error::custom("index block mismatch".to_string()));
        }
        proof {
            assert(bytes@.subrange(ds as int, mo as int) == spec_index_block(
                batch_view(entries@),
            ));
        }
        let t = SSTable { bytes, entries };
        Ok(t)
    }

    /// Looks up a key, distinguishing a stored value, a tombstone, and an
    /// unknown key.
    pub fn lookup(&self, key: &[u8]) -> (r: LookupResult)
        ensures
            match assoc(self@, key@) {
                Some(Some(v)) => r matches LookupResult::Found(w) && w@ == v,
                Some(None) => r is Deleted,
                None => r is NotFound,
            },
    {
        let n = self.entries.len();
        let mut i: usize = 0;
        proof {
            assert(self@.len() == self.entries@.len());
        }
        while i < n
            invariant
                0 <= i <= n,
                n == self.entries@.len(),
                n == self@.len(),
                forall|j: int| 0 <= j < i ==> (#[trigger] self@[j]).0 != key@,
            decreases n - i,
        {
            proof {
                assert(self@[i as int].0 == self.entries@[i as int].0@);
            }
            if bytes_eq(self.entries[i].0.as_slice(), key) {
                proof {
                    crate::model::lemma_assoc_at(self@, i as int, key@);
                }
                match &self.entries[i].1 {
                    Some(v) => {
                        proof {
                            assert(self@[i as int].1 == Some(v@));
                        }
                        return LookupResult::Found(slice_to_vec(v.as_slice()));
                    },
                    None => {
                        proof {
                            assert(self@[i as int].1 is None);
                        }
                        return LookupResult::Deleted;
                    },
                }
            }
            i = i + 1;
        }
        proof {
            crate::model::lemma_assoc_none(self@, key@);
        }
        LookupResult::NotFound
    }

    /// Looks up a key, collapsing a tombstone and an unknown key into
    /// `None`; the store distinguishes them through `lookup`.
    pub fn get(&self, key: &[u8]) -> (r: Result<Option<Vec<u8>>, Error>)
        ensures
            r matches Ok(o) && (match assoc(self@, key@) {
                Some(Some(v)) => o matches Some(w) && w@ == v,
                _ => o is None,
            }),
    {
        match self.lookup(key) {
            LookupResult::Found(v) => Ok(Some(v)),
            LookupResult::Deleted => Ok(None),
            LookupResult::NotFound => Ok(None),
        }
    }
}

} // verus!
