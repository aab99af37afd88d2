//! The write-ahead log.
//!
//! The log is a sequence of framed records: an eight-byte little-endian
//! length followed by that many payload bytes. A payload is a tag byte —
//! zero for a put, one for a delete — followed by the length-prefixed
//! key and, for a put, the length-prefixed value. Records are appended
//! in program order; replay decodes them front to back and fails on a
//! decode error or a truncated record.
//!
//! The log is modeled as the byte image of its file. The host program
//! appends each returned frame to the file before the corresponding
//! memtable change is made.

use crate::encoding::{push_bytes, push_u64_le, u64_from_le};
use crate::error::Error;
use crate::model::{entry_weight, size_sum};
use vstd::bytes::{spec_u64_from_le_bytes, spec_u64_to_le_bytes};
use vstd::prelude::*;
use vstd::slice::{slice_subrange, slice_to_vec};

verus! {

/// An operation recorded in the write-ahead log.
#[derive(Debug)]
pub enum WalOp {
    /// Install a value for a key.
    Put { key: Vec<u8>, value: Vec<u8> },
    /// Delete a key.
    Delete { key: Vec<u8> },
}

/// The operation as the model sees it: a put is a key with a value, a
/// delete is a key with a tombstone.
pub open spec fn op_view(op: WalOp) -> (Seq<u8>, Option<Seq<u8>>) {
    match op {
        WalOp::Put { key, value } => (key@, Some(value@)),
        WalOp::Delete { key } => (key@, None),
    }
}

/// The views of a sequence of logged operations.
pub open spec fn ops_view(ops: Seq<WalOp>) -> Seq<(Seq<u8>, Option<Seq<u8>>)> {
    ops.map_values(|op: WalOp| op_view(op))
}

/// The payload encoding of one operation.
pub open spec fn spec_encode_op(o: (Seq<u8>, Option<Seq<u8>>)) -> Seq<u8> {
    match o.1 {
        Some(v) => seq![0u8] + spec_u64_to_le_bytes(o.0.len() as u64) + o.0 + spec_u64_to_le_bytes(
            v.len() as u64,
        ) + v,
        None => seq![1u8] + spec_u64_to_le_bytes(o.0.len() as u64) + o.0,
    }
}

/// The framed record for one operation: the payload length, then the
/// payload.
pub open spec fn spec_frame_op(o: (Seq<u8>, Option<Seq<u8>>)) -> Seq<u8> {
    spec_u64_to_le_bytes(spec_encode_op(o).len() as u64) + spec_encode_op(o)
}

/// Decodes one payload. The payload must be consumed exactly.
pub open spec fn spec_decode_op(p: Seq<u8>) -> Option<(Seq<u8>, Option<Seq<u8>>)> {
    if p.len() < 9 {
        None
    } else {
        let tag = p[0];
        let kl = spec_u64_from_le_bytes(p.subrange(1, 9)) as int;
        if tag == 0u8 {
            if p.len() < 17 + kl {
                None
            } else {
                let k = p.subrange(9, 9 + kl);
                let vl = spec_u64_from_le_bytes(p.subrange(9 + kl, 17 + kl)) as int;
                if p.len() == 17 + kl + vl {
                    Some((k, Some(p.subrange(17 + kl, 17 + kl + vl))))
                } else {
                    None
                }
            }
        } else if tag == 1u8 {
            if p.len() == 9 + kl {
                Some((p.subrange(9, 9 + kl), None))
            } else {
                None
            }
        } else {
            None
        }
    }
}

/// Decodes a whole log image into the operations it records, or nothing
/// if any record is malformed or truncated.
pub open spec fn parse_wal(b: Seq<u8>) -> Option<Seq<(Seq<u8>, Option<Seq<u8>>)>>
    decreases b.len(),
{
    if b.len() == 0 {
        Some(Seq::empty())
    } else if b.len() < 8 {
        None
    } else {
        let n = spec_u64_from_le_bytes(b.subrange(0, 8)) as int;
        if b.len() < 8 + n {
            None
        } else {
            match spec_decode_op(b.subrange(8, 8 + n)) {
                None => None,
                Some(o) => match parse_wal(b.skip(8 + n)) {
                    None => None,
                    Some(rest) => Some(seq![o] + rest),
                },
            }
        }
    }
}

/// Decoding an encoded payload gives back the operation.
pub proof fn lemma_decode_encode_op(o: (Seq<u8>, Option<Seq<u8>>))
    requires
        o.0.len() <= u64::MAX,
        o.1 matches Some(v) ==> v.len() <= u64::MAX,
    ensures
        spec_decode_op(spec_encode_op(o)) == Some(o),
        spec_encode_op(o).len() == match o.1 {
            Some(v) => 17 + o.0.len() + v.len(),
            None => 9 + o.0.len(),
        },
{
    vstd::bytes::lemma_auto_spec_u64_to_from_le_bytes();
    let p = spec_encode_op(o);
    let kl = o.0.len() as int;
    match o.1 {
        Some(v) => {
            let vl = v.len() as int;
            assert(p.subrange(1, 9) =~= spec_u64_to_le_bytes(o.0.len() as u64));
            assert(p.subrange(9, 9 + kl) =~= o.0);
            assert(p.subrange(9 + kl, 17 + kl) =~= spec_u64_to_le_bytes(v.len() as u64));
            assert(p.subrange(17 + kl, 17 + kl + vl) =~= v);
            assert(spec_decode_op(p) == Some((o.0, Some(v))));
            assert((o.0, Some(v)) == o);
        },
        None => {
            assert(p.subrange(1, 9) =~= spec_u64_to_le_bytes(o.0.len() as u64));
            assert(p.subrange(9, 9 + kl) =~= o.0);
            assert(spec_decode_op(p) == Some((o.0, None::<Seq<u8>>)));
            assert((o.0, None::<Seq<u8>>) == o);
        },
    }
}

/// Appending a framed record to a well-formed log appends the operation
/// to what the log decodes to.
pub proof fn lemma_parse_wal_append(b: Seq<u8>, ops: Seq<(Seq<u8>, Option<Seq<u8>>)>, o: (
    Seq<u8>,
    Option<Seq<u8>>,
))
    requires
        parse_wal(b) == Some(ops),
        o.0.len() <= u64::MAX,
        o.1 matches Some(v) ==> v.len() <= u64::MAX,
        spec_encode_op(o).len() <= u64::MAX,
    ensures
        parse_wal(b + spec_frame_op(o)) == Some(ops.push(o)),
    decreases b.len(),
{
    vstd::bytes::lemma_auto_spec_u64_to_from_le_bytes();
    lemma_decode_encode_op(o);
    let f = spec_frame_op(o);
    let t = b + f;
    let m = spec_encode_op(o).len() as int;
    if b.len() == 0 {
        assert(t =~= f);
        assert(t.subrange(0, 8) =~= spec_u64_to_le_bytes(spec_encode_op(o).len() as u64));
        assert(t.subrange(8, 8 + m) =~= spec_encode_op(o));
        assert(t.skip(8 + m) =~= Seq::<u8>::empty());
        assert(parse_wal(t.skip(8 + m)) == Some(Seq::<(Seq<u8>, Option<Seq<u8>>)>::empty()));
        assert(parse_wal(t) == Some(seq![o] + Seq::<(Seq<u8>, Option<Seq<u8>>)>::empty()));
        assert(seq![o] + Seq::<(Seq<u8>, Option<Seq<u8>>)>::empty() =~= ops.push(o));
    } else {
        assert(b.len() >= 8);
        let n = spec_u64_from_le_bytes(b.subrange(0, 8)) as int;
        assert(b.len() >= 8 + n);
        let o0 = spec_decode_op(b.subrange(8, 8 + n)).unwrap();
        let rest = parse_wal(b.skip(8 + n)).unwrap();
        assert(ops == seq![o0] + rest);
        assert(t.len() >= 8 + n);
        assert(t.subrange(0, 8) =~= b.subrange(0, 8));
        assert(t.subrange(8, 8 + n) =~= b.subrange(8, 8 + n));
        assert(t.skip(8 + n) =~= b.skip(8 + n) + f);
        lemma_parse_wal_append(b.skip(8 + n), rest, o);
        assert(parse_wal(t) == Some(seq![o0] + rest.push(o)));
        assert(seq![o0] + rest.push(o) =~= (seq![o0] + rest).push(o));
    }
}

/// What a log decodes to weighs no more than the log itself: each
/// record's framing and headers outweigh the accounting cost of its
/// operation.
pub proof fn lemma_parse_wal_weight(b: Seq<u8>)
    requires
        parse_wal(b) is Some,
    ensures
        size_sum(parse_wal(b).unwrap()) <= b.len(),
    decreases b.len(),
{
    if b.len() == 0 {
    } else {
        let n = spec_u64_from_le_bytes(b.subrange(0, 8)) as int;
        let p = b.subrange(8, 8 + n);
        let o = spec_decode_op(p).unwrap();
        let rest = b.skip(8 + n);
        lemma_parse_wal_weight(rest);
        assert(entry_weight(o) <= n) by {
            lemma_decode_op_weight(p);
        }
        let ops = parse_wal(b).unwrap();
        assert(ops == seq![o] + parse_wal(rest).unwrap());
        assert(ops.drop_first() =~= parse_wal(rest).unwrap());
        assert(ops[0] == o);
    }
}

/// A decoded operation weighs less than its payload.
proof fn lemma_decode_op_weight(p: Seq<u8>)
    requires
        spec_decode_op(p) is Some,
    ensures
        entry_weight(spec_decode_op(p).unwrap()) < p.len(),
{
    let o = spec_decode_op(p).unwrap();
    let kl = spec_u64_from_le_bytes(p.subrange(1, 9)) as int;
    if p[0] == 0u8 {
        assert(o.0.len() == kl);
    } else {
        assert(o.0.len() == kl);
    }
}

/// The framed record for one operation, as it stands in the log file.
pub fn frame_record(op: &WalOp) -> (r: Vec<u8>)
    ensures
        r@ == spec_frame_op(op_view(*op)),
        op_view(*op).0.len() <= u64::MAX,
        op_view(*op).1 matches Some(v) ==> v.len() <= u64::MAX,
        spec_encode_op(op_view(*op)).len() <= u64::MAX,
{
    let ghost o = op_view(*op);
    let mut payload: Vec<u8> = Vec::new();
    match op {
        WalOp::Put { key, value } => {
            payload.push(0u8);
            push_u64_le(&mut payload, key.len() as u64);
            push_bytes(&mut payload, key.as_slice());
            push_u64_le(&mut payload, value.len() as u64);
            push_bytes(&mut payload, value.as_slice());
            proof {
                assert(payload@ =~= spec_encode_op(o));
            }
        },
        WalOp::Delete { key } => {
            payload.push(1u8);
            push_u64_le(&mut payload, key.len() as u64);
            push_bytes(&mut payload, key.as_slice());
            proof {
                assert(payload@ =~= spec_encode_op(o));
            }
        },
    }
    let plen = payload.len();
    let mut r: Vec<u8> = Vec::new();
    push_u64_le(&mut r, plen as u64);
    push_bytes(&mut r, payload.as_slice());
    proof {
        assert(r@ =~= spec_frame_op(o));
        assert(spec_encode_op(o).len() == plen);
    }
    r
}

/// An append-only log of framed operation records, modeled as the byte
/// image of its file.
pub struct WriteAheadLog {
    bytes: Vec<u8>,
}

impl View for WriteAheadLog {
    type V = Seq<u8>;

    closed spec fn view(&self) -> Seq<u8> {
        self.bytes@
    }
}

impl WriteAheadLog {
    /// The byte image decodes cleanly into a sequence of operations.
    pub open spec fn wf(&self) -> bool {
        parse_wal(self@) is Some
    }

    /// The operations the log records, oldest first.
    pub open spec fn ops(&self) -> Seq<(Seq<u8>, Option<Seq<u8>>)> {
        parse_wal(self@).unwrap()
    }

    /// Creates a new, empty log.
    pub fn new() -> (r: WriteAheadLog)
        ensures
            r.wf(),
            r@ == Seq::<u8>::empty(),
            r.ops() == Seq::<(Seq<u8>, Option<Seq<u8>>)>::empty(),
    {
        let r = WriteAheadLog { bytes: Vec::new() };
        proof {
            assert(r@ =~= Seq::<u8>::empty());
        }
        r
    }

    /// Adopts an existing log image that is known to decode cleanly.
    pub(crate) fn from_bytes(bytes: Vec<u8>) -> (r: WriteAheadLog)
        requires
            parse_wal(bytes@) is Some,
        ensures
            r.wf(),
            r@ == bytes@,
    {
        WriteAheadLog { bytes }
    }

    /// Appends an operation to the log and returns the framed record the
    /// host program must append to the log file before the change is
    /// acknowledged.
    pub fn append(&mut self, op: &WalOp) -> (delta: Vec<u8>)
        requires
            old(self).wf(),
        ensures
            final(self).wf(),
            delta@ == spec_frame_op(op_view(*op)),
            final(self)@ == old(self)@ + delta@,
            final(self).ops() == old(self).ops().push(op_view(*op)),
    {
        let ghost o = op_view(*op);
        let delta = frame_record(op);
        push_bytes(&mut self.bytes, delta.as_slice());
        proof {
            lemma_parse_wal_append(old(self)@, old(self).ops(), o);
        }
        delta
    }

    /// The byte image of the log file.
    pub fn as_bytes(&self) -> (r: &Vec<u8>)
        ensures
            r@ == self@,
    {
        &self.bytes
    }

    /// Empties the log. The host program truncates the log file to match.
    pub fn clear(&mut self)
        ensures
            final(self).wf(),
            final(self)@ == Seq::<u8>::empty(),
            final(self).ops() == Seq::<(Seq<u8>, Option<Seq<u8>>)>::empty(),
    {
        self.bytes.clear();
        proof {
            assert(self@ =~= Seq::<u8>::empty());
        }
    }

    /// Flushes nothing: the model holds no buffer. The host program
    /// flushes its file writer when this is called on the store.
    pub fn flush(&mut self)
        ensures
            *final(self) == *old(self),
    {
    }

    /// Decodes a log image into the operations it records, oldest first.
    ///
    /// Fails with a deserialization error when a record is malformed or
    /// the final record is truncated.
    pub fn replay(bytes: &[u8]) -> (r: Result<Vec<WalOp>, Error>)
        ensures
            match r {
                Ok(ops) => parse_wal(bytes@) == Some(ops_view(ops@)),
                Err(e) => parse_wal(bytes@) is None && e matches Error::Deserialization(_),
            },
    {
        let n = bytes.len();
        let mut pos: usize = 0;
        let mut ops: Vec<WalOp> = Vec::new();
        proof {
            assert(bytes@.skip(0) =~= bytes@);
            assert(ops_view(ops@) =~= Seq::<(Seq<u8>, Option<Seq<u8>>)>::empty());
        }
        while pos < n
            invariant
                0 <= pos <= n,
                n == bytes@.len(),
                match parse_wal(bytes@.skip(pos as int)) {
                    Some(rest) => parse_wal(bytes@) == Some(ops_view(ops@) + rest),
                    None => parse_wal(bytes@) is None,
                },
            decreases n - pos,
        {
            let ghost tail = bytes@.skip(pos as int);
            if n - pos < 8 {
                return Err(Error::Deserialization("truncated record length".to_string()));
            }
            let len = u64_from_le(slice_subrange(bytes, pos, pos + 8));
            proof {
                assert(bytes@.subrange(pos as int, pos + 8) =~= tail.subrange(0, 8));
            }
            if len > (n - pos - 8) as u64 {
                return Err(Error::Deserialization("truncated record payload".to_string()));
            }
            let plen = len as usize;
            let ghost pl = plen as int;
            let payload = slice_subrange(bytes, pos + 8, pos + 8 + plen);
            proof {
                assert(payload@ =~= tail.subrange(8, 8 + pl));
            }
            let op = match Self::decode_payload(payload) {
                Some(op) => op,
                None => {
                    return Err(Error::Deserialization("malformed record".to_string()));
                },
            };
            proof {
                assert(parse_wal(tail) == match parse_wal(tail.skip(8 + pl)) {
                    None => None::<Seq<(Seq<u8>, Option<Seq<u8>>)>>,
                    Some(rest) => Some(seq![op_view(op)] + rest),
                });
            }
            ops.push(op);
            proof {
                assert(bytes@.skip(pos + 8 + pl) =~= tail.skip(8 + pl));
                assert(ops_view(ops@) =~= ops_view(ops@.drop_last()).push(op_view(op)));
                if parse_wal(tail.skip(8 + pl)) is Some {
                    let rest2 = parse_wal(tail.skip(8 + pl)).unwrap();
                    assert(ops_view(ops@.drop_last()) + (seq![op_view(op)] + rest2) =~= ops_view(
                        ops@,
                    ) + rest2);
                }
            }
            pos = pos + 8 + plen;
        }
        proof {
            assert(bytes@.skip(n as int) =~= Seq::<u8>::empty());
            assert(ops_view(ops@) + Seq::<(Seq<u8>, Option<Seq<u8>>)>::empty() =~= ops_view(ops@));
        }
        Ok(ops)
    }

    /// Decodes one record payload, or nothing if it is malformed.
    fn decode_payload(p: &[u8]) -> (r: Option<WalOp>)
        ensures
            match r {
                Some(op) => spec_decode_op(p@) == Some(op_view(op)),
                None => spec_decode_op(p@) is None,
            },
    {
        let n = p.len();
        if n < 9 {
            return None;
        }
        let tag = p[0];
        let klsl = slice_subrange(p, 1, 9);
        let kl64 = u64_from_le(klsl);
        proof {
            assert(p@.subrange(1, 9) =~= klsl@);
        }
        if tag == 0u8 {
            if n < 17 {
                return None;
            }
            if kl64 > (n - 17) as u64 {
                return None;
            }
            let kl = kl64 as usize;
            let key = slice_to_vec(slice_subrange(p, 9, 9 + kl));
            let vsl = slice_subrange(p, 9 + kl, 17 + kl);
            let vl64 = u64_from_le(vsl);
            proof {
                assert(key@ =~= p@.subrange(9, 9 + kl as int));
                assert(p@.subrange(9 + kl as int, 17 + kl as int) =~= vsl@);
            }
            if vl64 != (n - 17 - kl) as u64 {
                return None;
            }
            let vl = vl64 as usize;
            let value = slice_to_vec(slice_subrange(p, 17 + kl, 17 + kl + vl));
            proof {
                assert(value@ =~= p@.subrange(17 + kl as int, 17 + kl as int + vl as int));
            }
            Some(WalOp::Put { key, value })
        } else if tag == 1u8 {
            if kl64 != (n - 9) as u64 {
                return None;
            }
            let kl = kl64 as usize;
            let key = slice_to_vec(slice_subrange(p, 9, 9 + kl));
            proof {
                assert(key@ =~= p@.subrange(9, 9 + kl as int));
            }
            Some(WalOp::Delete { key })
        } else {
            None
        }
    }
}

} // verus!
