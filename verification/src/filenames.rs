//! Table file naming.
//!
//! A sealed table is stored under its id, zero-padded to twenty decimal
//! digits, with the extension `.sst`. When a directory is scanned, a
//! file whose name has that extension and whose stem is a decimal number
//! that fits an id is recognized; every other file is ignored.

use vstd::prelude::*;

verus! {

/// The decimal digits of `v`, most significant first, zero-padded to
/// `n` digits. Digits beyond the `n`th are cut off.
pub open spec fn spec_digits(v: nat, n: nat) -> Seq<u8>
    decreases n,
{
    if n == 0 {
        Seq::empty()
    } else {
        spec_digits(v / 10, (n - 1) as nat).push((0x30 + v % 10) as u8)
    }
}

/// The bytes `.sst`.
pub open spec fn spec_sst_suffix() -> Seq<u8> {
    seq![0x2eu8, 0x73u8, 0x73u8, 0x74u8]
}

/// The file name for a table id: twenty digits and the extension.
pub open spec fn spec_sst_filename(id: u64) -> Seq<u8> {
    spec_digits(id as nat, 20) + spec_sst_suffix()
}

/// Every byte is a decimal digit.
pub open spec fn all_digits(s: Seq<u8>) -> bool {
    forall|i: int| 0 <= i < s.len() ==> 0x30 <= #[trigger] s[i] <= 0x39
}

/// The number the digits spell, most significant first.
pub open spec fn spec_digits_value(s: Seq<u8>) -> int
    decreases s.len(),
{
    if s.len() == 0 {
        0
    } else {
        spec_digits_value(s.drop_last()) * 10 + (s.last() - 0x30)
    }
}

/// The id a file name denotes: the name must end in the extension and
/// its stem must be a nonempty string of digits whose value fits an id.
pub open spec fn spec_sst_id(name: Seq<u8>) -> Option<u64> {
    let n = name.len() as int;
    if n >= 5 && name.subrange(n - 4, n) == spec_sst_suffix() && all_digits(
        name.subrange(0, n - 4),
    ) && spec_digits_value(name.subrange(0, n - 4)) <= u64::MAX {
        Some(spec_digits_value(name.subrange(0, n - 4)) as u64)
    } else {
        None
    }
}

/// Appends the `n` zero-padded decimal digits of `v`.
fn push_digits(out: &mut Vec<u8>, v: u64, n: u64)
    ensures
        final(out)@ == old(out)@ + spec_digits(v as nat, n as nat),
    decreases n,
{
    if n == 0 {
        proof {
            assert(old(out)@ + spec_digits(v as nat, 0) =~= old(out)@);
        }
    } else {
        push_digits(out, v / 10, n - 1);
        out.push(0x30u8 + (v % 10) as u8);
        proof {
            assert((0x30 + (v as nat) % 10) as u8 == 0x30u8 + (v % 10) as u8);
            assert(out@ =~= old(out)@ + spec_digits(v as nat, n as nat));
        }
    }
}

/// The file name a table with this id is stored under.
pub fn sst_filename(id: u64) -> (r: Vec<u8>)
    ensures
        r@ == spec_sst_filename(id),
{
    let mut r: Vec<u8> = Vec::new();
    push_digits(&mut r, id, 20);
    r.push(0x2eu8);
    r.push(0x73u8);
    r.push(0x73u8);
    r.push(0x74u8);
    proof {
        assert(r@ =~= spec_sst_filename(id));
    }
    r
}

/// A longer run of digits never spells a smaller number.
proof fn lemma_digits_value_prefix_le(s: Seq<u8>, j: int)
    requires
        all_digits(s),
        0 <= j <= s.len(),
    ensures
        0 <= spec_digits_value(s.take(j)),
        spec_digits_value(s.take(j)) <= spec_digits_value(s),
        0 <= spec_digits_value(s),
    decreases s.len() - j,
{
    if j == s.len() {
        assert(s.take(j) =~= s);
        lemma_digits_value_nonneg(s);
    } else {
        lemma_digits_value_prefix_le(s, j + 1);
        let t = s.take(j + 1);
        assert(t.drop_last() =~= s.take(j));
        assert(t.last() == s[j]);
        lemma_digits_value_nonneg(s.take(j));
    }
}

/// Digits spell a nonnegative number.
proof fn lemma_digits_value_nonneg(s: Seq<u8>)
    requires
        all_digits(s),
    ensures
        0 <= spec_digits_value(s),
    decreases s.len(),
{
    if s.len() > 0 {
        assert(all_digits(s.drop_last())) by {
            assert(forall|i: int|
                0 <= i < s.drop_last().len() ==> #[trigger] s.drop_last()[i] == s[i]);
        }
        lemma_digits_value_nonneg(s.drop_last());
    }
}

/// The id a file name denotes, if any: the stem before the `.sst`
/// extension read as a decimal number.
pub fn sst_id_of_filename(name: &[u8]) -> (r: Option<u64>)
    ensures
        r == spec_sst_id(name@),
{
    let n = name.len();
    if n < 5 {
        return None;
    }
    if !(name[n - 4] == 0x2eu8 && name[n - 3] == 0x73u8 && name[n - 2] == 0x73u8 && name[n - 1]
        == 0x74u8) {
        proof {
            assert(name@.subrange(n - 4, n as int) != spec_sst_suffix()) by {
                if name@.subrange(n - 4, n as int) == spec_sst_suffix() {
                    assert(name@.subrange(n - 4, n as int)[0] == name@[n - 4]);
                    assert(name@.subrange(n - 4, n as int)[1] == name@[n - 3]);
                    assert(name@.subrange(n - 4, n as int)[2] == name@[n - 2]);
                    assert(name@.subrange(n - 4, n as int)[3] == name@[n - 1]);
                }
            }
        }
        return None;
    }
    proof {
        assert(name@.subrange(n - 4, n as int) =~= spec_sst_suffix());
    }
    let m = n - 4;
    let ghost stem = name@.subrange(0, m as int);
    let mut acc: u64 = 0;
    let mut i: usize = 0;
    proof {
        assert(stem.take(0) =~= Seq::<u8>::empty());
    }
    while i < m
        invariant
            0 <= i <= m,
            m == n - 4,
            n == name@.len(),
            n >= 5,
            stem == name@.subrange(0, m as int),
            forall|j: int| 0 <= j < i ==> 0x30 <= #[trigger] stem[j] <= 0x39,
            acc == spec_digits_value(stem.take(i as int)),
        decreases m - i,
    {
        let c = name[i];
        proof {
            assert(stem[i as int] == name@[i as int]);
        }
        if c < 0x30u8 || c > 0x39u8 {
            proof {
                assert(!all_digits(stem));
            }
            return None;
        }
        let d = (c - 0x30u8) as u64;
        proof {
            assert(stem.take(i + 1).drop_last() =~= stem.take(i as int));
            assert(stem.take(i + 1).last() == stem[i as int]);
        }
        if acc > (u64::MAX - d) / 10 {
            proof {
                let q = (u64::MAX - d) / 10;
                assert(10 * q + 9 >= u64::MAX - d) by (nonlinear_arith)
                    requires
                        q == (u64::MAX - d) / 10,
                        0 <= d <= 9,
                ;
                assert(acc * 10 >= (q + 1) * 10) by (nonlinear_arith)
                    requires
                        acc >= q + 1,
                ;
                assert(spec_digits_value(stem.take(i + 1)) > u64::MAX);
                if all_digits(stem) {
                    lemma_digits_value_prefix_le(stem, i + 1);
                }
            }
            return None;
        }
        proof {
            let q = (u64::MAX - d) / 10;
            assert(10 * q <= u64::MAX - d) by (nonlinear_arith)
                requires
                    q == (u64::MAX - d) / 10,
                    0 <= d <= 9,
            ;
            assert(acc * 10 <= q * 10) by (nonlinear_arith)
                requires
                    acc <= q,
            ;
        }
        acc = acc * 10 + d;
        i = i + 1;
    }
    proof {
        assert(stem.take(m as int) =~= stem);
        assert(all_digits(stem));
    }
    Some(acc)
}

/// Powers of ten.
pub open spec fn pow10(n: nat) -> nat
    decreases n,
{
    if n == 0 {
        1nat
    } else {
        10 * pow10((n - 1) as nat)
    }
}

/// Reading back the zero-padded digits of a number below the padding's
/// capacity yields the number.
proof fn lemma_digits_roundtrip(v: nat, n: nat)
    requires
        v < pow10(n),
    ensures
        spec_digits(v, n).len() == n,
        all_digits(spec_digits(v, n)),
        spec_digits_value(spec_digits(v, n)) == v,
    decreases n,
{
    if n == 0 {
        assert(v == 0);
    } else {
        assert(v == 10 * (v / 10) + v % 10);
        assert(v / 10 < pow10((n - 1) as nat)) by {
            if v / 10 >= pow10((n - 1) as nat) {
                assert(10 * (v / 10) >= 10 * pow10((n - 1) as nat)) by (nonlinear_arith)
                    requires
                        v / 10 >= pow10((n - 1) as nat),
                ;
            }
        }
        lemma_digits_roundtrip(v / 10, (n - 1) as nat);
        let d = spec_digits(v, n);
        let pre = spec_digits(v / 10, (n - 1) as nat);
        assert(d == pre.push((0x30 + v % 10) as u8));
        assert(d.drop_last() =~= pre);
        assert(d.last() == (0x30 + v % 10) as u8);
        assert(0x30 <= d.last() <= 0x39);
        assert forall|i: int| 0 <= i < d.len() implies 0x30 <= #[trigger] d[i] <= 0x39 by {
            if i < d.len() - 1 {
                assert(d[i] == pre[i]);
            }
        }
        assert(spec_digits_value(d) == spec_digits_value(pre) * 10 + (d.last() - 0x30));
    }
}

/// Every id's file name is recognized and denotes that id again: what a
/// seal writes, the next open finds.
pub proof fn lemma_filename_roundtrip(id: u64)
    ensures
        spec_sst_id(spec_sst_filename(id)) == Some(id),
{
    assert(pow10(20) > u64::MAX) by {
        assert(pow10(0) == 1);
        assert(pow10(1) == 10);
        assert(pow10(2) == 100);
        assert(pow10(3) == 1000);
        assert(pow10(4) == 10000);
        assert(pow10(5) == 100000);
        assert(pow10(6) == 1000000);
        assert(pow10(7) == 10000000);
        assert(pow10(8) == 100000000);
        assert(pow10(9) == 1000000000);
        assert(pow10(10) == 10000000000);
        assert(pow10(11) == 100000000000);
        assert(pow10(12) == 1000000000000);
        assert(pow10(13) == 10000000000000);
        assert(pow10(14) == 100000000000000);
        assert(pow10(15) == 1000000000000000);
        assert(pow10(16) == 10000000000000000);
        assert(pow10(17) == 100000000000000000);
        assert(pow10(18) == 1000000000000000000);
        assert(pow10(19) == 10000000000000000000);
        assert(pow10(20) == 100000000000000000000);
    }
    lemma_digits_roundtrip(id as nat, 20);
    let name = spec_sst_filename(id);
    let n = name.len() as int;
    assert(n == 24);
    assert(name.subrange(n - 4, n) =~= spec_sst_suffix());
    assert(name.subrange(0, n - 4) =~= spec_digits(id as nat, 20));
}


} // verus!
