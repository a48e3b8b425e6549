//! The index's on-disk form: a versioned, deterministic binary encoding.
//!
//! Layout: a 4-byte magic, a 1-byte format version, then one record per
//! entry in canonical (sorted) signature order: signature length as 8
//! little-endian bytes, the signature bytes, the weight as 8 little-endian
//! bytes. The decoder accepts exactly the encoder's output: any malformed
//! payload, out-of-order or duplicated signature, zero weight, or a total
//! weight beyond `u64::MAX` is `Corrupt`; a wrong version byte behind a good
//! magic is `UnsupportedVersion`. Writing the bytes to a temporary file and
//! atomically renaming it over the target is the caller's (I/O-level) side
//! of the bargain.

use vstd::prelude::*;
use crate::StoreError;
use crate::index::{
    IndexEntry, LineIndex, cmp_bytes, entries_canonical, entry_view, lex_lt, sum_weights,
};

verus! {

/// 256^k: the number of values `k` little-endian bytes can carry.
pub open spec fn pow256(k: int) -> int
    decreases k,
{
    if k <= 0 {
        1
    } else {
        256 * pow256(k - 1)
    }
}

/// `n` in `k` little-endian bytes.
pub open spec fn le_bytes(n: int, k: int) -> Seq<u8>
    decreases k,
{
    if k <= 0 {
        Seq::empty()
    } else {
        seq![(n % 256) as u8] + le_bytes(n / 256, k - 1)
    }
}

/// The value carried by little-endian bytes.
pub open spec fn le_val(b: Seq<u8>) -> int
    decreases b.len(),
{
    if b.len() == 0 {
        0
    } else {
        b[0] + 256 * le_val(b.subrange(1, b.len() as int))
    }
}

pub proof fn lemma_le_bytes_len(n: int, k: int)
    ensures
        le_bytes(n, k).len() == if k <= 0 {
            0int
        } else {
            k
        },
    decreases k,
{
    if k > 0 {
        lemma_le_bytes_len(n / 256, k - 1);
    }
}

/// Encoding then decoding a value below `256^k` gives it back.
pub proof fn lemma_le_roundtrip(n: int, k: int)
    requires
        0 <= n < pow256(k),
    ensures
        le_val(le_bytes(n, k)) == n,
    decreases k,
{
    if k <= 0 {
    } else {
        lemma_le_bytes_len(n / 256, k - 1);
        assert(le_bytes(n, k).subrange(1, le_bytes(n, k).len() as int) =~= le_bytes(
            n / 256,
            k - 1,
        ));
        assert(pow256(k - 1) >= 1) by {
            lemma_pow256_pos(k - 1);
        }
        assert(n / 256 < pow256(k - 1)) by (nonlinear_arith)
            requires n < 256 * pow256(k - 1), n >= 0, pow256(k - 1) >= 1;
        lemma_le_roundtrip(n / 256, k - 1);
    }
}

pub proof fn lemma_pow256_pos(k: int)
    ensures
        pow256(k) >= 1,
    decreases k,
{
    if k > 0 {
        lemma_pow256_pos(k - 1);
    }
}

/// Little-endian bytes carry a value below `256^len`.
pub proof fn lemma_le_val_bound(b: Seq<u8>)
    ensures
        0 <= le_val(b) < pow256(b.len() as int),
    decreases b.len(),
{
    if b.len() > 0 {
        lemma_le_val_bound(b.subrange(1, b.len() as int));
        assert(pow256(b.len() as int) == 256 * pow256(b.len() - 1));
        assert(b[0] + 256 * le_val(b.subrange(1, b.len() as int)) < 256 * pow256(b.len() - 1))
            by (nonlinear_arith)
            requires
                b[0] < 256,
                0 <= le_val(b.subrange(1, b.len() as int)) <= pow256(b.len() - 1) - 1;
    }
}

pub open spec fn magic_seq() -> Seq<u8> {
    seq![82u8, 76u8, 73u8, 88u8]
}

/// Format version this crate writes and reads.
pub const STORE_VERSION: u8 = 1;

pub open spec fn header_seq() -> Seq<u8> {
    magic_seq() + seq![STORE_VERSION]
}

/// One record: length-prefixed signature, then the weight.
pub open spec fn enc_entry(p: (Seq<u8>, u64)) -> Seq<u8> {
    le_bytes(p.0.len() as int, 8) + p.0 + le_bytes(p.1 as int, 8)
}

/// All records, in entry order.
pub open spec fn enc_entries(v: Seq<(Seq<u8>, u64)>) -> Seq<u8>
    decreases v.len(),
{
    if v.len() == 0 {
        Seq::empty()
    } else {
        enc_entry(v[0]) + enc_entries(v.subrange(1, v.len() as int))
    }
}

/// The serialized form of an index value.
pub open spec fn encode_spec(v: Seq<(Seq<u8>, u64)>) -> Seq<u8> {
    header_seq() + enc_entries(v)
}

/// Parses records until the bytes run out; `None` on any malformation.
pub open spec fn dec_entries(b: Seq<u8>) -> Option<Seq<(Seq<u8>, u64)>>
    decreases b.len(),
{
    if b.len() == 0 {
        Option::Some(Seq::empty())
    } else if b.len() < 16 {
        Option::None
    } else {
        let l = le_val(b.subrange(0, 8));
        if l < 0 || 16 + l > b.len() {
            Option::None
        } else {
            let sig = b.subrange(8, 8 + l);
            let w = le_val(b.subrange(8 + l, 16 + l));
            match dec_entries(b.skip(16 + l)) {
                Option::None => Option::None,
                Option::Some(rest) => Option::Some(seq![(sig, w as u64)] + rest),
            }
        }
    }
}

/// What a byte string decodes to: the entry sequence, provided the header
/// matches, every record parses, and the whole stands in canonical form
/// with a representable total weight.
pub open spec fn decode_spec(b: Seq<u8>) -> Option<Seq<(Seq<u8>, u64)>> {
    if b.len() < 5 || b.subrange(0, 5) != header_seq() {
        Option::None
    } else {
        match dec_entries(b.skip(5)) {
            Option::None => Option::None,
            Option::Some(es) => {
                if entries_canonical(es) && sum_weights(es) <= u64::MAX {
                    Option::Some(es)
                } else {
                    Option::None
                }
            },
        }
    }
}

/// The magic matches but the version byte does not: the distinguishable
/// version-mismatch condition.
pub open spec fn version_mismatch(b: Seq<u8>) -> bool {
    b.len() >= 5 && b.subrange(0, 4) == magic_seq() && b[4] != STORE_VERSION
}

/// Appends `n` as 8 little-endian bytes.
fn push_le8(out: &mut Vec<u8>, n: u64)
    ensures
        final(out)@ == old(out)@ + le_bytes(n as int, 8),
{
    let ghost base = out@;
    let ghost n0 = n as int;
    let b0 = (n % 256) as u8;
    let n1 = n / 256;
    let b1 = (n1 % 256) as u8;
    let n2 = n1 / 256;
    let b2 = (n2 % 256) as u8;
    let n3 = n2 / 256;
    let b3 = (n3 % 256) as u8;
    let n4 = n3 / 256;
    let b4 = (n4 % 256) as u8;
    let n5 = n4 / 256;
    let b5 = (n5 % 256) as u8;
    let n6 = n5 / 256;
    let b6 = (n6 % 256) as u8;
    let n7 = n6 / 256;
    let b7 = (n7 % 256) as u8;
    out.push(b0);
    out.push(b1);
    out.push(b2);
    out.push(b3);
    out.push(b4);
    out.push(b5);
    out.push(b6);
    out.push(b7);
    proof {
        assert(le_bytes(n0, 8) == seq![b0] + le_bytes(n1 as int, 7));
        assert(le_bytes(n1 as int, 7) == seq![b1] + le_bytes(n2 as int, 6));
        assert(le_bytes(n2 as int, 6) == seq![b2] + le_bytes(n3 as int, 5));
        assert(le_bytes(n3 as int, 5) == seq![b3] + le_bytes(n4 as int, 4));
        assert(le_bytes(n4 as int, 4) == seq![b4] + le_bytes(n5 as int, 3));
        assert(le_bytes(n5 as int, 3) == seq![b5] + le_bytes(n6 as int, 2));
        assert(le_bytes(n6 as int, 2) == seq![b6] + le_bytes(n7 as int, 1));
        assert(le_bytes(n7 as int, 1) == seq![b7] + le_bytes(n7 as int / 256, 0));
        assert(out@ =~= base + le_bytes(n0, 8));
    }
}

/// Reads 8 little-endian bytes at `off`.
fn read_le8(b: &[u8], off: usize) -> (r: u64)
    requires
        off + 8 <= b@.len(),
    ensures
        r as int == le_val(b@.subrange(off as int, off + 8)),
{
    let bl = b.len();
    let ghost s = b@.subrange(off as int, off + 8);
    proof {
        lemma_le_val_bound(s);
        assert forall|k: int| 0 <= k < 8 implies #[trigger] pow256(k) < pow256(8) by {
            lemma_pow256_mono(k, 7);
            assert(pow256(8) == 256 * pow256(7));
            lemma_pow256_pos(7);
        }
    }
    let x7 = b[off + 7] as u64;
    let x6 = b[off + 6] as u64 + 256 * x7;
    let x5 = b[off + 5] as u64 + 256 * x6;
    let x4 = b[off + 4] as u64 + 256 * x5;
    let x3 = b[off + 3] as u64 + 256 * x4;
    let x2 = b[off + 2] as u64 + 256 * x3;
    let x1 = b[off + 1] as u64 + 256 * x2;
    let x0 = b[off] as u64 + 256 * x1;
    proof {
        let s7 = b@.subrange(off + 7, off + 8);
        let s6 = b@.subrange(off + 6, off + 8);
        let s5 = b@.subrange(off + 5, off + 8);
        let s4 = b@.subrange(off + 4, off + 8);
        let s3 = b@.subrange(off + 3, off + 8);
        let s2 = b@.subrange(off + 2, off + 8);
        let s1 = b@.subrange(off + 1, off + 8);
        assert(s7.subrange(1, s7.len() as int) =~= Seq::<u8>::empty());
        assert(s7[0] == b@[off + 7]);
        assert(le_val(Seq::<u8>::empty()) == 0);
        assert(le_val(s7) == s7[0] + 256 * le_val(s7.subrange(1, s7.len() as int)));
        assert(le_val(s7) == b@[off + 7]);
        assert(s6.subrange(1, s6.len() as int) =~= s7);
        assert(s6[0] == b@[off + 6]);
        assert(le_val(s6) == b@[off + 6] + 256 * le_val(s7));
        assert(s5.subrange(1, s5.len() as int) =~= s6);
        assert(s5[0] == b@[off + 5]);
        assert(le_val(s5) == b@[off + 5] + 256 * le_val(s6));
        assert(s4.subrange(1, s4.len() as int) =~= s5);
        assert(s4[0] == b@[off + 4]);
        assert(le_val(s4) == b@[off + 4] + 256 * le_val(s5));
        assert(s3.subrange(1, s3.len() as int) =~= s4);
        assert(s3[0] == b@[off + 3]);
        assert(le_val(s3) == b@[off + 3] + 256 * le_val(s4));
        assert(s2.subrange(1, s2.len() as int) =~= s3);
        assert(s2[0] == b@[off + 2]);
        assert(le_val(s2) == b@[off + 2] + 256 * le_val(s3));
        assert(s1.subrange(1, s1.len() as int) =~= s2);
        assert(s1[0] == b@[off + 1]);
        assert(le_val(s1) == b@[off + 1] + 256 * le_val(s2));
        assert(s.subrange(1, s.len() as int) =~= s1);
        assert(s[0] == b@[off as int]);
        assert(le_val(s) == b@[off as int] + 256 * le_val(s1));
        lemma_le_val_bound(s7);
        lemma_le_val_bound(s6);
        lemma_le_val_bound(s5);
        lemma_le_val_bound(s4);
        lemma_le_val_bound(s3);
        lemma_le_val_bound(s2);
        lemma_le_val_bound(s1);
    }
    x0
}

proof fn lemma_pow256_mono(a: int, b: int)
    requires
        a <= b,
    ensures
        pow256(a) <= pow256(b),
    decreases b - a,
{
    if a < b {
        lemma_pow256_mono(a, b - 1);
        lemma_pow256_pos(b - 1);
    }
}

/// Concatenation distributes over record encoding.
proof fn lemma_enc_entries_concat(a: Seq<(Seq<u8>, u64)>, b: Seq<(Seq<u8>, u64)>)
    ensures
        enc_entries(a + b) == enc_entries(a) + enc_entries(b),
    decreases a.len(),
{
    if a.len() == 0 {
        assert(a + b =~= b);
        assert(enc_entries(a) + enc_entries(b) =~= enc_entries(b));
    } else {
        assert((a + b).subrange(1, (a + b).len() as int) =~= a.subrange(1, a.len() as int) + b);
        assert((a + b)[0] == a[0]);
        lemma_enc_entries_concat(a.subrange(1, a.len() as int), b);
        assert(enc_entry(a[0]) + (enc_entries(a.subrange(1, a.len() as int)) + enc_entries(b))
            =~= (enc_entry(a[0]) + enc_entries(a.subrange(1, a.len() as int))) + enc_entries(b));
    }
}

/// Serializes an index deterministically (entries already stand sorted).
pub fn encode_index(index: &LineIndex) -> (r: Vec<u8>)
    ensures
        r@ == encode_spec(index@),
{
    let entries = index.entries_ref();
    let ghost v = index@;
    let n = entries.len();
    let mut out: Vec<u8> = Vec::new();
    out.push(82);
    out.push(76);
    out.push(73);
    out.push(88);
    out.push(STORE_VERSION);
    proof {
        assert(out@ =~= header_seq());
        assert(v.take(0) =~= Seq::<(Seq<u8>, u64)>::empty());
        assert(out@ =~= header_seq() + enc_entries(v.take(0)));
    }
    let mut i: usize = 0;
    while i < n
        invariant
            n == entries@.len(),
            0 <= i <= n,
            v == entries@.map_values(|e: IndexEntry| entry_view(e)),
            out@ == header_seq() + enc_entries(v.take(i as int)),
        decreases n - i,
    {
        let ghost pre = out@;
        let sl = entries[i].sig.len();
        push_le8(&mut out, sl as u64);
        let mut k: usize = 0;
        let ghost mid = out@;
        while k < sl
            invariant
                sl == entries@[i as int].sig@.len(),
                i < entries@.len(),
                0 <= k <= sl,
                out@ == mid + entries@[i as int].sig@.take(k as int),
            decreases sl - k,
        {
            let byte = entries[i].sig[k];
            out.push(byte);
            proof {
                assert(out@ =~= mid + entries@[i as int].sig@.take(k + 1));
            }
            k += 1;
        }
        push_le8(&mut out, entries[i].weight);
        proof {
            let e = v[i as int];
            assert(e == entry_view(entries@[i as int]));
            assert(entries@[i as int].sig@.take(sl as int) =~= e.0);
            assert(out@ =~= pre + enc_entry(e));
            assert(v.take(i + 1) =~= v.take(i as int) + seq![e]);
            lemma_enc_entries_concat(v.take(i as int), seq![e]);
            assert(enc_entries(seq![e]) =~= enc_entry(e) + enc_entries(
                seq![e].subrange(1, 1),
            ));
            assert(seq![e].subrange(1, 1) =~= Seq::<(Seq<u8>, u64)>::empty());
            assert(enc_entries(seq![e]) =~= enc_entry(e));
            assert(out@ =~= header_seq() + enc_entries(v.take(i + 1)));
        }
        i += 1;
    }
    proof {
        assert(v.take(n as int) =~= v);
    }
    out
}

/// A prefix of the entries weighs no more than the whole.
proof fn lemma_sum_prefix_le(v: Seq<(Seq<u8>, u64)>, j: int)
    requires
        0 <= j <= v.len(),
    ensures
        sum_weights(v.take(j)) <= sum_weights(v),
    decreases v.len() - j,
{
    if j == v.len() {
        assert(v.take(j) =~= v);
    } else {
        lemma_sum_prefix_le(v, j + 1);
        assert(v.take(j + 1).drop_last() =~= v.take(j));
    }
}

/// Deserializes an index. Exactly the byte strings produced by
/// `encode_index` from a well-formed index are accepted; the error says
/// whether the rejection was a version mismatch or any other corruption.
#[verifier::loop_isolation(false)]
pub fn decode_index(bytes: &[u8]) -> (r: Result<LineIndex, StoreError>)
    ensures
        match r {
            Result::Ok(ix) => {
                &&& decode_spec(bytes@) == Option::Some(ix@)
                &&& ix.wf()
            },
            Result::Err(e) => {
                &&& decode_spec(bytes@) == Option::<Seq<(Seq<u8>, u64)>>::None
                &&& (e == StoreError::UnsupportedVersion) <==> version_mismatch(bytes@)
            },
        },
{
    let n = bytes.len();
    if n < 5 {
        return Err(StoreError::Corrupt);
    }
    if !(bytes[0] == 82 && bytes[1] == 76 && bytes[2] == 73 && bytes[3] == 88) {
        proof {
            assert(bytes@.subrange(0, 4) != magic_seq());
            assert(header_seq()[0] == 82 && header_seq()[1] == 76 && header_seq()[2] == 73
                && header_seq()[3] == 88);
            assert(bytes@.subrange(0, 5) != header_seq());
        }
        return Err(StoreError::Corrupt);
    }
    proof {
        assert(bytes@.subrange(0, 4) =~= magic_seq());
    }
    if bytes[4] != STORE_VERSION {
        proof {
            assert(bytes@.subrange(0, 5)[4] == bytes@[4]);
            assert(bytes@.subrange(0, 5) != header_seq());
        }
        return Err(StoreError::UnsupportedVersion);
    }
    proof {
        assert(bytes@.subrange(0, 5) =~= header_seq());
        assert(!version_mismatch(bytes@));
    }
    let mut entries: Vec<IndexEntry> = Vec::new();
    let mut pos: usize = 5;
    proof {
        assert(entries@.map_values(|e: IndexEntry| entry_view(e)) =~= Seq::<(
            Seq<u8>,
            u64,
        )>::empty());
    }
    while pos < n
        invariant
            n == bytes@.len(),
            5 <= pos <= n,
            dec_entries(bytes@.skip(5)) is Some <==> dec_entries(bytes@.skip(pos as int))
                is Some,
            dec_entries(bytes@.skip(pos as int)) is Some ==> dec_entries(bytes@.skip(5))
                == Option::Some(
                entries@.map_values(|e: IndexEntry| entry_view(e)) + dec_entries(
                    bytes@.skip(pos as int),
                ).unwrap(),
            ),
        decreases n - pos,
    {
        let ghost tail = bytes@.skip(pos as int);
        proof {
            assert(tail.len() == n - pos);
        }
        if n - pos < 16 {
            proof {
                assert(dec_entries(tail) is None);
            }
            return Err(StoreError::Corrupt);
        }
        let l64 = read_le8(bytes, pos);
        proof {
            assert(tail.subrange(0, 8) =~= bytes@.subrange(pos as int, pos + 8));
            assert(l64 as int == le_val(tail.subrange(0, 8)));
        }
        if l64 > (n - pos - 16) as u64 {
            proof {
                assert(16 + le_val(tail.subrange(0, 8)) > tail.len());
                assert(dec_entries(tail) is None);
            }
            return Err(StoreError::Corrupt);
        }
        let l = l64 as usize;
        let sig_slice = vstd::slice::slice_subrange(bytes, pos + 8, pos + 8 + l);
        let sig = vstd::slice::slice_to_vec(sig_slice);
        let w = read_le8(bytes, pos + 8 + l);
        proof {
            assert(tail.subrange(8, 8 + l) =~= bytes@.subrange(pos + 8, pos + 8 + l));
            assert(tail.subrange(8 + l, 16 + l) =~= bytes@.subrange(
                pos + 8 + l,
                pos + 16 + l,
            ));
            lemma_le_val_bound(tail.subrange(8 + l, 16 + l));
        }
        let ghost prev = entries@;
        let e = IndexEntry { sig, weight: w };
        entries.push(e);
        pos = pos + 16 + l;
        proof {
            let f = |e: IndexEntry| entry_view(e);
            assert(bytes@.skip(pos as int) =~= tail.skip(16 + l as int));
            assert(dec_entries(tail) == match dec_entries(tail.skip(16 + l as int)) {
                Option::None => Option::<Seq<(Seq<u8>, u64)>>::None,
                Option::Some(rest) => Option::Some(
                    seq![(tail.subrange(8, 8 + l as int), w)] + rest,
                ),
            });
            assert(entries@ =~= prev.push(e));
            assert(entries@.map_values(f) =~= prev.map_values(f).push((sig@, w)));
            assert(sig@ == tail.subrange(8, 8 + l as int));
            if dec_entries(bytes@.skip(pos as int)) is Some {
                let rest = dec_entries(bytes@.skip(pos as int)).unwrap();
                assert(dec_entries(tail) == Option::Some(seq![(sig@, w)] + rest));
                assert(prev.map_values(f) + (seq![(sig@, w)] + rest) =~= entries@.map_values(f)
                    + rest);
            }
        }
    }
    proof {
        assert(bytes@.skip(n as int) =~= Seq::<u8>::empty());
        assert(dec_entries(bytes@.skip(n as int)) == Option::Some(
            Seq::<(Seq<u8>, u64)>::empty(),
        ));
        let f = |e: IndexEntry| entry_view(e);
        assert(entries@.map_values(f) + Seq::<(Seq<u8>, u64)>::empty() =~= entries@.map_values(
            f,
        ));
        assert(dec_entries(bytes@.skip(5)) == Option::Some(entries@.map_values(f)));
    }
    // The records parsed; now hold them to canonical form and a
    // representable total.
    let ghost es = entries@.map_values(|e: IndexEntry| entry_view(e));
    let m = entries.len();
    let mut total: u64 = 0;
    let mut i: usize = 0;
    proof {
        assert(sum_weights(es.take(0)) == 0);
    }
    while i < m
        invariant
            m == entries@.len(),
            0 <= i <= m,
            es == entries@.map_values(|e: IndexEntry| entry_view(e)),
            total as int == sum_weights(es.take(i as int)),
            forall|j: int| 0 <= j < i ==> (#[trigger] es[j].1) > 0,
            forall|j: int| 0 <= j && j + 1 < i ==> lex_lt(es[j].0, #[trigger] es[j + 1].0),
        decreases m - i,
    {
        proof {
            assert(es[i as int] == entry_view(entries@[i as int]));
        }
        if entries[i].weight == 0 {
            proof {
                assert(es[i as int].1 == 0);
                assert(!entries_canonical(es));
            }
            return Err(StoreError::Corrupt);
        }
        if i > 0 {
            let c = cmp_bytes(entries[i - 1].sig.as_slice(), entries[i].sig.as_slice());
            proof {
                assert(es[i - 1] == entry_view(entries@[i - 1]));
            }
            if c != 1 {
                proof {
                    assert(es[(i - 1) as int].0 == entries@[i - 1].sig@);
                    assert(es[(i - 1) as int + 1] == es[i as int]);
                    assert(es[(i - 1) as int + 1].0 == entries@[i as int].sig@);
                    assert(!lex_lt(es[(i - 1) as int].0, es[(i - 1) as int + 1].0));
                    assert(!entries_canonical(es));
                }
                return Err(StoreError::Corrupt);
            }
        }
        let w = entries[i].weight;
        if total > u64::MAX - w {
            proof {
                assert(es.take(i + 1).drop_last() =~= es.take(i as int));
                assert(sum_weights(es.take(i + 1)) > u64::MAX);
                lemma_sum_prefix_le(es, i + 1);
            }
            return Err(StoreError::Corrupt);
        }
        total = total + w;
        proof {
            assert(es.take(i + 1).drop_last() =~= es.take(i as int));
        }
        i += 1;
    }
    proof {
        assert(es.take(m as int) =~= es);
        assert(entries_canonical(es));
    }
    Ok(LineIndex::from_parts(entries, total))
}

/// Saving, loading and saving again reproduces the bytes: decoding accepts
/// exactly what encoding produced, entry for entry, so no weight and no
/// signature drifts across a round-trip.
pub proof fn lemma_store_round_trip(v: Seq<(Seq<u8>, u64)>)
    requires
        entries_canonical(v),
        sum_weights(v) <= u64::MAX,
        forall|i: int| 0 <= i < v.len() ==> (#[trigger] v[i].0).len() < pow256(8),
    ensures
        decode_spec(encode_spec(v)) == Option::Some(v),
{
    let b = encode_spec(v);
    lemma_dec_enc(v);
    assert(b.subrange(0, 5) =~= header_seq());
    assert(b.skip(5) =~= enc_entries(v));
    assert(b.len() >= 5);
}

/// Record decoding inverts record encoding.
proof fn lemma_dec_enc(v: Seq<(Seq<u8>, u64)>)
    requires
        forall|i: int| 0 <= i < v.len() ==> (#[trigger] v[i].0).len() < pow256(8),
    ensures
        dec_entries(enc_entries(v)) == Option::Some(v),
    decreases v.len(),
{
    if v.len() == 0 {
        assert(enc_entries(v) =~= Seq::<u8>::empty());
        assert(dec_entries(enc_entries(v)) == Option::Some(Seq::<(Seq<u8>, u64)>::empty()));
        assert(Seq::<(Seq<u8>, u64)>::empty() =~= v);
    } else {
        let e = v[0];
        let rest = v.subrange(1, v.len() as int);
        let b = enc_entries(v);
        let l = e.0.len() as int;
        lemma_le_bytes_len(l, 8);
        lemma_le_bytes_len(e.1 as int, 8);
        lemma_le_roundtrip(l, 8);
        assert(e.1 < pow256(8)) by {
            assert(pow256(8) == 256 * pow256(7));
            assert(pow256(7) == 256 * pow256(6));
            assert(pow256(6) == 256 * pow256(5));
            assert(pow256(5) == 256 * pow256(4));
            assert(pow256(4) == 256 * pow256(3));
            assert(pow256(3) == 256 * pow256(2));
            assert(pow256(2) == 256 * pow256(1));
            assert(pow256(1) == 256 * pow256(0));
        }
        lemma_le_roundtrip(e.1 as int, 8);
        assert(b =~= (le_bytes(l, 8) + e.0 + le_bytes(e.1 as int, 8)) + enc_entries(rest));
        assert(b.len() == 16 + l + enc_entries(rest).len());
        assert(b.subrange(0, 8) =~= le_bytes(l, 8));
        assert(le_val(b.subrange(0, 8)) == l);
        assert(b.subrange(8, 8 + l) =~= e.0);
        assert(b.subrange(8 + l, 16 + l) =~= le_bytes(e.1 as int, 8));
        assert(le_val(b.subrange(8 + l, 16 + l)) == e.1);
        assert(b.skip(16 + l) =~= enc_entries(rest));
        assert forall|i: int| 0 <= i < rest.len() implies (#[trigger] rest[i].0).len() < pow256(
            8,
        ) by {
            assert(rest[i] == v[i + 1]);
        }
        lemma_dec_enc(rest);
        assert(dec_entries(b) == Option::Some(seq![(e.0, e.1)] + rest));
        assert((e.0, e.1) == e);
        assert(seq![e] + rest =~= v);
    }
}

/// Loading one saved file twice can only yield the same index value: what a
/// byte string decodes to is a function of the bytes alone, so both loads
/// score any target log identically.
pub proof fn lemma_reload_idempotent(
    bytes: Seq<u8>,
    v1: Seq<(Seq<u8>, u64)>,
    v2: Seq<(Seq<u8>, u64)>,
    sigs: Seq<Seq<u8>>,
)
    requires
        decode_spec(bytes) == Option::Some(v1),
        decode_spec(bytes) == Option::Some(v2),
    ensures
        v1 == v2,
        crate::scorer::score_seq(v1, sigs) == crate::scorer::score_seq(v2, sigs),
{
}

} // verus!
