//! Stream mappings: a logical byte stream described as runs of a repeated
//! byte, holes, and references into the content store.
//!
//! Each entry is encoded as a tag byte followed by its fields, integers
//! little-endian on eight bytes.
use crate::bytes::{le64, le64_at, lemma_le64_at_concat, lemma_le64_len, push_u64, read_u64};
use vstd::prelude::*;

verus! {

#[derive(Debug, Clone, Copy, PartialEq, Eq, Structural)]
pub enum MapEntry {
    /// `len` repetitions of `byte`.
    Fill { byte: u8, len: u64 },
    /// A hole of `len` bytes.
    Unmapped { len: u64 },
    /// `nr_entries` consecutive records starting at `(slab, offset)`.
    Data { slab: u32, offset: u32, nr_entries: u32 },
    /// The sub-range `begin..end` of such a run.
    Partial { begin: u32, end: u32, slab: u32, offset: u32, nr_entries: u32 },
    /// A reference into another stream's mapping.
    Ref { len: u64 },
}

#[derive(Debug, Clone, Copy, PartialEq, Eq, Structural)]
pub enum DecodeError {
    /// An unknown tag byte at this position.
    BadTag { pos: u64 },
    /// An entry cut short at this position.
    Truncated { pos: u64 },
    /// A field too large for its entry kind at this position.
    BadField { pos: u64 },
}

pub open spec fn encode_entry(e: MapEntry) -> Seq<u8> {
    match e {
        MapEntry::Fill { byte, len } => seq![0u8, byte] + le64(len),
        MapEntry::Unmapped { len } => seq![1u8] + le64(len),
        MapEntry::Data { slab, offset, nr_entries } => seq![2u8] + le64(slab as u64) + le64(offset as u64) + le64(
            nr_entries as u64,
        ),
        MapEntry::Partial { begin, end, slab, offset, nr_entries } => seq![3u8] + le64(begin as u64) + le64(
            end as u64,
        ) + le64(slab as u64) + le64(offset as u64) + le64(nr_entries as u64),
        MapEntry::Ref { len } => seq![4u8] + le64(len),
    }
}

/// The encoding of a sequence of entries, one after another.
pub open spec fn encode_all(es: Seq<MapEntry>) -> Seq<u8>
    decreases es.len(),
{
    if es.len() == 0 {
        Seq::empty()
    } else {
        encode_all(es.drop_last()) + encode_entry(es.last())
    }
}

pub proof fn lemma_encode_all_push(es: Seq<MapEntry>, e: MapEntry)
    ensures
        encode_all(es.push(e)) == encode_all(es) + encode_entry(e),
{
    assert(es.push(e).drop_last() =~= es);
}

/// The length of an encoded entry with this tag; zero for an unknown tag.
pub open spec fn entry_len(tag: u8) -> nat {
    if tag == 0 {
        10
    } else if tag == 1 || tag == 4 {
        9
    } else if tag == 2 {
        25
    } else if tag == 3 {
        41
    } else {
        0
    }
}

/// The fields that must fit 32 bits do, for the entry at `pos`.
pub open spec fn fields_fit(b: Seq<u8>, pos: int) -> bool {
    if b[pos] == 2 {
        forall|k: int| 0 <= k < 3 ==> #[trigger] le64_at(b, pos + 1 + 8 * k) <= u32::MAX
    } else if b[pos] == 3 {
        forall|k: int| 0 <= k < 5 ==> #[trigger] le64_at(b, pos + 1 + 8 * k) <= u32::MAX
    } else {
        true
    }
}

/// From `pos` on, `b` is a sequence of whole, well-formed entries.
pub open spec fn decodable(b: Seq<u8>, pos: int) -> bool
    decreases b.len() - pos,
{
    if pos < 0 || pos >= b.len() {
        true
    } else {
        let n = entry_len(b[pos]);
        n > 0 && pos + n <= b.len() && fields_fit(b, pos) && decodable(b, pos + n)
    }
}

/// Appends the encoding of `e`.
pub fn encode_entry_into(out: &mut Vec<u8>, e: MapEntry)
    ensures
        final(out)@ == old(out)@ + encode_entry(e),
{
    let ghost start = out@;
    match e {
        MapEntry::Fill { byte, len } => {
            out.push(0u8);
            out.push(byte);
            push_u64(out, len);
            assert(out@ =~= start + encode_entry(e));
        },
        MapEntry::Unmapped { len } => {
            out.push(1u8);
            push_u64(out, len);
            assert(out@ =~= start + encode_entry(e));
        },
        MapEntry::Data { slab, offset, nr_entries } => {
            out.push(2u8);
            push_u64(out, slab as u64);
            push_u64(out, offset as u64);
            push_u64(out, nr_entries as u64);
            assert(out@ =~= start + encode_entry(e));
        },
        MapEntry::Partial { begin, end, slab, offset, nr_entries } => {
            out.push(3u8);
            push_u64(out, begin as u64);
            push_u64(out, end as u64);
            push_u64(out, slab as u64);
            push_u64(out, offset as u64);
            push_u64(out, nr_entries as u64);
            assert(out@ =~= start + encode_entry(e));
        },
        MapEntry::Ref { len } => {
            out.push(4u8);
            push_u64(out, len);
            assert(out@ =~= start + encode_entry(e));
        },
    }
}

/// Encodes entries one after another.
pub fn encode_entries(es: &Vec<MapEntry>) -> (r: Vec<u8>)
    ensures
        r@ == encode_all(es@),
{
    let mut out: Vec<u8> = Vec::new();
    let mut i: usize = 0;
    while i < es.len()
        invariant
            0 <= i <= es@.len(),
            out@ == encode_all(es@.subrange(0, i as int)),
        decreases es@.len() - i,
    {
        proof {
            lemma_encode_all_push(es@.subrange(0, i as int), es@[i as int]);
            assert(es@.subrange(0, i + 1) =~= es@.subrange(0, i as int).push(es@[i as int]));
        }
        encode_entry_into(&mut out, es[i]);
        i += 1;
    }
    assert(es@.subrange(0, es@.len() as int) =~= es@);
    out
}

/// Decodes a buffer of encoded entries. Succeeds exactly when the buffer
/// is a sequence of whole, well-formed entries, and what it returns
/// encodes back to exactly the buffer.
pub fn decode_entries(b: &[u8]) -> (r: Result<Vec<MapEntry>, DecodeError>)
    ensures
        r is Ok <==> decodable(b@, 0),
        r matches Ok(es) ==> encode_all(es@) == b@,
{
    let n = b.len();
    let mut es: Vec<MapEntry> = Vec::new();
    let mut pos: usize = 0;
    while pos < n
        invariant
            n == b@.len(),
            0 <= pos <= n,
            encode_all(es@) == b@.subrange(0, pos as int),
            decodable(b@, 0) == decodable(b@, pos as int),
        decreases n - pos,
    {
        let tag = b[pos];
        let need: usize = if tag == 0 { 10 } else if tag == 1 || tag == 4 { 9 } else if tag == 2 { 25 } else if tag == 3 { 41 } else { 0 };
        assert(tag == b@[pos as int]);
        assert(entry_len(tag) == need as nat);
        if need == 0 {
            return Err(DecodeError::BadTag { pos: pos as u64 });
        }
        if n - pos < need {
            return Err(DecodeError::Truncated { pos: pos as u64 });
        }
        let e = if tag == 0 {
            MapEntry::Fill { byte: b[pos + 1], len: read_u64(b, pos + 2) }
        } else if tag == 1 {
            MapEntry::Unmapped { len: read_u64(b, pos + 1) }
        } else if tag == 4 {
            MapEntry::Ref { len: read_u64(b, pos + 1) }
        } else if tag == 2 {
            let s = read_u64(b, pos + 1);
            let o = read_u64(b, pos + 9);
            let c = read_u64(b, pos + 17);
            if s > u32::MAX as u64 || o > u32::MAX as u64 || c > u32::MAX as u64 {
                proof {
                    let p = pos as int;
                    assert(le64_at(b@, p + 1 + 8 * 0) == s);
                    assert(le64_at(b@, p + 1 + 8 * 1) == o);
                    assert(le64_at(b@, p + 1 + 8 * 2) == c);
                }
                return Err(DecodeError::BadField { pos: pos as u64 });
            }
            proof {
                let p = pos as int;
                assert forall|k: int| 0 <= k < 3 implies #[trigger] le64_at(b@, p + 1 + 8 * k) <= u32::MAX by {
                    if k == 0 {
                        assert(le64_at(b@, p + 1 + 8 * k) == s);
                    } else if k == 1 {
                        assert(le64_at(b@, p + 1 + 8 * k) == o);
                    } else {
                        assert(le64_at(b@, p + 1 + 8 * k) == c);
                    }
                }
            }
            MapEntry::Data { slab: s as u32, offset: o as u32, nr_entries: c as u32 }
        } else {
            let bg = read_u64(b, pos + 1);
            let en = read_u64(b, pos + 9);
            let s = read_u64(b, pos + 17);
            let o = read_u64(b, pos + 25);
            let c = read_u64(b, pos + 33);
            proof {
                let p = pos as int;
                assert(le64_at(b@, p + 1 + 8 * 0) == bg);
                assert(le64_at(b@, p + 1 + 8 * 1) == en);
                assert(le64_at(b@, p + 1 + 8 * 2) == s);
                assert(le64_at(b@, p + 1 + 8 * 3) == o);
                assert(le64_at(b@, p + 1 + 8 * 4) == c);
            }
            if bg > u32::MAX as u64 || en > u32::MAX as u64 || s > u32::MAX as u64 || o > u32::MAX as u64 || c
                > u32::MAX as u64 {
                return Err(DecodeError::BadField { pos: pos as u64 });
            }
            proof {
                let p = pos as int;
                assert forall|k: int| 0 <= k < 5 implies #[trigger] le64_at(b@, p + 1 + 8 * k) <= u32::MAX by {
                    if k == 0 {
                        assert(le64_at(b@, p + 1 + 8 * k) == bg);
                    } else if k == 1 {
                        assert(le64_at(b@, p + 1 + 8 * k) == en);
                    } else if k == 2 {
                        assert(le64_at(b@, p + 1 + 8 * k) == s);
                    } else if k == 3 {
                        assert(le64_at(b@, p + 1 + 8 * k) == o);
                    } else {
                        assert(le64_at(b@, p + 1 + 8 * k) == c);
                    }
                }
            }
            MapEntry::Partial {
                begin: bg as u32,
                end: en as u32,
                slab: s as u32,
                offset: o as u32,
                nr_entries: c as u32,
            }
        };
        proof {
            let p = pos as int;
            let enc = b@.subrange(p, p + need);
            lemma_read_back(b@, p, need as int);
            assert(encode_entry(e) =~= enc);
            lemma_encode_all_push(es@, e);
            assert(b@.subrange(0, p + need) =~= b@.subrange(0, p) + enc);
        }
        es.push(e);
        pos = pos + need;
    }
    assert(b@.subrange(0, n as int) =~= b@);
    Ok(es)
}

/// Eight bytes read at `p` encode back to themselves.
proof fn lemma_read_back(b: Seq<u8>, p: int, need: int)
    requires
        0 <= p,
        p + need <= b.len(),
    ensures
        forall|q: int| p <= q && q + 8 <= p + need ==> #[trigger] le64(le64_at(b, q)) == b.subrange(q, q + 8),
{
    assert forall|q: int| p <= q && q + 8 <= p + need implies #[trigger] le64(le64_at(b, q)) == b.subrange(q, q + 8) by {
        vstd::bytes::lemma_auto_spec_u64_to_from_le_bytes();
    }
}

proof fn lemma_encode_all_front(es: Seq<MapEntry>)
    requires
        es.len() > 0,
    ensures
        encode_all(es) == encode_entry(es[0]) + encode_all(es.drop_first()),
    decreases es.len(),
{
    if es.len() == 1 {
        assert(es.drop_first() =~= Seq::<MapEntry>::empty());
        assert(es.drop_last() =~= Seq::<MapEntry>::empty());
        assert(encode_all(es) =~= encode_entry(es[0]) + encode_all(es.drop_first()));
    } else {
        lemma_encode_all_front(es.drop_last());
        assert(es.drop_last().drop_first() =~= es.drop_first().drop_last());
        assert(es.drop_first().last() == es.last());
        assert(encode_all(es) =~= encode_entry(es[0]) + encode_all(es.drop_first()));
    }
}

/// The tag, length and fields of an encoded entry read back in place.
proof fn lemma_entry_in_place(x: Seq<u8>, e: MapEntry, rest: Seq<u8>)
    ensures
        ({
            let b = x + encode_entry(e) + rest;
            let p = x.len() as int;
            &&& b[p] == encode_entry(e)[0]
            &&& entry_len(b[p]) == encode_entry(e).len()
            &&& entry_len(b[p]) > 0
            &&& fields_fit(b, p)
        }),
{
    let b = x + encode_entry(e) + rest;
    let p = x.len() as int;
    match e {
        MapEntry::Fill { byte, len } => {
            lemma_le64_len(len);
        },
        MapEntry::Unmapped { len } => {
            lemma_le64_len(len);
        },
        MapEntry::Ref { len } => {
            lemma_le64_len(len);
        },
        MapEntry::Data { slab, offset, nr_entries } => {
            let (f0, f1, f2) = (slab as u64, offset as u64, nr_entries as u64);
            lemma_le64_len(f0);
            lemma_le64_len(f1);
            lemma_le64_len(f2);
            let t = seq![2u8];
            assert(b =~= (x + t) + le64(f0) + (le64(f1) + le64(f2) + rest));
            lemma_le64_at_concat(x + t, f0, le64(f1) + le64(f2) + rest);
            assert(b =~= (x + t + le64(f0)) + le64(f1) + (le64(f2) + rest));
            lemma_le64_at_concat(x + t + le64(f0), f1, le64(f2) + rest);
            assert(b =~= (x + t + le64(f0) + le64(f1)) + le64(f2) + rest);
            lemma_le64_at_concat(x + t + le64(f0) + le64(f1), f2, rest);
            assert forall|k: int| 0 <= k < 3 implies #[trigger] le64_at(b, p + 1 + 8 * k) <= u32::MAX by {
                assert(k == 0 || k == 1 || k == 2);
            }
        },
        MapEntry::Partial { begin, end, slab, offset, nr_entries } => {
            let (f0, f1, f2, f3, f4) = (begin as u64, end as u64, slab as u64, offset as u64, nr_entries as u64);
            lemma_le64_len(f0);
            lemma_le64_len(f1);
            lemma_le64_len(f2);
            lemma_le64_len(f3);
            lemma_le64_len(f4);
            let t = seq![3u8];
            let a0 = x + t;
            let a1 = a0 + le64(f0);
            let a2 = a1 + le64(f1);
            let a3 = a2 + le64(f2);
            let a4 = a3 + le64(f3);
            assert(b =~= a0 + le64(f0) + (le64(f1) + le64(f2) + le64(f3) + le64(f4) + rest));
            lemma_le64_at_concat(a0, f0, le64(f1) + le64(f2) + le64(f3) + le64(f4) + rest);
            assert(b =~= a1 + le64(f1) + (le64(f2) + le64(f3) + le64(f4) + rest));
            lemma_le64_at_concat(a1, f1, le64(f2) + le64(f3) + le64(f4) + rest);
            assert(b =~= a2 + le64(f2) + (le64(f3) + le64(f4) + rest));
            lemma_le64_at_concat(a2, f2, le64(f3) + le64(f4) + rest);
            assert(b =~= a3 + le64(f3) + (le64(f4) + rest));
            lemma_le64_at_concat(a3, f3, le64(f4) + rest);
            assert(b =~= a4 + le64(f4) + rest);
            lemma_le64_at_concat(a4, f4, rest);
            assert forall|k: int| 0 <= k < 5 implies #[trigger] le64_at(b, p + 1 + 8 * k) <= u32::MAX by {
                assert(k == 0 || k == 1 || k == 2 || k == 3 || k == 4);
            }
        },
    }
}

proof fn lemma_decodable_after(x: Seq<u8>, es: Seq<MapEntry>)
    ensures
        decodable(x + encode_all(es), x.len() as int),
    decreases es.len(),
{
    if es.len() == 0 {
        assert(x + encode_all(es) =~= x);
    } else {
        lemma_encode_all_front(es);
        let e = es[0];
        let rest = encode_all(es.drop_first());
        let b = x + encode_all(es);
        assert(b =~= x + encode_entry(e) + rest);
        lemma_entry_in_place(x, e, rest);
        lemma_decodable_after(x + encode_entry(e), es.drop_first());
        assert(b =~= (x + encode_entry(e)) + rest);
    }
}

/// Every encoding of a sequence of entries decodes.
pub proof fn lemma_encoding_decodable(es: Seq<MapEntry>)
    ensures
        decodable(encode_all(es), 0),
{
    lemma_decodable_after(Seq::empty(), es);
    assert(Seq::<u8>::empty() + encode_all(es) =~= encode_all(es));
}

} // verus!
