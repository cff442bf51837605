//! Record layouts inside slabs.
//!
//! A data slab is `COUNT | LEN * COUNT | records`, and the hash-index slab
//! that goes with it is `COUNT | (BEGIN | END | HASH[32]) * COUNT`, one entry
//! per record, in the same order; BEGIN and END locate the record within
//! the data slab.
use crate::bytes::{le64, le64_at, lemma_le64_at_concat, lemma_le64_len, push_all, push_u64, read_u64, copy_range};
use crate::hash::{hash256_of, hash_256};
use vstd::prelude::*;

verus! {

pub const HASH_LEN: u64 = 32;
pub const ENTRY_LEN: u64 = 48;

#[derive(Debug, Clone, Copy, PartialEq, Eq, Structural)]
pub enum IndexError {
    /// The slab is shorter than its header says.
    Truncated,
    /// A record runs past the end of its data slab.
    RecordOutOfRange { record: u64 },
    /// No record with this index.
    NoSuchRecord { record: u64 },
}

/// One hash-index entry: where a record lies in its data slab, and its digest.
#[derive(Debug, Clone)]
pub struct HashEntry {
    pub begin: u64,
    pub end: u64,
    pub hash: Vec<u8>,
}

impl HashEntry {
    pub open spec fn view(&self) -> (u64, u64, Seq<u8>) {
        (self.begin, self.end, self.hash@)
    }
}

// ---- data slabs ----

pub open spec fn rec_count(d: Seq<u8>) -> nat {
    le64_at(d, 0) as nat
}

pub open spec fn rec_len(d: Seq<u8>, i: int) -> nat {
    le64_at(d, 8 + 8 * i) as nat
}

/// Where record `i` starts: after the length table and the records before it.
pub open spec fn rec_start(d: Seq<u8>, i: nat) -> int
    decreases i,
{
    if i == 0 {
        (8 + 8 * rec_count(d)) as int
    } else {
        rec_start(d, (i - 1) as nat) + rec_len(d, i - 1)
    }
}

pub open spec fn data_slab_ok(d: Seq<u8>) -> bool {
    &&& d.len() >= 8
    &&& 8 + 8 * rec_count(d) <= d.len()
    &&& rec_start(d, rec_count(d)) <= d.len()
}

pub open spec fn record_of(d: Seq<u8>, i: int) -> Seq<u8> {
    d.subrange(rec_start(d, i as nat), rec_start(d, i as nat) + rec_len(d, i))
}

/// The records of a data slab, in order.
pub open spec fn records_of(d: Seq<u8>) -> Seq<Seq<u8>> {
    Seq::new(rec_count(d), |i: int| record_of(d, i))
}

pub open spec fn total_len(records: Seq<Seq<u8>>) -> nat
    decreases records.len(),
{
    if records.len() == 0 {
        0
    } else {
        total_len(records.drop_last()) + records.last().len()
    }
}

pub open spec fn concat(records: Seq<Seq<u8>>) -> Seq<u8>
    decreases records.len(),
{
    if records.len() == 0 {
        Seq::empty()
    } else {
        concat(records.drop_last()) + records.last()
    }
}

// ---- hash-index slabs ----

pub open spec fn nr_entries(h: Seq<u8>) -> nat {
    le64_at(h, 0) as nat
}

pub open spec fn hash_slab_ok(h: Seq<u8>) -> bool {
    h.len() >= 8 && h.len() == 8 + ENTRY_LEN * nr_entries(h)
}

pub open spec fn entry_at(h: Seq<u8>, i: int) -> (u64, u64, Seq<u8>) {
    let p = 8 + ENTRY_LEN * i;
    (le64_at(h, p), le64_at(h, p + 8), h.subrange(p + 16, p + ENTRY_LEN))
}

/// The entries of a hash-index slab, in order.
pub open spec fn entries_of(h: Seq<u8>) -> Seq<(u64, u64, Seq<u8>)> {
    Seq::new(nr_entries(h), |i: int| entry_at(h, i))
}

/// The entry that describes record `i` of data slab `d`.
pub open spec fn expected_entry(d: Seq<u8>, i: int) -> (u64, u64, Seq<u8>) {
    (
        rec_start(d, i as nat) as u64,
        (rec_start(d, i as nat) + rec_len(d, i)) as u64,
        hash256_of(record_of(d, i)),
    )
}

/// The hash-index slab that describes data slab `d`.
pub open spec fn expected_entries(d: Seq<u8>) -> Seq<(u64, u64, Seq<u8>)> {
    Seq::new(rec_count(d), |i: int| expected_entry(d, i))
}

pub proof fn lemma_rec_start_mono(d: Seq<u8>, i: nat, j: nat)
    requires
        i <= j,
    ensures
        rec_start(d, i) <= rec_start(d, j),
    decreases j - i,
{
    if i < j {
        lemma_rec_start_mono(d, i, (j - 1) as nat);
    }
}

/// Reading an integer from a prefix is unaffected by what follows it.
pub proof fn lemma_le64_prefix(a: Seq<u8>, b: Seq<u8>, p: int)
    requires
        0 <= p,
        p + 8 <= a.len(),
    ensures
        le64_at(a + b, p) == le64_at(a, p),
{
    assert((a + b).subrange(p, p + 8) =~= a.subrange(p, p + 8));
}

/// Appends one hash-index entry.
fn push_entry(out: &mut Vec<u8>, begin: u64, end: u64, hash: &[u8])
    requires
        hash@.len() == HASH_LEN,
    ensures
        final(out)@ == old(out)@ + le64(begin) + le64(end) + hash@,
{
    push_u64(out, begin);
    push_u64(out, end);
    push_all(out, hash);
}

proof fn lemma_entry_appended(h: Seq<u8>, n: nat, i: nat, begin: u64, end: u64, hash: Seq<u8>)
    requires
        h.len() == 8 + ENTRY_LEN * i,
        hash.len() == HASH_LEN,
    ensures
        entry_at(h + le64(begin) + le64(end) + hash, i as int) == (begin, end, hash),
        (h + le64(begin) + le64(end) + hash).len() == 8 + ENTRY_LEN * (i + 1),
        forall|j: int| 0 <= j < i ==> entry_at(h + le64(begin) + le64(end) + hash, j) == entry_at(h, j),
        h.len() >= 8 ==> le64_at(h + le64(begin) + le64(end) + hash, 0) == le64_at(h, 0),
{
    lemma_le64_len(begin);
    lemma_le64_len(end);
    let tail = le64(begin) + le64(end) + hash;
    let h2 = h + le64(begin) + le64(end) + hash;
    assert(h2 =~= h + tail);
    let p = 8 + ENTRY_LEN * i;
    lemma_le64_at_concat(h, begin, le64(end) + hash);
    assert(h2 =~= h + le64(begin) + (le64(end) + hash));
    assert(h2 =~= (h + le64(begin)) + le64(end) + hash);
    lemma_le64_at_concat(h + le64(begin), end, hash);
    assert(h2.subrange(p + 16, p + ENTRY_LEN) =~= hash);
    assert forall|j: int| 0 <= j < i implies entry_at(h2, j) == entry_at(h, j) by {
        let q = 8 + ENTRY_LEN * j;
        assert(q + ENTRY_LEN <= h.len()) by (nonlinear_arith)
            requires q == 8 + ENTRY_LEN * j, j < i, h.len() == 8 + ENTRY_LEN * i, 0 <= j;
        lemma_le64_prefix(h, tail, q);
        lemma_le64_prefix(h, tail, q + 8);
        assert(h2.subrange(q + 16, q + ENTRY_LEN) =~= h.subrange(q + 16, q + ENTRY_LEN));
    }
    if h.len() >= 8 {
        lemma_le64_prefix(h, tail, 0);
    }
    assert(8 + ENTRY_LEN * i + ENTRY_LEN == 8 + ENTRY_LEN * (i + 1)) by (nonlinear_arith);
}

/// Builds the hash-index slab for a data slab: for each record, its byte
/// range and the digest of its bytes. Fails when the data slab's length
/// table does not fit the slab.
pub fn build_hash_index(data: &[u8]) -> (r: Result<Vec<u8>, IndexError>)
    ensures
        match r {
            Ok(h) => data_slab_ok(data@) && hash_slab_ok(h@) && entries_of(h@) == expected_entries(data@),
            Err(_) => !data_slab_ok(data@),
        },
{
    let n = data.len();
    if n < 8 {
        return Err(IndexError::Truncated);
    }
    let count = read_u64(data, 0);
    if count > ((n - 8) / 8) as u64 {
        return Err(IndexError::Truncated);
    }
    let count = count as usize;
    let mut out: Vec<u8> = Vec::new();
    push_u64(&mut out, count as u64);
    proof {
        lemma_le64_len(count as u64);
        assert(out@ =~= Seq::<u8>::empty() + le64(count as u64) + Seq::<u8>::empty());
        lemma_le64_at_concat(Seq::<u8>::empty(), count as u64, Seq::<u8>::empty());
        assert(8 + 8 * count <= n) by (nonlinear_arith)
            requires count <= (n - 8) / 8, n >= 8;
    }
    let mut offset: usize = 8 + 8 * count;
    let mut i: usize = 0;
    while i < count
        invariant
            n == data@.len(),
            count == rec_count(data@),
            8 + 8 * count <= n,
            0 <= i <= count,
            offset == rec_start(data@, i as nat),
            offset <= n,
            out@.len() == 8 + ENTRY_LEN * i,
            le64_at(out@, 0) == count as u64,
            forall|j: int| 0 <= j < i ==> entry_at(out@, j) == expected_entry(data@, j),
        decreases count - i,
    {
        assert(8 + 8 * i + 8 <= n) by (nonlinear_arith)
            requires i < count, 8 + 8 * count <= n;
        let len = read_u64(data, 8 + 8 * i);
        if len > (n - offset) as u64 {
            proof {
                lemma_rec_start_mono(data@, (i + 1) as nat, count as nat);
            }
            return Err(IndexError::RecordOutOfRange { record: i as u64 });
        }
        let end = offset + len as usize;
        let rec = copy_range(data, offset, end);
        let h = hash_256(rec.as_slice());
        let ghost before = out@;
        push_entry(&mut out, offset as u64, end as u64, h.as_slice());
        proof {
            lemma_entry_appended(before, count as nat, i as nat, offset as u64, end as u64, h@);
            assert(rec@ == record_of(data@, i as int));
        }
        offset = end;
        i += 1;
    }
    proof {
        assert(entries_of(out@) =~= expected_entries(data@));
    }
    Ok(out)
}

/// Reads the entries of a hash-index slab.
pub fn parse_hash_slab(h: &[u8]) -> (r: Result<Vec<HashEntry>, IndexError>)
    ensures
        match r {
            Ok(es) => hash_slab_ok(h@) && es@.len() == nr_entries(h@) && forall|i: int|
                0 <= i < es@.len() ==> (#[trigger] es@[i])@ == entry_at(h@, i),
            Err(_) => !hash_slab_ok(h@),
        },
{
    let n = h.len();
    if n < 8 {
        return Err(IndexError::Truncated);
    }
    let count = read_u64(h, 0);
    if count > ((n - 8) / 48) as u64 || (n - 8) as u64 != count * 48 {
        return Err(IndexError::Truncated);
    }
    let count = count as usize;
    let mut es: Vec<HashEntry> = Vec::new();
    let mut i: usize = 0;
    while i < count
        invariant
            n == h@.len(),
            count == nr_entries(h@),
            n == 8 + ENTRY_LEN * count,
            0 <= i <= count,
            es@.len() == i,
            forall|j: int| 0 <= j < i ==> (#[trigger] es@[j])@ == entry_at(h@, j),
        decreases count - i,
    {
        assert(8 + 48 * i + 48 <= n) by (nonlinear_arith)
            requires i < count, n == 8 + 48 * count;
        let p = 8 + 48 * i;
        let begin = read_u64(h, p);
        let end = read_u64(h, p + 8);
        let hash = copy_range(h, p + 16, p + 48);
        es.push(HashEntry { begin, end, hash });
        i += 1;
    }
    Ok(es)
}

proof fn lemma_rec_start_prefix(a: Seq<u8>, b: Seq<u8>, i: nat)
    requires
        a.len() >= 8 + 8 * rec_count(a),
        a.len() >= 8,
        i <= rec_count(a),
    ensures
        rec_start(a + b, i) == rec_start(a, i),
        rec_count(a + b) == rec_count(a),
    decreases i,
{
    lemma_le64_prefix(a, b, 0);
    if i > 0 {
        lemma_rec_start_prefix(a, b, (i - 1) as nat);
        assert(8 + 8 * (i - 1) + 8 <= a.len()) by (nonlinear_arith)
            requires i <= rec_count(a), a.len() >= 8 + 8 * rec_count(a), i > 0;
        lemma_le64_prefix(a, b, 8 + 8 * (i - 1));
    }
}

/// Packs records into a data slab: their count, their lengths, then their bytes.
pub fn pack_data_slab(records: &Vec<Vec<u8>>) -> (r: Vec<u8>)
    requires
        8 + 8 * records@.len() + total_len(records@.map_values(|v: Vec<u8>| v@)) <= usize::MAX,
    ensures
        data_slab_ok(r@),
        records_of(r@) == records@.map_values(|v: Vec<u8>| v@),
{
    let ghost recs = records@.map_values(|v: Vec<u8>| v@);
    let n = records.len();
    let mut out: Vec<u8> = Vec::new();
    push_u64(&mut out, n as u64);
    proof {
        lemma_le64_len(n as u64);
        lemma_le64_at_concat(Seq::<u8>::empty(), n as u64, Seq::<u8>::empty());
        assert(out@ =~= Seq::<u8>::empty() + le64(n as u64) + Seq::<u8>::empty());
    }
    let mut j: usize = 0;
    while j < n
        invariant
            n == records@.len(),
            recs == records@.map_values(|v: Vec<u8>| v@),
            8 + 8 * n + total_len(recs) <= usize::MAX,
            0 <= j <= n,
            out@.len() == 8 + 8 * j,
            le64_at(out@, 0) == n as u64,
            forall|k: int| 0 <= k < j ==> le64_at(out@, 8 + 8 * k) == records@[k]@.len(),
        decreases n - j,
    {
        let ghost before = out@;
        let len = records[j].len();
        proof {
            lemma_total_len_ge(recs, j as int);
        }
        push_u64(&mut out, len as u64);
        proof {
            lemma_le64_len(len as u64);
            lemma_le64_prefix(before, le64(len as u64), 0);
            assert forall|k: int| 0 <= k < j + 1 implies le64_at(out@, 8 + 8 * k) == records@[k]@.len() by {
                if k < j {
                    lemma_le64_prefix(before, le64(len as u64), 8 + 8 * k);
                } else {
                    lemma_le64_at_concat(before, len as u64, Seq::<u8>::empty());
                    assert(out@ =~= before + le64(len as u64) + Seq::<u8>::empty());
                }
            }
        }
        j += 1;
    }
    let ghost header = out@;
    proof {
        assert(rec_count(header) == n);
        lemma_rec_start_prefix(header, Seq::empty(), 0);
        assert(header + Seq::<u8>::empty() =~= header);
    }
    let mut j: usize = 0;
    while j < n
        invariant
            n == records@.len(),
            recs == records@.map_values(|v: Vec<u8>| v@),
            8 + 8 * n + total_len(recs) <= usize::MAX,
            header.len() == 8 + 8 * n,
            rec_count(header) == n,
            forall|k: int| 0 <= k < n ==> le64_at(header, 8 + 8 * k) == records@[k]@.len(),
            0 <= j <= n,
            out@.len() >= header.len(),
            out@.subrange(0, header.len() as int) == header,
            out@.len() == rec_start(header, j as nat),
            out@.len() == 8 + 8 * n + total_len(recs.subrange(0, j as int)),
            forall|k: int| 0 <= k < j ==> #[trigger] record_of(out@, k) == recs[k],
        decreases n - j,
    {
        let ghost before = out@;
        proof {
            lemma_total_len_prefix(recs, j as int);
        }
        push_all(&mut out, records[j].as_slice());
        proof {
            let rj = records@[j as int]@;
            assert(recs[j as int] == rj);
            assert(out@.subrange(0, header.len() as int) =~= header);
            assert(before =~= header + before.subrange(header.len() as int, before.len() as int));
            assert(out@ =~= header + out@.subrange(header.len() as int, out@.len() as int));
            lemma_rec_start_prefix(header, before.subrange(header.len() as int, before.len() as int), (j + 1) as nat);
            lemma_rec_start_prefix(header, out@.subrange(header.len() as int, out@.len() as int), (j + 1) as nat);
            lemma_rec_start_prefix(header, out@.subrange(header.len() as int, out@.len() as int), j as nat);
            lemma_rec_start_prefix(header, before.subrange(header.len() as int, before.len() as int), j as nat);
            assert(8 + 8 * j + 8 <= header.len()) by (nonlinear_arith)
                requires j < n, header.len() == 8 + 8 * n;
            lemma_le64_prefix(header, out@.subrange(header.len() as int, out@.len() as int), 8 + 8 * j);
            assert(rec_len(out@, j as int) == rj.len());
            assert forall|k: int| 0 <= k < j + 1 implies #[trigger] record_of(out@, k) == recs[k] by {
                assert(8 + 8 * k + 8 <= header.len()) by (nonlinear_arith)
                    requires k < j + 1, j < n, header.len() == 8 + 8 * n, 0 <= k;
                lemma_le64_prefix(header, out@.subrange(header.len() as int, out@.len() as int), 8 + 8 * k);
                lemma_le64_prefix(header, before.subrange(header.len() as int, before.len() as int), 8 + 8 * k);
                lemma_rec_start_prefix(header, out@.subrange(header.len() as int, out@.len() as int), k as nat);
                lemma_rec_start_prefix(header, before.subrange(header.len() as int, before.len() as int), k as nat);
                if k < j {
                    assert(rec_start(header, (k + 1) as nat) == rec_start(header, k as nat) + rec_len(header, k));
                    lemma_rec_start_mono(header, (k + 1) as nat, j as nat);
                    lemma_le64_prefix(header, Seq::empty(), 8 + 8 * k);
                    assert(header + Seq::<u8>::empty() =~= header);
                    assert(rec_len(out@, k) == rec_len(header, k));
                    assert(rec_len(before, k) == rec_len(header, k));
                    assert(record_of(before, k) == recs[k]);
                    let a = rec_start(header, k as nat);
                    let b = a + rec_len(header, k);
                    assert(rec_start(out@, k as nat) == a);
                    assert(rec_start(before, k as nat) == a);
                    assert(b <= before.len());
                    lemma_rec_start_mono(header, 0, k as nat);
                    assert(0 <= a);
                    assert(out@ == before + rj);
                    assert(out@.subrange(a, b) =~= before.subrange(a, b));
                    assert(out@.subrange(rec_start(out@, k as nat), rec_start(out@, k as nat) + rec_len(out@, k))
                        =~= before.subrange(rec_start(before, k as nat), rec_start(before, k as nat) + rec_len(before, k)));
                } else {
                    assert(out@.subrange(rec_start(out@, k as nat), rec_start(out@, k as nat) + rec_len(out@, k)) =~= rj);
                }
            }
        }
        j += 1;
    }
    proof {
        assert(out@ =~= header + out@.subrange(header.len() as int, out@.len() as int));
        lemma_rec_start_prefix(header, out@.subrange(header.len() as int, out@.len() as int), n as nat);
        assert(rec_count(out@) == n);
        assert(data_slab_ok(out@));
        assert(records_of(out@) =~= recs);
    }
    out
}

pub proof fn lemma_total_len_prefix(recs: Seq<Seq<u8>>, j: int)
    requires
        0 <= j < recs.len(),
    ensures
        total_len(recs.subrange(0, j + 1)) == total_len(recs.subrange(0, j)) + recs[j].len(),
{
    assert(recs.subrange(0, j + 1).drop_last() =~= recs.subrange(0, j));
}

proof fn lemma_total_len_ge(recs: Seq<Seq<u8>>, j: int)
    requires
        0 <= j < recs.len(),
    ensures
        recs[j].len() <= total_len(recs),
    decreases recs.len(),
{
    if j < recs.len() - 1 {
        lemma_total_len_ge(recs.drop_last(), j);
    }
}

} // verus!
