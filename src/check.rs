//! Integrity check of a content store: every record's stored digest must
//! match the digest of its stored bytes.
use crate::hash::{hash256_of, hash_256};
use crate::index::{entry_at, hash_slab_ok, nr_entries, parse_hash_slab, IndexError};
use crate::bytes::{bytes_eq, copy_range};
use crate::slab::{SlabError, SlabFile};
use vstd::prelude::*;

verus! {

#[derive(Debug, Clone, Copy, PartialEq, Eq, Structural)]
pub enum CheckError {
    /// The data and hash-index files hold different numbers of slabs.
    CountMismatch,
    /// More slabs than a 32-bit slab index can address.
    TooManySlabs,
    /// A data slab could not be read.
    Data { slab: u64, err: SlabError },
    /// A hash-index slab could not be read.
    Hashes { slab: u64, err: SlabError },
    /// A hash-index slab is malformed.
    BadIndex { slab: u64, err: IndexError },
    /// A record's bytes do not hash to its stored digest.
    HashMismatch { slab: u64, record: u64 },
}

/// The entry's range lies in the data slab and its bytes hash to its digest.
pub open spec fn entry_matches(d: Seq<u8>, e: (u64, u64, Seq<u8>)) -> bool {
    e.0 <= e.1 <= d.len() && hash256_of(d.subrange(e.0 as int, e.1 as int)) == e.2
}

/// Every entry of the hash-index slab `h` matches data slab `d`.
pub open spec fn slab_consistent(d: Seq<u8>, h: Seq<u8>) -> bool {
    hash_slab_ok(h) && forall|i: int| 0 <= i < nr_entries(h) ==> entry_matches(d, #[trigger] entry_at(h, i))
}

/// Slab `s` of both files can be read, and the two agree.
pub open spec fn slab_ok(data_file: &SlabFile, hashes_file: &SlabFile, s: int) -> bool {
    &&& data_file.slab(s) is Some
    &&& hashes_file.slab(s) is Some
    &&& slab_consistent(data_file.slab(s)->Some_0, hashes_file.slab(s)->Some_0)
}

/// Checks one data slab against its hash-index slab; on failure, names the
/// first entry that does not match.
pub fn check_slab(data: &[u8], hashes: &[u8], slab: u64) -> (r: Result<(), CheckError>)
    ensures
        r is Ok <==> slab_consistent(data@, hashes@),
        match r {
            Ok(_) => true,
            Err(CheckError::BadIndex { slab: s, err: _ }) => s == slab && !hash_slab_ok(hashes@),
            Err(CheckError::HashMismatch { slab: s, record }) => {
                &&& s == slab
                &&& hash_slab_ok(hashes@)
                &&& record < nr_entries(hashes@)
                &&& forall|i: int| 0 <= i < record ==> entry_matches(data@, #[trigger] entry_at(hashes@, i))
                &&& !entry_matches(data@, entry_at(hashes@, record as int))
            },
            Err(_) => false,
        },
{
    let entries = match parse_hash_slab(hashes) {
        Ok(es) => es,
        Err(err) => {
            return Err(CheckError::BadIndex { slab, err });
        },
    };
    let mut i: usize = 0;
    while i < entries.len()
        invariant
            hash_slab_ok(hashes@),
            entries@.len() == nr_entries(hashes@),
            forall|j: int| 0 <= j < entries@.len() ==> (#[trigger] entries@[j])@ == entry_at(hashes@, j),
            0 <= i <= entries@.len(),
            forall|j: int| 0 <= j < i ==> entry_matches(data@, #[trigger] entry_at(hashes@, j)),
        decreases entries@.len() - i,
    {
        let e = &entries[i];
        assert(e@ == entry_at(hashes@, i as int));
        if e.begin > e.end || e.end > data.len() as u64 {
            return Err(CheckError::HashMismatch { slab, record: i as u64 });
        }
        let rec = copy_range(data, e.begin as usize, e.end as usize);
        let h = hash_256(rec.as_slice());
        if !bytes_eq(h.as_slice(), e.hash.as_slice()) {
            return Err(CheckError::HashMismatch { slab, record: i as u64 });
        }
        i += 1;
    }
    Ok(())
}

/// Error `e` names the first slab from `begin` on that fails, and why: its
/// data or hash-index slab cannot be read, its hash-index slab is
/// malformed, or the first of its entries that does not match.
pub open spec fn first_failing_slab(data_file: &SlabFile, hashes_file: &SlabFile, begin: int, end: int, e: CheckError) -> bool {
    match e {
        CheckError::Data { slab, err: _ } => begin <= slab < end && data_file.slab(slab as int) is None
            && forall|s: int| begin <= s < slab ==> slab_ok(data_file, hashes_file, s),
        CheckError::Hashes { slab, err: _ } => begin <= slab < end && data_file.slab(slab as int) is Some
            && hashes_file.slab(slab as int) is None
            && forall|s: int| begin <= s < slab ==> slab_ok(data_file, hashes_file, s),
        CheckError::BadIndex { slab, err: _ } => begin <= slab < end && data_file.slab(slab as int) is Some
            && hashes_file.slab(slab as int) is Some && !hash_slab_ok(hashes_file.slab(slab as int)->Some_0)
            && forall|s: int| begin <= s < slab ==> slab_ok(data_file, hashes_file, s),
        CheckError::HashMismatch { slab, record } => {
            &&& begin <= slab < end
            &&& forall|s: int| begin <= s < slab ==> slab_ok(data_file, hashes_file, s)
            &&& data_file.slab(slab as int) is Some
            &&& hashes_file.slab(slab as int) is Some
            &&& hash_slab_ok(hashes_file.slab(slab as int)->Some_0)
            &&& record < nr_entries(hashes_file.slab(slab as int)->Some_0)
            &&& forall|i: int| 0 <= i < record ==> entry_matches(data_file.slab(slab as int)->Some_0,
                #[trigger] entry_at(hashes_file.slab(slab as int)->Some_0, i))
            &&& !entry_matches(data_file.slab(slab as int)->Some_0,
                entry_at(hashes_file.slab(slab as int)->Some_0, record as int))
        },
        _ => false,
    }
}

/// Checks slabs `begin..end` of a data file against the hash-index file.
/// Stops at the first slab that cannot be read or does not match.
pub fn check_data_and_hashes(data_file: &SlabFile, hashes_file: &SlabFile, begin: u64, end: u64) -> (r: Result<
    (),
    CheckError,
>)
    ensures
        r is Ok <==> forall|s: int| begin <= s < end ==> slab_ok(data_file, hashes_file, s),
        r matches Err(e) ==> first_failing_slab(data_file, hashes_file, begin as int, end as int, e),
{
    let mut s: u64 = begin;
    while s < end
        invariant
            begin <= s,
            s <= end || begin >= end,
            forall|t: int| begin <= t < s ==> slab_ok(data_file, hashes_file, t),
        decreases end - s,
    {
        let data = match data_file.read_uncached(s) {
            Ok(d) => d,
            Err(err) => {
                assert(!slab_ok(data_file, hashes_file, s as int));
                return Err(CheckError::Data { slab: s, err });
            },
        };
        let hashes = match hashes_file.read_uncached(s) {
            Ok(h) => h,
            Err(err) => {
                assert(!slab_ok(data_file, hashes_file, s as int));
                return Err(CheckError::Hashes { slab: s, err });
            },
        };
        let c = check_slab(data.as_slice(), hashes.as_slice(), s);
        if c.is_err() {
            assert(!slab_ok(data_file, hashes_file, s as int));
            return c;
        }
        s += 1;
    }
    Ok(())
}

/// Splits slabs `0..nr_slabs` into `nr_workers` contiguous ranges of
/// `nr_slabs / nr_workers` slabs each; the last range takes the remainder.
pub fn partition(nr_slabs: u64, nr_workers: u64) -> (r: Vec<(u64, u64)>)
    requires
        nr_workers > 0,
    ensures
        r@.len() == nr_workers,
        r@[0].0 == 0,
        r@[nr_workers - 1].1 == nr_slabs,
        forall|i: int| 0 <= i < nr_workers - 1 ==> (#[trigger] r@[i]).1 == r@[i + 1].0,
        forall|i: int| 0 <= i < nr_workers - 1 ==> (#[trigger] r@[i]).1 - r@[i].0 == nr_slabs / nr_workers,
        forall|i: int| 0 <= i < nr_workers ==> (#[trigger] r@[i]).0 <= r@[i].1,
{
    let per = nr_slabs / nr_workers;
    let mut r: Vec<(u64, u64)> = Vec::new();
    let mut begin: u64 = 0;
    let mut i: u64 = 0;
    while i < nr_workers
        invariant
            per == nr_slabs / nr_workers,
            0 <= i <= nr_workers,
            begin == i * per,
            r@.len() == i,
            i < nr_workers ==> begin <= nr_slabs,
            i > 0 ==> r@[0].0 == 0,
            i > 0 ==> r@[i - 1].1 == if i == nr_workers { nr_slabs } else { begin },
            forall|j: int| 0 <= j < i - 1 ==> (#[trigger] r@[j]).1 == r@[j + 1].0,
            forall|j: int| 0 <= j < i && j < nr_workers - 1 ==> (#[trigger] r@[j]).1 - r@[j].0 == per,
            forall|j: int| 0 <= j < i ==> (#[trigger] r@[j]).0 <= r@[j].1,
        decreases nr_workers - i,
    {
        proof {
            assert((i + 1) * per <= nr_slabs) by (nonlinear_arith)
                requires i < nr_workers, per == nr_slabs / nr_workers, nr_workers > 0;
            assert((i + 1) * per == i * per + per) by (nonlinear_arith);
        }
        let end = if i == nr_workers - 1 { nr_slabs } else { begin + per };
        r.push((begin, end));
        begin = begin + per;
        i += 1;
    }
    r
}

/// The first error among the workers' results, or success if there is none.
pub fn first_error(results: &Vec<Result<(), CheckError>>) -> (r: Result<(), CheckError>)
    ensures
        r is Ok <==> forall|i: int| 0 <= i < results@.len() ==> (#[trigger] results@[i]) is Ok,
        r is Err ==> exists|i: int|
            0 <= i < results@.len() && (#[trigger] results@[i]) == r && forall|j: int| 0 <= j < i ==> (#[trigger] results@[j]) is Ok,
{
    let mut i: usize = 0;
    while i < results.len()
        invariant
            0 <= i <= results@.len(),
            forall|j: int| 0 <= j < i ==> (#[trigger] results@[j]) is Ok,
        decreases results@.len() - i,
    {
        if results[i].is_err() {
            return results[i];
        }
        i += 1;
    }
    Ok(())
}

/// The checks made before any slab is read: both files hold the same
/// number of slabs, and that number fits a 32-bit slab index.
pub fn check_counts(data_file: &SlabFile, hashes_file: &SlabFile) -> (r: Result<u64, CheckError>)
    ensures
        data_file.offsets@.len() != hashes_file.offsets@.len() ==> r == Err::<u64, CheckError>(CheckError::CountMismatch),
        data_file.offsets@.len() == hashes_file.offsets@.len() && data_file.offsets@.len() > u32::MAX ==> r
            == Err::<u64, CheckError>(CheckError::TooManySlabs),
        data_file.offsets@.len() == hashes_file.offsets@.len() && data_file.offsets@.len() <= u32::MAX ==> r
            == Ok::<u64, CheckError>(data_file.offsets@.len() as u64),
{
    let n = data_file.get_nr_slabs();
    if n != hashes_file.get_nr_slabs() {
        return Err(CheckError::CountMismatch);
    }
    if n > u32::MAX as u64 {
        return Err(CheckError::TooManySlabs);
    }
    Ok(n)
}

/// Checks a whole content store: counts first, then every slab, range by
/// range as `nr_workers` workers would split them. The error of the first
/// failing range wins, so it names the first failing slab and record.
pub fn check(data_file: &SlabFile, hashes_file: &SlabFile, nr_workers: u64) -> (r: Result<(), CheckError>)
    requires
        nr_workers > 0,
    ensures
        data_file.offsets@.len() != hashes_file.offsets@.len() ==> r == Err::<(), CheckError>(CheckError::CountMismatch),
        data_file.offsets@.len() == hashes_file.offsets@.len() && data_file.offsets@.len() > u32::MAX ==> r
            == Err::<(), CheckError>(CheckError::TooManySlabs),
        data_file.offsets@.len() == hashes_file.offsets@.len() && data_file.offsets@.len() <= u32::MAX ==> {
            &&& r is Ok <==> forall|s: int| 0 <= s < data_file.offsets@.len() ==> slab_ok(data_file, hashes_file, s)
            &&& r matches Err(e) ==> first_failing_slab(data_file, hashes_file, 0, data_file.offsets@.len() as int, e)
        },
{
    let n = match check_counts(data_file, hashes_file) {
        Ok(n) => n,
        Err(e) => {
            return Err(e);
        },
    };
    let ranges = partition(n, nr_workers);
    let mut k: usize = 0;
    while k < ranges.len()
        invariant
            n == data_file.offsets@.len(),
            n == hashes_file.offsets@.len(),
            n <= u32::MAX,
            ranges@.len() == nr_workers,
            ranges@[0].0 == 0,
            ranges@[nr_workers - 1].1 == n,
            forall|i: int| 0 <= i < nr_workers - 1 ==> (#[trigger] ranges@[i]).1 == ranges@[i + 1].0,
            forall|i: int| 0 <= i < nr_workers ==> (#[trigger] ranges@[i]).0 <= ranges@[i].1,
            0 <= k <= ranges@.len(),
            forall|s: int| 0 <= s < (if k == 0 { 0 } else { ranges@[k - 1].1 as int }) ==> slab_ok(data_file, hashes_file, s),
        decreases ranges@.len() - k,
    {
        let (b, e) = ranges[k];
        proof {
            let lo: int = if k == 0 { 0 } else { ranges@[k - 1].1 as int };
            assert(b == lo);
            assert(e <= n) by {
                if k < nr_workers - 1 {
                    assert(ranges@[k as int].1 == ranges@[k + 1].0);
                    lemma_range_starts_mono(ranges@, k + 1, nr_workers - 1);
                }
            }
        }
        match check_data_and_hashes(data_file, hashes_file, b, e) {
            Ok(()) => {},
            Err(err) => {
                proof {
                    assert(first_failing_slab(data_file, hashes_file, b as int, e as int, err));
                }
                return Err(err);
            },
        }
        proof {
            assert forall|s: int| 0 <= s < e implies slab_ok(data_file, hashes_file, s) by {
                if s >= b {
                    assert(b <= s < e);
                }
            }
        }
        k += 1;
    }
    Ok(())
}

proof fn lemma_range_starts_mono(ranges: Seq<(u64, u64)>, i: int, j: int)
    requires
        0 <= i <= j < ranges.len(),
        forall|x: int| 0 <= x < ranges.len() - 1 ==> (#[trigger] ranges[x]).1 == ranges[x + 1].0,
        forall|x: int| 0 <= x < ranges.len() ==> (#[trigger] ranges[x]).0 <= ranges[x].1,
    ensures
        ranges[i].0 <= ranges[j].0,
    decreases j - i,
{
    if i < j {
        assert(ranges[i].1 == ranges[i + 1].0);
        lemma_range_starts_mono(ranges, i + 1, j);
    }
}

/// Changing one byte of a data slab that lies in the range of an entry,
/// where the digest of that range changes with it, makes the check of the
/// slab fail at the first entry whose range covers the byte, while the
/// entries before it still match.
pub proof fn lemma_tampering_detected(d: Seq<u8>, h: Seq<u8>, k: int, x: u8, i: int)
    requires
        slab_consistent(d, h),
        0 <= i < nr_entries(h),
        entry_at(h, i).0 <= k < entry_at(h, i).1,
        forall|j: int| 0 <= j < i ==> !((#[trigger] entry_at(h, j)).0 <= k < entry_at(h, j).1),
        hash256_of(d.update(k, x).subrange(entry_at(h, i).0 as int, entry_at(h, i).1 as int)) != hash256_of(
            d.subrange(entry_at(h, i).0 as int, entry_at(h, i).1 as int),
        ),
    ensures
        !slab_consistent(d.update(k, x), h),
        forall|j: int| 0 <= j < i ==> entry_matches(d.update(k, x), #[trigger] entry_at(h, j)),
        !entry_matches(d.update(k, x), entry_at(h, i)),
{
    let d2 = d.update(k, x);
    assert(entry_matches(d, entry_at(h, i)));
    assert forall|j: int| 0 <= j < i implies entry_matches(d2, #[trigger] entry_at(h, j)) by {
        let e = entry_at(h, j);
        assert(entry_matches(d, e));
        assert(d2.subrange(e.0 as int, e.1 as int) =~= d.subrange(e.0 as int, e.1 as int));
    }
}

} // verus!
