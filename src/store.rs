//! The content store: records addressed by `(slab, record)` and
//! deduplicated by content digest.
use crate::bytes::{bytes_eq, copy_range, push_all};
use crate::index::{lemma_total_len_prefix, build_hash_index, data_slab_ok, entries_of, expected_entries, hash_slab_ok, pack_data_slab, records_of, total_len, HASH_LEN};
use crate::slab::{file_image, SlabError};
use crate::hash::{hash256_of, hash_256};
use crate::writer::SlabWriter;
use vstd::prelude::*;

verus! {

#[derive(Debug, Clone, Copy, PartialEq, Eq, Structural)]
pub enum StoreError {
    /// No such slab.
    SlabOutOfRange { slab: u32 },
    /// No such record in the slab.
    RecordOutOfRange { slab: u32, record: u32 },
    /// A slab of the store's files could not be read.
    Slab { slab: u32, err: SlabError },
    /// A hash-index slab is malformed or does not fit its data slab.
    BadIndex { slab: u32 },
    /// The store cannot take more slabs or bytes.
    Full,
}

/// A content store being filled. Records go into the open slab until it
/// reaches the target size; each digest is stored at most once.
pub struct ContentStore {
    slabs: Vec<Vec<Vec<u8>>>,
    hashes: Vec<Vec<Vec<u8>>>,
    cur_size: usize,
    slab_target: usize,
    compressed: bool,
}

impl ContentStore {
    /// The records of each slab, the open slab last.
    pub closed spec fn records(&self) -> Seq<Seq<Seq<u8>>> {
        self.slabs@.map_values(|s: Vec<Vec<u8>>| s@.map_values(|r: Vec<u8>| r@))
    }

    /// The digest stored with each record.
    pub closed spec fn digests(&self) -> Seq<Seq<Seq<u8>>> {
        self.hashes@.map_values(|s: Vec<Vec<u8>>| s@.map_values(|r: Vec<u8>| r@))
    }

    pub closed spec fn compressed(&self) -> bool {
        self.compressed
    }

    pub open spec fn valid_loc(&self, s: int, i: int) -> bool {
        0 <= s < self.records().len() && 0 <= i < self.records()[s].len()
    }

    /// Some record of the store has digest `h`.
    /// No room for another record: the store has as many slabs as a 32-bit
    /// index can name, or its open slab as many records.
    pub open spec fn is_full(&self) -> bool {
        self.records().len() >= u32::MAX || self.records().last().len() >= u32::MAX
    }

    pub open spec fn holds_hash(&self, h: Seq<u8>) -> bool {
        exists|s: int, i: int| self.valid_loc(s, i) && #[trigger] self.digests()[s][i] == h
    }

    /// Every stored digest is the digest of its record's bytes.
    pub open spec fn digests_true(&self) -> bool {
        forall|s: int, i: int| self.valid_loc(s, i) ==> #[trigger] self.digests()[s][i] == hash256_of(self.records()[s][i])
    }

    pub closed spec fn wf(&self) -> bool {
        &&& self.slabs@.len() > 0
        &&& self.slabs@.len() <= u32::MAX
        &&& self.hashes@.len() == self.slabs@.len()
        &&& forall|s: int| 0 <= s < self.slabs@.len() ==> (#[trigger] self.hashes@[s])@.len() == self.slabs@[s]@.len()
        &&& forall|s: int| 0 <= s < self.slabs@.len() ==> (#[trigger] self.slabs@[s])@.len() <= u32::MAX
        &&& forall|s: int, i: int| self.valid_loc(s, i) ==> (#[trigger] self.digests()[s][i]).len() == HASH_LEN
        &&& forall|s1: int, i1: int, s2: int, i2: int|
            self.valid_loc(s1, i1) && self.valid_loc(s2, i2) && #[trigger] self.digests()[s1][i1]
                == #[trigger] self.digests()[s2][i2] ==> s1 == s2 && i1 == i2
    }

    /// An empty store whose open slab is closed once it holds `slab_target` bytes.
    pub fn new(slab_target: usize, compressed: bool) -> (r: ContentStore)
        ensures
            r.wf(),
            r.records() == seq![Seq::<Seq<u8>>::empty()],
            r.digests() == seq![Seq::<Seq<u8>>::empty()],
            r.compressed() == compressed,
    {
        let mut slabs: Vec<Vec<Vec<u8>>> = Vec::new();
        slabs.push(Vec::new());
        let mut hashes: Vec<Vec<Vec<u8>>> = Vec::new();
        hashes.push(Vec::new());
        let r = ContentStore { slabs, hashes, cur_size: 0, slab_target, compressed };
        assert(r.records() =~~= seq![Seq::<Seq<u8>>::empty()]);
        assert(r.digests() =~~= seq![Seq::<Seq<u8>>::empty()]);
        r
    }

    fn find(&self, hash: &[u8]) -> (r: Option<(u32, u32)>)
        requires
            self.wf(),
        ensures
            match r {
                Some(loc) => self.valid_loc(loc.0 as int, loc.1 as int) && self.digests()[loc.0 as int][loc.1 as int]
                    == hash@,
                None => !self.holds_hash(hash@),
            },
    {
        let mut s: usize = 0;
        while s < self.hashes.len()
            invariant
                self.wf(),
                0 <= s <= self.hashes@.len(),
                forall|t: int, i: int| 0 <= t < s && self.valid_loc(t, i) ==> #[trigger] self.digests()[t][i] != hash@,
            decreases self.hashes@.len() - s,
        {
            let hs = &self.hashes[s];
            let mut i: usize = 0;
            while i < hs.len()
                invariant
                    self.wf(),
                    0 <= s < self.hashes@.len(),
                    hs == self.hashes@[s as int],
                    0 <= i <= hs@.len(),
                    forall|t: int, j: int| 0 <= t < s && self.valid_loc(t, j) ==> #[trigger] self.digests()[t][j] != hash@,
                    forall|j: int| 0 <= j < i ==> #[trigger] self.digests()[s as int][j] != hash@,
                decreases hs@.len() - i,
            {
                assert(self.digests()[s as int][i as int] == hs@[i as int]@);
                if bytes_eq(hs[i].as_slice(), hash) {
                    return Some((s as u32, i as u32));
                }
                i += 1;
            }
            s += 1;
        }
        None
    }

    /// Adds a record under its digest. Where the store already holds that
    /// digest, hands back the existing location and writes nothing;
    /// otherwise stores the record in the open slab, first closing that
    /// slab if the record would take it past the target size.
    pub fn data_add(&mut self, hash: &[u8], data: &[u8]) -> (r: Result<(u32, u32), StoreError>)
        requires
            old(self).wf(),
            hash@.len() == HASH_LEN,
        ensures
            final(self).wf(),
            final(self).compressed() == old(self).compressed(),
            old(self).digests_true() && hash@ == hash256_of(data@) ==> final(self).digests_true(),
            forall|t: int, j: int| old(self).valid_loc(t, j) ==> final(self).valid_loc(t, j)
                && final(self).records()[t][j] == old(self).records()[t][j]
                && final(self).digests()[t][j] == old(self).digests()[t][j],
            old(self).holds_hash(hash@) ==> final(self).records() == old(self).records() && final(self).digests()
                == old(self).digests() && r is Ok && old(self).valid_loc(r->Ok_0.0 as int, r->Ok_0.1 as int)
                && old(self).digests()[r->Ok_0.0 as int][r->Ok_0.1 as int] == hash@,
            !old(self).holds_hash(hash@) ==> match r {
                Ok(loc) => {
                    let (s, i) = (loc.0 as int, loc.1 as int);
                    &&& final(self).valid_loc(s, i)
                    &&& final(self).records()[s][i] == data@
                    &&& final(self).digests()[s][i] == hash@
                    &&& i == final(self).records()[s].len() - 1
                    &&& s == final(self).records().len() - 1
                    &&& final(self).records().len() == old(self).records().len() || final(self).records().len()
                        == old(self).records().len() + 1
                    &&& forall|t: int, j: int| old(self).valid_loc(t, j) ==> final(self).valid_loc(t, j)
                        && final(self).records()[t][j] == old(self).records()[t][j]
                        && final(self).digests()[t][j] == old(self).digests()[t][j]
                    &&& forall|t: int, j: int| final(self).valid_loc(t, j) && !(t == s && j == i) ==> old(self).valid_loc(t, j)
                },
                Err(e) => e == StoreError::Full && old(self).is_full() && final(self).records() == old(self).records() && final(self).digests()
                    == old(self).digests(),
            },
    {
        if let Some(loc) = self.find(hash) {
            return Ok(loc);
        }
        let last = self.slabs.len() - 1;
        let cur_len = self.slabs[last].len();
        if cur_len > 0 && (data.len() > self.slab_target || self.cur_size > self.slab_target - data.len()) {
            if self.slabs.len() as u64 >= u32::MAX as u64 {
                return Err(StoreError::Full);
            }
            let ghost old_recs = self.records();
            let ghost old_digs = self.digests();
            self.slabs.push(Vec::new());
            self.hashes.push(Vec::new());
            self.cur_size = 0;
            proof {
                assert(self.records() =~~= old_recs.push(Seq::empty()));
                assert(self.digests() =~~= old_digs.push(Seq::empty()));
            }
        }
        let last = self.slabs.len() - 1;
        if self.slabs[last].len() as u64 >= u32::MAX as u64 {
            return Err(StoreError::Full);
        }
        let ghost mid = *self;
        let mut rec: Vec<u8> = Vec::new();
        push_all(&mut rec, data);
        let mut h: Vec<u8> = Vec::new();
        push_all(&mut h, hash);
        let mut cur: Vec<Vec<u8>> = Vec::new();
        self.slabs.set_and_swap(last, &mut cur);
        let mut cur_h: Vec<Vec<u8>> = Vec::new();
        self.hashes.set_and_swap(last, &mut cur_h);
        let i = cur.len();
        cur.push(rec);
        cur_h.push(h);
        self.slabs.set(last, cur);
        self.hashes.set(last, cur_h);
        self.cur_size = if self.cur_size > usize::MAX - data.len() { usize::MAX } else { self.cur_size + data.len() };
        proof {
            assert(self.records()[last as int] =~= mid.records()[last as int].push(data@));
            assert(self.digests()[last as int] =~= mid.digests()[last as int].push(hash@));
            assert forall|t: int, j: int| mid.valid_loc(t, j) implies self.valid_loc(t, j)
                && self.records()[t][j] == mid.records()[t][j] && self.digests()[t][j] == mid.digests()[t][j] by {
                if t == last {
                } else {
                    assert(self.slabs@[t] == mid.slabs@[t]);
                    assert(self.hashes@[t] == mid.hashes@[t]);
                }
            }
            assert forall|t: int, j: int| self.valid_loc(t, j) && !(t == last && j == i) implies mid.valid_loc(t, j) by {
                if t != last {
                    assert(self.slabs@[t] == mid.slabs@[t]);
                }
            }
            assert forall|s1: int, i1: int, s2: int, i2: int|
                self.valid_loc(s1, i1) && self.valid_loc(s2, i2) && #[trigger] self.digests()[s1][i1]
                    == #[trigger] self.digests()[s2][i2] implies s1 == s2 && i1 == i2 by {
                let new1 = s1 == last && i1 == i;
                let new2 = s2 == last && i2 == i;
                if !new1 && !new2 {
                    assert(mid.digests()[s1][i1] == mid.digests()[s2][i2]);
                } else if new1 && !new2 {
                    assert(mid.digests()[s2][i2] == hash@);
                    assert(old(self).valid_loc(s2, i2));
                } else if !new1 && new2 {
                    assert(mid.digests()[s1][i1] == hash@);
                    assert(old(self).valid_loc(s1, i1));
                }
            }
            assert forall|s: int| 0 <= s < self.slabs@.len() implies (#[trigger] self.hashes@[s])@.len() == self.slabs@[s]@.len() by {
                if s != last {
                    assert(self.slabs@[s] == mid.slabs@[s]);
                    assert(self.hashes@[s] == mid.hashes@[s]);
                }
            }
            assert forall|s: int| 0 <= s < self.slabs@.len() implies (#[trigger] self.slabs@[s])@.len() <= u32::MAX by {
                if s != last {
                    assert(self.slabs@[s] == mid.slabs@[s]);
                }
            }
            assert forall|s: int, j: int| self.valid_loc(s, j) implies (#[trigger] self.digests()[s][j]).len() == HASH_LEN by {
                if !(s == last && j == i) {
                    assert(mid.valid_loc(s, j));
                }
            }
            if old(self).digests_true() && hash@ == hash256_of(data@) {
                assert forall|s: int, j: int| self.valid_loc(s, j) implies #[trigger] self.digests()[s][j] == hash256_of(self.records()[s][j]) by {
                    if !(s == last && j == i) {
                        assert(mid.valid_loc(s, j));
                        assert(old(self).valid_loc(s, j));
                    }
                }
            }
            assert forall|t: int, j: int| old(self).valid_loc(t, j) implies self.valid_loc(t, j)
                && self.records()[t][j] == old(self).records()[t][j]
                && self.digests()[t][j] == old(self).digests()[t][j] by {
                assert(mid.valid_loc(t, j));
            }
        }
        Ok((last as u32, i as u32))
    }

    /// Adds a record under the digest of its bytes; see `data_add`.
    pub fn add(&mut self, data: &[u8]) -> (r: Result<(u32, u32), StoreError>)
        requires
            old(self).wf(),
        ensures
            final(self).wf(),
            final(self).compressed() == old(self).compressed(),
            old(self).digests_true() ==> final(self).digests_true(),
            forall|t: int, j: int| old(self).valid_loc(t, j) ==> final(self).valid_loc(t, j)
                && final(self).records()[t][j] == old(self).records()[t][j]
                && final(self).digests()[t][j] == old(self).digests()[t][j],
            old(self).holds_hash(hash256_of(data@)) ==> final(self).records() == old(self).records()
                && final(self).digests() == old(self).digests() && r is Ok && old(self).valid_loc(
                r->Ok_0.0 as int,
                r->Ok_0.1 as int,
            ) && old(self).digests()[r->Ok_0.0 as int][r->Ok_0.1 as int] == hash256_of(data@),
            !old(self).holds_hash(hash256_of(data@)) ==> match r {
                Ok(loc) => {
                    let (s, i) = (loc.0 as int, loc.1 as int);
                    &&& final(self).valid_loc(s, i)
                    &&& final(self).records()[s][i] == data@
                    &&& final(self).digests()[s][i] == hash256_of(data@)
                    &&& i == final(self).records()[s].len() - 1
                    &&& s == final(self).records().len() - 1
                    &&& forall|t: int, j: int| final(self).valid_loc(t, j) && !(t == s && j == i) ==> old(self).valid_loc(t, j)
                },
                Err(e) => e == StoreError::Full && old(self).is_full() && final(self).records() == old(self).records() && final(self).digests()
                    == old(self).digests(),
            },
    {
        let h = hash_256(data);
        self.data_add(h.as_slice(), data)
    }

    /// The slab files of the store: each slab's records packed into a data
    /// slab, and beside it the hash-index slab built from that data slab.
    pub fn close(self) -> (r: Result<(Vec<u8>, Vec<u8>), StoreError>)
        requires
            self.wf(),
        ensures
            match r {
                Ok(files) => exists|ds: Seq<Seq<u8>>, hs: Seq<Seq<u8>>|
                    {
                        &&& files.0@ == file_image(self.compressed(), ds)
                        &&& files.1@ == file_image(self.compressed(), hs)
                        &&& ds.len() == self.records().len()
                        &&& hs.len() == self.records().len()
                        &&& forall|i: int| 0 <= i < ds.len() ==> {
                            &&& data_slab_ok(#[trigger] ds[i])
                            &&& records_of(ds[i]) == self.records()[i]
                            &&& hash_slab_ok(hs[i])
                            &&& entries_of(hs[i]) == expected_entries(ds[i])
                        }
                    },
                Err(e) => e == StoreError::Full,
            },
            (forall|i: int|
                0 <= i < self.records().len() ==> 8 + 8 * self.records()[i].len() + total_len(#[trigger] self.records()[i])
                    <= usize::MAX) ==> r is Ok,
    {
        let mut dw = SlabWriter::new(self.compressed);
        let mut hw = SlabWriter::new(self.compressed);
        let ghost mut ds: Seq<Seq<u8>> = Seq::empty();
        let ghost mut hs: Seq<Seq<u8>> = Seq::empty();
        let mut k: usize = 0;
        while k < self.slabs.len()
            invariant
                self.wf(),
                0 <= k <= self.slabs@.len(),
                dw.wf(),
                hw.wf(),
                dw.compressed() == self.compressed,
                hw.compressed() == self.compressed,
                dw.reserved() == k,
                hw.reserved() == k,
                dw.completed().dom() == Set::new(|i: nat| i < k),
                hw.completed().dom() == Set::new(|i: nat| i < k),
                ds.len() == k,
                hs.len() == k,
                forall|i: int| 0 <= i < k ==> dw.completed()[i as nat] == #[trigger] ds[i],
                forall|i: int| 0 <= i < k ==> hw.completed()[i as nat] == #[trigger] hs[i],
                forall|i: int| 0 <= i < k ==> {
                    &&& data_slab_ok(#[trigger] ds[i])
                    &&& records_of(ds[i]) == self.records()[i]
                    &&& hash_slab_ok(hs[i])
                    &&& entries_of(hs[i]) == expected_entries(ds[i])
                },
            decreases self.slabs@.len() - k,
        {
            let slab = &self.slabs[k];
            let ghost recs = slab@.map_values(|v: Vec<u8>| v@);
            let ghost fits = forall|i: int|
                0 <= i < self.records().len() ==> 8 + 8 * self.records()[i].len() + total_len(#[trigger] self.records()[i])
                    <= usize::MAX;
            proof {
                assert(self.records()[k as int] =~= recs);
                if fits {
                    assert(8 + 8 * recs.len() + total_len(recs) <= usize::MAX);
                }
            }
            let mut total: usize = 0;
            let mut j: usize = 0;
            if slab.len() > (usize::MAX - 8) / 8 {
                proof {
                    if fits {
                        assert(slab@.len() <= (usize::MAX - 8) / 8) by (nonlinear_arith)
                            requires 8 + 8 * slab@.len() + total_len(recs) <= usize::MAX, recs.len() == slab@.len();
                    }
                }
                return Err(StoreError::Full);
            }
            let head = 8 + 8 * slab.len();
            while j < slab.len()
                invariant
                    0 <= j <= slab@.len(),
                    recs == slab@.map_values(|v: Vec<u8>| v@),
                    head == 8 + 8 * slab@.len(),
                    head + total <= usize::MAX,
                    total == total_len(recs.subrange(0, j as int)),
                    fits ==> head + total_len(recs) <= usize::MAX,
                    fits == (forall|i: int|
                        0 <= i < self.records().len() ==> 8 + 8 * self.records()[i].len() + total_len(
                            #[trigger] self.records()[i],
                        ) <= usize::MAX),
                decreases slab@.len() - j,
            {
                proof {
                    lemma_total_len_prefix(recs, j as int);
                    lemma_total_len_prefix_le(recs, j + 1);
                }
                if slab[j].len() > usize::MAX - head - total {
                    proof {
                        assert(recs[j as int].len() == slab@[j as int]@.len());
                    }
                    return Err(StoreError::Full);
                }
                total = total + slab[j].len();
                j += 1;
            }
            proof {
                assert(recs.subrange(0, slab@.len() as int) =~= recs);
            }
            let d = pack_data_slab(slab);
            let h = match build_hash_index(d.as_slice()) {
                Ok(h) => h,
                Err(_) => {
                    return Err(StoreError::Full);
                },
            };
            let ghost dk = dw.reserved();
            let _ = dw.write_slab(d.as_slice());
            let _ = hw.write_slab(h.as_slice());
            proof {
                assert(!Set::new(|i: nat| i < k).contains(k as nat));
                assert(self.records()[k as int] == recs);
                ds = ds.push(d@);
                hs = hs.push(h@);
                assert(dw.completed().dom() =~= Set::new(|i: nat| i < k + 1));
                assert(hw.completed().dom() =~= Set::new(|i: nat| i < k + 1));
            }
            k += 1;
        }
        proof {
            assert(dw.close_ok());
            assert(hw.close_ok());
            assert(dw.in_index_order(dw.reserved()) =~= ds);
            assert(hw.in_index_order(hw.reserved()) =~= hs);
        }
        let d = match dw.close() {
            Ok(d) => d,
            Err(_) => {
                return Err(StoreError::Full);
            },
        };
        let h = match hw.close() {
            Ok(h) => h,
            Err(_) => {
                return Err(StoreError::Full);
            },
        };
        proof {
            assert(ds.len() == self.records().len());
            assert(d@ == file_image(self.compressed(), ds));
            assert(h@ == file_image(self.compressed(), hs));
        }
        Ok((d, h))
    }

    /// The bytes of the record at `(slab, record)`.
    pub fn data_get(&self, slab: u32, record: u32) -> (r: Result<Vec<u8>, StoreError>)
        requires
            self.wf(),
        ensures
            match r {
                Ok(v) => self.valid_loc(slab as int, record as int) && v@ == self.records()[slab as int][record as int],
                Err(_) => !self.valid_loc(slab as int, record as int),
            },
    {
        if slab as usize >= self.slabs.len() {
            return Err(StoreError::SlabOutOfRange { slab });
        }
        let s = &self.slabs[slab as usize];
        if record as usize >= s.len() {
            return Err(StoreError::RecordOutOfRange { slab, record });
        }
        let v = copy_range(s[record as usize].as_slice(), 0, s[record as usize].len());
        assert(s@[record as int]@.subrange(0, s@[record as int]@.len() as int) =~= s@[record as int]@);
        Ok(v)
    }
}

proof fn lemma_total_len_prefix_le(recs: Seq<Seq<u8>>, j: int)
    requires
        0 <= j <= recs.len(),
    ensures
        total_len(recs.subrange(0, j)) <= total_len(recs),
    decreases recs.len() - j,
{
    if j < recs.len() {
        lemma_total_len_prefix(recs, j);
        lemma_total_len_prefix_le(recs, j + 1);
    } else {
        assert(recs.subrange(0, j) =~= recs);
    }
}

/// A store holds each digest at one location at most. So when a record is
/// added twice under the same digest, the location that the second
/// addition returns (which, by `data_add`, changes nothing) is the one the
/// first returned.
pub proof fn lemma_dedup_idempotent(a: &ContentStore, hash: Seq<u8>, l1: (u32, u32), l2: (u32, u32))
    requires
        a.wf(),
        a.valid_loc(l1.0 as int, l1.1 as int),
        a.digests()[l1.0 as int][l1.1 as int] == hash,
        a.valid_loc(l2.0 as int, l2.1 as int),
        a.digests()[l2.0 as int][l2.1 as int] == hash,
    ensures
        l1 == l2,
{
}

} // verus!
