//! Migration of streams from one archive to another, re-deduplicating
//! every record against the destination store.
use crate::bytes::copy_range;
use crate::hash::{hash256_of, hash_256};
use crate::index::{concat, entry_at, hash_slab_ok, nr_entries, parse_hash_slab};
use crate::mapping::{decodable, lemma_encoding_decodable, decode_entries, encode_all, encode_entry_into, lemma_encode_all_push, DecodeError, MapEntry};
use crate::slab::{file_image, SlabError, SlabFile};
use crate::store::{ContentStore, StoreError};
use crate::writer::{lemma_all_completed_flushed, lemma_written_bound, SlabWriter};
use vstd::prelude::*;

verus! {

#[derive(Debug, Clone, Copy, PartialEq, Eq, Structural)]
pub enum MigrateError {
    /// A reference to another stream, which never reaches migration.
    UnexpectedRef,
    /// A sub-range entry, which migration does not handle.
    PartialUnsupported,
    /// A data entry whose records run past the addressable range.
    BadEntry,
    /// A record of the source store could not be resolved.
    Source { slab: u32, record: u32 },
    /// A slab of the source stream could not be read.
    Stream { slab: u64, err: SlabError },
    /// A slab of the source stream could not be decoded.
    Decode { slab: u64, err: DecodeError },
    /// The destination store or stream is full.
    Full,
}

/// A content store opened for reading: its data and hash-index files.
pub struct Archive {
    pub data_file: SlabFile,
    pub hashes_file: SlabFile,
}

impl Archive {
    /// The bytes of record `record` of slab `slab`: the range that the
    /// hash-index slab gives for it within the data slab.
    pub open spec fn resolve(&self, slab: int, record: int) -> Option<Seq<u8>> {
        let d = self.data_file.slab(slab);
        let h = self.hashes_file.slab(slab);
        if d is Some && h is Some && hash_slab_ok(h->Some_0) && 0 <= record < nr_entries(h->Some_0) {
            let e = entry_at(h->Some_0, record);
            if e.0 <= e.1 <= d->Some_0.len() {
                Some(d->Some_0.subrange(e.0 as int, e.1 as int))
            } else {
                None
            }
        } else {
            None
        }
    }

    /// Resolves a location to the bytes of its record.
    pub fn data_get(&self, slab: u32, record: u32) -> (r: Result<Vec<u8>, StoreError>)
        ensures
            match r {
                Ok(v) => self.resolve(slab as int, record as int) == Some(v@),
                Err(_) => self.resolve(slab as int, record as int) is None,
            },
    {
        let d = match self.data_file.read_uncached(slab as u64) {
            Ok(d) => d,
            Err(err) => {
                return Err(StoreError::Slab { slab, err });
            },
        };
        let h = match self.hashes_file.read_uncached(slab as u64) {
            Ok(h) => h,
            Err(err) => {
                return Err(StoreError::Slab { slab, err });
            },
        };
        let es = match parse_hash_slab(h.as_slice()) {
            Ok(es) => es,
            Err(_) => {
                return Err(StoreError::BadIndex { slab });
            },
        };
        if record as usize >= es.len() {
            return Err(StoreError::RecordOutOfRange { slab, record });
        }
        let e = &es[record as usize];
        assert(e@ == entry_at(h@, record as int));
        if e.begin > e.end || e.end > d.len() as u64 {
            return Err(StoreError::BadIndex { slab });
        }
        Ok(copy_range(d.as_slice(), e.begin as usize, e.end as usize))
    }
}

/// What an entry becomes record by record: a data run of n records
/// becomes n single-record runs; fills and holes stay as they are.
pub open spec fn expand_entry(e: MapEntry) -> Seq<MapEntry> {
    match e {
        MapEntry::Data { slab, offset, nr_entries } => Seq::new(
            nr_entries as nat,
            |i: int| MapEntry::Data { slab, offset: (offset + i) as u32, nr_entries: 1 },
        ),
        MapEntry::Fill { .. } => seq![e],
        MapEntry::Unmapped { .. } => seq![e],
        _ => Seq::empty(),
    }
}

pub open spec fn expand(es: Seq<MapEntry>) -> Seq<MapEntry>
    decreases es.len(),
{
    if es.len() == 0 {
        Seq::empty()
    } else {
        expand(es.drop_last()) + expand_entry(es.last())
    }
}

/// Migration can take entry `e`: a fill, a hole, or a data run whose
/// records are all addressable and resolve in the source.
pub open spec fn entry_ok(src: &Archive, e: MapEntry) -> bool {
    match e {
        MapEntry::Data { slab, offset, nr_entries } => offset + nr_entries <= u32::MAX + 1 && forall|j: int|
            0 <= j < nr_entries ==> #[trigger] src.resolve(slab as int, offset + j) is Some,
        MapEntry::Fill { .. } => true,
        MapEntry::Unmapped { .. } => true,
        _ => false,
    }
}

/// Error `err` is what entry `e` fails with.
pub open spec fn entry_fails(src: &Archive, e: MapEntry, err: MigrateError) -> bool {
    match err {
        MigrateError::UnexpectedRef => e is Ref,
        MigrateError::PartialUnsupported => e is Partial,
        MigrateError::BadEntry => match e {
            MapEntry::Data { slab: _, offset, nr_entries } => offset + nr_entries > u32::MAX + 1,
            _ => false,
        },
        MigrateError::Source { slab, record } => match e {
            MapEntry::Data { slab: s, offset, nr_entries } => {
                &&& s == slab
                &&& offset <= record < offset + nr_entries
                &&& src.resolve(slab as int, record as int) is None
            },
            _ => false,
        },
        _ => false,
    }
}

/// Every entry before the `n`-th can be migrated, and the `n`-th fails with `err`.
pub open spec fn first_failure(src: &Archive, entries: Seq<MapEntry>, err: MigrateError) -> bool {
    exists|n: int|
        0 <= n < entries.len() && (forall|i: int| 0 <= i < n ==> entry_ok(src, #[trigger] entries[i])) && entry_fails(
            src,
            #[trigger] entries[n],
            err,
        )
}

pub open spec fn supported(e: MapEntry) -> bool {
    !(e is Ref) && !(e is Partial)
}

/// `m` is what migration made of `e`: the same fill or hole, or a
/// single-record run at a destination location whose digest is that of
/// the source record's bytes.
pub open spec fn migrated(src: &Archive, dest: &ContentStore, e: MapEntry, m: MapEntry) -> bool {
    match e {
        MapEntry::Data { slab, offset, nr_entries: _ } => match m {
            MapEntry::Data { slab: s2, offset: o2, nr_entries } => {
                &&& nr_entries == 1
                &&& src.resolve(slab as int, offset as int) is Some
                &&& dest.valid_loc(s2 as int, o2 as int)
                &&& dest.digests()[s2 as int][o2 as int] == hash256_of(src.resolve(slab as int, offset as int)->Some_0)
            },
            _ => false,
        },
        _ => m == e,
    }
}

pub proof fn lemma_expand_concat(a: Seq<MapEntry>, b: Seq<MapEntry>)
    ensures
        expand(a + b) == expand(a) + expand(b),
    decreases b.len(),
{
    if b.len() == 0 {
        assert(a + b =~= a);
        assert(expand(a) + expand(b) =~= expand(a));
    } else {
        assert((a + b).drop_last() =~= a + b.drop_last());
        assert((a + b).last() == b.last());
        lemma_expand_concat(a, b.drop_last());
        assert(expand(a + b) =~= expand(a) + expand(b));
    }
}

/// Migrates a sequence of entries: fills and holes pass through; each
/// record of a data run is read from the source, hashed, and added to the
/// destination, which may find it already there. References to other
/// streams and sub-range entries are refused.
pub fn migrate_entries(src: &Archive, dest: &mut ContentStore, entries: &Vec<MapEntry>) -> (r: Result<
    Vec<MapEntry>,
    MigrateError,
>)
    requires
        old(dest).wf(),
        old(dest).digests_true(),
    ensures
        final(dest).wf(),
        final(dest).digests_true(),
        final(dest).compressed() == old(dest).compressed(),
        forall|t: int, j: int| old(dest).valid_loc(t, j) ==> final(dest).valid_loc(t, j)
            && final(dest).records()[t][j] == old(dest).records()[t][j]
            && final(dest).digests()[t][j] == old(dest).digests()[t][j],
        match r {
            Ok(out) => {
                &&& forall|i: int| 0 <= i < entries@.len() ==> supported(#[trigger] entries@[i])
                &&& forall|i: int| 0 <= i < entries@.len() ==> entry_ok(src, #[trigger] entries@[i])
                &&& out@.len() == expand(entries@).len()
                &&& forall|k: int| 0 <= k < out@.len() ==> migrated(src, &*final(dest), #[trigger] expand(entries@)[k], out@[k])
                &&& forall|t: int, j: int| #[trigger] final(dest).valid_loc(t, j) && !old(dest).valid_loc(t, j) ==> exists|k: int|
                    0 <= k < out@.len() && #[trigger] out@[k] == (MapEntry::Data { slab: t as u32, offset: j as u32, nr_entries: 1 })
            },
            Err(e) => (e == MigrateError::Full && final(dest).is_full()) || first_failure(src, entries@, e),
        },
{
    let mut out: Vec<MapEntry> = Vec::new();
    let mut n: usize = 0;
    while n < entries.len()
        invariant
            0 <= n <= entries@.len(),
            dest.wf(),
            dest.digests_true(),
            dest.compressed() == old(dest).compressed(),
            forall|t: int, j: int| old(dest).valid_loc(t, j) ==> dest.valid_loc(t, j)
                && dest.records()[t][j] == old(dest).records()[t][j]
                && dest.digests()[t][j] == old(dest).digests()[t][j],
            forall|i: int| 0 <= i < n ==> supported(#[trigger] entries@[i]),
            forall|i: int| 0 <= i < n ==> entry_ok(src, #[trigger] entries@[i]),
            forall|t: int, j: int| #[trigger] dest.valid_loc(t, j) && !old(dest).valid_loc(t, j) ==> exists|k: int|
                0 <= k < out@.len() && #[trigger] out@[k] == (MapEntry::Data { slab: t as u32, offset: j as u32, nr_entries: 1 }),
            out@.len() == expand(entries@.subrange(0, n as int)).len(),
            forall|k: int| 0 <= k < out@.len() ==> migrated(src, &*dest, #[trigger] expand(entries@.subrange(0, n as int))[k], out@[k]),
        decreases entries@.len() - n,
    {
        let e = entries[n];
        let ghost prefix = entries@.subrange(0, n as int);
        let ghost out0 = out@;
        let ghost dest0 = *dest;
        proof {
            assert(entries@.subrange(0, n + 1) =~= prefix.push(e));
            assert(prefix.push(e).drop_last() =~= prefix);
        }
        match e {
            MapEntry::Fill { .. } | MapEntry::Unmapped { .. } => {
                out.push(e);
                proof {
                    assert forall|t: int, i: int| #[trigger] dest.valid_loc(t, i) && !old(dest).valid_loc(t, i) implies exists|k: int|
                        0 <= k < out@.len() && #[trigger] out@[k] == (MapEntry::Data { slab: t as u32, offset: i as u32, nr_entries: 1 }) by {
                        let k = choose|k: int| 0 <= k < out0.len() && #[trigger] out0[k] == (MapEntry::Data { slab: t as u32, offset: i as u32, nr_entries: 1 });
                        assert(out@[k] == out0[k]);
                    }
                    assert forall|k: int| 0 <= k < out@.len() implies migrated(src, &*dest, #[trigger] expand(entries@.subrange(0, n + 1))[k], out@[k]) by {
                        if k < out0.len() {
                            assert(expand(entries@.subrange(0, n + 1))[k] == expand(prefix)[k]);
                        }
                    }
                }
            },
            MapEntry::Ref { .. } => {
                assert(entry_fails(src, entries@[n as int], MigrateError::UnexpectedRef));
                return Err(MigrateError::UnexpectedRef);
            },
            MapEntry::Partial { .. } => {
                assert(entry_fails(src, entries@[n as int], MigrateError::PartialUnsupported));
                return Err(MigrateError::PartialUnsupported);
            },
            MapEntry::Data { slab, offset, nr_entries } => {
                if offset as u64 + nr_entries as u64 > u32::MAX as u64 + 1 {
                    assert(entry_fails(src, entries@[n as int], MigrateError::BadEntry));
                    return Err(MigrateError::BadEntry);
                }
                let mut j: u32 = 0;
                while j < nr_entries
                    invariant
                        0 <= j <= nr_entries,
                        e == (MapEntry::Data { slab, offset, nr_entries }),
                        offset + nr_entries <= u32::MAX + 1,
                        dest.wf(),
                        dest.digests_true(),
                        dest.compressed() == old(dest).compressed(),
                        forall|t: int, i: int| dest0.valid_loc(t, i) ==> dest.valid_loc(t, i)
                            && dest.records()[t][i] == dest0.records()[t][i]
                            && dest.digests()[t][i] == dest0.digests()[t][i],
                        forall|t: int, i: int| old(dest).valid_loc(t, i) ==> dest0.valid_loc(t, i)
                            && dest0.records()[t][i] == old(dest).records()[t][i]
                            && dest0.digests()[t][i] == old(dest).digests()[t][i],
                        out@.len() == out0.len() + j,
                        out0.len() == expand(prefix).len(),
                        forall|k: int| 0 <= k < out0.len() ==> migrated(src, &dest0, #[trigger] expand(prefix)[k], out0[k]),
                        forall|k: int| 0 <= k < out0.len() ==> out@[k] == out0[k],
                        forall|k: int| 0 <= k < j ==> migrated(src, &*dest, #[trigger] expand_entry(e)[k], out@[out0.len() + k]),
                        forall|jj: int| 0 <= jj < j ==> #[trigger] src.resolve(slab as int, offset + jj) is Some,
                        0 <= n < entries@.len(),
                        entries@[n as int] == e,
                        forall|i: int| 0 <= i < n ==> entry_ok(src, #[trigger] entries@[i]),
                        forall|t: int, i: int| #[trigger] dest.valid_loc(t, i) && !old(dest).valid_loc(t, i) ==> exists|k: int|
                            0 <= k < out@.len() && #[trigger] out@[k] == (MapEntry::Data { slab: t as u32, offset: i as u32, nr_entries: 1 }),
                    decreases nr_entries - j,
                {
                    let rec = offset + j;
                    let data = match src.data_get(slab, rec) {
                        Ok(d) => d,
                        Err(_) => {
proof {
                                assert forall|t: int, i: int| old(dest).valid_loc(t, i) implies dest.valid_loc(t, i)
                                    && dest.records()[t][i] == old(dest).records()[t][i]
                                    && dest.digests()[t][i] == old(dest).digests()[t][i] by {
                                    assert(dest0.valid_loc(t, i));
                                }
                            }
                            assert(entry_fails(src, entries@[n as int], MigrateError::Source { slab, record: rec }));
                            assert(first_failure(src, entries@, MigrateError::Source { slab, record: rec }));
                            return Err(MigrateError::Source { slab, record: rec });
                        },
                    };
                    let h = hash_256(data.as_slice());
                    let ghost dest1 = *dest;
                    let loc = match dest.data_add(h.as_slice(), data.as_slice()) {
                        Ok(loc) => loc,
                        Err(_) => {
proof {
                                assert forall|t: int, i: int| old(dest).valid_loc(t, i) implies dest.valid_loc(t, i)
                                    && dest.records()[t][i] == old(dest).records()[t][i]
                                    && dest.digests()[t][i] == old(dest).digests()[t][i] by {
                                    assert(dest0.valid_loc(t, i));
                                }
                            }
                            assert(dest.records() == dest1.records());
                            return Err(MigrateError::Full);
                        },
                    };
                    let ghost out1 = out@;
                    out.push(MapEntry::Data { slab: loc.0, offset: loc.1, nr_entries: 1 });
                    proof {
                        assert(src.resolve(slab as int, offset + j) is Some);
                        assert forall|jj: int| 0 <= jj < j + 1 implies #[trigger] src.resolve(slab as int, offset + jj) is Some by {
                            if jj == j {
                            }
                        }
                        assert forall|t: int, i: int| #[trigger] dest.valid_loc(t, i) && !old(dest).valid_loc(t, i) implies exists|k: int|
                            0 <= k < out@.len() && #[trigger] out@[k] == (MapEntry::Data { slab: t as u32, offset: i as u32, nr_entries: 1 }) by {
                            if t == loc.0 && i == loc.1 {
                                assert(out@[out1.len() as int] == (MapEntry::Data { slab: t as u32, offset: i as u32, nr_entries: 1 }));
                            } else {
                                assert(dest1.valid_loc(t, i));
                                let k = choose|k: int| 0 <= k < out1.len() && #[trigger] out1[k] == (MapEntry::Data { slab: t as u32, offset: i as u32, nr_entries: 1 });
                                assert(out@[k] == out1[k]);
                            }
                        }
                        assert(e == MapEntry::Data { slab, offset, nr_entries });
                        assert(expand_entry(e).len() == nr_entries);
                        assert(rec == (offset + j) as u32);
                        assert(expand_entry(e)[j as int] == MapEntry::Data { slab, offset: rec, nr_entries: 1 });
                        assert forall|k: int| 0 <= k < j + 1 implies migrated(src, &*dest, #[trigger] expand_entry(e)[k], out@[out0.len() + k]) by {
                            if k < j {
                                assert(migrated(src, &dest1, expand_entry(e)[k], out@[out0.len() + k]));
                            }
                        }
                    }
                    j += 1;
                }
                proof {
                    assert forall|jj: int| 0 <= jj < nr_entries implies #[trigger] src.resolve(slab as int, offset + jj) is Some by {}
                    assert(entry_ok(src, e));
                    assert forall|k: int| 0 <= k < out@.len() implies migrated(src, &*dest, #[trigger] expand(entries@.subrange(0, n + 1))[k], out@[k]) by {
                        if k < out0.len() {
                            assert(expand(entries@.subrange(0, n + 1))[k] == expand(prefix)[k]);
                            assert(migrated(src, &dest0, expand(prefix)[k], out0[k]));
                        } else {
                            assert(expand(entries@.subrange(0, n + 1))[k] == expand_entry(e)[k - out0.len()]);
                        }
                    }
                }
            },
        }
        n += 1;
    }
    assert(entries@.subrange(0, entries@.len() as int) =~= entries@);
    assert(forall|i: int| 0 <= i < entries@.len() ==> entry_ok(src, #[trigger] entries@[i]));
    assert(forall|i: int| 0 <= i < entries@.len() ==> supported(#[trigger] entries@[i]));
    assert(out@.len() == expand(entries@).len());
    Ok(out)
}

pub proof fn lemma_encode_all_concat(a: Seq<MapEntry>, b: Seq<MapEntry>)
    ensures
        encode_all(a + b) == encode_all(a) + encode_all(b),
    decreases b.len(),
{
    if b.len() == 0 {
        assert(a + b =~= a);
        assert(encode_all(a) + encode_all(b) =~= encode_all(a));
    } else {
        assert((a + b).drop_last() =~= a + b.drop_last());
        lemma_encode_all_concat(a, b.drop_last());
        assert(encode_all(a + b) =~= encode_all(a) + encode_all(b));
    }
}

pub proof fn lemma_concat_push(ss: Seq<Seq<u8>>, x: Seq<u8>)
    ensures
        concat(ss.push(x)) == concat(ss) + x,
{
    assert(ss.push(x).drop_last() =~= ss);
}

/// The payloads of the first `n` slabs of a stream file.
pub open spec fn stream_slabs(stream: &SlabFile, n: nat) -> Seq<Seq<u8>> {
    Seq::new(n, |i: int| stream.slab(i)->Some_0)
}

/// Migrates one stream: decodes every slab of the source stream file,
/// migrates its entries into `dest`, and packs the new entries into a new
/// stream file, closing a slab whenever it reaches `slab_target` bytes and
/// the last one at the end.
pub fn migrate_stream(src: &Archive, dest: &mut ContentStore, stream: &SlabFile, slab_target: usize) -> (r: Result<
    Vec<u8>,
    MigrateError,
>)
    requires
        old(dest).wf(),
        old(dest).digests_true(),
    ensures
        final(dest).wf(),
        final(dest).digests_true(),
        final(dest).compressed() == old(dest).compressed(),
        forall|t: int, j: int| old(dest).valid_loc(t, j) ==> final(dest).valid_loc(t, j)
            && final(dest).records()[t][j] == old(dest).records()[t][j]
            && final(dest).digests()[t][j] == old(dest).digests()[t][j],
        r matches Ok(img) ==> exists|ins: Seq<MapEntry>, outs: Seq<MapEntry>, slabs: Seq<Seq<u8>>|
            {
                &&& forall|i: int| 0 <= i < stream.offsets@.len() ==> (#[trigger] stream.slab(i)) is Some
                &&& concat(stream_slabs(stream, stream.offsets@.len())) == encode_all(ins)
                &&& forall|i: int| 0 <= i < ins.len() ==> supported(#[trigger] ins[i])
                &&& outs.len() == expand(ins).len()
                &&& forall|k: int| 0 <= k < outs.len() ==> migrated(src, &*final(dest), #[trigger] expand(ins)[k], outs[k])
                &&& img@ == file_image(true, slabs)
                &&& concat(slabs) == encode_all(outs)
                &&& forall|i: int| 0 <= i < slabs.len() - 1 ==> (#[trigger] slabs[i]).len() >= slab_target
                &&& forall|i: int| 0 <= i < slabs.len() ==> decodable(#[trigger] slabs[i], 0)
                &&& forall|t: int, j: int| #[trigger] final(dest).valid_loc(t, j) && !old(dest).valid_loc(t, j) ==> exists|k: int|
                0 <= k < outs.len() && #[trigger] outs[k] == (MapEntry::Data { slab: t as u32, offset: j as u32, nr_entries: 1 })
            },
        r matches Err(e) ==> match e {
            MigrateError::Stream { slab, err: _ } => slab < stream.offsets@.len() && stream.slab(slab as int) is None,
            MigrateError::Decode { slab, err: _ } => stream.slab(slab as int) is Some && !decodable(
                stream.slab(slab as int)->Some_0,
                0,
            ),
            MigrateError::Full => final(dest).is_full(),
            _ => exists|s: int, es: Seq<MapEntry>|
                #![trigger stream.slab(s), encode_all(es)]
                0 <= s < stream.offsets@.len() && stream.slab(s) is Some && encode_all(es) == stream.slab(s)->Some_0
                    && first_failure(src, es, e),
        },
{
    let nr = stream.get_nr_slabs();
    let mut w = SlabWriter::new(true);
    let mut buf: Vec<u8> = Vec::new();
    let ghost mut ins: Seq<MapEntry> = Seq::empty();
    let ghost mut outs: Seq<MapEntry> = Seq::empty();
    let ghost mut written: Seq<Seq<u8>> = Seq::empty();
    let ghost mut run: Seq<MapEntry> = Seq::empty();
    let mut s: u64 = 0;
    proof {
        assert(stream_slabs(stream, 0) =~= Seq::<Seq<u8>>::empty());
        assert(expand(ins) =~= Seq::<MapEntry>::empty());
    }
    while s < nr
        invariant
            nr == stream.offsets@.len(),
            0 <= s <= nr,
            forall|i: int| 0 <= i < s ==> (#[trigger] stream.slab(i)) is Some,
            concat(stream_slabs(stream, s as nat)) == encode_all(ins),
            forall|i: int| 0 <= i < ins.len() ==> supported(#[trigger] ins[i]),
            outs.len() == expand(ins).len(),
            forall|k: int| 0 <= k < outs.len() ==> migrated(src, &*dest, #[trigger] expand(ins)[k], outs[k]),
            concat(written) + buf@ == encode_all(outs),
            forall|i: int| 0 <= i < written.len() ==> (#[trigger] written[i]).len() >= slab_target,
            forall|i: int| 0 <= i < written.len() ==> decodable(#[trigger] written[i], 0),
            buf@ == encode_all(run),
            forall|t: int, j: int| #[trigger] dest.valid_loc(t, j) && !old(dest).valid_loc(t, j) ==> exists|k: int|
                0 <= k < outs.len() && #[trigger] outs[k] == (MapEntry::Data { slab: t as u32, offset: j as u32, nr_entries: 1 }),
            w.wf(),
            w.compressed(),
            w.reserved() == written.len(),
            w.completed().dom() == Set::new(|i: nat| i < written.len()),
            forall|i: int| 0 <= i < written.len() ==> w.completed()[i as nat] == #[trigger] written[i],
            dest.wf(),
            dest.digests_true(),
            dest.compressed() == old(dest).compressed(),
            forall|t: int, j: int| old(dest).valid_loc(t, j) ==> dest.valid_loc(t, j)
                && dest.records()[t][j] == old(dest).records()[t][j]
                && dest.digests()[t][j] == old(dest).digests()[t][j],
        decreases nr - s,
    {
        let data = match stream.read_uncached(s) {
            Ok(d) => d,
            Err(err) => {
                proof {
                    assert(stream.offsets@.len() == nr);
                }
                return Err(MigrateError::Stream { slab: s, err });
            },
        };
        let es = match decode_entries(data.as_slice()) {
            Ok(es) => es,
            Err(err) => {
                return Err(MigrateError::Decode { slab: s, err });
            },
        };
        let ghost dest0 = *dest;
        let out = match migrate_entries(src, dest, &es) {
            Ok(out) => out,
            Err(e) => {
                proof {
                    if e != MigrateError::Full {
                        assert(stream.slab(s as int) is Some);
                        assert(first_failure(src, es@, e));
                    }
                }
                return Err(e);
            },
        };
        proof {
            assert forall|k: int| 0 <= k < outs.len() implies migrated(src, &*dest, #[trigger] expand(ins)[k], outs[k]) by {
                assert(migrated(src, &dest0, expand(ins)[k], outs[k]));
            }
            assert forall|t: int, j: int| #[trigger] dest.valid_loc(t, j) && !old(dest).valid_loc(t, j) implies exists|kk: int|
                0 <= kk < outs.len() + out@.len() && #[trigger] (outs + out@)[kk] == (MapEntry::Data { slab: t as u32, offset: j as u32, nr_entries: 1 }) by {
                if dest0.valid_loc(t, j) {
                    let kk = choose|kk: int| 0 <= kk < outs.len() && #[trigger] outs[kk] == (MapEntry::Data { slab: t as u32, offset: j as u32, nr_entries: 1 });
                    assert((outs + out@)[kk] == outs[kk]);
                } else {
                    let kk = choose|kk: int| 0 <= kk < out@.len() && #[trigger] out@[kk] == (MapEntry::Data { slab: t as u32, offset: j as u32, nr_entries: 1 });
                    assert((outs + out@)[outs.len() + kk] == out@[kk]);
                }
            }
        }
        let ghost outs0 = outs;
        let mut k: usize = 0;
        while k < out.len()
            invariant
                0 <= k <= out@.len(),
                outs == outs0 + out@.subrange(0, k as int),
                concat(written) + buf@ == encode_all(outs),
                forall|i: int| 0 <= i < written.len() ==> (#[trigger] written[i]).len() >= slab_target,
                forall|i: int| 0 <= i < written.len() ==> decodable(#[trigger] written[i], 0),
                buf@ == encode_all(run),
                forall|t: int, j: int| #[trigger] dest.valid_loc(t, j) && !old(dest).valid_loc(t, j) ==> exists|kk: int|
                    0 <= kk < outs0.len() + out@.len() && #[trigger] (outs0 + out@)[kk] == (MapEntry::Data { slab: t as u32, offset: j as u32, nr_entries: 1 }),
                w.wf(),
                w.compressed(),
                w.reserved() == written.len(),
                w.completed().dom() == Set::new(|i: nat| i < written.len()),
                forall|i: int| 0 <= i < written.len() ==> w.completed()[i as nat] == #[trigger] written[i],
                dest.wf(),
                dest.digests_true(),
                dest.compressed() == old(dest).compressed(),
                forall|t: int, j: int| old(dest).valid_loc(t, j) ==> dest.valid_loc(t, j)
                    && dest.records()[t][j] == old(dest).records()[t][j]
                    && dest.digests()[t][j] == old(dest).digests()[t][j],
            decreases out@.len() - k,
        {
            let ghost b0 = buf@;
            encode_entry_into(&mut buf, out[k]);
            proof {
                lemma_encode_all_push(run, out@[k as int]);
                run = run.push(out@[k as int]);
                lemma_encode_all_push(outs, out@[k as int]);
                assert(outs0 + out@.subrange(0, k + 1) =~= outs.push(out@[k as int]));
                outs = outs.push(out@[k as int]);
            }
            if buf.len() >= slab_target {
                proof {
                    lemma_all_completed_flushed(&w, written.len());
                    lemma_written_bound(&w);
                    assert(!w.completed().dom().contains(written.len()));
                    lemma_encoding_decodable(run);
                }
                let _ = w.write_slab(buf.as_slice());
                proof {
                    run = Seq::empty();
                    lemma_concat_push(written, buf@);
                    written = written.push(buf@);
                    assert(w.completed().dom() =~= Set::new(|i: nat| i < written.len()));
                }
                buf = Vec::new();
                proof {
                    assert(concat(written) + buf@ =~= concat(written));
                }
            }
            k += 1;
        }
        proof {
            assert(out@.subrange(0, out@.len() as int) =~= out@);
            assert(outs =~= outs0 + out@);
            lemma_encode_all_concat(ins, es@);
            lemma_expand_concat(ins, es@);
            lemma_concat_push(stream_slabs(stream, s as nat), data@);
            assert(stream_slabs(stream, (s + 1) as nat) =~= stream_slabs(stream, s as nat).push(data@));
            let ins1 = ins + es@;
            assert forall|i: int| 0 <= i < ins1.len() implies supported(#[trigger] ins1[i]) by {
                if i >= ins.len() {
                    assert(ins1[i] == es@[i - ins.len()]);
                }
            }
            assert forall|kk: int| 0 <= kk < outs.len() implies migrated(src, &*dest, #[trigger] expand(ins1)[kk], outs[kk]) by {
                if kk < outs0.len() {
                    assert(expand(ins1)[kk] == expand(ins)[kk]);
                } else {
                    assert(expand(ins1)[kk] == expand(es@)[kk - outs0.len()]);
                    assert(outs[kk] == out@[kk - outs0.len()]);
                }
            }
            ins = ins1;
        }
        s += 1;
    }
    if buf.len() > 0 {
        proof {
            lemma_all_completed_flushed(&w, written.len());
            lemma_written_bound(&w);
            assert(!w.completed().dom().contains(written.len()));
            lemma_encoding_decodable(run);
        }
        let _ = w.write_slab(buf.as_slice());
        proof {
            lemma_concat_push(written, buf@);
            written = written.push(buf@);
            assert(w.completed().dom() =~= Set::new(|i: nat| i < written.len()));
        }
    } else {
        assert(concat(written) + buf@ =~= concat(written));
    }
    proof {
        assert(w.close_ok());
        assert(w.in_index_order(w.reserved()) =~= written);
    }
    match w.close() {
        Ok(img) => Ok(img),
        Err(_) => Err(MigrateError::Full),
    }
}

/// A migrated data entry resolves, in the destination store, to a record
/// whose bytes have the same digest as the bytes the source entry resolves
/// to in the source store. The bytes themselves are equal unless two
/// different records share a digest, which the store takes as equal.
pub proof fn lemma_migration_preserves_content(src: &Archive, dest: &ContentStore, e: MapEntry, m: MapEntry)
    requires
        dest.digests_true(),
        migrated(src, dest, e, m),
        e is Data,
    ensures
        m is Data,
        src.resolve(e->Data_slab as int, e->Data_offset as int) is Some,
        dest.valid_loc(m->Data_slab as int, m->Data_offset as int),
        hash256_of(dest.records()[m->Data_slab as int][m->Data_offset as int]) == hash256_of(
            src.resolve(e->Data_slab as int, e->Data_offset as int)->Some_0,
        ),
{
}

/// A migrated fill or hole is the source entry itself.
pub proof fn lemma_migration_keeps_fills(src: &Archive, dest: &ContentStore, e: MapEntry, m: MapEntry)
    requires
        migrated(src, dest, e, m),
        !(e is Data),
    ensures
        m == e,
{
}

} // verus!
