use blk_archive::check::{check, check_counts, check_data_and_hashes, first_error, partition, CheckError};
use blk_archive::index::{build_hash_index, pack_data_slab, parse_hash_slab, IndexError};
use blk_archive::mapping::{decode_entries, encode_entries, MapEntry};
use blk_archive::migrate::{migrate_entries, migrate_stream, Archive, MigrateError};
use blk_archive::repair::{rebuild_hashes_index, repair};
use blk_archive::slab::SlabFile;
use blk_archive::store::{ContentStore, StoreError};
use blk_archive::writer::SlabWriter;

fn record(i: u8, len: usize) -> Vec<u8> {
    (0..len).map(|j| i.wrapping_mul(31).wrapping_add(j as u8)).collect()
}

fn build_archive(records: &[Vec<u8>], target: usize) -> (ContentStore, Vec<(u32, u32)>) {
    let mut store = ContentStore::new(target, false);
    let mut locs = Vec::new();
    for r in records {
        locs.push(store.add(r).unwrap());
    }
    (store, locs)
}

fn open_archive(store: ContentStore) -> Archive {
    let (d, h) = store.close().unwrap();
    Archive { data_file: SlabFile::open(d).unwrap(), hashes_file: SlabFile::open(h).unwrap() }
}

#[test]
fn hash_index_holds_digests() {
    let slab = pack_data_slab(&vec![b"abc".to_vec(), b"abd".to_vec(), b"abc".to_vec()]);
    let es = parse_hash_slab(&build_hash_index(&slab).unwrap()).unwrap();
    assert_eq!(es[0].hash.len(), 32);
    assert_ne!(&es[0].hash[..3], b"abc");
    assert_ne!(es[0].hash, es[1].hash);
    assert_eq!(es[0].hash, es[2].hash);
}

#[test]
fn frame_checksum_is_a_digest() {
    let payload: Vec<u8> = (1..=8).collect();
    let mut w = SlabWriter::new(false);
    w.write_slab(&payload).unwrap();
    let bytes = w.close().unwrap();
    // header 16, magic 8, length 8, payload 8, then the checksum
    assert_eq!(bytes.len(), 48);
    assert_ne!(&bytes[40..48], &payload[..]);
    let mut w2 = SlabWriter::new(false);
    w2.write_slab(&[1, 2, 3, 4, 5, 6, 7, 9]).unwrap();
    assert_ne!(&w2.close().unwrap()[40..48], &bytes[40..48]);
}

#[test]
fn digest_passed_to_data_add_is_used_for_dedup() {
    let mut store = ContentStore::new(1024, false);
    let h = vec![7u8; 32];
    let a = store.data_add(&h, b"one").unwrap();
    let b = store.data_add(&h, b"two").unwrap();
    assert_eq!(a, b);
    assert_eq!(store.data_get(a.0, a.1).unwrap(), b"one".to_vec());
}

#[test]
fn dedup_returns_the_same_location() {
    let mut store = ContentStore::new(1024, false);
    let r = record(1, 100);
    let first = store.add(&r).unwrap();
    let second = store.add(&r).unwrap();
    assert_eq!(first, second);
    assert_eq!(store.data_get(0, 1), Err(StoreError::RecordOutOfRange { slab: 0, record: 1 }));
    let a = open_archive(store);
    assert_eq!(a.data_file.get_nr_slabs(), 1);
    let entries = parse_hash_slab(&a.hashes_file.read_uncached(0).unwrap()).unwrap();
    assert_eq!(entries.len(), 1);
}

#[test]
fn store_starts_new_slab_at_target() {
    let recs: Vec<Vec<u8>> = (0..5).map(|i| record(i, 40)).collect();
    let (store, locs) = build_archive(&recs, 100);
    assert_eq!(locs, vec![(0, 0), (0, 1), (1, 0), (1, 1), (2, 0)]);
    for (r, l) in recs.iter().zip(locs.iter()) {
        assert_eq!(&store.data_get(l.0, l.1).unwrap(), r);
    }
    assert_eq!(store.data_get(7, 0), Err(StoreError::SlabOutOfRange { slab: 7 }));
    let a = open_archive(store);
    for (r, l) in recs.iter().zip(locs.iter()) {
        assert_eq!(&a.data_get(l.0, l.1).unwrap(), r);
    }
}

#[test]
fn data_slab_layout() {
    let slab = pack_data_slab(&vec![vec![1, 2], vec![3]]);
    let mut want = vec![2, 0, 0, 0, 0, 0, 0, 0, 2, 0, 0, 0, 0, 0, 0, 0, 1, 0, 0, 0, 0, 0, 0, 0];
    want.extend_from_slice(&[1, 2, 3]);
    assert_eq!(slab, want);
    let h = build_hash_index(&slab).unwrap();
    let es = parse_hash_slab(&h).unwrap();
    assert_eq!((es[0].begin, es[0].end), (24, 26));
    assert_eq!((es[1].begin, es[1].end), (26, 27));
    let mut store = ContentStore::new(1024, false);
    store.add(&[1, 2]).unwrap();
    store.add(&[3]).unwrap();
    let a = open_archive(store);
    let stored = parse_hash_slab(&a.hashes_file.read_uncached(0).unwrap()).unwrap();
    assert_eq!(es[1].hash, stored[1].hash);
    let mut short = slab.clone();
    short.pop();
    assert_eq!(build_hash_index(&short), Err(IndexError::RecordOutOfRange { record: 1 }));
    assert_eq!(parse_hash_slab(&h[..h.len() - 1]).map(|_| ()), Err(IndexError::Truncated));
}

#[test]
fn unmodified_archive_passes_check() {
    let recs: Vec<Vec<u8>> = (0..9).map(|i| record(i, 30 + i as usize)).collect();
    let (store, _) = build_archive(&recs, 80);
    let a = open_archive(store);
    assert_eq!(check(&a.data_file, &a.hashes_file, 2), Ok(()));
    assert_eq!(check(&a.data_file, &a.hashes_file, 7), Ok(()));
}

#[test]
fn check_detects_tampering() {
    let recs: Vec<Vec<u8>> = (0..6).map(|i| record(i, 50)).collect();
    let (store, locs) = build_archive(&recs, 120);
    assert_eq!(locs[3], (1, 1));
    let a = open_archive(store);
    // rewrite the data file with one byte of record 1 of slab 1 flipped,
    // the frame's checksum made to match
    let mut w = SlabWriter::new(false);
    for s in 0..a.data_file.get_nr_slabs() {
        let mut d = a.data_file.read_uncached(s).unwrap();
        if s == 1 {
            let es = parse_hash_slab(&a.hashes_file.read_uncached(1).unwrap()).unwrap();
            d[es[1].begin as usize + 3] ^= 0x40;
        }
        w.write_slab(&d).unwrap();
    }
    let tampered = SlabFile::open(w.close().unwrap()).unwrap();
    assert_eq!(
        check(&tampered, &a.hashes_file, 2),
        Err(CheckError::HashMismatch { slab: 1, record: 1 })
    );
    assert_eq!(check_data_and_hashes(&tampered, &a.hashes_file, 0, 1), Ok(()));
    assert_eq!(check_data_and_hashes(&tampered, &a.hashes_file, 2, 3), Ok(()));
}

#[test]
fn slab_count_mismatch_is_fatal() {
    let (store, _) = build_archive(&[record(1, 10)], 100);
    let a = open_archive(store);
    let empty = SlabFile::open(SlabWriter::new(false).close().unwrap()).unwrap();
    assert_eq!(check_counts(&a.data_file, &empty), Err(CheckError::CountMismatch));
    assert_eq!(check(&a.data_file, &empty, 2), Err(CheckError::CountMismatch));
    assert_eq!(check_counts(&a.data_file, &a.hashes_file), Ok(1));
}

#[test]
fn partition_covers_every_slab_once() {
    assert_eq!(partition(7, 2), vec![(0, 3), (3, 7)]);
    assert_eq!(partition(1, 2), vec![(0, 0), (0, 1)]);
    assert_eq!(partition(9, 3), vec![(0, 3), (3, 6), (6, 9)]);
    assert_eq!(partition(0, 1), vec![(0, 0)]);
}

#[test]
fn first_error_wins() {
    let rs = vec![Ok(()), Err(CheckError::TooManySlabs), Err(CheckError::CountMismatch)];
    assert_eq!(first_error(&rs), Err(CheckError::TooManySlabs));
    assert_eq!(first_error(&vec![Ok(()), Ok(())]), Ok(()));
}

#[test]
fn mapping_round_trip() {
    let es = vec![
        MapEntry::Fill { byte: 7, len: 4096 },
        MapEntry::Unmapped { len: 12 },
        MapEntry::Data { slab: 3, offset: 9, nr_entries: 2 },
        MapEntry::Partial { begin: 1, end: 5, slab: 2, offset: 0, nr_entries: 1 },
        MapEntry::Ref { len: 8 },
    ];
    let b = encode_entries(&es);
    assert_eq!(b.len(), 10 + 9 + 25 + 41 + 9);
    assert_eq!(decode_entries(&b).unwrap(), es);
    assert!(decode_entries(&[9]).is_err());
    assert!(decode_entries(&b[..b.len() - 1]).is_err());
}

#[test]
fn migration_preserves_content() {
    let recs: Vec<Vec<u8>> = (0..6).map(|i| record(i, 64)).collect();
    let (store, locs) = build_archive(&recs, 150);
    let src = open_archive(store);
    assert_eq!(locs[3], (1, 1));

    let entries = vec![
        MapEntry::Fill { byte: 0, len: 512 },
        MapEntry::Data { slab: 0, offset: 0, nr_entries: 2 },
        MapEntry::Unmapped { len: 1024 },
        MapEntry::Data { slab: 1, offset: 0, nr_entries: 2 },
        MapEntry::Data { slab: 0, offset: 1, nr_entries: 1 },
    ];
    let mut sw = SlabWriter::new(true);
    sw.write_slab(&encode_entries(&entries[..2].to_vec())).unwrap();
    sw.write_slab(&encode_entries(&entries[2..].to_vec())).unwrap();
    let stream = SlabFile::open(sw.close().unwrap()).unwrap();

    let mut dest = ContentStore::new(1 << 20, false);
    let img = migrate_stream(&src, &mut dest, &stream, 30).unwrap();
    let out_file = SlabFile::open(img).unwrap();
    let mut out = Vec::new();
    for s in 0..out_file.get_nr_slabs() {
        out.extend(decode_entries(&out_file.read_uncached(s).unwrap()).unwrap());
    }

    let expanded = vec![
        (None, entries[0]),
        (Some((0, 0)), entries[1]),
        (Some((0, 1)), entries[1]),
        (None, entries[2]),
        (Some((1, 0)), entries[3]),
        (Some((1, 1)), entries[3]),
        (Some((0, 1)), entries[4]),
    ];
    assert_eq!(out.len(), expanded.len());
    for (m, (loc, e)) in out.iter().zip(expanded.iter()) {
        match loc {
            None => assert_eq!(m, e),
            Some((s, o)) => match m {
                MapEntry::Data { slab, offset, nr_entries } => {
                    assert_eq!(*nr_entries, 1);
                    assert_eq!(dest.data_get(*slab, *offset).unwrap(), src.data_get(*s, *o).unwrap());
                }
                _ => panic!("data entry expected"),
            },
        }
    }
    // the repeated record was deduplicated in the destination
    assert_eq!(out[2], out[6]);
}

#[test]
fn migration_refuses_refs_and_partials() {
    let (store, _) = build_archive(&[record(1, 8)], 100);
    let src = open_archive(store);
    let mut dest = ContentStore::new(100, false);
    assert_eq!(
        migrate_entries(&src, &mut dest, &vec![MapEntry::Ref { len: 1 }]),
        Err(MigrateError::UnexpectedRef)
    );
    assert_eq!(
        migrate_entries(&src, &mut dest, &vec![MapEntry::Partial { begin: 0, end: 1, slab: 0, offset: 0, nr_entries: 1 }]),
        Err(MigrateError::PartialUnsupported)
    );
    assert_eq!(
        migrate_entries(&src, &mut dest, &vec![MapEntry::Data { slab: 0, offset: 1, nr_entries: 1 }]),
        Err(MigrateError::Source { slab: 0, record: 1 })
    );
}

#[test]
fn repair_rebuilds_the_hash_index() {
    let recs: Vec<Vec<u8>> = (0..5).map(|i| record(i, 33)).collect();
    let (store, _) = build_archive(&recs, 70);
    let (d, h) = store.close().unwrap();
    let data_file = SlabFile::open(d.clone()).unwrap();
    assert_eq!(rebuild_hashes_index(&data_file, false).unwrap(), h);
    let index = SlabWriter::new(false).close().unwrap();
    let rep = repair(d.clone(), &index, false).unwrap();
    assert_eq!(rep.hashes, h);
    assert_eq!(rep.data_offsets, data_file.offsets);
    assert!(rep.index_offsets.is_empty());
    let rebuilt = SlabFile::open(rep.hashes).unwrap();
    assert_eq!(check(&data_file, &rebuilt, 2), Ok(()));
}

#[test]
fn check_names_a_slab_in_the_remainder_range() {
    let recs: Vec<Vec<u8>> = (0..5).map(|i| record(i, 40)).collect();
    let (store, locs) = build_archive(&recs, 40);
    assert_eq!(locs[4], (4, 0));
    let a = open_archive(store);
    let mut w = SlabWriter::new(false);
    for s in 0..a.data_file.get_nr_slabs() {
        let mut d = a.data_file.read_uncached(s).unwrap();
        if s == 4 {
            let n = d.len();
            d[n - 1] ^= 1;
        }
        w.write_slab(&d).unwrap();
    }
    let tampered = SlabFile::open(w.close().unwrap()).unwrap();
    // 5 slabs over 2 workers: 0..2 and 2..5
    assert_eq!(check(&tampered, &a.hashes_file, 2), Err(CheckError::HashMismatch { slab: 4, record: 0 }));
}

#[test]
fn migration_fails_on_the_first_bad_entry() {
    let (store, _) = build_archive(&[record(1, 8)], 100);
    let src = open_archive(store);
    let mut dest = ContentStore::new(100, false);
    assert_eq!(
        migrate_entries(&src, &mut dest, &vec![MapEntry::Fill { byte: 1, len: 2 }, MapEntry::Ref { len: 1 },
            MapEntry::Partial { begin: 0, end: 1, slab: 0, offset: 0, nr_entries: 1 }]),
        Err(MigrateError::UnexpectedRef)
    );
    assert_eq!(
        migrate_entries(&src, &mut dest, &vec![MapEntry::Data { slab: 0, offset: u32::MAX, nr_entries: 2 }]),
        Err(MigrateError::BadEntry)
    );
    let mut sw = SlabWriter::new(true);
    sw.write_slab(&[9]).unwrap();
    let stream = SlabFile::open(sw.close().unwrap()).unwrap();
    assert!(matches!(migrate_stream(&src, &mut dest, &stream, 10), Err(MigrateError::Decode { slab: 0, .. })));
}
