use blk_archive::slab::{decode_offsets, encode_offsets, is_compressed, rebuild_offsets, SlabError, SlabFile};
use blk_archive::writer::{SlabData, SlabWriter};

// the writer handles completions that arrive out of order
#[test]
fn write_unordered() {
    let mut slab = SlabWriter::new(false);

    let tx0 = slab.reserve_slab();
    let tx1 = slab.reserve_slab();
    let tx2 = slab.reserve_slab();
    assert_eq!((tx0, tx1, tx2), (0, 1, 2));

    slab.complete(SlabData { index: 2, data: vec![2; 1536] }).unwrap();
    slab.complete(SlabData { index: 0, data: vec![0; 512] }).unwrap();
    slab.complete(SlabData { index: 1, data: vec![1; 1024] }).unwrap();

    let bytes = slab.close().unwrap();
    let slab = SlabFile::open(bytes).unwrap();

    for i in 0..3u8 {
        let data = slab.read_uncached(i as u64).unwrap();
        assert!(data.len() == (i as usize + 1) * 512);
        assert!(data.iter().all(|&v| v == i));
    }
}

// closing fails while a buffered completion cannot be flushed
#[test]
fn close_with_queued_data_should_fail() {
    let mut slab = SlabWriter::new(false);

    let _ = slab.reserve_slab();

    // a slab ahead of the current index stays unflushed
    slab.complete(SlabData { index: 1, data: vec![1; 1024] }).unwrap();

    assert!(slab.close().is_err());
}

#[test]
fn close_with_missing_reservation_fails() {
    let mut slab = SlabWriter::new(false);
    let _ = slab.reserve_slab();
    let _ = slab.reserve_slab();
    slab.complete(SlabData { index: 0, data: vec![5; 10] }).unwrap();
    assert_eq!(slab.close(), Err(SlabError::Unflushed));
}

#[test]
fn every_completion_order_reads_back_the_same() {
    let orders: [[u64; 3]; 6] = [[0, 1, 2], [0, 2, 1], [1, 0, 2], [1, 2, 0], [2, 0, 1], [2, 1, 0]];
    let mut images = Vec::new();
    for order in orders.iter() {
        let mut w = SlabWriter::new(true);
        for _ in 0..3 {
            w.reserve_slab();
        }
        for &i in order.iter() {
            w.complete(SlabData { index: i, data: vec![i as u8 + 10; 100 * (i as usize + 1)] }).unwrap();
        }
        images.push(w.close().unwrap());
    }
    for img in images.iter() {
        assert_eq!(img, &images[0]);
    }
}

#[test]
fn duplicate_completion_is_refused() {
    let mut w = SlabWriter::new(false);
    w.reserve_slab();
    w.complete(SlabData { index: 0, data: vec![1, 2, 3] }).unwrap();
    assert_eq!(
        w.complete(SlabData { index: 0, data: vec![4] }),
        Err(SlabError::DuplicateSlab { index: 0 })
    );
}

#[test]
fn empty_file_has_no_slabs() {
    let w = SlabWriter::new(false);
    let bytes = w.close().unwrap();
    assert_eq!(bytes.len(), 16);
    let f = SlabFile::open(bytes).unwrap();
    assert_eq!(f.get_nr_slabs(), 0);
    assert_eq!(f.read_uncached(0), Err(SlabError::IndexOutOfRange { index: 0 }));
}

#[test]
fn offsets_rebuilt_from_bytes_read_the_same() {
    let mut w = SlabWriter::new(false);
    let payloads: Vec<Vec<u8>> = vec![vec![9; 3], vec![], vec![7; 40]];
    for p in payloads.iter() {
        w.write_slab(p).unwrap();
    }
    let bytes = w.close().unwrap();
    let offsets = rebuild_offsets(&bytes).unwrap();
    // header, then 3 + 24, then 0 + 24 bytes
    assert_eq!(offsets, vec![16, 43, 67]);
    let f = SlabFile { data: bytes, offsets };
    for (i, p) in payloads.iter().enumerate() {
        assert_eq!(&f.read_uncached(i as u64).unwrap(), p);
    }
}

#[test]
fn wrong_magic_is_a_structural_error() {
    let mut w = SlabWriter::new(false);
    w.write_slab(&[1, 2, 3]).unwrap();
    let mut bytes = w.close().unwrap();
    bytes[16] ^= 0xff;
    assert_eq!(rebuild_offsets(&bytes), Err(SlabError::BadMagic { offset: 16 }));
}

#[test]
fn truncated_slab_is_an_error() {
    let mut w = SlabWriter::new(false);
    w.write_slab(&[1, 2, 3]).unwrap();
    let mut bytes = w.close().unwrap();
    bytes.pop();
    assert_eq!(rebuild_offsets(&bytes), Err(SlabError::Truncated { offset: 16 }));
}

#[test]
fn bad_header_is_refused() {
    assert_eq!(rebuild_offsets(&[0u8; 8]), Err(SlabError::BadHeader));
    assert_eq!(rebuild_offsets(&[0u8; 16]), Err(SlabError::BadHeader));
}

#[test]
fn corrupted_payload_fails_its_checksum() {
    let mut w = SlabWriter::new(false);
    w.write_slab(&[1, 2, 3]).unwrap();
    let mut bytes = w.close().unwrap();
    bytes[33] ^= 1;
    let f = SlabFile::open(bytes).unwrap();
    assert_eq!(f.read_uncached(0), Err(SlabError::ChecksumMismatch { index: 0 }));
}

#[test]
fn bad_magic_names_the_first_bad_frame() {
    let mut w = SlabWriter::new(false);
    w.write_slab(&[1, 2, 3]).unwrap();
    w.write_slab(&[4; 10]).unwrap();
    w.write_slab(&[5; 2]).unwrap();
    let mut bytes = w.close().unwrap();
    // second frame starts after the header and 3 + 24 bytes
    bytes[43] ^= 0x01;
    assert_eq!(rebuild_offsets(&bytes), Err(SlabError::BadMagic { offset: 43 }));
}

#[test]
fn sidecar_offsets_are_used_or_rebuilt() {
    let mut w = SlabWriter::new(true);
    w.write_slab(&[1, 2, 3]).unwrap();
    w.write_slab(&[9; 5]).unwrap();
    let bytes = w.close().unwrap();
    assert!(is_compressed(&bytes));
    assert!(!is_compressed(&SlabWriter::new(false).close().unwrap()));
    let raw = encode_offsets(&[16, 43]);
    assert_eq!(raw.len(), 16);
    assert_eq!(decode_offsets(&raw), Some(vec![16, 43]));
    assert_eq!(decode_offsets(&raw[..15]), None);
    let good = SlabFile::open_with_offsets(bytes.clone(), vec![16, 43]).unwrap();
    assert_eq!(good.offsets, vec![16, 43]);
    let stale = SlabFile::open_with_offsets(bytes.clone(), vec![17]).unwrap();
    assert_eq!(stale.offsets, vec![16, 43]);
    assert_eq!(stale.read_uncached(1).unwrap(), vec![9; 5]);
}
