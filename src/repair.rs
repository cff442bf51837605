//! Recovery of derived indexes: offset tables and the hash-index file are
//! rebuilt from the raw slab files alone.
use crate::index::{build_hash_index, data_slab_ok, entries_of, expected_entries, hash_slab_ok, IndexError};
use crate::slab::{file_image, header_ok, rebuild_offsets, scan, SlabError, SlabFile, HEADER_LEN};
use crate::writer::SlabWriter;
use vstd::prelude::*;

verus! {

#[derive(Debug, Clone, Copy, PartialEq, Eq, Structural)]
pub enum RepairError {
    /// More slabs than a 32-bit slab index can address.
    TooManySlabs,
    /// The framing of the data file is broken.
    DataFile { err: SlabError },
    /// The framing of the index file is broken.
    IndexFile { err: SlabError },
    /// A data slab could not be read.
    Data { slab: u64, err: SlabError },
    /// A data slab's record table does not fit the slab.
    BadDataSlab { slab: u64, err: IndexError },
}

/// Builds a new hash-index file for a data file: one hash-index slab per
/// data slab, in order, from the records' bytes alone.
pub fn rebuild_hashes_index(data_file: &SlabFile, compressed: bool) -> (r: Result<Vec<u8>, RepairError>)
    ensures
        data_file.offsets@.len() > u32::MAX ==> r == Err::<Vec<u8>, RepairError>(RepairError::TooManySlabs),
        data_file.offsets@.len() <= u32::MAX && (forall|i: int|
            0 <= i < data_file.offsets@.len() ==> (#[trigger] data_file.slab(i)) is Some && data_slab_ok(
                data_file.slab(i)->Some_0,
            )) ==> r is Ok,
        r matches Ok(img) ==> exists|hs: Seq<Seq<u8>>|
            {
                &&& img@ == file_image(compressed, hs)
                &&& hs.len() == data_file.offsets@.len()
                &&& forall|i: int| 0 <= i < hs.len() ==> {
                    &&& (#[trigger] data_file.slab(i)) is Some
                    &&& data_slab_ok(data_file.slab(i)->Some_0)
                    &&& hash_slab_ok(hs[i])
                    &&& entries_of(hs[i]) == expected_entries(data_file.slab(i)->Some_0)
                }
            },
        r matches Err(RepairError::Data { slab, err: _ }) ==> data_file.slab(slab as int) is None,
        r matches Err(RepairError::BadDataSlab { slab, err: _ }) ==> data_file.slab(slab as int) is Some
            && !data_slab_ok(data_file.slab(slab as int)->Some_0),
{
    let nr = data_file.get_nr_slabs();
    if nr > u32::MAX as u64 {
        return Err(RepairError::TooManySlabs);
    }
    let mut w = SlabWriter::new(compressed);
    let ghost mut hs: Seq<Seq<u8>> = Seq::empty();
    let mut s: u64 = 0;
    while s < nr
        invariant
            nr == data_file.offsets@.len(),
            nr <= u32::MAX,
            0 <= s <= nr,
            w.wf(),
            w.compressed() == compressed,
            w.reserved() == s,
            hs.len() == s,
            w.completed().dom() == Set::new(|i: nat| i < s),
            forall|i: int| 0 <= i < s ==> w.completed()[i as nat] == #[trigger] hs[i],
            forall|i: int| 0 <= i < s ==> {
                &&& (#[trigger] data_file.slab(i)) is Some
                &&& data_slab_ok(data_file.slab(i)->Some_0)
                &&& hash_slab_ok(hs[i])
                &&& entries_of(hs[i]) == expected_entries(data_file.slab(i)->Some_0)
            },
        decreases nr - s,
    {
        let data = match data_file.read_uncached(s) {
            Ok(d) => d,
            Err(err) => {
                return Err(RepairError::Data { slab: s, err });
            },
        };
        let h = match build_hash_index(data.as_slice()) {
            Ok(h) => h,
            Err(err) => {
                return Err(RepairError::BadDataSlab { slab: s, err });
            },
        };
        proof {
            assert(!w.completed().dom().contains(s as nat));
        }
        let _ = w.write_slab(h.as_slice());
        proof {
            hs = hs.push(h@);
            assert(w.completed().dom() =~= Set::new(|i: nat| i < s + 1));
        }
        s += 1;
    }
    proof {
        assert(w.close_ok());
        assert(w.in_index_order(w.reserved()) =~= hs);
    }
    match w.close() {
        Ok(img) => Ok(img),
        Err(err) => Err(RepairError::DataFile { err }),
    }
}

/// What a repair produces: fresh offset tables for the data and index
/// files, and a rebuilt hash-index file.
pub struct Repaired {
    pub data_offsets: Vec<u64>,
    pub hashes: Vec<u8>,
    pub index_offsets: Vec<u64>,
}

/// Repairs an archive's derived indexes from its raw data and index files:
/// rebuilds the data file's offset table, then the hash-index file from
/// the data slabs, then the index file's offset table.
pub fn repair(data: Vec<u8>, index: &[u8], compressed: bool) -> (r: Result<Repaired, RepairError>)
    ensures
        (!header_ok(data@) || scan(data@, HEADER_LEN as int) is None) ==> r matches Err(RepairError::DataFile { .. }),
        ({
            &&& header_ok(data@)
            &&& scan(data@, HEADER_LEN as int) is Some
            &&& scan(data@, HEADER_LEN as int)->Some_0.len() <= u32::MAX
            &&& forall|i: int|
                0 <= i < scan(data@, HEADER_LEN as int)->Some_0.len() ==> (#[trigger] slab_of(
                    data@,
                    scan(data@, HEADER_LEN as int)->Some_0,
                    i,
                )) is Some && data_slab_ok(slab_of(data@, scan(data@, HEADER_LEN as int)->Some_0, i)->Some_0)
            &&& header_ok(index@)
            &&& scan(index@, HEADER_LEN as int) is Some
        }) ==> r is Ok,
        r matches Ok(rep) ==> {
            &&& header_ok(data@)
            &&& scan(data@, HEADER_LEN as int) == Some(rep.data_offsets@)
            &&& header_ok(index@)
            &&& scan(index@, HEADER_LEN as int) == Some(rep.index_offsets@)
            &&& exists|hs: Seq<Seq<u8>>|
                {
                    &&& rep.hashes@ == file_image(compressed, hs)
                    &&& hs.len() == rep.data_offsets@.len()
                    &&& forall|i: int| 0 <= i < hs.len() ==> {
                        &&& (#[trigger] slab_of(data@, rep.data_offsets@, i)) is Some
                        &&& data_slab_ok(slab_of(data@, rep.data_offsets@, i)->Some_0)
                        &&& hash_slab_ok(hs[i])
                        &&& entries_of(hs[i]) == expected_entries(slab_of(data@, rep.data_offsets@, i)->Some_0)
                    }
                }
        },
{
    let ghost bytes = data@;
    let data_file = match SlabFile::open(data) {
        Ok(f) => f,
        Err(err) => {
            return Err(RepairError::DataFile { err });
        },
    };
    proof {
        assert forall|i: int| 0 <= i < data_file.offsets@.len() implies slab_of(bytes, data_file.offsets@, i)
            == data_file.slab(i) by {}
    }
    let hashes = match rebuild_hashes_index(&data_file, compressed) {
        Ok(h) => h,
        Err(e) => {
            return Err(e);
        },
    };
    let index_offsets = match rebuild_offsets(index) {
        Ok(o) => o,
        Err(err) => {
            return Err(RepairError::IndexFile { err });
        },
    };
    proof {
        assert forall|i: int| 0 <= i < data_file.offsets@.len() implies slab_of(bytes, data_file.offsets@, i)
            == data_file.slab(i) by {}
        let hs = choose|hs: Seq<Seq<u8>>|
            {
                &&& hashes@ == file_image(compressed, hs)
                &&& hs.len() == data_file.offsets@.len()
                &&& forall|i: int| 0 <= i < hs.len() ==> {
                    &&& (#[trigger] data_file.slab(i)) is Some
                    &&& data_slab_ok(data_file.slab(i)->Some_0)
                    &&& hash_slab_ok(hs[i])
                    &&& entries_of(hs[i]) == expected_entries(data_file.slab(i)->Some_0)
                }
            };
        assert forall|i: int| 0 <= i < hs.len() implies {
            &&& (#[trigger] slab_of(bytes, data_file.offsets@, i)) is Some
            &&& data_slab_ok(slab_of(bytes, data_file.offsets@, i)->Some_0)
            &&& hash_slab_ok(hs[i])
            &&& entries_of(hs[i]) == expected_entries(slab_of(bytes, data_file.offsets@, i)->Some_0)
        } by {
            assert(data_file.slab(i) is Some);
        }
    }
    Ok(Repaired { data_offsets: data_file.offsets, hashes, index_offsets })
}

/// The payload of slab `i` of a file, given its offset table.
pub open spec fn slab_of(data: Seq<u8>, offsets: Seq<u64>, i: int) -> Option<Seq<u8>> {
    if 0 <= i < offsets.len() {
        crate::slab::slab_at(data, offsets[i] as int)
    } else {
        None
    }
}

} // verus!
