//! Slab files: an append-only sequence of framed records.
//!
//! A slab file is a fixed header followed by frames
//! `MAGIC | LEN | payload[LEN] | CHECKSUM`, all integers little-endian.
use crate::bytes::{le64, le64_at, lemma_le64_at_concat, lemma_le64_len, push_all, push_u64, read_u64, copy_range};
use crate::hash::{hash64_of, hash_64};
use vstd::prelude::*;

verus! {

pub const FILE_MAGIC: u64 = 0xa537_a0aa_6309_ef77;
pub const SLAB_MAGIC: u64 = 0x20565137_a3100a7c;
/// Length of the file header: magic and flags.
pub const HEADER_LEN: u64 = 16;
/// Bytes that framing adds to each payload: magic, length and checksum.
pub const FRAME_OVERHEAD: u64 = 24;

#[derive(Debug, Clone, Copy, PartialEq, Eq, Structural)]
pub enum SlabError {
    /// The file does not start with a slab file header.
    BadHeader,
    /// No slab magic where a slab was expected to start.
    BadMagic { offset: u64 },
    /// A slab runs past the end of the file.
    Truncated { offset: u64 },
    /// No slab with this index.
    IndexOutOfRange { index: u64 },
    /// The slab's payload does not match its checksum.
    ChecksumMismatch { index: u64 },
    /// A completion for an index that was already supplied.
    DuplicateSlab { index: u64 },
    /// Closing while reserved slabs are missing or buffered completions cannot be flushed.
    Unflushed,
}

pub open spec fn header(compressed: bool) -> Seq<u8> {
    le64(FILE_MAGIC) + le64(if compressed { 1u64 } else { 0u64 })
}

pub open spec fn frame(s: Seq<u8>) -> Seq<u8> {
    le64(SLAB_MAGIC) + le64(s.len() as u64) + s + le64(hash64_of(s))
}

/// The frames of `slabs`, in order.
pub open spec fn frames(slabs: Seq<Seq<u8>>) -> Seq<u8>
    decreases slabs.len(),
{
    if slabs.len() == 0 {
        Seq::empty()
    } else {
        frame(slabs[0]) + frames(slabs.drop_first())
    }
}

/// The whole file holding `slabs`.
pub open spec fn file_image(compressed: bool, slabs: Seq<Seq<u8>>) -> Seq<u8> {
    header(compressed) + frames(slabs)
}

/// Where each of `slabs` starts when the first starts at `start`.
pub open spec fn frame_offsets(start: int, slabs: Seq<Seq<u8>>) -> Seq<u64>
    decreases slabs.len(),
{
    if slabs.len() == 0 {
        Seq::empty()
    } else {
        seq![start as u64] + frame_offsets(start + FRAME_OVERHEAD + slabs[0].len(), slabs.drop_first())
    }
}

/// The offsets found by walking frames from `pos` to the end of `data`;
/// `None` where a magic is wrong or a frame runs past the end.
pub open spec fn scan(data: Seq<u8>, pos: int) -> Option<Seq<u64>>
    decreases data.len() - pos,
{
    if pos < 0 || pos >= data.len() {
        Some(Seq::empty())
    } else if pos + 16 > data.len() || le64_at(data, pos) != SLAB_MAGIC {
        None
    } else {
        let next = pos + FRAME_OVERHEAD + le64_at(data, pos + 8);
        if next > data.len() {
            None
        } else {
            match scan(data, next) {
                Some(rest) => Some(seq![pos as u64] + rest),
                None => None,
            }
        }
    }
}

/// What the walk of `scan` stops on, where it fails: a frame cut short
/// or a wrong magic, at the offset where that frame starts.
pub open spec fn scan_fault(data: Seq<u8>, pos: int) -> SlabError
    decreases data.len() - pos,
{
    if pos < 0 || pos >= data.len() {
        SlabError::Truncated { offset: pos as u64 }
    } else if pos + 16 > data.len() {
        SlabError::Truncated { offset: pos as u64 }
    } else if le64_at(data, pos) != SLAB_MAGIC {
        SlabError::BadMagic { offset: pos as u64 }
    } else {
        let next = pos + FRAME_OVERHEAD + le64_at(data, pos + 8);
        if next > data.len() {
            SlabError::Truncated { offset: pos as u64 }
        } else {
            scan_fault(data, next)
        }
    }
}

/// The payload of the frame at `pos`, if a well-formed frame with a matching checksum starts there.
pub open spec fn slab_at(data: Seq<u8>, pos: int) -> Option<Seq<u8>> {
    if 0 <= pos && pos + 16 <= data.len() && le64_at(data, pos) == SLAB_MAGIC && pos + FRAME_OVERHEAD
        + le64_at(data, pos + 8) <= data.len() {
        let len = le64_at(data, pos + 8);
        let payload = data.subrange(pos + 16, pos + 16 + len);
        if le64_at(data, pos + 16 + len) == hash64_of(payload) {
            Some(payload)
        } else {
            None
        }
    } else {
        None
    }
}

pub open spec fn header_ok(data: Seq<u8>) -> bool {
    data.len() >= HEADER_LEN && le64_at(data, 0) == FILE_MAGIC && le64_at(data, 8) <= 1
}

pub proof fn lemma_header_len(compressed: bool)
    ensures
        header(compressed).len() == HEADER_LEN,
{
    lemma_le64_len(FILE_MAGIC);
    lemma_le64_len(if compressed { 1u64 } else { 0u64 });
}

pub proof fn lemma_frame_len(s: Seq<u8>)
    ensures
        frame(s).len() == s.len() + FRAME_OVERHEAD,
{
    lemma_le64_len(SLAB_MAGIC);
    lemma_le64_len(s.len() as u64);
    lemma_le64_len(hash64_of(s));
}

pub proof fn lemma_frames_len_ge(slabs: Seq<Seq<u8>>)
    ensures
        frames(slabs).len() >= FRAME_OVERHEAD * slabs.len(),
    decreases slabs.len(),
{
    if slabs.len() > 0 {
        lemma_frame_len(slabs[0]);
        lemma_frames_len_ge(slabs.drop_first());
    }
}

pub proof fn lemma_frames_push(slabs: Seq<Seq<u8>>, x: Seq<u8>)
    ensures
        frames(slabs.push(x)) == frames(slabs) + frame(x),
    decreases slabs.len(),
{
    if slabs.len() == 0 {
        let e = Seq::<Seq<u8>>::empty();
        assert(slabs.push(x).drop_first() =~= e);
        assert(slabs.push(x)[0] == x);
        assert(frames(e) == Seq::<u8>::empty());
        assert(frames(slabs) == Seq::<u8>::empty());
        assert(frames(slabs.push(x)) == frame(x) + frames(e));
        assert(frames(slabs.push(x)) =~= frames(slabs) + frame(x));
    } else {
        assert(slabs.push(x).drop_first() =~= slabs.drop_first().push(x));
        assert(slabs.push(x)[0] == slabs[0]);
        lemma_frames_push(slabs.drop_first(), x);
        assert(frames(slabs.push(x)) =~= frames(slabs) + frame(x));
    }
}

pub proof fn lemma_frame_offsets_push(start: int, slabs: Seq<Seq<u8>>, x: Seq<u8>)
    ensures
        frame_offsets(start, slabs.push(x)) == frame_offsets(start, slabs).push(
            (start + frames(slabs).len()) as u64,
        ),
    decreases slabs.len(),
{
    if slabs.len() == 0 {
        let e = Seq::<Seq<u8>>::empty();
        assert(slabs.push(x).drop_first() =~= e);
        assert(slabs.push(x)[0] == x);
        assert(frame_offsets(start + FRAME_OVERHEAD + x.len(), e) == Seq::<u64>::empty());
        assert(frames(slabs) == Seq::<u8>::empty());
        assert(frame_offsets(start, slabs) == Seq::<u64>::empty());
        assert(frame_offsets(start, slabs.push(x)) =~= frame_offsets(start, slabs).push(
            (start + frames(slabs).len()) as u64,
        ));
    } else {
        assert(slabs.push(x).drop_first() =~= slabs.drop_first().push(x));
        assert(slabs.push(x)[0] == slabs[0]);
        let next = start + FRAME_OVERHEAD + slabs[0].len();
        lemma_frame_offsets_push(next, slabs.drop_first(), x);
        lemma_frame_len(slabs[0]);
        assert(frame_offsets(start, slabs.push(x)) =~= frame_offsets(start, slabs).push(
            (start + frames(slabs).len()) as u64,
        ));
    }
}

/// Walking the frames of `slabs` placed after `prefix` finds every frame's
/// start, and each start holds the corresponding payload.
pub proof fn lemma_scan_frames(prefix: Seq<u8>, slabs: Seq<Seq<u8>>)
    requires
        (prefix + frames(slabs)).len() <= u64::MAX,
    ensures
        scan(prefix + frames(slabs), prefix.len() as int) == Some(
            frame_offsets(prefix.len() as int, slabs),
        ),
        frame_offsets(prefix.len() as int, slabs).len() == slabs.len(),
        forall|i: int|
            0 <= i < slabs.len() ==> slab_at(
                prefix + frames(slabs),
                #[trigger] frame_offsets(prefix.len() as int, slabs)[i] as int,
            ) == Some(slabs[i]),
    decreases slabs.len(),
{
    let data = prefix + frames(slabs);
    let pos = prefix.len() as int;
    if slabs.len() == 0 {
        assert(data =~= prefix);
    } else {
        let s0 = slabs[0];
        let rest = slabs.drop_first();
        lemma_frame_len(s0);
        assert(data.len() == prefix.len() + frame(s0).len() + frames(rest).len());
        let len = s0.len() as u64;
        let ck = hash64_of(s0);
        lemma_le64_len(SLAB_MAGIC);
        lemma_le64_len(len);
        lemma_le64_len(ck);
        let p2 = prefix + frame(s0);
        assert(data =~= p2 + frames(rest));
        assert(data =~= prefix + le64(SLAB_MAGIC) + (le64(len) + s0 + le64(ck) + frames(rest)));
        lemma_le64_at_concat(prefix, SLAB_MAGIC, le64(len) + s0 + le64(ck) + frames(rest));
        assert(data =~= (prefix + le64(SLAB_MAGIC)) + le64(len) + (s0 + le64(ck) + frames(rest)));
        lemma_le64_at_concat(prefix + le64(SLAB_MAGIC), len, s0 + le64(ck) + frames(rest));
        assert(le64_at(data, pos) == SLAB_MAGIC);
        assert(le64_at(data, pos + 8) == len);
        lemma_scan_frames(p2, rest);
        assert(p2.len() == pos + FRAME_OVERHEAD + len);
        {
            assert(data =~= (prefix + le64(SLAB_MAGIC) + le64(len) + s0) + le64(ck) + frames(rest));
            lemma_le64_at_concat(prefix + le64(SLAB_MAGIC) + le64(len) + s0, ck, frames(rest));
            assert(data.subrange(pos + 16, pos + 16 + len) =~= s0);
            assert(slab_at(data, pos) == Some(s0));
            assert forall|i: int| 0 <= i < slabs.len() implies slab_at(
                data,
                #[trigger] frame_offsets(pos, slabs)[i] as int,
            ) == Some(slabs[i]) by {
                if i > 0 {
                    assert(frame_offsets(pos, slabs)[i] == frame_offsets(p2.len() as int, rest)[i - 1]);
                }
            }
        }
    }
}

/// The offset table of a slab file: where each frame starts, found by
/// walking the frames after the header. Fails on a bad header, a wrong
/// magic, or a frame that runs past the end of the data.
pub fn rebuild_offsets(data: &[u8]) -> (r: Result<Vec<u64>, SlabError>)
    ensures
        match r {
            Ok(o) => header_ok(data@) && scan(data@, HEADER_LEN as int) == Some(o@),
            Err(e) => {
                &&& !header_ok(data@) ==> e == SlabError::BadHeader
                &&& header_ok(data@) ==> scan(data@, HEADER_LEN as int) is None && e == scan_fault(data@, HEADER_LEN as int)
            },
        },
{
    let n = data.len();
    if n < 16 || read_u64(data, 0) != FILE_MAGIC || read_u64(data, 8) > 1 {
        return Err(SlabError::BadHeader);
    }
    let mut offsets: Vec<u64> = Vec::new();
    let mut pos: usize = 16;
    while pos < n
        invariant
            n == data@.len(),
            HEADER_LEN <= pos <= n,
            scan(data@, HEADER_LEN as int) == match scan(data@, pos as int) {
                Some(rest) => Some(offsets@ + rest),
                None => None::<Seq<u64>>,
            },
            header_ok(data@),
            scan_fault(data@, HEADER_LEN as int) == scan_fault(data@, pos as int),
        decreases n - pos,
    {
        if n - pos < 16 {
            return Err(SlabError::Truncated { offset: pos as u64 });
        }
        if read_u64(data, pos) != SLAB_MAGIC {
            return Err(SlabError::BadMagic { offset: pos as u64 });
        }
        let len = read_u64(data, pos + 8);
        if len > (n - pos - 16) as u64 || (n - pos - 16 - len as usize) < 8 {
            return Err(SlabError::Truncated { offset: pos as u64 });
        }
        let next = pos + 24 + len as usize;
        proof {
            let rest = scan(data@, next as int);
            if rest is Some {
                assert(offsets@.push(pos as u64) + rest->Some_0 =~= offsets@ + (seq![pos as u64] + rest->Some_0));
            }
        }
        offsets.push(pos as u64);
        pos = next;
    }
    assert(offsets@ + Seq::<u64>::empty() =~= offsets@);
    Ok(offsets)
}

/// Reads the payload of slab `index`, checking its frame and checksum.
pub fn read_slab(data: &[u8], offsets: &[u64], index: u64) -> (r: Result<Vec<u8>, SlabError>)
    ensures
        match r {
            Ok(v) => index < offsets@.len() && slab_at(data@, offsets@[index as int] as int) == Some(v@),
            Err(_) => index >= offsets@.len() || slab_at(data@, offsets@[index as int] as int) is None,
        },
{
    if index >= offsets.len() as u64 {
        return Err(SlabError::IndexOutOfRange { index });
    }
    let n = data.len();
    let off = offsets[index as usize];
    if off > n as u64 || n - (off as usize) < 16 {
        return Err(SlabError::Truncated { offset: off });
    }
    let pos = off as usize;
    if read_u64(data, pos) != SLAB_MAGIC {
        return Err(SlabError::BadMagic { offset: off });
    }
    let len = read_u64(data, pos + 8);
    if len > (n - pos - 16) as u64 || (n - pos - 16 - len as usize) < 8 {
        return Err(SlabError::Truncated { offset: off });
    }
    let end = pos + 16 + len as usize;
    let payload = copy_range(data, pos + 16, end);
    let ck = read_u64(data, end);
    if hash_64(payload.as_slice()) != ck {
        return Err(SlabError::ChecksumMismatch { index });
    }
    Ok(payload)
}

/// Appends the frame of `payload` to `out`.
pub fn push_frame(out: &mut Vec<u8>, payload: &[u8])
    ensures
        final(out)@ == old(out)@ + frame(payload@),
{
    push_u64(out, SLAB_MAGIC);
    push_u64(out, payload.len() as u64);
    push_all(out, payload);
    let ck = hash_64(payload);
    push_u64(out, ck);
    assert(payload@.len() as u64 == payload.len() as u64);
}

/// The header of a new slab file.
pub fn new_header(compressed: bool) -> (r: Vec<u8>)
    ensures
        r@ == header(compressed),
{
    let mut r: Vec<u8> = Vec::new();
    push_u64(&mut r, FILE_MAGIC);
    push_u64(&mut r, if compressed { 1 } else { 0 });
    assert(r@ =~= header(compressed));
    r
}


/// Rebuilding the offset table of a slab file from its bytes alone finds
/// one offset per slab, and reading each offset gives back that slab.
pub proof fn lemma_offsets_round_trip(compressed: bool, slabs: Seq<Seq<u8>>)
    requires
        file_image(compressed, slabs).len() <= u64::MAX,
    ensures
        header_ok(file_image(compressed, slabs)),
        scan(file_image(compressed, slabs), HEADER_LEN as int) == Some(frame_offsets(HEADER_LEN as int, slabs)),
        frame_offsets(HEADER_LEN as int, slabs).len() == slabs.len(),
        forall|i: int|
            0 <= i < slabs.len() ==> slab_at(
                file_image(compressed, slabs),
                #[trigger] frame_offsets(HEADER_LEN as int, slabs)[i] as int,
            ) == Some(slabs[i]),
{
    let flags: u64 = if compressed { 1 } else { 0 };
    let img = file_image(compressed, slabs);
    lemma_header_len(compressed);
    lemma_le64_len(FILE_MAGIC);
    lemma_le64_len(flags);
    assert(img =~= Seq::<u8>::empty() + le64(FILE_MAGIC) + (le64(flags) + frames(slabs)));
    lemma_le64_at_concat(Seq::<u8>::empty(), FILE_MAGIC, le64(flags) + frames(slabs));
    assert(img =~= le64(FILE_MAGIC) + le64(flags) + frames(slabs));
    lemma_le64_at_concat(le64(FILE_MAGIC), flags, frames(slabs));
    lemma_scan_frames(header(compressed), slabs);
}

/// A slab file opened for reading: its bytes and its offset table.
pub struct SlabFile {
    pub data: Vec<u8>,
    pub offsets: Vec<u64>,
}

impl SlabFile {
    /// The payload of slab `i`, if its frame is intact.
    pub open spec fn slab(&self, i: int) -> Option<Seq<u8>> {
        if 0 <= i < self.offsets@.len() {
            slab_at(self.data@, self.offsets@[i] as int)
        } else {
            None
        }
    }

    /// Opens a slab file, rebuilding its offset table from the bytes.
    pub fn open(data: Vec<u8>) -> (r: Result<SlabFile, SlabError>)
        ensures
            match r {
                Ok(f) => f.data@ == data@ && header_ok(data@) && scan(data@, HEADER_LEN as int) == Some(f.offsets@),
                Err(_) => !header_ok(data@) || scan(data@, HEADER_LEN as int) is None,
            },
    {
        match rebuild_offsets(data.as_slice()) {
            Ok(offsets) => Ok(SlabFile { data, offsets }),
            Err(e) => Err(e),
        }
    }

    pub fn get_nr_slabs(&self) -> (r: u64)
        ensures
            r == self.offsets@.len(),
    {
        self.offsets.len() as u64
    }

    /// Reads slab `index` straight from the bytes, checking its checksum.
    pub fn read_uncached(&self, index: u64) -> (r: Result<Vec<u8>, SlabError>)
        ensures
            match r {
                Ok(v) => self.slab(index as int) == Some(v@),
                Err(_) => self.slab(index as int) is None,
            },
    {
        read_slab(self.data.as_slice(), self.offsets.as_slice(), index)
    }
}

/// The header says the file's slabs are compressed.
pub open spec fn compressed_flag(data: Seq<u8>) -> bool {
    data.len() >= HEADER_LEN && le64_at(data, 8) == 1
}

/// Reads the compression flag from a slab file's header.
pub fn is_compressed(data: &[u8]) -> (r: bool)
    ensures
        r == compressed_flag(data@),
{
    data.len() >= 16 && read_u64(data, 8) == 1
}

/// An offset table kept beside a slab file can be used as it is: the
/// header is sound and every offset starts an intact frame.
pub open spec fn sidecar_ok(data: Seq<u8>, offsets: Seq<u64>) -> bool {
    header_ok(data) && forall|i: int| 0 <= i < offsets.len() ==> (#[trigger] slab_at(data, offsets[i] as int)) is Some
}

impl SlabFile {
    /// Opens a slab file with the offset table kept beside it, if that
    /// table can be used; otherwise rebuilds the table from the bytes.
    pub fn open_with_offsets(data: Vec<u8>, offsets: Vec<u64>) -> (r: Result<SlabFile, SlabError>)
        ensures
            match r {
                Ok(f) => f.data@ == data@ && if sidecar_ok(data@, offsets@) {
                    f.offsets@ == offsets@
                } else {
                    header_ok(data@) && scan(data@, HEADER_LEN as int) == Some(f.offsets@)
                },
                Err(_) => !sidecar_ok(data@, offsets@) && (!header_ok(data@) || scan(data@, HEADER_LEN as int) is None),
            },
    {
        let n = data.len();
        let mut usable = n >= 16 && read_u64(data.as_slice(), 0) == FILE_MAGIC && read_u64(data.as_slice(), 8) <= 1;
        let mut i: usize = 0;
        while usable && i < offsets.len()
            invariant
                n == data@.len(),
                0 <= i <= offsets@.len(),
                usable ==> header_ok(data@),
                usable ==> forall|j: int| 0 <= j < i ==> (#[trigger] slab_at(data@, offsets@[j] as int)) is Some,
                !usable ==> !sidecar_ok(data@, offsets@),
            decreases offsets@.len() - i + (if usable { 1int } else { 0 }),
        {
            if read_slab(data.as_slice(), offsets.as_slice(), i as u64).is_err() {
                usable = false;
            } else {
                i += 1;
            }
        }
        if usable {
            Ok(SlabFile { data, offsets })
        } else {
            SlabFile::open(data)
        }
    }
}

/// The bytes of an offset table kept beside a slab file: each offset as
/// eight little-endian bytes.
pub open spec fn offsets_bytes_ok(raw: Seq<u8>, offsets: Seq<u64>) -> bool {
    raw.len() == 8 * offsets.len() && forall|i: int| 0 <= i < offsets.len() ==> le64_at(raw, 8 * i) == #[trigger] offsets[i]
}

/// Encodes an offset table for storing beside its slab file.
pub fn encode_offsets(offsets: &[u64]) -> (r: Vec<u8>)
    ensures
        offsets_bytes_ok(r@, offsets@),
{
    let mut out: Vec<u8> = Vec::new();
    let mut i: usize = 0;
    while i < offsets.len()
        invariant
            0 <= i <= offsets@.len(),
            offsets_bytes_ok(out@, offsets@.subrange(0, i as int)),
        decreases offsets@.len() - i,
    {
        let ghost before = out@;
        push_u64(&mut out, offsets[i]);
        proof {
            lemma_le64_len(offsets@[i as int]);
            let sub = offsets@.subrange(0, i + 1);
            assert forall|j: int| 0 <= j < sub.len() implies le64_at(out@, 8 * j) == #[trigger] sub[j] by {
                if j < i {
                    assert(out@.subrange(8 * j, 8 * j + 8) =~= before.subrange(8 * j, 8 * j + 8));
                } else {
                    lemma_le64_at_concat(before, offsets@[i as int], Seq::empty());
                    assert(out@ =~= before + le64(offsets@[i as int]) + Seq::<u8>::empty());
                }
            }
        }
        i += 1;
    }
    assert(offsets@.subrange(0, offsets@.len() as int) =~= offsets@);
    out
}

/// Decodes an offset table stored beside a slab file; `None` when its
/// length is not a multiple of eight.
pub fn decode_offsets(raw: &[u8]) -> (r: Option<Vec<u64>>)
    ensures
        match r {
            Some(o) => offsets_bytes_ok(raw@, o@),
            None => raw@.len() % 8 != 0,
        },
{
    if raw.len() % 8 != 0 {
        return None;
    }
    let count = raw.len() / 8;
    let mut out: Vec<u64> = Vec::new();
    let mut i: usize = 0;
    while i < count
        invariant
            count * 8 == raw@.len(),
            0 <= i <= count,
            out@.len() == i,
            forall|j: int| 0 <= j < i ==> le64_at(raw@, 8 * j) == #[trigger] out@[j],
        decreases count - i,
    {
        assert(8 * i + 8 <= raw@.len()) by (nonlinear_arith)
            requires i < count, count * 8 == raw@.len();
        let _n = raw.len();
        out.push(read_u64(raw, 8 * i));
        i += 1;
    }
    Some(out)
}

} // verus!
