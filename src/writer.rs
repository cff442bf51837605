//! The write side of a slab file: reserved indices, out-of-order
//! completions, and in-order flushing.
use crate::slab::{lemma_frames_len_ge, lemma_header_len, frame_offsets, file_image, lemma_frames_push, lemma_frame_offsets_push, new_header, push_frame, SlabError, HEADER_LEN};
use vstd::prelude::*;

verus! {

/// The contents of one slab, tagged with the index it was reserved under.
pub struct SlabData {
    pub index: u64,
    pub data: Vec<u8>,
}

/// A slab file being written. Completions may arrive in any order; a
/// slab is flushed only once every lower index has been flushed, and the
/// rest wait in a reorder buffer.
pub struct SlabWriter {
    compressed: bool,
    nr_reserved: u64,
    image: Vec<u8>,
    offsets: Vec<u64>,
    pending: Vec<SlabData>,
    written: Ghost<Seq<Seq<u8>>>,
    completed: Ghost<Map<nat, Seq<u8>>>,
}

impl SlabWriter {
    pub closed spec fn compressed(&self) -> bool {
        self.compressed
    }

    /// How many indices have been reserved.
    pub closed spec fn reserved(&self) -> nat {
        self.nr_reserved as nat
    }

    /// Every completion received so far, by index.
    pub closed spec fn completed(&self) -> Map<nat, Seq<u8>> {
        self.completed@
    }

    /// The slabs flushed to the file so far, in index order.
    pub closed spec fn written(&self) -> Seq<Seq<u8>> {
        self.written@
    }

    spec fn flushed_ok(&self) -> bool {
        &&& self.image@ == file_image(self.compressed, self.written@)
        &&& self.offsets@ == frame_offsets(HEADER_LEN as int, self.written@)
        &&& self.offsets@.len() == self.written@.len()
        &&& self.image@.len() <= usize::MAX
        &&& self.completed@.dom().finite()
        &&& forall|i: nat|
            i < self.written@.len() ==> #[trigger] self.completed@.contains_key(i)
                && self.completed@[i] == self.written@[i as int]
    }

    spec fn pending_from(&self, lo: nat) -> bool {
        &&& forall|j: int|
            0 <= j < self.pending@.len() ==> {
                &&& (#[trigger] self.pending@[j]).index >= lo
                &&& self.completed@.contains_key(self.pending@[j].index as nat)
                &&& self.completed@[self.pending@[j].index as nat] == self.pending@[j].data@
            }
        &&& forall|k: nat|
            k >= lo && #[trigger] self.completed@.contains_key(k) ==> exists|j: int|
                0 <= j < self.pending@.len() && (#[trigger] self.pending@[j]).index == k
        &&& forall|j1: int, j2: int|
            0 <= j1 < self.pending@.len() && 0 <= j2 < self.pending@.len() && j1 != j2
                ==> (#[trigger] self.pending@[j1]).index != (#[trigger] self.pending@[j2]).index
    }

    /// The flushed slabs are exactly the completions at indices 0, 1, ...
    /// up to the first index not yet completed; the others are buffered.
    pub closed spec fn wf(&self) -> bool {
        &&& self.flushed_ok()
        &&& !self.completed@.contains_key(self.written@.len())
        &&& self.pending_from(self.written@.len())
    }

    /// Closing succeeds exactly when the completions are those of the
    /// reserved indices, no more and no fewer.
    pub open spec fn close_ok(&self) -> bool {
        self.completed().dom() == Set::new(|i: nat| i < self.reserved())
    }

    /// The slabs of a file whose completions are exactly the indices below `n`.
    pub open spec fn in_index_order(&self, n: nat) -> Seq<Seq<u8>> {
        Seq::new(n, |i: int| self.completed()[i as nat])
    }

    /// A new, empty slab file.
    pub fn new(compressed: bool) -> (r: SlabWriter)
        ensures
            r.wf(),
            r.compressed() == compressed,
            r.reserved() == 0,
            r.completed() == Map::<nat, Seq<u8>>::empty(),
    {
        let image = new_header(compressed);
        let _image_len = image.len();
        proof {
            assert(frame_offsets(HEADER_LEN as int, Seq::empty()) == Seq::<u64>::empty());
            assert(image@ =~= file_image(compressed, Seq::empty()));
        }
        SlabWriter {
            compressed,
            nr_reserved: 0,
            image,
            offsets: Vec::new(),
            pending: Vec::new(),
            written: Ghost(Seq::empty()),
            completed: Ghost(Map::empty()),
        }
    }

    /// The number of slabs flushed so far.
    pub fn nr_written(&self) -> (r: u64)
        requires
            self.wf(),
        ensures
            r == self.written().len(),
    {
        self.offsets.len() as u64
    }

    /// Reserves the next slab index.
    pub fn reserve_slab(&mut self) -> (r: u64)
        requires
            old(self).wf(),
            old(self).reserved() < u64::MAX,
        ensures
            final(self).wf(),
            r == old(self).reserved(),
            final(self).reserved() == old(self).reserved() + 1,
            final(self).completed() == old(self).completed(),
            final(self).written() == old(self).written(),
            final(self).compressed() == old(self).compressed(),
    {
        let r = self.nr_reserved;
        self.nr_reserved = r + 1;
        r
    }

    fn find_pending(&self, index: u64) -> (r: Option<usize>)
        ensures
            match r {
                Some(j) => j < self.pending@.len() && self.pending@[j as int].index == index,
                None => forall|j: int| 0 <= j < self.pending@.len() ==> self.pending@[j].index != index,
            },
    {
        let mut j: usize = 0;
        while j < self.pending.len()
            invariant
                0 <= j <= self.pending@.len(),
                forall|k: int| 0 <= k < j ==> self.pending@[k].index != index,
            decreases self.pending@.len() - j,
        {
            if self.pending[j].index == index {
                return Some(j);
            }
            j += 1;
        }
        None
    }

    /// Flushes `data` as the next slab, then every buffered completion
    /// that has become next in line.
    fn flush_from(&mut self, data: Vec<u8>)
        requires
            old(self).flushed_ok(),
            old(self).completed@.contains_key(old(self).written@.len()),
            old(self).completed@[old(self).written@.len()] == data@,
            old(self).pending_from(old(self).written@.len() + 1),
        ensures
            final(self).wf(),
            final(self).completed@ == old(self).completed@,
            final(self).nr_reserved == old(self).nr_reserved,
            final(self).compressed == old(self).compressed,
    {
        let mut cur = data;
        loop
            invariant
                self.flushed_ok(),
                self.completed@.contains_key(self.written@.len()),
                self.completed@[self.written@.len()] == cur@,
                self.pending_from(self.written@.len() + 1),
                self.completed@ == old(self).completed@,
                self.nr_reserved == old(self).nr_reserved,
                self.compressed == old(self).compressed,
            decreases self.pending@.len(),
        {
            let ghost w = self.written@;
            proof {
                lemma_frames_push(w, cur@);
                lemma_frame_offsets_push(HEADER_LEN as int, w, cur@);
                lemma_header_len(self.compressed);
            }
            let pos = self.image.len() as u64;
            self.offsets.push(pos);
            push_frame(&mut self.image, cur.as_slice());
            let _image_len = self.image.len();
            self.written = Ghost(w.push(cur@));
            proof {
                assert(self.image@ =~= file_image(self.compressed, self.written@));
                assert forall|i: nat| i < self.written@.len() implies #[trigger] self.completed@.contains_key(i)
                    && self.completed@[i] == self.written@[i as int] by {
                    if i < w.len() {
                        assert(old(self).completed@.contains_key(i) || self.completed@.contains_key(i));
                    }
                }
            }
            let want = self.offsets.len() as u64;
            match self.find_pending(want) {
                Some(j) => {
                    let ghost before = self.pending@;
                    let d = self.pending.remove(j);
                    proof {
                        assert forall|k: nat|
                            k >= self.written@.len() + 1 && #[trigger] self.completed@.contains_key(k) implies exists|j2: int|
                                0 <= j2 < self.pending@.len() && (#[trigger] self.pending@[j2]).index == k by {
                            let jj = choose|jj: int| 0 <= jj < before.len() && (#[trigger] before[jj]).index == k;
                            assert(before[j as int].index == want);
                            assert(jj != j);
                            if jj < j {
                                assert(self.pending@[jj] == before[jj]);
                            } else {
                                assert(self.pending@[jj - 1] == before[jj]);
                            }
                        }
                        assert forall|k: int| 0 <= k < self.pending@.len() implies (#[trigger] self.pending@[k]).index
                            >= self.written@.len() + 1 by {
                            if k < j {
                                assert(self.pending@[k] == before[k]);
                                assert(before[k].index != before[j as int].index);
                            } else {
                                assert(self.pending@[k] == before[k + 1]);
                                assert(before[k + 1].index != before[j as int].index);
                            }
                        }
                        assert forall|j1: int, j2: int|
                            0 <= j1 < self.pending@.len() && 0 <= j2 < self.pending@.len() && j1 != j2
                                implies (#[trigger] self.pending@[j1]).index != (#[trigger] self.pending@[j2]).index by {
                            let b1 = if j1 < j { j1 } else { j1 + 1 };
                            let b2 = if j2 < j { j2 } else { j2 + 1 };
                            assert(self.pending@[j1] == before[b1]);
                            assert(self.pending@[j2] == before[b2]);
                        }
                    }
                    cur = d.data;
                },
                None => {
                    proof {
                        if self.completed@.contains_key(self.written@.len()) {
                            let jj = choose|jj: int|
                                0 <= jj < self.pending@.len() && (#[trigger] self.pending@[jj]).index
                                    == self.written@.len();
                            assert(self.pending@[jj].index != want);
                        }
                        assert(self.flushed_ok());
                        assert(self.pending_from(self.written@.len()));
                    }
                    return;
                },
            }
        }
    }

    /// Hands over the contents of a reserved slab. Fails, changing nothing,
    /// when that index was already supplied.
    pub fn complete(&mut self, sd: SlabData) -> (r: Result<(), SlabError>)
        requires
            old(self).wf(),
        ensures
            final(self).wf(),
            final(self).reserved() == old(self).reserved(),
            final(self).compressed() == old(self).compressed(),
            old(self).completed().contains_key(sd.index as nat) ==> r is Err && final(self).completed()
                == old(self).completed(),
            !old(self).completed().contains_key(sd.index as nat) ==> r is Ok && final(self).completed()
                == old(self).completed().insert(sd.index as nat, sd.data@),
    {
        let next = self.offsets.len() as u64;
        if sd.index < next {
            let ghost i: nat = sd.index as nat;
            assert(i < self.written@.len());
            assert(self.completed@.contains_key(i));
            return Err(SlabError::DuplicateSlab { index: sd.index });
        }
        let found = self.find_pending(sd.index);
        if found.is_some() {
            return Err(SlabError::DuplicateSlab { index: sd.index });
        }
        proof {
            if old(self).completed@.contains_key(sd.index as nat) {
                if sd.index > next {
                    let jj = choose|jj: int|
                        0 <= jj < self.pending@.len() && (#[trigger] self.pending@[jj]).index == sd.index;
                    assert(self.pending@[jj].index != sd.index);
                }
            }
        }
        let ghost old_pending = self.pending@;
        let ghost old_completed = self.completed@;
        self.completed = Ghost(self.completed@.insert(sd.index as nat, sd.data@));
        proof {
            assert forall|i: nat| i < self.written@.len() implies #[trigger] self.completed@.contains_key(i)
                && self.completed@[i] == self.written@[i as int] by {
                assert(old_completed.contains_key(i));
            }
            assert(self.completed@.dom() =~= old_completed.dom().insert(sd.index as nat));
            assert(self.completed@.dom().finite());
            assert(self.flushed_ok());
        }
        if sd.index == next {
            proof {
                assert forall|k: int| 0 <= k < self.pending@.len() implies (#[trigger] self.pending@[k]).index
                    >= self.written@.len() + 1 by {
                    assert(self.pending@[k].index != sd.index);
                }
                assert forall|k: nat|
                    k >= self.written@.len() + 1 && #[trigger] self.completed@.contains_key(k) implies exists|j: int|
                        0 <= j < self.pending@.len() && (#[trigger] self.pending@[j]).index == k by {
                    assert(old(self).pending_from(old(self).written@.len()));
                    assert(old_completed.contains_key(k));
                    assert(k >= old(self).written@.len());
                    assert(self.pending@ == old_pending);
                    let jj = choose|jj: int| 0 <= jj < old_pending.len() && (#[trigger] old_pending[jj]).index == k;
                    assert(self.pending@[jj].index == k);
                }
                assert forall|j: int| 0 <= j < self.pending@.len() implies self.completed@.contains_key(
                    (#[trigger] self.pending@[j]).index as nat,
                ) && self.completed@[self.pending@[j].index as nat] == self.pending@[j].data@ by {
                    assert(old_completed.contains_key(self.pending@[j].index as nat));
                    assert(self.pending@[j].index != sd.index);
                }
            }
            self.flush_from(sd.data);
        } else {
            let ghost idx = sd.index;
            let ghost data = sd.data@;
            self.pending.push(sd);
            proof {
                assert(self.pending@[self.pending@.len() - 1].index == idx);
                assert forall|j: int| 0 <= j < self.pending@.len() implies {
                    &&& (#[trigger] self.pending@[j]).index >= self.written@.len()
                    &&& self.completed@.contains_key(self.pending@[j].index as nat)
                    &&& self.completed@[self.pending@[j].index as nat] == self.pending@[j].data@
                } by {
                    if j < old_pending.len() {
                        assert(self.pending@[j] == old_pending[j]);
                        assert(old_completed.contains_key(old_pending[j].index as nat));
                    } else {
                        assert(self.pending@[j].data@ == data);
                    }
                }
                assert forall|k: nat|
                    k >= self.written@.len() && #[trigger] self.completed@.contains_key(k) implies exists|j: int|
                        0 <= j < self.pending@.len() && (#[trigger] self.pending@[j]).index == k by {
                    if k != idx {
                        let jj = choose|jj: int| 0 <= jj < old_pending.len() && (#[trigger] old_pending[jj]).index == k;
                        assert(self.pending@[jj] == old_pending[jj]);
                    } else {
                        assert(self.pending@[self.pending@.len() - 1].index == k);
                    }
                }
                assert forall|j1: int, j2: int|
                    0 <= j1 < self.pending@.len() && 0 <= j2 < self.pending@.len() && j1 != j2
                        implies (#[trigger] self.pending@[j1]).index != (#[trigger] self.pending@[j2]).index by {
                    if j1 < old_pending.len() {
                        assert(self.pending@[j1] == old_pending[j1]);
                    }
                    if j2 < old_pending.len() {
                        assert(self.pending@[j2] == old_pending[j2]);
                    }
                }
            }
        }
        Ok(())
    }

    /// Reserves the next index and supplies its contents at once.
    pub fn write_slab(&mut self, data: &[u8]) -> (r: Result<(), SlabError>)
        requires
            old(self).wf(),
            old(self).reserved() < u64::MAX,
        ensures
            final(self).wf(),
            final(self).reserved() == old(self).reserved() + 1,
            final(self).compressed() == old(self).compressed(),
            old(self).completed().contains_key(old(self).reserved()) ==> r is Err && final(self).completed()
                == old(self).completed(),
            !old(self).completed().contains_key(old(self).reserved()) ==> r is Ok && final(self).completed()
                == old(self).completed().insert(old(self).reserved(), data@),
    {
        let index = self.reserve_slab();
        let mut v: Vec<u8> = Vec::new();
        crate::bytes::push_all(&mut v, data);
        assert(v@ =~= data@);
        self.complete(SlabData { index, data: v })
    }

    /// Finishes the file and hands back its bytes. Fails when a reserved
    /// index was never supplied or a buffered completion cannot be flushed
    /// in order: the file is never cut short silently.
    pub fn close(self) -> (r: Result<Vec<u8>, SlabError>)
        requires
            self.wf(),
        ensures
            self.close_ok() ==> r is Ok && r->Ok_0@ == file_image(
                self.compressed(),
                self.in_index_order(self.reserved()),
            ),
            !self.close_ok() ==> r is Err,
    {
        let ghost dom = self.completed@.dom();
        let ghost want = Set::new(|i: nat| i < self.reserved());
        let ghost len = self.written@.len();
        if self.pending.len() != 0 {
            proof {
                let p = self.pending@[0].index as nat;
                assert(dom.contains(p));
                if dom == want {
                    assert(want.contains(len));
                }
            }
            return Err(SlabError::Unflushed);
        }
        if self.offsets.len() as u64 != self.nr_reserved {
            proof {
                if dom == want {
                    if len < self.reserved() {
                        assert(want.contains(len));
                    } else {
                        let r = self.reserved();
                        assert(dom.contains(r));
                    }
                }
            }
            return Err(SlabError::Unflushed);
        }
        proof {
            assert forall|i: nat| dom.contains(i) <==> want.contains(i) by {
                if dom.contains(i) && i >= len {
                    if i > len {
                        let jj = choose|jj: int| 0 <= jj < self.pending@.len() && (#[trigger] self.pending@[jj]).index == i;
                    }
                }
            }
            assert(dom =~= want);
            lemma_all_completed_flushed(&self, self.reserved());
        }
        Ok(self.image)
    }

} // impl SlabWriter

/// The flushed slabs depend only on which completions arrived, not on the
/// order they arrived in: two writers holding the same completions have
/// flushed the same slabs.
pub proof fn lemma_flush_order_independent(a: &SlabWriter, b: &SlabWriter)
    requires
        a.wf(),
        b.wf(),
        a.completed() == b.completed(),
    ensures
        a.written() == b.written(),
{
    let la = a.written().len();
    let lb = b.written().len();
    if la < lb {
        assert(b.completed@.contains_key(la));
    }
    if lb < la {
        assert(a.completed@.contains_key(lb));
    }
    assert forall|i: int| 0 <= i < la implies a.written()[i] == b.written()[i] by {
        assert(a.completed@.contains_key(i as nat));
        assert(b.completed@.contains_key(i as nat));
    }
    assert(a.written() =~= b.written());
}

/// Once every index below `n` and no other has been completed, in whatever
/// order, the flushed slabs are exactly those completions in index order.
pub proof fn lemma_all_completed_flushed(w: &SlabWriter, n: nat)
    requires
        w.wf(),
        w.completed().dom() == Set::new(|i: nat| i < n),
    ensures
        w.written() == w.in_index_order(n),
{
    let len = w.written().len();
    let dom = w.completed().dom();
    assert(!dom.contains(len));
    if len < n {
        assert(Set::new(|i: nat| i < n).contains(len));
    }
    if len > n {
        assert(w.completed@.contains_key(n));
    }
    assert forall|i: int| 0 <= i < len implies w.written()[i] == w.in_index_order(n)[i] by {
        assert(w.completed@.contains_key(i as nat));
    }
    assert(w.written() =~= w.in_index_order(n));
}

/// Every flushed slab takes room in the file's bytes, so the count of
/// flushed slabs stays below `u64::MAX`.
pub proof fn lemma_written_bound(w: &SlabWriter)
    requires
        w.wf(),
    ensures
        w.written().len() < u64::MAX,
{
    lemma_frames_len_ge(w.written@);
    lemma_header_len(w.compressed);
}

/// A file whose slab 1 was supplied while slab 0 never was cannot be closed.
pub proof fn lemma_close_with_gap_fails(w: &SlabWriter)
    requires
        w.wf(),
        !w.completed().contains_key(0),
        w.completed().contains_key(1),
    ensures
        !w.close_ok(),
{
    let want = Set::new(|i: nat| i < w.reserved());
    if w.completed().dom() == want {
        assert(w.completed().dom().contains(1));
        assert(want.contains(0));
    }
}

} // verus!
