//! Modelled physical memory: an arena of 4 KiB frames, each seen as 512
//! page-table words and addressed by its physical page number, together with
//! the frame allocator that hands out fresh, zeroed frames.
use vstd::prelude::*;
use crate::address::{PhysPageNum, PPN_LIMIT};
use crate::pte::PageTableEntry;

verus! {

/// Frames `0 .. n_frames`; those below `next` have been handed out, the rest are
/// free and hold only zero words.
pub struct PhysMemory {
    words: Vec<PageTableEntry>,
    n_frames: usize,
    next: usize,
}

/// Two (frame, slot) pairs name the same word only if they are equal.
proof fn lemma_slot_unique(p: int, i: int, q: int, j: int)
    requires
        0 <= i < 512,
        0 <= j < 512,
        0 <= p,
        0 <= q,
        p * 512 + i == q * 512 + j,
    ensures
        p == q && i == j,
{
    assert(p == q && i == j) by (nonlinear_arith)
        requires 0 <= i < 512, 0 <= j < 512, 0 <= p, 0 <= q, p * 512 + i == q * 512 + j;
}

/// A slot of frame `p < n` lies inside `n` frames of words.
proof fn lemma_slot_bound(p: int, i: int, n: int)
    requires
        0 <= p < n,
        0 <= i < 512,
    ensures
        0 <= p * 512 + i < n * 512,
{
    assert(0 <= p * 512 + i < n * 512) by (nonlinear_arith)
        requires 0 <= p < n, 0 <= i < 512;
}

impl PhysMemory {
    /// Number of frames in the machine.
    pub closed spec fn frame_count(self) -> nat {
        self.n_frames as nat
    }

    /// Frames below this number have been allocated.
    pub closed spec fn next_free(self) -> nat {
        self.next as nat
    }

    /// Word `i` of frame `p`.
    pub closed spec fn pte(self, p: int, i: int) -> PageTableEntry {
        self.words@[p * 512 + i]
    }

    pub closed spec fn wf(self) -> bool {
        &&& self.words@.len() == self.n_frames * 512
        &&& self.n_frames * 512 <= usize::MAX
        &&& self.n_frames <= PPN_LIMIT
        &&& self.next <= self.n_frames
        &&& forall|p: int, i: int|
            #![trigger self.pte(p, i)]
            self.next <= p < self.n_frames && 0 <= i < 512 ==> self.pte(p, i).bits == 0
    }

    /// Word `i` of frame `ppn`, or nothing where no such word exists.
    pub open spec fn entry(self, ppn: u64, i: usize) -> Option<PageTableEntry> {
        if ppn < self.frame_count() && i < 512 {
            Some(self.pte(ppn as int, i as int))
        } else {
            None
        }
    }

    /// Frames that the allocator can still hand out.
    pub open spec fn free_count(self) -> int {
        self.frame_count() - self.next_free()
    }

    /// Every word of the frames in `from ..` is zero.
    pub open spec fn zero_from(self, from: nat) -> bool {
        forall|p: int, i: int|
            #![trigger self.pte(p, i)]
            from <= p < self.frame_count() && 0 <= i < 512 ==> self.pte(p, i).bits == 0
    }

    /// A machine of `n_frames` zeroed frames, none of them allocated.
    pub fn new(n_frames: usize) -> (r: PhysMemory)
        requires
            n_frames * 512 <= usize::MAX,
            n_frames <= PPN_LIMIT,
        ensures
            r.wf(),
            r.frame_count() == n_frames,
            r.next_free() == 0,
            r.zero_from(0),
    {
        let total = n_frames * 512;
        let mut words: Vec<PageTableEntry> = Vec::new();
        let mut k: usize = 0;
        while k < total
            invariant
                total == n_frames * 512,
                k <= total,
                words@.len() == k,
                forall|m: int| 0 <= m < k ==> (#[trigger] words@[m]).bits == 0,
            decreases total - k,
        {
            words.push(PageTableEntry::empty());
            k = k + 1;
        }
        let r = PhysMemory { words, n_frames, next: 0 };
        assert forall|p: int, i: int|
            #![trigger r.pte(p, i)]
            0 <= p < r.frame_count() && 0 <= i < 512 implies r.pte(p, i).bits == 0 by {
            lemma_slot_bound(p, i, n_frames as int);
        }
        r
    }

    /// Allocated frames lie inside the machine, whose frame numbers fit the entry field.
    pub proof fn lemma_bounds(self)
        requires
            self.wf(),
        ensures
            self.next_free() <= self.frame_count(),
            self.frame_count() <= PPN_LIMIT,
    {
    }

    /// Number of frames still free.
    pub fn free_frames(&self) -> (r: usize)
        requires
            self.wf(),
        ensures
            r == self.free_count(),
    {
        self.n_frames - self.next
    }

    /// Hands out the lowest free frame, which is zeroed; nothing when none is left.
    pub fn frame_alloc(&mut self) -> (r: Option<PhysPageNum>)
        requires
            old(self).wf(),
        ensures
            final(self).wf(),
            final(self).frame_count() == old(self).frame_count(),
            forall|p: int, i: int| #[trigger] final(self).pte(p, i) == old(self).pte(p, i),
            old(self).next_free() < old(self).frame_count() ==> {
                &&& r == Some(PhysPageNum(old(self).next_free() as u64))
                &&& final(self).next_free() == old(self).next_free() + 1
                &&& forall|i: int| 0 <= i < 512 ==> (#[trigger] final(self).pte(old(self).next_free() as int, i)).bits == 0
            },
            old(self).next_free() >= old(self).frame_count() ==> {
                &&& r.is_none()
                &&& final(self).next_free() == old(self).next_free()
            },
    {
        if self.next < self.n_frames {
            let p = self.next;
            self.next = self.next + 1;
            proof {
                assert forall|q: int, i: int|
                    #![trigger self.pte(q, i)]
                    self.next <= q < self.n_frames && 0 <= i < 512 implies self.pte(q, i).bits == 0 by {
                    assert(self.pte(q, i) == old(self).pte(q, i));
                }
                assert forall|i: int| 0 <= i < 512 implies (#[trigger] self.pte(p as int, i)).bits == 0 by {
                    assert(self.pte(p as int, i) == old(self).pte(p as int, i));
                }
            }
            Some(PhysPageNum(p as u64))
        } else {
            None
        }
    }

    /// Word `i` of frame `ppn`, or `None` outside the machine.
    pub fn get(&self, ppn: PhysPageNum, i: usize) -> (r: Option<PageTableEntry>)
        requires
            self.wf(),
        ensures
            r == self.entry(ppn.0, i),
    {
        if ppn.0 < self.n_frames as u64 && i < 512 {
            let p = ppn.0 as usize;
            proof {
                lemma_slot_bound(p as int, i as int, self.n_frames as int);
            }
            Some(self.words[p * 512 + i])
        } else {
            None
        }
    }

    /// Overwrites word `i` of the allocated frame `ppn`.
    pub fn set(&mut self, ppn: PhysPageNum, i: usize, e: PageTableEntry)
        requires
            old(self).wf(),
            ppn.0 < old(self).next_free(),
            i < 512,
        ensures
            final(self).wf(),
            final(self).frame_count() == old(self).frame_count(),
            final(self).next_free() == old(self).next_free(),
            final(self).pte(ppn.0 as int, i as int) == e,
            forall|p: int, j: int|
                0 <= p < old(self).frame_count() && 0 <= j < 512 && !(p == ppn.0 && j == i)
                    ==> #[trigger] final(self).pte(p, j) == old(self).pte(p, j),
    {
        let p = ppn.0 as usize;
        proof {
            lemma_slot_bound(p as int, i as int, self.n_frames as int);
        }
        self.words.set(p * 512 + i, e);
        proof {
            assert forall|q: int, j: int|
                0 <= q < old(self).frame_count() && 0 <= j < 512 && !(q == ppn.0 && j == i)
                    implies #[trigger] self.pte(q, j) == old(self).pte(q, j) by {
                lemma_slot_bound(q, j, self.n_frames as int);
                if q * 512 + j == p * 512 + i {
                    lemma_slot_unique(q, j, p as int, i as int);
                }
            }
        }
    }
}

} // verus!
