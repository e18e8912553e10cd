//! The three-level radix page table of one address space, kept in modelled
//! physical memory and addressed by physical page numbers.
use vstd::prelude::*;
use crate::address::{
    idx0, idx1, idx2, leaf_prefix, lemma_indexes_determine_vpn, lemma_join, lemma_prefix_split,
    vpn_in_range, PhysPageNum, VirtPageNum, PPN_LIMIT,
};
use crate::frame::PhysMemory;
use crate::pte::{pack, PTEFlags, PageTableEntry, FLAG_V, PPN_MASK};

verus! {

/// Paging-mode tag placed in the top bits of a token (Sv39).
pub const SATP_MODE_SV39: u64 = 8;

/// Word `i` of frame `ppn`.
pub open spec fn slot(mem: PhysMemory, ppn: u64, i: usize) -> PageTableEntry {
    mem.pte(ppn as int, i as int)
}

/// The entry at slot `i` of frame `ppn` when that slot exists and is valid.
pub open spec fn valid_entry(mem: PhysMemory, ppn: u64, i: usize) -> Option<PageTableEntry> {
    match mem.entry(ppn, i) {
        Some(e) => if e.spec_valid() {
            Some(e)
        } else {
            None
        },
        None => None,
    }
}

/// The leaf table that the walk from `root` reaches for `vpn`.
pub open spec fn spec_leaf_table(mem: PhysMemory, root: u64, vpn: usize) -> Option<u64> {
    match valid_entry(mem, root, idx0(vpn)) {
        Some(e0) => match valid_entry(mem, e0.spec_ppn(), idx1(vpn)) {
            Some(e1) => Some(e1.spec_ppn()),
            None => None,
        },
        None => None,
    }
}

/// The valid leaf entry for `vpn` in the tree rooted at `root`; `None` when any
/// level along the walk, the leaf included, is invalid.
pub open spec fn spec_walk(mem: PhysMemory, root: u64, vpn: usize) -> Option<PageTableEntry> {
    match spec_leaf_table(mem, root, vpn) {
        Some(t) => valid_entry(mem, t, idx2(vpn)),
        None => None,
    }
}

/// The root frame that a token names.
pub open spec fn token_root(satp: u64) -> u64 {
    satp & PPN_MASK
}

/// The token that activates the tree rooted at `root`.
pub open spec fn spec_token(root: u64) -> u64 {
    (SATP_MODE_SV39 << 60u64) | root
}

/// One address space: its root frame, the frames it owns, and (as ghost state)
/// where each of its table frames sits in the tree.
pub struct PageTable {
    root_ppn: PhysPageNum,
    frames: Vec<PhysPageNum>,
    /// Middle tables, keyed by root index.
    l1: Ghost<Map<usize, u64>>,
    /// Leaf tables, keyed by `root index * 512 + middle index`.
    l2: Ghost<Map<usize, u64>>,
}

impl PageTable {
    pub closed spec fn root(self) -> u64 {
        self.root_ppn.0
    }

    /// What `vpn` translates to in this address space.
    pub open spec fn translation(self, mem: PhysMemory, vpn: usize) -> Option<PageTableEntry> {
        spec_walk(mem, self.root(), vpn)
    }

    /// What `map` demands: a well-formed tree, an in-range page that does not
    /// translate yet, and the frames for the tables that its walk still lacks.
    pub open spec fn can_map(self, mem: PhysMemory, vpn: usize) -> bool {
        &&& self.wf(mem)
        &&& vpn_in_range(vpn)
        &&& self.translation(mem, vpn).is_none()
        &&& mem.free_count() >= path_cost(mem, self.root(), vpn)
    }

    /// What `unmap` demands: a well-formed tree and an in-range page that translates.
    pub open spec fn can_unmap(self, mem: PhysMemory, vpn: usize) -> bool {
        &&& self.wf(mem)
        &&& vpn_in_range(vpn)
        &&& self.translation(mem, vpn).is_some()
    }

    /// The same translation, read through the ghost table positions.
    closed spec fn by_tables(self, mem: PhysMemory, vpn: usize) -> Option<PageTableEntry> {
        if self.l2@.contains_key(leaf_prefix(vpn)) {
            valid_entry(mem, self.l2@[leaf_prefix(vpn)], idx2(vpn))
        } else {
            None
        }
    }

    /// The tree owned by this table is well formed in `mem`: each valid root
    /// or middle entry points to a distinct table frame of its own position,
    /// every table frame has been allocated, and no frame serves two positions.
    pub closed spec fn wf(self, mem: PhysMemory) -> bool {
        let root = self.root();
        let l1 = self.l1@;
        let l2 = self.l2@;
        &&& self.frames@.len() > 0
        &&& self.frames@[0] == self.root_ppn
        &&& mem.wf()
        &&& mem.next_free() <= mem.frame_count()
        &&& mem.frame_count() <= PPN_LIMIT
        &&& root < mem.next_free()
        &&& forall|i: usize| i < 512 ==> (#[trigger] slot(mem, root, i)).spec_valid() == l1.contains_key(i)
        &&& forall|i: usize| #[trigger] l1.contains_key(i) ==> {
            &&& i < 512
            &&& slot(mem, root, i).spec_ppn() == l1[i]
            &&& l1[i] < mem.next_free()
            &&& l1[i] != root
        }
        &&& forall|i: usize, j: usize|
            l1.contains_key(i) && j < 512 ==> {
                &&& (#[trigger] slot(mem, l1[i], j)).spec_valid() == l2.contains_key((i * 512 + j) as usize)
                &&& l2.contains_key((i * 512 + j) as usize) ==> slot(mem, l1[i], j).spec_ppn() == l2[(i * 512 + j) as usize]
            }
        &&& forall|k: usize| #[trigger] l2.contains_key(k) ==> {
            &&& k < 262144
            &&& l1.contains_key(k / 512)
            &&& l2[k] < mem.next_free()
            &&& l2[k] != root
        }
        &&& forall|a: usize, b: usize|
            l1.contains_key(a) && l1.contains_key(b) && #[trigger] l1[a] == #[trigger] l1[b] ==> a == b
        &&& forall|a: usize, b: usize|
            l2.contains_key(a) && l2.contains_key(b) && #[trigger] l2[a] == #[trigger] l2[b] ==> a == b
        &&& forall|a: usize, k: usize|
            l1.contains_key(a) && l2.contains_key(k) ==> #[trigger] l1[a] != #[trigger] l2[k]
    }

    /// A well-formed tree lives in a well-formed memory.
    pub proof fn lemma_mem_wf(self, mem: PhysMemory)
        requires
            self.wf(mem),
        ensures
            mem.wf(),
            mem.next_free() <= mem.frame_count(),
            mem.frame_count() <= PPN_LIMIT,
    {
    }

    /// In a well-formed tree the walk ends where the ghost positions say.
    proof fn lemma_walk(self, mem: PhysMemory, vpn: usize)
        requires
            self.wf(mem),
        ensures
            self.translation(mem, vpn) == self.by_tables(mem, vpn),
            spec_leaf_table(mem, self.root(), vpn) == (if self.l2@.contains_key(leaf_prefix(vpn)) {
                Some(self.l2@[leaf_prefix(vpn)])
            } else {
                None
            }),
            valid_entry(mem, self.root(), idx0(vpn)).is_some() == self.l1@.contains_key(idx0(vpn)),
    {
        let root = self.root();
        let i0 = idx0(vpn);
        let i1 = idx1(vpn);
        lemma_prefix_split(vpn);
        assert(i0 < 512 && i1 < 512);
        let _ = slot(mem, root, i0);
        if self.l1@.contains_key(i0) {
            let _ = slot(mem, self.l1@[i0], i1);
            assert(leaf_prefix(vpn) == (i0 * 512 + i1) as usize);
        } else {
            if self.l2@.contains_key(leaf_prefix(vpn)) {
                assert(self.l1@.contains_key(leaf_prefix(vpn) / 512));
            }
        }
    }

    /// A fresh address space whose root frame comes from the allocator.
    pub fn new(mem: &mut PhysMemory) -> (r: PageTable)
        requires
            old(mem).wf(),
            old(mem).free_count() >= 1,
        ensures
            r.wf(*final(mem)),
            r.root() == old(mem).next_free(),
            final(mem).frame_count() == old(mem).frame_count(),
            final(mem).next_free() == old(mem).next_free() + 1,
            forall|p: int, i: int| #[trigger] final(mem).pte(p, i) == old(mem).pte(p, i),
            forall|vpn: usize| r.translation(*final(mem), vpn).is_none(),
    {
        proof {
            mem.lemma_bounds();
        }
        let frame = mem.frame_alloc().unwrap();
        let mut frames: Vec<PhysPageNum> = Vec::new();
        frames.push(frame);
        let r = PageTable {
            root_ppn: frame,
            frames,
            l1: Ghost(Map::empty()),
            l2: Ghost(Map::empty()),
        };
        proof {
            let m = *mem;
            assert forall|i: usize| i < 512 implies !(#[trigger] slot(m, frame.0, i)).spec_valid() by {
                assert(m.pte(frame.0 as int, i as int).bits == 0);
                assert(0u64 & 1u64 == 0) by (bit_vector);
            }
            assert forall|vpn: usize| r.translation(m, vpn).is_none() by {
                r.lemma_walk(m, vpn);
            }
        }
        r
    }

    /// A read-only view of the address space that `satp` activates. It owns no
    /// frame, so it is never well formed and `map` / `unmap` cannot be called on it.
    pub fn from_token(satp: u64) -> (r: PageTable)
        ensures
            r.root() == token_root(satp),
            forall|mem: PhysMemory| !#[trigger] r.wf(mem),
    {
        PageTable {
            root_ppn: PhysPageNum(satp & PPN_MASK),
            frames: Vec::new(),
            l1: Ghost(Map::empty()),
            l2: Ghost(Map::empty()),
        }
    }

    /// The value that activates this address space.
    pub fn token(&self) -> (r: u64)
        ensures
            r == spec_token(self.root()),
    {
        (SATP_MODE_SV39 << 60u64) | self.root_ppn.0
    }

    /// The leaf table for `vpn`, reached without allocating; `None` where a
    /// root or middle entry on the way is invalid.
    fn find_pte(&self, mem: &PhysMemory, vpn: VirtPageNum) -> (r: Option<PhysPageNum>)
        requires
            mem.wf(),
        ensures
            match spec_leaf_table(*mem, self.root(), vpn.0) {
                Some(t) => r == Some(PhysPageNum(t)),
                None => r.is_none(),
            },
    {
        let idxs = vpn.indexes();
        let e0 = mem.get(self.root_ppn, idxs[0]);
        if e0.is_none() {
            return None;
        }
        let e0 = e0.unwrap();
        if !e0.is_valid() {
            return None;
        }
        let e1 = mem.get(e0.ppn(), idxs[1]);
        if e1.is_none() {
            return None;
        }
        let e1 = e1.unwrap();
        if !e1.is_valid() {
            return None;
        }
        Some(e1.ppn())
    }

    /// A copy of the valid leaf entry for `vpn`, or `None` when any level of
    /// the walk is invalid.
    pub fn translate(&self, mem: &PhysMemory, vpn: VirtPageNum) -> (r: Option<PageTableEntry>)
        requires
            mem.wf(),
        ensures
            r == self.translation(*mem, vpn.0),
    {
        let t = self.find_pte(mem, vpn);
        if t.is_none() {
            return None;
        }
        let e = mem.get(t.unwrap(), vpn.0 % 512);
        if e.is_none() {
            return None;
        }
        let e = e.unwrap();
        if e.is_valid() {
            Some(e)
        } else {
            None
        }
    }

    /// The leaf table for `vpn`, creating on the way the middle or leaf table
    /// that is missing; each new table frame is zeroed and owned by this table.
    fn find_pte_create(&mut self, mem: &mut PhysMemory, vpn: VirtPageNum) -> (r: PhysPageNum)
        requires
            old(self).wf(*old(mem)),
            old(mem).free_count() >= (if old(self).l1@.contains_key(idx0(vpn.0)) { 0int } else { 1int })
                + (if old(self).l2@.contains_key(leaf_prefix(vpn.0)) { 0int } else { 1int }),
        ensures
            final(self).wf(*final(mem)),
            final(self).root() == old(self).root(),
            final(self).l2@.contains_key(leaf_prefix(vpn.0)),
            final(self).l2@[leaf_prefix(vpn.0)] == r.0,
            final(mem).frame_count() == old(mem).frame_count(),
            final(self).l1@.dom() == old(self).l1@.dom().insert(idx0(vpn.0)),
            final(self).l2@.dom() == old(self).l2@.dom().insert(leaf_prefix(vpn.0)),
            final(mem).next_free() == old(mem).next_free()
                + (if old(self).l1@.contains_key(idx0(vpn.0)) { 0int } else { 1int })
                + (if old(self).l2@.contains_key(leaf_prefix(vpn.0)) { 0int } else { 1int }),
            !old(self).l1@.contains_key(idx0(vpn.0)) ==> {
                &&& slot(*final(mem), final(self).root(), idx0(vpn.0)).spec_flags() == FLAG_V
                &&& slot(*final(mem), final(self).root(), idx0(vpn.0)).spec_ppn() == old(mem).next_free()
            },
            !old(self).l2@.contains_key(leaf_prefix(vpn.0)) ==> {
                &&& slot(*final(mem), final(self).l1@[idx0(vpn.0)], idx1(vpn.0)).spec_flags() == FLAG_V
                &&& slot(*final(mem), final(self).l1@[idx0(vpn.0)], idx1(vpn.0)).spec_ppn() == final(mem).next_free() - 1
            },
            forall|w: usize|
                #[trigger] final(self).by_tables(*final(mem), w) == old(self).by_tables(*old(mem), w),
    {
        let ghost m_start = *mem;
        let ghost t_start = *self;
        let idxs = vpn.indexes();
        let i0 = idxs[0];
        let i1 = idxs[1];
        let root = self.root_ppn;
        proof {
            lemma_prefix_split(vpn.0);
            lemma_join(i0, i1);
        }
        let e0 = mem.get(root, i0).unwrap();
        assert(slot(*mem, root.0, i0) == e0);
        let mid: PhysPageNum;
        if e0.is_valid() {
            mid = e0.ppn();
            assert(self.l1@.contains_key(i0) && self.l1@[i0] == mid.0);
            assert(self.l1@.dom() =~= t_start.l1@.dom().insert(i0));
        } else {
            let ghost m0 = *mem;
            let ghost t0 = *self;
            assert(!t0.l1@.contains_key(i0));
            let f = mem.frame_alloc().unwrap();
            let ghost m1 = *mem;
            mem.set(root, i0, PageTableEntry::new(f, PTEFlags { bits: FLAG_V }));
            self.frames.push(f);
            self.l1 = Ghost(self.l1@.insert(i0, f.0));
            proof {
                assert(1u8 & 1u8 != 0) by (bit_vector);
                let m2 = *mem;
                let l1 = self.l1@;
                let l2 = self.l2@;
                assert forall|p: int, j: int|
                    0 <= p < m0.frame_count() && 0 <= j < 512 && !(p == root.0 && j == i0)
                        implies #[trigger] m2.pte(p, j) == m0.pte(p, j) by {
                    assert(m1.pte(p, j) == m0.pte(p, j));
                }
                assert forall|j: usize| j < 512 implies (#[trigger] slot(m2, f.0, j)).bits == 0 by {
                    assert(m2.pte(f.0 as int, j as int) == m1.pte(f.0 as int, j as int));
                    assert(0u64 & 1u64 == 0) by (bit_vector);
                }
                assert forall|i: usize| i < 512 implies (#[trigger] slot(m2, root.0, i)).spec_valid()
                    == l1.contains_key(i) by {
                    if i != i0 {
                        assert(slot(m2, root.0, i) == slot(m0, root.0, i));
                    }
                }
                assert forall|i: usize| #[trigger] l1.contains_key(i) implies {
                    &&& i < 512
                    &&& slot(m2, root.0, i).spec_ppn() == l1[i]
                    &&& l1[i] < m2.next_free()
                    &&& l1[i] != root.0
                } by {
                    if i != i0 {
                        assert(slot(m2, root.0, i) == slot(m0, root.0, i));
                    }
                }
                assert forall|i: usize, j: usize| l1.contains_key(i) && j < 512 implies {
                    &&& (#[trigger] slot(m2, l1[i], j)).spec_valid() == l2.contains_key((i * 512 + j) as usize)
                    &&& l2.contains_key((i * 512 + j) as usize) ==> slot(m2, l1[i], j).spec_ppn() == l2[(i * 512 + j) as usize]
                } by {
                    if i == i0 {
                        lemma_join(i, j);
                        assert(0u64 & 1u64 == 0) by (bit_vector);
                        if l2.contains_key((i * 512 + j) as usize) {
                            assert(t0.l1@.contains_key(((i * 512 + j) as usize) / 512));
                        }
                    } else {
                        assert(slot(m2, l1[i], j) == slot(m0, t0.l1@[i], j));
                    }
                }
                assert forall|k: usize| #[trigger] l2.contains_key(k) implies {
                    &&& k < 262144
                    &&& l1.contains_key(k / 512)
                    &&& l2[k] < m2.next_free()
                    &&& l2[k] != root.0
                } by {
                    assert(t0.l1@.contains_key(k / 512));
                }
                assert forall|a: usize, b: usize|
                    l1.contains_key(a) && l1.contains_key(b) && #[trigger] l1[a] == #[trigger] l1[b] implies a == b by {
                    if a != i0 && b != i0 {
                        assert(t0.l1@[a] == t0.l1@[b]);
                    }
                }
                assert forall|a: usize, k: usize|
                    l1.contains_key(a) && l2.contains_key(k) implies #[trigger] l1[a] != #[trigger] l2[k] by {
                    if a != i0 {
                        assert(t0.l1@[a] != t0.l2@[k]);
                    }
                }
                assert(self.wf(m2));
                assert(l1.dom() =~= t0.l1@.dom().insert(i0));
                assert(slot(m2, root.0, i0).spec_flags() == FLAG_V);
                assert forall|w: usize| #[trigger] self.by_tables(m2, w) == t0.by_tables(m0, w) by {
                    let k = leaf_prefix(w);
                    if l2.contains_key(k) {
                        lemma_prefix_split(w);
                        assert(slot(m2, l2[k], idx2(w)) == slot(m0, l2[k], idx2(w)));
                    }
                }
            }
            mid = f;
        }
        assert(self.l1@.contains_key(i0) && self.l1@[i0] == mid.0);
        let e1 = mem.get(mid, i1).unwrap();
        assert(slot(*mem, self.l1@[i0], i1) == e1);
        let ghost m_mid = *mem;
        let ghost t_mid = *self;
        assert(t_mid.l2@.contains_key(leaf_prefix(vpn.0)) == t_start.l2@.contains_key(leaf_prefix(vpn.0)));
        let leaf: PhysPageNum;
        if e1.is_valid() {
            leaf = e1.ppn();
            assert(self.l2@.dom() =~= t_start.l2@.dom().insert(leaf_prefix(vpn.0)));
        } else {
            let ghost m0 = *mem;
            let ghost t0 = *self;
            let pre = i0 * 512 + i1;
            assert(!t0.l2@.contains_key(pre));
            let g = mem.frame_alloc().unwrap();
            let ghost m1 = *mem;
            mem.set(mid, i1, PageTableEntry::new(g, PTEFlags { bits: FLAG_V }));
            self.frames.push(g);
            self.l2 = Ghost(self.l2@.insert(pre, g.0));
            proof {
                assert(1u8 & 1u8 != 0) by (bit_vector);
                let m2 = *mem;
                let l1 = self.l1@;
                let l2 = self.l2@;
                assert forall|p: int, j: int|
                    0 <= p < m0.frame_count() && 0 <= j < 512 && !(p == mid.0 && j == i1)
                        implies #[trigger] m2.pte(p, j) == m0.pte(p, j) by {
                    assert(m1.pte(p, j) == m0.pte(p, j));
                }
                assert forall|j: usize| j < 512 implies (#[trigger] slot(m2, g.0, j)).bits == 0 by {
                    assert(m2.pte(g.0 as int, j as int) == m1.pte(g.0 as int, j as int));
                }
                assert forall|i: usize| i < 512 implies (#[trigger] slot(m2, root.0, i)).spec_valid()
                    == l1.contains_key(i) by {
                    assert(slot(m2, root.0, i) == slot(m0, root.0, i));
                }
                assert forall|i: usize| #[trigger] l1.contains_key(i) implies {
                    &&& i < 512
                    &&& slot(m2, root.0, i).spec_ppn() == l1[i]
                    &&& l1[i] < m2.next_free()
                    &&& l1[i] != root.0
                } by {
                    assert(slot(m2, root.0, i) == slot(m0, root.0, i));
                }
                assert forall|i: usize, j: usize| l1.contains_key(i) && j < 512 implies {
                    &&& (#[trigger] slot(m2, l1[i], j)).spec_valid() == l2.contains_key((i * 512 + j) as usize)
                    &&& l2.contains_key((i * 512 + j) as usize) ==> slot(m2, l1[i], j).spec_ppn() == l2[(i * 512 + j) as usize]
                } by {
                    lemma_join(i, j);
                    if i == i0 && j == i1 {
                    } else {
                        if l1[i] == mid.0 {
                            assert(i == i0);
                        }
                        assert(slot(m2, l1[i], j) == slot(m0, l1[i], j));
                        if (i * 512 + j) as usize == pre {
                            assert(i == i0 && j == i1);
                        }
                    }
                }
                assert forall|k: usize| #[trigger] l2.contains_key(k) implies {
                    &&& k < 262144
                    &&& l1.contains_key(k / 512)
                    &&& l2[k] < m2.next_free()
                    &&& l2[k] != root.0
                } by {
                    if k != pre {
                        assert(t0.l2@.contains_key(k));
                    }
                }
                assert forall|a: usize, b: usize|
                    l2.contains_key(a) && l2.contains_key(b) && #[trigger] l2[a] == #[trigger] l2[b] implies a == b by {
                    if a != pre && b != pre {
                        assert(t0.l2@[a] == t0.l2@[b]);
                    }
                }
                assert forall|a: usize, k: usize|
                    l1.contains_key(a) && l2.contains_key(k) implies #[trigger] l1[a] != #[trigger] l2[k] by {
                    if k != pre {
                        assert(t0.l1@[a] != t0.l2@[k]);
                    }
                }
                assert(self.wf(m2));
                assert(l2.dom() =~= t0.l2@.dom().insert(pre));
                assert(slot(m2, mid.0, i1).spec_flags() == FLAG_V);
                assert(slot(m2, root.0, i0) == slot(m0, root.0, i0));
                assert forall|w: usize| #[trigger] self.by_tables(m2, w) == t0.by_tables(m0, w) by {
                    let k = leaf_prefix(w);
                    lemma_prefix_split(w);
                    if k == pre {
                        assert(0u64 & 1u64 == 0) by (bit_vector);
                        assert(slot(m2, g.0, idx2(w)).bits == 0);
                    } else if l2.contains_key(k) {
                        assert(t0.l2@[k] != mid.0);
                        assert(slot(m2, l2[k], idx2(w)) == slot(m0, l2[k], idx2(w)));
                    }
                }
            }
            leaf = g;
        }
        leaf
    }

    /// Rewriting one slot of a leaf table keeps the tree well formed and
    /// leaves every translation that does not end in that slot as it was.
    proof fn lemma_leaf_write(self, m0: PhysMemory, m2: PhysMemory, k: usize, i: usize)
        requires
            self.wf(m0),
            self.l2@.contains_key(k),
            i < 512,
            m2.wf(),
            m2.frame_count() == m0.frame_count(),
            m2.next_free() == m0.next_free(),
            forall|p: int, j: int|
                0 <= p < m0.frame_count() && 0 <= j < 512 && !(p == self.l2@[k] && j == i)
                    ==> #[trigger] m2.pte(p, j) == m0.pte(p, j),
        ensures
            self.wf(m2),
            forall|w: usize|
                !(leaf_prefix(w) == k && idx2(w) == i) ==> #[trigger] self.by_tables(m2, w)
                    == self.by_tables(m0, w),
    {
        let root = self.root();
        let l1 = self.l1@;
        let l2 = self.l2@;
        let t = l2[k];
        assert forall|i: usize| i < 512 implies (#[trigger] slot(m2, root, i)).spec_valid()
            == l1.contains_key(i) by {
            assert(slot(m2, root, i) == slot(m0, root, i));
        }
        assert forall|i: usize| #[trigger] l1.contains_key(i) implies {
            &&& i < 512
            &&& slot(m2, root, i).spec_ppn() == l1[i]
            &&& l1[i] < m2.next_free()
            &&& l1[i] != root
        } by {
            assert(slot(m2, root, i) == slot(m0, root, i));
        }
        assert forall|i: usize, j: usize| l1.contains_key(i) && j < 512 implies {
            &&& (#[trigger] slot(m2, l1[i], j)).spec_valid() == l2.contains_key((i * 512 + j) as usize)
            &&& l2.contains_key((i * 512 + j) as usize) ==> slot(m2, l1[i], j).spec_ppn() == l2[(i * 512 + j) as usize]
        } by {
            assert(l1[i] != t);
            assert(slot(m2, l1[i], j) == slot(m0, l1[i], j));
        }
        assert(self.wf(m2));
        assert forall|w: usize|
            !(leaf_prefix(w) == k && idx2(w) == i) implies #[trigger] self.by_tables(m2, w)
                == self.by_tables(m0, w) by {
            let kw = leaf_prefix(w);
            lemma_prefix_split(w);
            if l2.contains_key(kw) {
                assert(slot(m2, l2[kw], idx2(w)) == slot(m0, l2[kw], idx2(w)));
            }
        }
    }

    /// Points `vpn` at `ppn` with `flags` and the Valid bit. The page must not be
    /// mapped already; the allocator must be able to supply the (at most two)
    /// table frames that the walk may need.
    pub fn map(&mut self, mem: &mut PhysMemory, vpn: VirtPageNum, ppn: PhysPageNum, flags: PTEFlags)
        requires
            old(self).can_map(*old(mem), vpn.0),
            ppn.0 < PPN_LIMIT,
        ensures
            final(self).wf(*final(mem)),
            final(self).root() == old(self).root(),
            final(self).translation(*final(mem), vpn.0) == Some(
                PageTableEntry { bits: pack(ppn.0, flags.bits | FLAG_V) },
            ),
            final(self).translation(*final(mem), vpn.0).unwrap().spec_ppn() == ppn.0,
            final(self).translation(*final(mem), vpn.0).unwrap().spec_flags() == flags.bits | FLAG_V,
            forall|w: usize|
                vpn_in_range(w) && w != vpn.0 ==> #[trigger] final(self).translation(*final(mem), w)
                    == old(self).translation(*old(mem), w),
            final(mem).frame_count() == old(mem).frame_count(),
            final(mem).next_free() == old(mem).next_free() + path_cost(*old(mem), old(self).root(), vpn.0),
            !has_middle_table(*old(mem), old(self).root(), vpn.0) ==> {
                &&& slot(*final(mem), final(self).root(), idx0(vpn.0)).spec_flags() == FLAG_V
                &&& slot(*final(mem), final(self).root(), idx0(vpn.0)).spec_ppn() == old(mem).next_free()
            },
            !has_leaf_table(*old(mem), old(self).root(), vpn.0) ==> {
                &&& spec_leaf_table(*final(mem), final(self).root(), vpn.0) == Some((final(mem).next_free() - 1) as u64)
                &&& slot(*final(mem), slot(*final(mem), final(self).root(), idx0(vpn.0)).spec_ppn(), idx1(vpn.0)).spec_flags()
                    == FLAG_V
            },
            forall|w: usize|
                #[trigger] has_leaf_table(*final(mem), final(self).root(), w) == (has_leaf_table(
                    *old(mem),
                    old(self).root(),
                    w,
                ) || leaf_prefix(w) == leaf_prefix(vpn.0)),
            forall|w: usize|
                #[trigger] has_middle_table(*final(mem), final(self).root(), w) == (has_middle_table(
                    *old(mem),
                    old(self).root(),
                    w,
                ) || idx0(w) == idx0(vpn.0)),
    {
        proof {
            old(self).lemma_walk(*old(mem), vpn.0);
        }
        let t = self.find_pte_create(mem, vpn);
        let i = vpn.0 % 512;
        let ghost m0 = *mem;
        let ghost k = leaf_prefix(vpn.0);
        proof {
            self.lemma_walk(m0, vpn.0);
            m0.lemma_bounds();
        }
        let e = PageTableEntry::new(ppn, flags.union(PTEFlags { bits: FLAG_V }));
        mem.set(t, i, e);
        proof {
            let m2 = *mem;
            let fb = flags.bits;
            assert((fb | 1u8) & 1u8 != 0) by (bit_vector);
            self.lemma_leaf_write(m0, m2, k, i);
            self.lemma_walk(m2, vpn.0);
            assert forall|w: usize|
                vpn_in_range(w) && w != vpn.0 implies #[trigger] self.translation(m2, w)
                    == old(self).translation(*old(mem), w) by {
                old(self).lemma_walk(*old(mem), w);
                self.lemma_walk(m0, w);
                self.lemma_walk(m2, w);
                if leaf_prefix(w) == k && idx2(w) == i {
                    lemma_indexes_determine_vpn(w, vpn.0);
                }
            }
            assert forall|w: usize|
                #[trigger] has_leaf_table(m2, self.root(), w) == (has_leaf_table(*old(mem), old(self).root(), w)
                    || leaf_prefix(w) == k) by {
                old(self).lemma_walk(*old(mem), w);
                self.lemma_walk(m2, w);
            }
            assert forall|w: usize|
                #[trigger] has_middle_table(m2, self.root(), w) == (has_middle_table(*old(mem), old(self).root(), w)
                    || idx0(w) == idx0(vpn.0)) by {
                old(self).lemma_walk(*old(mem), w);
                self.lemma_walk(m2, w);
            }
            let i0 = idx0(vpn.0);
            lemma_prefix_split(vpn.0);
            assert(t.0 != self.root());
            assert(self.l1@.contains_key(i0));
            assert(self.l1@[i0] != t.0);
            assert(slot(m2, self.root(), i0) == slot(m0, self.root(), i0));
            assert(slot(m2, self.l1@[i0], idx1(vpn.0)) == slot(m0, self.l1@[i0], idx1(vpn.0)));
        }
    }

    /// Clears the leaf entry of the mapped page `vpn`. The data frame it named
    /// stays allocated: reclaiming it is the owner's business.
    pub fn unmap(&mut self, mem: &mut PhysMemory, vpn: VirtPageNum)
        requires
            old(self).can_unmap(*old(mem), vpn.0),
        ensures
            final(self).wf(*final(mem)),
            final(self).root() == old(self).root(),
            final(self).translation(*final(mem), vpn.0).is_none(),
            forall|w: usize|
                vpn_in_range(w) && w != vpn.0 ==> #[trigger] final(self).translation(*final(mem), w)
                    == old(self).translation(*old(mem), w),
            final(mem).frame_count() == old(mem).frame_count(),
            final(mem).next_free() == old(mem).next_free(),
            forall|w: usize|
                #[trigger] has_leaf_table(*final(mem), final(self).root(), w) == has_leaf_table(
                    *old(mem),
                    old(self).root(),
                    w,
                ),
            forall|w: usize|
                #[trigger] has_middle_table(*final(mem), final(self).root(), w) == has_middle_table(
                    *old(mem),
                    old(self).root(),
                    w,
                ),
    {
        let ghost m0 = *mem;
        let ghost k = leaf_prefix(vpn.0);
        proof {
            self.lemma_walk(m0, vpn.0);
            m0.lemma_bounds();
        }
        let t = self.find_pte(mem, vpn).unwrap();
        let i = vpn.0 % 512;
        mem.set(t, i, PageTableEntry::empty());
        proof {
            let m2 = *mem;
            self.lemma_leaf_write(m0, m2, k, i);
            self.lemma_walk(m2, vpn.0);
            assert forall|w: usize|
                vpn_in_range(w) && w != vpn.0 implies #[trigger] self.translation(m2, w)
                    == self.translation(m0, w) by {
                self.lemma_walk(m0, w);
                self.lemma_walk(m2, w);
                if leaf_prefix(w) == k && idx2(w) == i {
                    lemma_indexes_determine_vpn(w, vpn.0);
                }
            }
            assert forall|w: usize|
                #[trigger] has_leaf_table(m2, self.root(), w) == has_leaf_table(m0, self.root(), w) by {
                self.lemma_walk(m0, w);
                self.lemma_walk(m2, w);
            }
            assert forall|w: usize|
                #[trigger] has_middle_table(m2, self.root(), w) == has_middle_table(m0, self.root(), w) by {
                self.lemma_walk(m0, w);
                self.lemma_walk(m2, w);
            }
        }
    }

    /// Handing out a free frame changes no word, so the tree and its
    /// translations stay as they were.
    proof fn lemma_alloc_keeps(self, m0: PhysMemory, m1: PhysMemory)
        requires
            self.wf(m0),
            m1.wf(),
            m1.frame_count() == m0.frame_count(),
            m0.next_free() <= m1.next_free(),
            forall|p: int, i: int| #[trigger] m1.pte(p, i) == m0.pte(p, i),
        ensures
            self.wf(m1),
            forall|w: usize| #[trigger] self.translation(m1, w) == self.translation(m0, w),
    {
        m1.lemma_bounds();
        assert forall|i: usize| i < 512 implies (#[trigger] slot(m1, self.root(), i)).spec_valid()
            == self.l1@.contains_key(i) by {
            assert(slot(m1, self.root(), i) == slot(m0, self.root(), i));
        }
        assert forall|i: usize| #[trigger] self.l1@.contains_key(i) implies
            slot(m1, self.root(), i).spec_ppn() == self.l1@[i] by {
            assert(slot(m1, self.root(), i) == slot(m0, self.root(), i));
        }
        assert forall|i: usize, j: usize| self.l1@.contains_key(i) && j < 512 implies {
            &&& (#[trigger] slot(m1, self.l1@[i], j)).spec_valid() == self.l2@.contains_key((i * 512 + j) as usize)
            &&& self.l2@.contains_key((i * 512 + j) as usize) ==> slot(m1, self.l1@[i], j).spec_ppn()
                == self.l2@[(i * 512 + j) as usize]
        } by {
            assert(slot(m1, self.l1@[i], j) == slot(m0, self.l1@[i], j));
        }
        assert(self.wf(m1));
        assert forall|w: usize| #[trigger] self.translation(m1, w) == self.translation(m0, w) by {
            self.lemma_walk(m0, w);
            self.lemma_walk(m1, w);
            if self.l2@.contains_key(leaf_prefix(w)) {
                assert(slot(m1, self.l2@[leaf_prefix(w)], idx2(w)) == slot(m0, self.l2@[leaf_prefix(w)], idx2(w)));
            }
        }
    }

    /// The walk for `vpn` reaches a leaf table.
    pub fn leaf_table_present(&self, mem: &PhysMemory, vpn: VirtPageNum) -> (r: bool)
        requires
            mem.wf(),
        ensures
            r == has_leaf_table(*mem, self.root(), vpn.0),
    {
        self.find_pte(mem, vpn).is_some()
    }

    /// The root entry on the walk for `vpn` points to a middle table.
    pub fn middle_table_present(&self, mem: &PhysMemory, vpn: VirtPageNum) -> (r: bool)
        requires
            mem.wf(),
        ensures
            r == has_middle_table(*mem, self.root(), vpn.0),
    {
        let e0 = mem.get(self.root_ppn, vpn.0 / 262144 % 512);
        e0.is_some() && e0.unwrap().is_valid()
    }

    /// The table frames that completing the walk for `vpn` would take.
    pub fn path_frames(&self, mem: &PhysMemory, vpn: VirtPageNum) -> (r: usize)
        requires
            mem.wf(),
        ensures
            r == path_cost(*mem, self.root(), vpn.0),
    {
        let mut r: usize = 0;
        if !self.middle_table_present(mem, vpn) {
            r = r + 1;
        }
        if !self.leaf_table_present(mem, vpn) {
            r = r + 1;
        }
        r
    }

    /// Maps `vpn` to a fresh data frame with `flags`, which this table then owns.
    /// Refuses (`None`, nothing changed) when the allocator cannot supply the
    /// data frame and the table frames that the walk still lacks.
    pub fn mmap(&mut self, mem: &mut PhysMemory, vpn: VirtPageNum, flags: PTEFlags) -> (r: Option<()>)
        requires
            old(self).wf(*old(mem)),
            vpn_in_range(vpn.0),
            old(self).translation(*old(mem), vpn.0).is_none(),
        ensures
            final(self).wf(*final(mem)),
            final(self).root() == old(self).root(),
            final(mem).frame_count() == old(mem).frame_count(),
            r.is_some() == (old(mem).free_count() >= 1 + path_cost(*old(mem), old(self).root(), vpn.0)),
            r.is_none() ==> *final(mem) == *old(mem) && *final(self) == *old(self),
            r.is_some() ==> {
                &&& final(self).translation(*final(mem), vpn.0) == Some(
                    PageTableEntry { bits: pack(old(mem).next_free() as u64, flags.bits | FLAG_V) },
                )
                &&& final(mem).next_free() == old(mem).next_free() + 1 + path_cost(
                    *old(mem),
                    old(self).root(),
                    vpn.0,
                )
                &&& forall|w: usize|
                    #[trigger] has_leaf_table(*final(mem), final(self).root(), w) == (has_leaf_table(
                        *old(mem),
                        old(self).root(),
                        w,
                    ) || leaf_prefix(w) == leaf_prefix(vpn.0))
                &&& forall|w: usize|
                    #[trigger] has_middle_table(*final(mem), final(self).root(), w) == (has_middle_table(
                        *old(mem),
                        old(self).root(),
                        w,
                    ) || idx0(w) == idx0(vpn.0))
            },
            forall|w: usize|
                vpn_in_range(w) && w != vpn.0 ==> #[trigger] final(self).translation(*final(mem), w)
                    == old(self).translation(*old(mem), w),
    {
        proof {
            self.lemma_mem_wf(*mem);
        }
        let need = self.path_frames(mem, vpn);
        if mem.free_frames() < 1 + need {
            return None;
        }
        let ghost m0 = *mem;
        proof {
            m0.lemma_bounds();
        }
        let frame = mem.frame_alloc().unwrap();
        let ghost m1 = *mem;
        proof {
            self.lemma_alloc_keeps(m0, m1);
            assert forall|w: usize|
                #[trigger] has_leaf_table(m1, self.root(), w) == has_leaf_table(m0, self.root(), w)
                    && has_middle_table(m1, self.root(), w) == has_middle_table(m0, self.root(), w) by {
                self.lemma_walk(m0, w);
                self.lemma_walk(m1, w);
            }
        }
        let ghost t1 = *self;
        self.map(mem, vpn, frame, flags);
        let ghost t2 = *self;
        self.frames.push(frame);
        proof {
            assert(self.root() == t2.root() && t2.root() == t1.root());
            assert forall|w: usize|
                vpn_in_range(w) && w != vpn.0 implies #[trigger] self.translation(*mem, w)
                    == self.translation(m0, w) by {
                assert(t1.translation(m1, w) == t1.translation(m0, w));
                assert(t2.translation(*mem, w) == t1.translation(m1, w));
            }
            assert(has_leaf_table(m1, self.root(), vpn.0) == has_leaf_table(m0, self.root(), vpn.0));
            assert(has_middle_table(m1, self.root(), vpn.0) == has_middle_table(m0, self.root(), vpn.0));
            assert forall|w: usize|
                #[trigger] has_leaf_table(*mem, self.root(), w) == (has_leaf_table(m0, self.root(), w)
                    || leaf_prefix(w) == leaf_prefix(vpn.0)) by {
                assert(has_leaf_table(m1, self.root(), w) == has_leaf_table(m0, self.root(), w));
            }
            assert forall|w: usize|
                #[trigger] has_middle_table(*mem, self.root(), w) == (has_middle_table(m0, self.root(), w)
                    || idx0(w) == idx0(vpn.0)) by {
                assert(has_middle_table(m1, self.root(), w) == has_middle_table(m0, self.root(), w));
            }
        }
        Some(())
    }

}

/// The walk for `vpn` reaches a leaf table.
pub open spec fn has_leaf_table(mem: PhysMemory, root: u64, vpn: usize) -> bool {
    spec_leaf_table(mem, root, vpn).is_some()
}

/// The root entry on the walk for `vpn` points to a middle table.
pub open spec fn has_middle_table(mem: PhysMemory, root: u64, vpn: usize) -> bool {
    valid_entry(mem, root, idx0(vpn)).is_some()
}

/// Table frames that completing the walk for `vpn` takes: one for a missing
/// middle table, one for a missing leaf table.
pub open spec fn path_cost(mem: PhysMemory, root: u64, vpn: usize) -> int {
    (if has_middle_table(mem, root, vpn) { 0int } else { 1int })
        + (if has_leaf_table(mem, root, vpn) { 0int } else { 1int })
}

/// Mapping a page twice without an unmap in between is a fatal misuse: once a
/// page translates, `map` may not be called on it.
pub proof fn lemma_remap_is_fatal(pt: PageTable, mem: PhysMemory, vpn: usize)
    requires
        pt.translation(mem, vpn).is_some(),
    ensures
        !pt.can_map(mem, vpn),
{
}

/// Unmapping a page twice is a fatal misuse: once a page no longer translates,
/// `unmap` may not be called on it.
pub proof fn lemma_unmap_twice_is_fatal(pt: PageTable, mem: PhysMemory, vpn: usize)
    requires
        pt.translation(mem, vpn).is_none(),
    ensures
        !pt.can_unmap(mem, vpn),
{
}

/// A token names the root of the table that produced it.
pub proof fn lemma_token_round_trip(root: u64)
    requires
        root < PPN_LIMIT,
    ensures
        token_root(spec_token(root)) == root,
{
    assert(((8u64 << 60u64) | root) & 17592186044415u64 == root) by (bit_vector)
        requires root < 17592186044416u64;
}

/// A buffer of `len` bytes spans `k = ceil(len / PAGE_SIZE)` pages' worth of
/// bytes and touches `k` or `k + 1` pages, depending on where it starts.
pub proof fn lemma_window_count(ptr: usize, len: usize)
    requires
        ptr + len <= usize::MAX,
    ensures
        window_count(ptr, len) == (len + 4095) / 4096 || window_count(ptr, len) == (len + 4095) / 4096 + 1,
{
    if len > 0 {
        let p = ptr as int;
        let l = len as int;
        let q = p / 4096;
        let o = p % 4096;
        assert(p == 4096 * q + o && 0 <= o < 4096);
        assert((p + l - 1) / 4096 == q + (o + l - 1) / 4096) by (nonlinear_arith)
            requires p == 4096 * q + o, 0 <= o < 4096, l >= 1;
        assert((l + 4095) / 4096 == (l - 1) / 4096 + 1) by (nonlinear_arith)
            requires l >= 1;
        let a = (l - 1) / 4096;
        let b = (o + l - 1) / 4096;
        assert(a <= b <= a + 1) by (nonlinear_arith)
            requires a == (l - 1) / 4096, b == (o + l - 1) / 4096, 0 <= o < 4096, l >= 1;
    }
}

/// A physically contiguous part of a user buffer: bytes `start .. end` of frame `ppn`.
#[derive(Clone, Copy, PartialEq, Eq, Structural, Debug)]
pub struct ByteWindow {
    pub ppn: PhysPageNum,
    pub start: usize,
    pub end: usize,
}

/// Number of pages that the bytes `ptr .. ptr + len` touch.
pub open spec fn window_count(ptr: usize, len: usize) -> int {
    if len == 0 {
        0
    } else {
        (ptr + len - 1) / 4096 - ptr / 4096 + 1
    }
}

/// The `i`-th window of the buffer `ptr .. ptr + len` in the address space of `token`.
pub open spec fn spec_window(mem: PhysMemory, token: u64, ptr: usize, len: usize, i: int) -> ByteWindow {
    let vpn = ptr / 4096 + i;
    let vstart = if i == 0 {
        ptr as int
    } else {
        vpn * 4096
    };
    let vend = if (vpn + 1) * 4096 < ptr + len {
        (vpn + 1) * 4096
    } else {
        ptr + len
    };
    ByteWindow {
        ppn: PhysPageNum(spec_walk(mem, token_root(token), vpn as usize).unwrap().spec_ppn()),
        start: (vstart - vpn * 4096) as usize,
        end: (vend - vpn * 4096) as usize,
    }
}

/// Bytes covered by a sequence of windows.
pub open spec fn windows_total(ws: Seq<ByteWindow>) -> int
    decreases ws.len(),
{
    if ws.len() == 0 {
        0
    } else {
        windows_total(ws.drop_last()) + (ws.last().end - ws.last().start)
    }
}

/// Splits the user buffer `ptr .. ptr + len` of the address space that `token`
/// activates into physically contiguous windows, one per page touched, in
/// ascending address order. Every page of the buffer must be mapped.
pub fn translated_byte_buffer(mem: &PhysMemory, token: u64, ptr: usize, len: usize) -> (r: Vec<ByteWindow>)
    requires
        mem.wf(),
        ptr + len <= usize::MAX,
        forall|va: usize|
            ptr <= va < ptr + len ==> #[trigger] spec_walk(*mem, token_root(token), va / 4096).is_some(),
    ensures
        r@.len() == window_count(ptr, len),
        forall|i: int| 0 <= i < r@.len() ==> #[trigger] r@[i] == spec_window(*mem, token, ptr, len, i),
        windows_total(r@) == len,
        r@.len() == (len + 4095) / 4096 || r@.len() == (len + 4095) / 4096 + 1,
{
    proof {
        lemma_window_count(ptr, len);
    }
    let page_table = PageTable::from_token(token);
    let mut start = ptr;
    let end = ptr + len;
    let mut v: Vec<ByteWindow> = Vec::new();
    while start < end
        invariant
            end == ptr + len,
            ptr <= start <= end,
            page_table.root() == token_root(token),
            mem.wf(),
            forall|va: usize|
                ptr <= va < ptr + len ==> #[trigger] spec_walk(*mem, token_root(token), va / 4096).is_some(),
            start < end ==> start / 4096 == ptr / 4096 + v@.len(),
            v@.len() > 0 ==> start == (if (ptr / 4096 + v@.len()) * 4096 < end {
                (ptr / 4096 + v@.len()) * 4096
            } else {
                end as int
            }),
            v@.len() == 0 ==> start == ptr,
            start < end ==> v@.len() < window_count(ptr, len),
            start == end ==> v@.len() == window_count(ptr, len),
            forall|i: int| 0 <= i < v@.len() ==> #[trigger] v@[i] == spec_window(*mem, token, ptr, len, i),
            windows_total(v@) == start - ptr,
        decreases end - start,
    {
        let vpn = start / 4096;
        let e = page_table.translate(mem, VirtPageNum(vpn)).unwrap();
        let off = start % 4096;
        let avail = 4096 - off;
        let rest = end - start;
        let take = if avail < rest { avail } else { rest };
        let w = ByteWindow { ppn: e.ppn(), start: off, end: off + take };
        let ghost old_v = v@;
        v.push(w);
        start = start + take;
        proof {
            let i = old_v.len() as int;
            assert(v@.drop_last() == old_v);
            assert(w == spec_window(*mem, token, ptr, len, i));
            assert forall|j: int| 0 <= j < v@.len() implies #[trigger] v@[j] == spec_window(*mem, token, ptr, len, j) by {
                if j < i {
                    assert(v@[j] == old_v[j]);
                }
            }
        }
    }
    v
}

} // verus!
