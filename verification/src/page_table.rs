//! The Sv39 three-level page table.
//!
//! A table owns its root page and every interior page it allocated; each
//! node records the frame (and so the physical page number) it lives in,
//! and the invariant ties the stored entry words to that structure
//! bit-exactly: a valid non-leaf word at one level names the physical page
//! of the next-level node. The upper 256 root entries of a user table are
//! copied from the global kernel table and borrowed by reference: the
//! kernel owns the interior pages behind them, so a user table never walks
//! or edits them.

use vstd::prelude::*;

use crate::address::{PPN, VPN};
use crate::frame::{FrameAllocator, FrameTracker};
use crate::pte::{PTEImpl, PTE_FLAG_MASK, PTE_RWX, PTE_VALID};

verus! {

/// A leaf-level table page: 512 entry words mapping 4 KiB pages.
pub struct LeafTable {
    pub tracker: FrameTracker,
    pub words: Vec<PTEImpl>,
}

/// A middle-level table page and the leaf tables its valid entries point
/// to.
pub struct MidTable {
    pub tracker: FrameTracker,
    pub words: Vec<PTEImpl>,
    pub leaves: Vec<Option<LeafTable>>,
}

/// A page table: the root page's 512 entry words plus the owned subtree
/// behind each root slot.
pub struct PageTableImpl {
    pub root_tracker: FrameTracker,
    pub root: Vec<PTEImpl>,
    pub mids: Vec<Option<MidTable>>,
}

impl LeafTable {
    /// Leaf-table invariant: full width, and every valid entry is a leaf
    /// (has at least one of R, W, X).
    pub open spec fn wf(self) -> bool {
        &&& self.words.len() == 512
        &&& forall|i: int|
            0 <= i < 512 && (#[trigger] self.words[i]).spec_valid() ==> self.words[i].spec_leaf()
    }
}

impl MidTable {
    /// Middle-table invariant: full width; an entry word is valid exactly
    /// when the leaf table behind that slot exists, and then the word is a
    /// non-leaf pointer carrying the leaf table's physical page number.
    pub open spec fn wf(self) -> bool {
        &&& self.words.len() == 512
        &&& self.leaves.len() == 512
        &&& forall|i: int|
            0 <= i < 512 ==> ((#[trigger] self.words[i]).spec_valid() <==> self.leaves[i] is Some)
        &&& forall|i: int|
            0 <= i < 512 && (#[trigger] self.leaves[i]) is Some ==> !self.words[i].spec_leaf()
                && self.words[i].spec_ppn() == self.leaves[i]->0.tracker.ppn.0
                && self.leaves[i]->0.wf()
    }
}

impl PageTableImpl {
    /// Page-table invariant: full-width root, and every owned root slot's
    /// word is a valid non-leaf pointer carrying the physical page number
    /// of the middle table behind it.
    pub open spec fn wf(self) -> bool {
        &&& self.root.len() == 512
        &&& self.mids.len() == 512
        &&& forall|i: int|
            0 <= i < 512 && (#[trigger] self.mids[i]) is Some ==> self.root[i].spec_valid()
                && !self.root[i].spec_leaf() && self.root[i].spec_ppn()
                == self.mids[i]->0.tracker.ppn.0 && self.mids[i]->0.wf()
    }

    /// A root slot is owned when a valid word there is backed by an owned
    /// middle table. Slots copied from the kernel table are not owned: the
    /// kernel's tables stand behind them.
    pub open spec fn slot_owned(self, i0: int) -> bool {
        self.root[i0].spec_valid() ==> self.mids[i0] is Some
    }

    /// The lower half of the root (user space) is owned entirely.
    pub open spec fn user_half_owned(self) -> bool {
        forall|i: int| 0 <= i < 256 ==> self.slot_owned(i)
    }

    /// Every root slot is owned; holds for the global kernel table.
    pub open spec fn fully_owned(self) -> bool {
        forall|i: int| 0 <= i < 512 ==> self.slot_owned(i)
    }

    /// The entry word the owned walk reaches for this page, whether or not
    /// that word is valid.
    pub open spec fn pte_of(self, vpn: VPN) -> Option<PTEImpl> {
        let i0 = vpn.spec_idx0() as int;
        let i1 = vpn.spec_idx1() as int;
        let i2 = vpn.spec_idx2() as int;
        if self.mids[i0] is Some && self.mids[i0]->0.leaves[i1] is Some {
            Some(self.mids[i0]->0.leaves[i1]->0.words[i2])
        } else {
            None
        }
    }

    /// What the hardware walk would return for a page behind an owned
    /// root slot: the leaf word, if the walk reaches a valid one. A page
    /// behind a borrowed root slot (the kernel half of a user table) is
    /// not covered here: its interior tables belong to the kernel table,
    /// and the walk is taken there.
    pub open spec fn translate(self, vpn: VPN) -> Option<PTEImpl> {
        match self.pte_of(vpn) {
            Some(w) => if w.spec_valid() {
                Some(w)
            } else {
                None
            },
            None => None,
        }
    }

    /// Whether the page is mapped.
    pub open spec fn mapped(self, vpn: VPN) -> bool {
        self.translate(vpn) is Some
    }

    /// How many new interior tables mapping this page would take.
    pub open spec fn tables_needed(self, vpn: VPN) -> int {
        let i0 = vpn.spec_idx0() as int;
        let i1 = vpn.spec_idx1() as int;
        if self.mids[i0] is None {
            2
        } else if self.mids[i0]->0.leaves[i1] is None {
            1
        } else {
            0
        }
    }

    /// The physical page number of the root page, as the hardware
    /// page-table base register takes it.
    pub fn root_ppn(&self) -> (r: PPN)
        ensures
            r == self.root_tracker.ppn,
    {
        self.root_tracker.ppn
    }

    /// Walk the owned tree for this page and return the valid leaf word
    /// reached, if any.
    pub fn find_pte(&self, vpn: VPN) -> (r: Option<PTEImpl>)
        requires
            self.wf(),
            self.slot_owned(vpn.spec_idx0() as int),
        ensures
            r == self.translate(vpn),
    {
        let idx = vpn.indexes();
        let w0: PTEImpl = self.root[idx[0]];
        if !w0.is_valid() {
            return None;
        }
        match &self.mids[idx[0]] {
            Some(m) => {
                let w1: PTEImpl = m.words[idx[1]];
                if !w1.is_valid() {
                    return None;
                }
                match &m.leaves[idx[1]] {
                    Some(l) => {
                        let w2: PTEImpl = l.words[idx[2]];
                        if w2.is_valid() {
                            Some(w2)
                        } else {
                            None
                        }
                    },
                    None => None,
                }
            },
            None => None,
        }
    }
}

impl PageTableImpl {
    /// Overwrite the leaf word of a page whose leaf table exists. The new
    /// word must respect the leaf discipline: valid implies leaf.
    fn write_leaf_word(&mut self, vpn: VPN, w: PTEImpl)
        requires
            old(self).wf(),
            old(self).pte_of(vpn) is Some,
            w.spec_valid() ==> w.spec_leaf(),
        ensures
            final(self).wf(),
            final(self).pte_of(vpn) == Some(w),
            forall|v: VPN|
                !same_slot(v, vpn) ==> final(self).pte_of(v) == old(self).pte_of(v),
            final(self).root@ == old(self).root@,
            forall|i: int|
                0 <= i < 512 ==> ((#[trigger] final(self).mids[i]) is Some <==> old(self).mids[i]
                    is Some),
            forall|i: int| 0 <= i < 512 ==> final(self).slot_owned(i) == old(self).slot_owned(i),
            final(self).root_tracker == old(self).root_tracker,
    {
        let ghost i0 = vpn.spec_idx0() as int;
        let ghost i1 = vpn.spec_idx1() as int;
        let ghost i2 = vpn.spec_idx2() as int;
        let idx = vpn.indexes();
        let mut m: MidTable = self.mids[idx[0]].take().unwrap();
        let ghost m0 = m;
        let mut l: LeafTable = m.leaves[idx[1]].take().unwrap();
        let ghost l0 = l;
        l.words[idx[2]] = w;
        let ghost l1 = l;
        m.leaves[idx[1]] = Some(l);
        let ghost m1 = m;
        self.mids[idx[0]] = Some(m);
        proof {
            lemma_idx_bounds(vpn);
            assert(m0 == old(self).mids[i0]->0);
            assert(l0 == m0.leaves[i1]->0);
            assert(l1.words@ =~= l0.words@.update(i2, w));
            assert(m1.leaves@ =~= m0.leaves@.update(i1, Some(l1)));
            assert(self.mids@ =~= old(self).mids@.update(i0, Some(m1)));
            assert(m1.wf()) by {
                assert(forall|j: int|
                    0 <= j < 512 && j != i1 ==> m1.leaves[j] == m0.leaves[j] && m1.words[j]
                        == m0.words[j]);
                assert(l1.wf()) by {
                    assert(forall|j: int|
                        0 <= j < 512 && j != i2 ==> l1.words[j] == l0.words[j]);
                }
            }
            assert(self.wf()) by {
                assert(forall|j: int|
                    0 <= j < 512 && j != i0 ==> self.mids[j] == old(self).mids[j]);
            }
            assert forall|v: VPN| !same_slot(v, vpn) implies self.pte_of(v) == old(self).pte_of(
                v,
            ) by {
                lemma_idx_bounds(v);
                let j0 = v.spec_idx0() as int;
                let j1 = v.spec_idx1() as int;
                let j2 = v.spec_idx2() as int;
                if j0 != i0 {
                    assert(self.mids[j0] == old(self).mids[j0]);
                } else {
                    if j1 != i1 {
                        assert(m1.leaves[j1] == m0.leaves[j1]);
                    } else {
                        assert(j2 != i2);
                        assert(l1.words[j2] == l0.words[j2]);
                    }
                }
            }
        }
    }
}

impl PageTableImpl {
    /// Walk towards this page, allocating and installing a zeroed interior
    /// table wherever a slot on the path is invalid. Returns whether the
    /// leaf slot exists afterwards; it fails exactly when the allocator
    /// cannot supply the missing tables, and never disturbs an existing
    /// mapping either way.
    pub fn find_pte_create(&mut self, vpn: VPN, alc: &mut FrameAllocator) -> (r: bool)
        requires
            old(self).wf(),
            old(alc).wf(),
            old(self).slot_owned(vpn.spec_idx0() as int),
        ensures
            final(self).wf(),
            final(alc).wf(),
            final(alc).spec_base() == old(alc).spec_base(),
            final(alc).spec_end() == old(alc).spec_end(),
            r <==> old(alc).avail() >= old(self).tables_needed(vpn),
            r ==> final(self).pte_of(vpn) is Some,
            r ==> final(alc).avail() == old(alc).avail() - old(self).tables_needed(vpn),
            old(self).pte_of(vpn) is Some ==> final(self).pte_of(vpn) == old(self).pte_of(vpn),
            forall|v: VPN| final(self).translate(v) == old(self).translate(v),
            forall|i: int|
                0 <= i < 512 && i != vpn.spec_idx0() as int ==> final(self).root[i] == old(
                    self,
                ).root[i],
            forall|i: int|
                0 <= i < 512 && old(self).slot_owned(i) ==> final(self).slot_owned(i),
            final(self).slot_owned(vpn.spec_idx0() as int),
            final(self).root_tracker == old(self).root_tracker,
            forall|q: u64|
                old(alc).live(q) ==> final(alc).refcount(q) == old(alc).refcount(q)
                    && final(alc).frame_bytes(q) == old(alc).frame_bytes(q),
            forall|q: u64| old(alc).tracked_frame(q) ==> final(alc).tracked_frame(q),
    {
        let ghost i0 = vpn.spec_idx0() as int;
        let ghost i1 = vpn.spec_idx1() as int;
        proof {
            lemma_idx_bounds(vpn);
        }
        let idx = vpn.indexes();
        let w0: PTEImpl = self.root[idx[0]];
        if !w0.is_valid() {
            proof {
                assert(old(self).mids[i0] is None);
            }
            let t = match alc.alloc_frame() {
                Some(t) => t,
                None => {
                    return false;
                },
            };
            let words = empty_words();
            let leaves = empty_leaves();
            let new_word = PTEImpl::new(t.ppn, PTEImpl(PTE_VALID));
            proof {
                assert(PTE_VALID & PTE_VALID != 0 && PTE_VALID & PTE_RWX == 0) by (bit_vector);
            }
            let m = MidTable { tracker: t, words, leaves };
            self.root[idx[0]] = new_word;
            self.mids[idx[0]] = Some(m);
            proof {
                assert(self.root@ =~= old(self).root@.update(i0, new_word));
                assert(self.wf()) by {
                    assert(forall|j: int|
                        0 <= j < 512 && j != i0 ==> self.mids[j] == old(self).mids[j]);
                }
                assert forall|v: VPN| self.pte_of(v) == old(self).pte_of(v) by {
                    lemma_idx_bounds(v);
                    let j0 = v.spec_idx0() as int;
                    if j0 == i0 {
                        assert(self.mids[j0]->0.leaves[v.spec_idx1() as int] is None);
                    } else {
                        assert(self.mids[j0] == old(self).mids[j0]);
                    }
                }
            }
        }
        let ghost mid_state = *self;
        let ghost mid_alc = *alc;
        proof {
            assert forall|v: VPN| mid_state.pte_of(v) == old(self).pte_of(v) by {
                lemma_idx_bounds(v);
            }
        }
        let mut m: MidTable = self.mids[idx[0]].take().unwrap();
        let ghost m0 = m;
        let w1: PTEImpl = m.words[idx[1]];
        if w1.is_valid() {
            self.mids[idx[0]] = Some(m);
            proof {
                assert(self.mids@ =~= mid_state.mids@);
                assert(m0.leaves[i1] is Some);
                assert(old(self).tables_needed(vpn) == 0);
                assert forall|v: VPN| self.pte_of(v) == old(self).pte_of(v) by {
                    lemma_idx_bounds(v);
                }
                assert forall|v: VPN| self.translate(v) == old(self).translate(v) by {
                    lemma_idx_bounds(v);
                    assert(self.pte_of(v) == old(self).pte_of(v));
                }
            }
            return true;
        }
        proof {
            assert(m0.leaves[i1] is None);
        }
        let t = match alc.alloc_frame() {
            Some(t) => t,
            None => {
                self.mids[idx[0]] = Some(m);
                proof {
                    assert(self.mids@ =~= mid_state.mids@);
                    assert forall|v: VPN| self.pte_of(v) == old(self).pte_of(v) by {
                        lemma_idx_bounds(v);
                    }
                    assert forall|v: VPN| self.translate(v) == old(self).translate(v) by {
                        lemma_idx_bounds(v);
                        assert(self.pte_of(v) == old(self).pte_of(v));
                    }
                }
                return false;
            },
        };
        let words = empty_words();
        let lw = PTEImpl::new(t.ppn, PTEImpl(PTE_VALID));
        proof {
            assert(PTE_VALID & PTE_VALID != 0 && PTE_VALID & PTE_RWX == 0) by (bit_vector);
        }
        m.words[idx[1]] = lw;
        m.leaves[idx[1]] = Some(LeafTable { tracker: t, words });
        let ghost m1 = m;
        self.mids[idx[0]] = Some(m);
        proof {
            assert(m1.words@ =~= m0.words@.update(i1, lw));
            assert(self.mids@ =~= mid_state.mids@.update(i0, Some(m1)));
            assert(m1.wf()) by {
                assert(forall|j: int|
                    0 <= j < 512 && j != i1 ==> m1.leaves[j] == m0.leaves[j] && m1.words[j]
                        == m0.words[j]);
            }
            assert(self.wf()) by {
                assert(forall|j: int|
                    0 <= j < 512 && j != i0 ==> self.mids[j] == mid_state.mids[j]);
                assert(self.root@ == mid_state.root@);
            }
            assert(self.pte_of(vpn) is Some);
            assert forall|v: VPN| self.translate(v) == old(self).translate(v) by {
                lemma_idx_bounds(v);
                let j0 = v.spec_idx0() as int;
                let j1 = v.spec_idx1() as int;
                if j0 == i0 && j1 == i1 {
                    assert(mid_state.pte_of(v) is None);
                    assert(self.pte_of(v) is Some);
                    assert(!self.pte_of(v)->0.spec_valid());
                } else if j0 == i0 {
                    assert(m1.leaves[j1] == m0.leaves[j1]);
                    assert(self.pte_of(v) == mid_state.pte_of(v));
                } else {
                    assert(self.mids[j0] == mid_state.mids[j0]);
                    assert(self.pte_of(v) == mid_state.pte_of(v));
                }
            }
        }
        true
    }
}

impl PageTableImpl {
    /// Map one page: set its leaf entry to `(ppn, flags | VALID)`. The page
    /// must not already be mapped, and the flags must carry at least one of
    /// R, W, X so the entry is a leaf. Fails exactly when the allocator
    /// cannot supply the missing interior tables, and then maps nothing.
    pub fn map_one(&mut self, vpn: VPN, ppn: PPN, flags: PTEImpl, alc: &mut FrameAllocator) -> (r:
        bool)
        requires
            old(self).wf(),
            old(alc).wf(),
            old(self).slot_owned(vpn.spec_idx0() as int),
            !old(self).mapped(vpn),
            flags.0 <= PTE_FLAG_MASK,
            flags.0 & PTE_RWX != 0,
            ppn.0 < 0x1000_0000_0000,
        ensures
            final(self).wf(),
            final(alc).wf(),
            final(alc).spec_base() == old(alc).spec_base(),
            final(alc).spec_end() == old(alc).spec_end(),
            r <==> old(alc).avail() >= old(self).tables_needed(vpn),
            r ==> final(alc).avail() == old(alc).avail() - old(self).tables_needed(vpn),
            !r ==> final(alc).avail() >= 0 && !final(self).mapped(vpn),
            r ==> final(self).translate(vpn) is Some && {
                let w = final(self).translate(vpn)->0;
                &&& w.spec_ppn() == ppn.0
                &&& w.spec_flags() == flags.0 | PTE_VALID
                &&& w.spec_valid()
                &&& w.spec_leaf()
            },
            forall|v: VPN|
                !same_slot(v, vpn) ==> final(self).translate(v) == old(self).translate(v),
            forall|i: int|
                0 <= i < 512 && i != vpn.spec_idx0() as int ==> final(self).root[i] == old(
                    self,
                ).root[i],
            forall|i: int|
                0 <= i < 512 && old(self).slot_owned(i) ==> final(self).slot_owned(i),
            final(self).root_tracker == old(self).root_tracker,
            forall|q: u64|
                old(alc).live(q) ==> final(alc).refcount(q) == old(alc).refcount(q)
                    && final(alc).frame_bytes(q) == old(alc).frame_bytes(q),
            forall|q: u64| old(alc).tracked_frame(q) ==> final(alc).tracked_frame(q),
    {
        if !self.find_pte_create(vpn, alc) {
            return false;
        }
        let f: u64 = flags.0;
        proof {
            assert(f <= 0x1ff ==> (f | 0x1) <= 0x1ff && ((f | 0x1) & 0x1 != 0) && ((f | 0x1) & 0xe)
                == (f & 0xe)) by (bit_vector);
        }
        let w = PTEImpl::new(ppn, PTEImpl(f | PTE_VALID));
        self.write_leaf_word(vpn, w);
        true
    }

    /// Overwrite an existing mapping with `(ppn, flags | VALID)`; the
    /// caller owes the TLB shootdown for the page.
    pub fn remap_one(&mut self, vpn: VPN, ppn: PPN, flags: PTEImpl)
        requires
            old(self).wf(),
            old(self).mapped(vpn),
            flags.0 <= PTE_FLAG_MASK,
            flags.0 & PTE_RWX != 0,
            ppn.0 < 0x1000_0000_0000,
        ensures
            final(self).wf(),
            final(self).translate(vpn) is Some && {
                let w = final(self).translate(vpn)->0;
                &&& w.spec_ppn() == ppn.0
                &&& w.spec_flags() == flags.0 | PTE_VALID
                &&& w.spec_valid()
                &&& w.spec_leaf()
            },
            forall|v: VPN|
                !same_slot(v, vpn) ==> final(self).translate(v) == old(self).translate(v),
            final(self).root@ == old(self).root@,
            forall|i: int| 0 <= i < 512 ==> final(self).slot_owned(i) == old(self).slot_owned(i),
            final(self).root_tracker == old(self).root_tracker,
    {
        let f: u64 = flags.0;
        proof {
            assert(f <= 0x1ff ==> (f | 0x1) <= 0x1ff && ((f | 0x1) & 0x1 != 0) && ((f | 0x1) & 0xe)
                == (f & 0xe)) by (bit_vector);
        }
        let w = PTEImpl::new(ppn, PTEImpl(f | PTE_VALID));
        self.write_leaf_word(vpn, w);
    }

    /// Clear the leaf entry of a mapped page; the caller owes the TLB
    /// shootdown for the page.
    pub fn unmap_one(&mut self, vpn: VPN)
        requires
            old(self).wf(),
            old(self).mapped(vpn),
        ensures
            final(self).wf(),
            !final(self).mapped(vpn),
            forall|v: VPN|
                !same_slot(v, vpn) ==> final(self).translate(v) == old(self).translate(v),
            final(self).root@ == old(self).root@,
            forall|i: int| 0 <= i < 512 ==> final(self).slot_owned(i) == old(self).slot_owned(i),
            final(self).root_tracker == old(self).root_tracker,
    {
        let w = PTEImpl::empty();
        self.write_leaf_word(vpn, w);
    }

    /// An empty table: a zeroed root page and nothing mapped. This is how
    /// the global kernel table begins; it fails only when no frame is left
    /// for the root page.
    pub fn new_empty(alc: &mut FrameAllocator) -> (r: Option<PageTableImpl>)
        requires
            old(alc).wf(),
        ensures
            final(alc).wf(),
            final(alc).spec_base() == old(alc).spec_base(),
            final(alc).spec_end() == old(alc).spec_end(),
            r is Some <==> old(alc).avail() > 0,
            r matches Some(pt) ==> {
                &&& pt.wf()
                &&& pt.fully_owned()
                &&& forall|v: VPN| pt.pte_of(v) is None
                &&& forall|v: VPN| pt.translate(v) is None
                &&& forall|i: int| 0 <= i < 512 ==> !(#[trigger] pt.root[i]).spec_valid()
                &&& final(alc).avail() == old(alc).avail() - 1
                &&& final(alc).live(pt.root_tracker.ppn.0)
            },
            r is None ==> final(alc).avail() == old(alc).avail(),
            forall|q: u64|
                old(alc).live(q) ==> final(alc).refcount(q) == old(alc).refcount(q)
                    && final(alc).frame_bytes(q) == old(alc).frame_bytes(q),
            forall|q: u64| old(alc).tracked_frame(q) ==> final(alc).tracked_frame(q),
    {
        let t = match alc.alloc_frame() {
            Some(t) => t,
            None => {
                return None;
            },
        };
        let root = empty_words();
        let mids = empty_mids();
        let pt = PageTableImpl { root_tracker: t, root, mids };
        proof {
            assert forall|v: VPN| pt.pte_of(v) is None && pt.translate(v) is None by {
                lemma_idx_bounds(v);
            }
        }
        Some(pt)
    }

    /// A fresh table for one address space: the lower 256 root entries are
    /// zeroed, the upper 256 are copied from the global kernel table, so
    /// the kernel half is shared by reference. Fails only when no frame is
    /// left for the root page.
    pub fn new_kernel(kernel: &PageTableImpl, alc: &mut FrameAllocator) -> (r: Option<
        PageTableImpl,
    >)
        requires
            kernel.wf(),
            old(alc).wf(),
        ensures
            final(alc).wf(),
            final(alc).spec_base() == old(alc).spec_base(),
            final(alc).spec_end() == old(alc).spec_end(),
            r is Some <==> old(alc).avail() > 0,
            r matches Some(pt) ==> {
                &&& pt.wf()
                &&& pt.user_half_owned()
                &&& forall|v: VPN| pt.pte_of(v) is None
                &&& forall|v: VPN| pt.translate(v) is None
                &&& forall|i: int| 0 <= i < 256 ==> (#[trigger] pt.root[i]).0 == 0
                &&& forall|i: int| 0 <= i < 256 ==> !(#[trigger] pt.root[i]).spec_valid()
                &&& forall|i: int| 256 <= i < 512 ==> (#[trigger] pt.root[i]) == kernel.root[i]
                &&& final(alc).avail() == old(alc).avail() - 1
                &&& final(alc).live(pt.root_tracker.ppn.0)
            },
            r is None ==> final(alc).avail() == old(alc).avail(),
            forall|q: u64|
                old(alc).live(q) ==> final(alc).refcount(q) == old(alc).refcount(q)
                    && final(alc).frame_bytes(q) == old(alc).frame_bytes(q),
            forall|q: u64| old(alc).tracked_frame(q) ==> final(alc).tracked_frame(q),
    {
        let t = match alc.alloc_frame() {
            Some(t) => t,
            None => {
                return None;
            },
        };
        let mut root: Vec<PTEImpl> = Vec::new();
        let mut i: usize = 0;
        while i < 256
            invariant
                i <= 256,
                root.len() == i,
                forall|j: int| 0 <= j < i ==> (#[trigger] root[j]).0 == 0 && !root[j].spec_valid(),
            decreases 256 - i,
        {
            root.push(PTEImpl::empty());
            i = i + 1;
        }
        let mut k: usize = 256;
        while k < 512
            invariant
                kernel.wf(),
                256 <= k <= 512,
                root.len() == k,
                forall|j: int| 0 <= j < 256 ==> (#[trigger] root[j]).0 == 0 && !root[j].spec_valid(),
                forall|j: int| 256 <= j < k ==> (#[trigger] root[j]) == kernel.root[j],
            decreases 512 - k,
        {
            root.push(kernel.root[k]);
            k = k + 1;
        }
        let mids = empty_mids();
        let pt = PageTableImpl { root_tracker: t, root, mids };
        proof {
            assert forall|v: VPN| pt.pte_of(v) is None && pt.translate(v) is None by {
                lemma_idx_bounds(v);
            }
        }
        Some(pt)
    }
}

/// The three walk indexes of any page are within table width.
pub proof fn lemma_idx_bounds(v: VPN)
    ensures
        v.spec_idx0() < 512,
        v.spec_idx1() < 512,
        v.spec_idx2() < 512,
{
    let x = v.0;
    assert(((x >> 18) & 0x1ff) < 512 && ((x >> 9) & 0x1ff) < 512 && (x & 0x1ff) < 512)
        by (bit_vector);
}

/// Two pages fall on the same leaf slot when all three walk indexes agree.
pub open spec fn same_slot(a: VPN, b: VPN) -> bool {
    &&& a.spec_idx0() == b.spec_idx0()
    &&& a.spec_idx1() == b.spec_idx1()
    &&& a.spec_idx2() == b.spec_idx2()
}

/// 512 invalid entry words: the contents of a freshly allocated table
/// page.
fn empty_words() -> (r: Vec<PTEImpl>)
    ensures
        r.len() == 512,
        forall|i: int| 0 <= i < 512 ==> (#[trigger] r[i]).0 == 0 && !r[i].spec_valid(),
{
    let mut v: Vec<PTEImpl> = Vec::new();
    let mut i: usize = 0;
    while i < 512
        invariant
            i <= 512,
            v.len() == i,
            forall|j: int| 0 <= j < i ==> (#[trigger] v[j]).0 == 0 && !v[j].spec_valid(),
        decreases 512 - i,
    {
        v.push(PTEImpl::empty());
        i = i + 1;
    }
    v
}

/// 512 absent leaf-table slots.
fn empty_leaves() -> (r: Vec<Option<LeafTable>>)
    ensures
        r.len() == 512,
        forall|i: int| 0 <= i < 512 ==> (#[trigger] r[i]) is None,
{
    let mut v: Vec<Option<LeafTable>> = Vec::new();
    let mut i: usize = 0;
    while i < 512
        invariant
            i <= 512,
            v.len() == i,
            forall|j: int| 0 <= j < i ==> (#[trigger] v[j]) is None,
        decreases 512 - i,
    {
        v.push(None);
        i = i + 1;
    }
    v
}

/// 512 absent middle-table slots.
fn empty_mids() -> (r: Vec<Option<MidTable>>)
    ensures
        r.len() == 512,
        forall|i: int| 0 <= i < 512 ==> (#[trigger] r[i]) is None,
{
    let mut v: Vec<Option<MidTable>> = Vec::new();
    let mut i: usize = 0;
    while i < 512
        invariant
            i <= 512,
            v.len() == i,
            forall|j: int| 0 <= j < i ==> (#[trigger] v[j]) is None,
        decreases 512 - i,
    {
        v.push(None);
        i = i + 1;
    }
    v
}

} // verus!
