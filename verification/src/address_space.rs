//! Per-process address spaces: a page table plus a sorted list of virtual
//! memory areas.
//!
//! An area is a half-open virtual-address range tagged with a map kind and
//! permission flags; a framed area owns one reference-counted frame per
//! covered page. The invariant of an address space is the heart of the
//! model: areas are sorted and page-disjoint, every frame an area holds is
//! live and mapped at exactly the recorded physical page with the area's
//! permissions (plain, or the copy-on-write variant that fork installs),
//! and no page outside any area is mapped.

use vstd::prelude::*;

use crate::address::{page_up, VARangeOrd, VA, VPN};
use crate::config::{
    BRK_MAX, KERNEL_VPN_BASE, KERNEL_VPN_END, PAGE_SIZE, USER_VPN_LIMIT,
};
use crate::frame::{FrameAllocator, FrameTracker};
use crate::page_table::PageTableImpl;
use crate::pte::{PTEImpl, PTE_COW, PTE_FLAG_MASK, PTE_READABLE, PTE_RWX, PTE_VALID, PTE_WRITABLE};

verus! {

/// How an area's pages relate to physical memory.
#[derive(Clone, Copy, Debug, PartialEq, Eq, Structural)]
pub enum MapType {
    /// Direct map: `PA = VA - KERNEL_MAP_OFFSET`.
    Linear,
    /// Each covered page is backed by an owned frame.
    Framed,
    /// Memory-mapped device registers, mapped linearly.
    Device,
}

/// One contiguous virtual-memory mapping of an address space.
pub struct MapArea {
    /// For a framed area, the owned frame of each covered page, indexed by
    /// page offset from the area's first page.
    pub data_frames: Vec<Option<FrameTracker>>,
    pub map_type: MapType,
    pub map_perm: PTEImpl,
}

/// A process's address space.
pub struct AddressSpace {
    /// The page table; its kernel half is shared from the global kernel
    /// table.
    pub page_table: PageTableImpl,
    /// The areas, sorted by start address, pairwise page-disjoint.
    pub areas: Vec<(VARangeOrd, MapArea)>,
    /// Current program break.
    pub data_segment_end: u64,
    /// Break ceiling, fixed when the space is built from an image.
    pub data_segment_max: u64,
}

/// First page of an area: the start address rounded down.
pub open spec fn vpn_start_of(r: VARangeOrd) -> int {
    r.0.start.0 as int / PAGE_SIZE as int
}

/// First page past an area: the end address rounded up, so a partial tail
/// page is covered entirely.
pub open spec fn vpn_end_of(r: VARangeOrd) -> int {
    (r.0.end.0 + PAGE_SIZE - 1) / PAGE_SIZE as int
}

/// A page number is canonical when the Sv39 hardware can reach it: in the
/// lower (user) or upper (kernel) 256 GiB half.
pub open spec fn vpn_canon(v: int) -> bool {
    (0 <= v < USER_VPN_LIMIT) || (KERNEL_VPN_BASE <= v < KERNEL_VPN_END)
}

/// A page range lies within one canonical half.
pub open spec fn range_canon(s: int, e: int) -> bool {
    &&& 0 <= s < e
    &&& (e <= USER_VPN_LIMIT || (KERNEL_VPN_BASE <= s && e <= KERNEL_VPN_END))
}

/// Distinct canonical page numbers never collide on a page-table slot: the
/// three walk indexes identify a canonical page uniquely.
pub proof fn lemma_canon_slots_inject(a: u64, b: u64)
    requires
        vpn_canon(a as int),
        vpn_canon(b as int),
        a != b,
    ensures
        !crate::page_table::same_slot(VPN(a), VPN(b)),
{
    assert((a < 0x400_0000 || (0xf_ffff_fc00_0000 <= a < 0x10_0000_0000_0000)) && (b < 0x400_0000
        || (0xf_ffff_fc00_0000 <= b < 0x10_0000_0000_0000)) && a != b ==> !((a >> 18) & 0x1ff == (b
        >> 18) & 0x1ff && (a >> 9) & 0x1ff == (b >> 9) & 0x1ff && a & 0x1ff == b & 0x1ff))
        by (bit_vector);
}

/// A canonical user page walks through the lower half of the root table.
pub proof fn lemma_user_vpn_idx0(v: u64)
    requires
        v < USER_VPN_LIMIT,
    ensures
        VPN(v).spec_idx0() < 256,
{
    assert(v < 0x400_0000 ==> ((v >> 18) & 0x1ff) < 256) by (bit_vector);
}

/// The entry word a freshly mapped page carries: the area's permissions
/// plus VALID.
pub open spec fn plain_word_flags(p: u64) -> u64 {
    p | PTE_VALID
}

/// The entry word of a page shared by copy-on-write: WRITABLE stripped,
/// COW added.
pub open spec fn cow_word_flags(p: u64) -> u64 {
    ((p & !PTE_WRITABLE) | PTE_COW) | PTE_VALID
}

/// A mapped page of an area carries either the plain or the
/// copy-on-write form of the area's permissions; only a writable area is
/// ever in the copy-on-write form.
pub open spec fn area_flags_ok(f: u64, p: u64) -> bool {
    f == plain_word_flags(p) || (f == cow_word_flags(p) && p & PTE_WRITABLE != 0)
}

impl MapArea {
    /// Permission words carry real permissions and no bookkeeping bits:
    /// at least one of R, W, X, and neither VALID nor COW.
    pub open spec fn perm_wf(self) -> bool {
        &&& self.map_perm.0 <= PTE_FLAG_MASK
        &&& self.map_perm.0 & PTE_RWX != 0
        &&& self.map_perm.0 & PTE_COW == 0
        &&& self.map_perm.0 & PTE_VALID == 0
    }
}

impl AddressSpace {
    /// One recorded frame of one framed area is consistent with the page
    /// table and the allocator: a held frame is live and mapped at the
    /// recorded physical page under the area's permissions (plain or
    /// copy-on-write form); a hole is unmapped.
    pub open spec fn frame_entry_ok(self, alc: FrameAllocator, i: int, k: int) -> bool {
        let rng = self.areas[i].0;
        let a = self.areas[i].1;
        let v = VPN((vpn_start_of(rng) + k) as u64);
        match a.data_frames[k] {
            Some(t) => {
                &&& alc.live(t.ppn.0)
                &&& t.ppn.0 < 0x1000_0000_0000
                &&& self.page_table.translate(v) is Some
                &&& self.page_table.translate(v)->0.spec_ppn() == t.ppn.0
                &&& area_flags_ok(self.page_table.translate(v)->0.spec_flags(), a.map_perm.0)
            },
            None => self.page_table.translate(v) is None,
        }
    }

    /// One area is consistent: well-formed canonical range, clean
    /// permissions, a frame slot per page for a framed area (and none
    /// otherwise), each slot consistent, and the area's root-table slots
    /// owned by this table.
    pub open spec fn area_ok(self, alc: FrameAllocator, i: int) -> bool {
        let rng = self.areas[i].0;
        let a = self.areas[i].1;
        &&& rng.wf()
        &&& range_canon(vpn_start_of(rng), vpn_end_of(rng))
        &&& a.perm_wf()
        &&& match a.map_type {
            MapType::Framed => a.data_frames.len() == vpn_end_of(rng) - vpn_start_of(rng),
            _ => a.data_frames.len() == 0,
        }
        &&& forall|k: int|
            0 <= k < a.data_frames.len() ==> #[trigger] self.frame_entry_ok(alc, i, k)
        &&& forall|v: int|
            vpn_start_of(rng) <= v < vpn_end_of(rng) ==> #[trigger] self.page_table.slot_owned(
                VPN(v as u64).spec_idx0() as int,
            )
    }

    /// The physical page recorded at slot `k` of area `i`.
    pub open spec fn entry_ppn(self, i: int, k: int) -> u64 {
        self.areas[i].1.data_frames[k]->0.ppn.0
    }

    /// Whether slot `k` of area `i` holds a frame.
    pub open spec fn entry_some(self, i: int, k: int) -> bool {
        &&& 0 <= i < self.areas.len()
        &&& 0 <= k < self.areas[i].1.data_frames.len()
        &&& self.areas[i].1.data_frames[k] is Some
    }

    /// Whether some area of this space holds frame `q`.
    pub open spec fn holds_frame(self, q: u64) -> bool {
        exists|i: int, k: int| self.entry_some(i, k) && #[trigger] self.entry_ppn(i, k) == q
    }

    /// Whether some area covers this page.
    pub open spec fn covered_vpn(self, v: int) -> bool {
        exists|i: int|
            0 <= i < self.areas.len() && vpn_start_of(#[trigger] self.areas[i].0) <= v < vpn_end_of(
                self.areas[i].0,
            )
    }

    /// Whether some area covers this address.
    pub open spec fn covered_va(self, va: VA) -> bool {
        exists|i: int|
            0 <= i < self.areas.len() && (#[trigger] self.areas[i].0).spec_contains(va)
    }

    /// The address-space invariant.
    pub open spec fn wf(self, alc: FrameAllocator) -> bool {
        &&& alc.wf()
        &&& self.page_table.wf()
        &&& self.page_table.user_half_owned()
        &&& forall|i: int, j: int|
            0 <= i < j < self.areas.len() ==> vpn_end_of(#[trigger] self.areas[i].0)
                <= vpn_start_of(#[trigger] self.areas[j].0)
        &&& forall|i: int| 0 <= i < self.areas.len() ==> #[trigger] self.area_ok(alc, i)
        &&& forall|v: u64|
            vpn_canon(v as int) && !self.covered_vpn(v as int) ==> !(
            #[trigger] self.page_table.mapped(VPN(v)))
        &&& forall|i: int, k: int, j: int, l: int|
            self.entry_some(i, k) && self.entry_some(j, l) && (i != j || k != l) ==> #[trigger] self
                .entry_ppn(i, k) != #[trigger] self.entry_ppn(j, l)
        &&& self.data_segment_end <= self.data_segment_max
    }

    /// No two areas of a well-formed address space overlap; they are even
    /// disjoint page by page.
    pub proof fn lemma_areas_disjoint(self, alc: FrameAllocator)
        requires
            self.wf(alc),
        ensures
            forall|i: int, j: int|
                0 <= i < self.areas.len() && 0 <= j < self.areas.len() && i != j
                    ==> !(#[trigger] self.areas[i].0).spec_overlaps(#[trigger] self.areas[j].0),
    {
        assert forall|i: int, j: int|
            0 <= i < self.areas.len() && 0 <= j < self.areas.len() && i != j implies !(
        #[trigger] self.areas[i].0).spec_overlaps(#[trigger] self.areas[j].0) by {
            assert(self.area_ok(alc, i));
            assert(self.area_ok(alc, j));
            if i < j {
                assert(vpn_end_of(self.areas[i].0) <= vpn_start_of(self.areas[j].0));
            } else {
                assert(vpn_end_of(self.areas[j].0) <= vpn_start_of(self.areas[i].0));
            }
        }
    }

    /// At most one area covers any address: the areas are pairwise
    /// disjoint.
    pub proof fn lemma_covering_unique(self, alc: FrameAllocator, va: VA, i: int, j: int)
        requires
            self.wf(alc),
            0 <= i < self.areas.len(),
            0 <= j < self.areas.len(),
            self.areas[i].0.spec_contains(va),
            self.areas[j].0.spec_contains(va),
        ensures
            i == j,
    {
        self.lemma_areas_disjoint(alc);
        if i != j {
            assert(self.areas[i].0.spec_overlaps(self.areas[j].0));
        }
    }

    /// A fresh address space that shares the kernel half: its page table's
    /// upper 256 root entries are those of the global kernel table, so
    /// every mapping the kernel table holds there — the device window
    /// among them — is reached through this space too. Nothing of the
    /// space's *own* is mapped yet: the walk modeled by `translate`
    /// covers the tree this table owns, and the borrowed kernel half is
    /// looked up in the kernel table itself. Fails only when no frame is
    /// left for the root page.
    pub fn new_kernel(kernel: &PageTableImpl, alc: &mut FrameAllocator) -> (r: Option<
        AddressSpace,
    >)
        requires
            kernel.wf(),
            old(alc).wf(),
        ensures
            final(alc).wf(),
            final(alc).spec_base() == old(alc).spec_base(),
            final(alc).spec_end() == old(alc).spec_end(),
            r is Some <==> old(alc).avail() > 0,
            r matches Some(s) ==> {
                &&& s.wf(*final(alc))
                &&& s.areas.len() == 0
                &&& s.data_segment_end == 0 && s.data_segment_max == 0
                &&& forall|i: int|
                    256 <= i < 512 ==> (#[trigger] s.page_table.root[i]) == kernel.root[i]
                &&& forall|v: VPN| !s.page_table.mapped(v)
                &&& final(alc).avail() == old(alc).avail() - 1
            },
            r is None ==> final(alc).avail() == old(alc).avail(),
            forall|q: u64|
                old(alc).live(q) ==> final(alc).refcount(q) == old(alc).refcount(q)
                    && final(alc).frame_bytes(q) == old(alc).frame_bytes(q),
            forall|q: u64| old(alc).tracked_frame(q) ==> final(alc).tracked_frame(q),
    {
        let pt = match PageTableImpl::new_kernel(kernel, alc) {
            Some(pt) => pt,
            None => {
                return None;
            },
        };
        Some(
            AddressSpace {
                page_table: pt,
                areas: Vec::new(),
                data_segment_end: 0,
                data_segment_max: 0,
            },
        )
    }

    /// The byte a page of a freshly inserted area holds at offset `o`,
    /// when the area starts at address `start` and carries `data`: the
    /// matching data byte where the address falls inside the data, zero
    /// elsewhere.
    pub open spec fn init_byte(start: u64, data: Option<Seq<u8>>, v: int, o: int) -> u8 {
        let j = v * PAGE_SIZE + o - start;
        match data {
            Some(d) => if 0 <= j < d.len() {
                d[j]
            } else {
                0
            },
            None => 0,
        }
    }

    /// Whether a page range is page-disjoint from every area.
    pub open spec fn range_free(self, s: int, e: int) -> bool {
        forall|i: int|
            0 <= i < self.areas.len() ==> vpn_end_of(#[trigger] self.areas[i].0) <= s || e
                <= vpn_start_of(self.areas[i].0)
    }

    /// Whether every page of a range walks through root slots this table
    /// owns.
    pub open spec fn range_slots_owned(self, s: int, e: int) -> bool {
        forall|v: int|
            s <= v < e ==> self.page_table.slot_owned(
                (#[trigger] VPN(v as u64).spec_idx0()) as int,
            )
    }

    /// The index of the area containing the given address, if any.
    pub fn find_area(&self, va: VA) -> (r: Option<usize>)
        ensures
            r matches Some(i) ==> i < self.areas.len() && self.areas[i as int].0.spec_contains(va),
            r is None ==> !self.covered_va(va),
    {
        let mut i: usize = 0;
        while i < self.areas.len()
            invariant
                i <= self.areas.len(),
                forall|j: int| 0 <= j < i ==> !(#[trigger] self.areas[j].0).spec_contains(va),
            decreases self.areas.len() - i,
        {
            if self.areas[i].0.contains(va) {
                return Some(i);
            }
            i = i + 1;
        }
        None
    }
}

/// A spec view of optional byte data handed to an area insertion.
pub open spec fn data_view(data: Option<&Vec<u8>>) -> Option<Seq<u8>> {
    match data {
        Some(d) => Some(d@),
        None => None,
    }
}

/// Whether some page of `[s, e)` walks through root slot `i0`.
pub open spec fn range_uses_slot(s: int, e: int, i0: int) -> bool {
    exists|v: int| s <= v < e && (#[trigger] VPN(v as u64).spec_idx0()) as int == i0
}

impl AddressSpace {
    /// Insert a framed area over `va_range` with the given permissions:
    /// allocate one zeroed frame per covered page (the partial tail page is
    /// covered entirely), map each page, copy `data` into the area starting
    /// at the range's first address, and register the area. The range must
    /// be page-disjoint from every existing area. Fails, changing nothing,
    /// exactly when the allocator cannot reserve three frames per page (one
    /// for the page and up to two for interior tables).
    #[verifier::rlimit(100)]
    pub fn insert_framed_area(
        &mut self,
        va_range: crate::address::VARange,
        map_perm: PTEImpl,
        data: Option<&Vec<u8>>,
        alc: &mut FrameAllocator,
    ) -> (r: bool)
        requires
            old(self).wf(*old(alc)),
            VARangeOrd(va_range).wf(),
            range_canon(vpn_start_of(VARangeOrd(va_range)), vpn_end_of(VARangeOrd(va_range))),
            map_perm.0 <= PTE_FLAG_MASK,
            map_perm.0 & PTE_RWX != 0,
            map_perm.0 & PTE_COW == 0,
            map_perm.0 & PTE_VALID == 0,
            old(self).range_free(
                vpn_start_of(VARangeOrd(va_range)),
                vpn_end_of(VARangeOrd(va_range)),
            ),
            old(self).range_slots_owned(
                vpn_start_of(VARangeOrd(va_range)),
                vpn_end_of(VARangeOrd(va_range)),
            ),
            data matches Some(d) ==> va_range.start.0 + d@.len() <= va_range.end.0,
        ensures
            final(self).wf(*final(alc)),
            final(alc).spec_base() == old(alc).spec_base(),
            final(alc).spec_end() == old(alc).spec_end(),
            r <==> old(alc).avail() >= 3 * (vpn_end_of(VARangeOrd(va_range)) - vpn_start_of(
                VARangeOrd(va_range),
            )),
            !r ==> *final(self) == *old(self) && *final(alc) == *old(alc),
            r ==> {
                let s = vpn_start_of(VARangeOrd(va_range));
                let e = vpn_end_of(VARangeOrd(va_range));
                &&& forall|v: int|
                    #![trigger final(self).covered_vpn(v)]
                    final(self).covered_vpn(v) <==> old(self).covered_vpn(v) || (s <= v < e)
                &&& true
                &&& forall|v: u64|
                    vpn_canon(v as int) && !(s <= v < e)
                        ==> #[trigger] final(self).page_table.translate(VPN(v)) == old(self).page_table.translate(VPN(v))
                &&& final(alc).avail() >= old(alc).avail() - 3 * (e - s)
                &&& exists|pos: int|
                    #![auto]
                    {
                        &&& 0 <= pos <= old(self).areas.len()
                        &&& final(self).areas.len() == old(self).areas.len() + 1
                        &&& (forall|j: int|
                            0 <= j < pos ==> final(self).areas[j] == old(self).areas[j])
                        &&& (forall|j: int|
                            pos <= j < old(self).areas.len() ==> final(self).areas[j + 1] == old(self).areas[j])
                        &&& final(self).areas[pos].0 == VARangeOrd(va_range)
                        &&& final(self).areas[pos].1.map_type is Framed
                        &&& final(self).areas[pos].1.map_perm == map_perm
                    }
            },
            r ==> forall|q: u64|
                old(alc).live(q) ==> final(alc).refcount(q) == old(alc).refcount(q)
                    && final(alc).frame_bytes(q) == old(alc).frame_bytes(q),
            r ==> forall|v: int|
                vpn_start_of(VARangeOrd(va_range)) <= v < vpn_end_of(VARangeOrd(va_range))
                    ==> #[trigger] inserted_page_ok(
                    *final(self),
                    *old(alc),
                    *final(alc),
                    va_range.start.0,
                    data_view(data),
                    map_perm.0,
                    v,
                ),
            r ==> forall|v: int|
                vpn_start_of(VARangeOrd(va_range)) <= v < vpn_end_of(VARangeOrd(va_range))
                    ==> #[trigger] loaded_page_ok(
                    *final(self),
                    *final(alc),
                    va_range.start.0,
                    data_view(data),
                    map_perm.0,
                    v,
                ),
            forall|q: u64| old(alc).tracked_frame(q) ==> final(alc).tracked_frame(q),
            final(self).data_segment_end == old(self).data_segment_end,
            final(self).data_segment_max == old(self).data_segment_max,
            forall|i: int|
                0 <= i < 512 && !range_uses_slot(
                    vpn_start_of(VARangeOrd(va_range)),
                    vpn_end_of(VARangeOrd(va_range)),
                    i,
                ) ==> final(self).page_table.root[i] == old(self).page_table.root[i],
            forall|i: int|
                0 <= i < 512 && old(self).page_table.slot_owned(i) ==> final(self).page_table.slot_owned(i),
    {
        let ghost s = vpn_start_of(VARangeOrd(va_range));
        let ghost e = vpn_end_of(VARangeOrd(va_range));
        let rng = VARangeOrd(va_range);
        let vr = rng.vpn_range();
        let s_u: u64 = vr.start.0;
        let e_u: u64 = vr.end.0;
        proof {
            assert(s_u == s && e_u == e);
            vstd::arithmetic::div_mod::lemma_div_is_ordered(
                va_range.start.0 + PAGE_SIZE as int,
                va_range.end.0 + PAGE_SIZE - 1,
                PAGE_SIZE as int,
            );
            vstd::arithmetic::div_mod::lemma_div_plus_one(
                va_range.start.0 as int,
                PAGE_SIZE as int,
            );
            assert(s < e);
        }
        let pages: u64 = e_u - s_u;
        if alc.available() < 3 * pages {
            return false;
        }
        let mut area = MapArea {
            data_frames: Vec::new(),
            map_type: MapType::Framed,
            map_perm,
        };
        let mut cur: u64 = s_u;
        while cur < e_u
            invariant
                old(self).wf(*old(alc)),
                s == vpn_start_of(VARangeOrd(va_range)),
                e == vpn_end_of(VARangeOrd(va_range)),
                s_u == s && e_u == e && s <= cur <= e,
                range_canon(s, e),
                map_perm.0 <= PTE_FLAG_MASK && map_perm.0 & PTE_RWX != 0 && map_perm.0 & PTE_COW
                    == 0 && map_perm.0 & PTE_VALID == 0,
                old(self).range_free(s, e),
                old(self).range_slots_owned(s, e),
                data matches Some(d) ==> va_range.start.0 + d@.len() <= va_range.end.0,
                VARangeOrd(va_range).wf(),
                self.areas@ == old(self).areas@,
                self.data_segment_end == old(self).data_segment_end,
                self.data_segment_max == old(self).data_segment_max,
                self.page_table.wf(),
                self.page_table.root_tracker == old(self).page_table.root_tracker,
                forall|i: int|
                    0 <= i < 512 && old(self).page_table.slot_owned(i) ==> #[trigger] self
                        .page_table.slot_owned(i),
                forall|i: int|
                    0 <= i < 512 && !range_uses_slot(s, e, i) ==> self.page_table.root[i] == old(self).page_table.root[i],
                forall|v: u64|
                    vpn_canon(v as int) && !(s <= v < cur)
                        ==> #[trigger] self.page_table.translate(VPN(v)) == old(self).page_table.translate(VPN(v)),
                area.map_perm == map_perm && area.map_type is Framed,
                area.data_frames.len() == cur - s,
                forall|k: int|
                    0 <= k < cur - s ==> (#[trigger] area.data_frames[k]) is Some,
                forall|k: int|
                    0 <= k < cur - s ==> {
                        let t = self.page_table.translate(VPN((s + k) as u64));
                        &&& t is Some
                        &&& t->0.spec_flags() == plain_word_flags(map_perm.0)
                        &&& t->0.spec_ppn() == (#[trigger] area.data_frames[k])->0.ppn.0
                    },
                forall|k: int|
                    0 <= k < cur - s ==> {
                        let p = (#[trigger] area.data_frames[k])->0.ppn.0;
                        &&& old(alc).refcount(p) == 0
                        &&& alc.refcount(p) == 1
                        &&& p < 0x1000_0000_0000
                        &&& alc.frame_bytes(p).len() == PAGE_SIZE
                        &&& forall|o: int|
                            0 <= o < PAGE_SIZE ==> alc.frame_bytes(p)[o] == Self::init_byte(
                                va_range.start.0,
                                data_view(data),
                                s + k,
                                o,
                            )
                    },
                forall|k1: int, k2: int|
                    0 <= k1 < k2 < cur - s ==> (#[trigger] area.data_frames[k1])->0.ppn.0 != (
                    #[trigger] area.data_frames[k2])->0.ppn.0,
                alc.wf(),
                alc.spec_base() == old(alc).spec_base(),
                alc.spec_end() == old(alc).spec_end(),
                old(alc).avail() >= 3 * (e - s),
                alc.avail() >= old(alc).avail() - 3 * (cur - s),
                forall|q: u64|
                    old(alc).live(q) ==> alc.refcount(q) == old(alc).refcount(q) && alc.frame_bytes(
                        q,
                    ) == old(alc).frame_bytes(q),
                forall|q: u64| old(alc).tracked_frame(q) ==> alc.tracked_frame(q),
            decreases e_u - cur,
        {
            let ghost pre_alc = *alc;
            let ghost pre_pt = self.page_table;
            let t = match alc.alloc_frame() {
                Some(t) => t,
                None => {
                    proof {
                        assert(false);
                    }
                    return false;
                },
            };
            let p = t.ppn;
            proof {
                assert(vpn_canon(cur as int));
                assert(!old(self).covered_vpn(cur as int));
                assert(!old(self).page_table.mapped(VPN(cur)));
                assert(self.page_table.translate(VPN(cur)) == old(self).page_table.translate(
                    VPN(cur),
                ));
                assert(old(self).page_table.slot_owned(VPN(cur).spec_idx0() as int)) by {
                    let v: int = cur as int;
                    assert(s <= v < e);
                    assert(VPN(v as u64).spec_idx0() == VPN(cur).spec_idx0());
                }
                crate::page_table::lemma_idx_bounds(VPN(cur));
                assert(self.page_table.slot_owned(VPN(cur).spec_idx0() as int));
                assert(range_uses_slot(s, e, VPN(cur).spec_idx0() as int)) by {
                    let v: int = cur as int;
                    assert(s <= v < e);
                    assert(VPN(v as u64).spec_idx0() == VPN(cur).spec_idx0());
                }
            }
            let ok = self.page_table.map_one(VPN(cur), p, map_perm, alc);
            proof {
                assert(pre_pt.tables_needed(VPN(cur)) <= 2);
                assert(ok);
            }
            let page_base: u64 = cur * PAGE_SIZE;
            match data {
                Some(d) => {
                    fill_page(alc, p, page_base, va_range.start.0, d);
                },
                None => {},
            }
            area.data_frames.push(Some(t));
            proof {
                assert forall|v: u64|
                    vpn_canon(v as int) && !(s <= v < cur + 1) implies #[trigger] self
                    .page_table.translate(VPN(v)) == old(self).page_table.translate(VPN(v)) by {
                    if v != cur {
                        lemma_canon_slots_inject(v, cur);
                    }
                }
                assert forall|k: int| 0 <= k < cur + 1 - s implies {
                    let tr = self.page_table.translate(VPN((s + k) as u64));
                    &&& tr is Some
                    &&& tr->0.spec_flags() == plain_word_flags(map_perm.0)
                    &&& tr->0.spec_ppn() == (#[trigger] area.data_frames[k])->0.ppn.0
                } by {
                    if k < cur - s {
                        lemma_canon_slots_inject((s + k) as u64, cur);
                    }
                }
            }
            cur = cur + 1;
        }
        proof {
            assert forall|i: int| 0 <= i < self.areas.len() implies (
            #[trigger] self.areas[i].0).wf() by {
                assert(old(self).area_ok(*old(alc), i));
            }
        }
        let pos: usize = find_insert_pos(&self.areas, s_u);
        proof {
            assert forall|j: int| pos <= j < self.areas.len() implies e <= vpn_start_of(
                #[trigger] self.areas[j].0,
            ) by {
                assert(old(self).area_ok(*old(alc), j));
                assert(vpn_end_of(old(self).areas[j].0) <= s || e <= vpn_start_of(
                    old(self).areas[j].0,
                ));
                if vpn_end_of(old(self).areas[j].0) <= s {
                    if j > pos as int {
                        assert(vpn_end_of(self.areas[pos as int].0) > s);
                        assert(vpn_end_of(old(self).areas[pos as int].0) <= vpn_start_of(
                            old(self).areas[j].0,
                        ));
                        assert(false);
                    } else {
                        assert(vpn_end_of(self.areas[j].0) > s);
                        assert(false);
                    }
                }
            }
        }
        let ghost pre = *self;
        let ghost garea = area;
        self.areas.insert(pos, (rng, area));
        proof {
            let p = pos as int;
            assert(self.areas@ == pre.areas@.insert(p, (rng, garea)));
            lemma_insert_finish(
                *old(self),
                *self,
                *old(alc),
                *alc,
                va_range,
                map_perm,
                data_view(data),
                p,
                garea,
                s,
                e,
            );
            assert(forall|j: int| 0 <= j < p ==> self.areas[j] == old(self).areas[j]);
            assert(forall|j: int|
                p <= j < old(self).areas.len() ==> self.areas[j + 1] == old(self).areas[j]);
            assert(self.areas[p] == (rng, area));
            assert forall|v: int|
                vpn_start_of(VARangeOrd(va_range)) <= v < vpn_end_of(
                    VARangeOrd(va_range),
                ) implies #[trigger] loaded_page_ok(
                *self,
                *alc,
                va_range.start.0,
                data_view(data),
                map_perm.0,
                v,
            ) by {
                assert(inserted_page_ok(
                    *self,
                    *old(alc),
                    *alc,
                    va_range.start.0,
                    data_view(data),
                    map_perm.0,
                    v,
                ));
            }
        }
        true
    }
}

impl AddressSpace {
    /// Remove the area covering `va`: unmap every page the area covers,
    /// release its frames, and drop it from the list. Returns whether an
    /// area covered `va`; nothing changes when none did.
    pub fn remove_area(&mut self, va: VA, alc: &mut FrameAllocator) -> (r: bool)
        requires
            old(self).wf(*old(alc)),
            forall|i: int|
                0 <= i < old(self).areas.len() && (#[trigger] old(self).areas[i].0).spec_contains(
                    va,
                ) ==> old(self).areas[i].1.map_type is Framed,
        ensures
            final(self).wf(*final(alc)),
            final(alc).spec_base() == old(alc).spec_base(),
            final(alc).spec_end() == old(alc).spec_end(),
            r <==> old(self).covered_va(va),
            !r ==> *final(self) == *old(self) && *final(alc) == *old(alc),
            r ==> exists|i: int|
                #![auto]
                {
                    &&& 0 <= i < old(self).areas.len()
                    &&& old(self).areas[i].0.spec_contains(va)
                    &&& final(self).areas@ == old(self).areas@.remove(i)
                    &&& forall|v: int|
                        vpn_start_of(old(self).areas[i].0) <= v < vpn_end_of(old(self).areas[i].0)
                            ==> !(#[trigger] final(self).page_table.mapped(VPN(v as u64)))
                    &&& forall|v: u64|
                        vpn_canon(v as int) && !(vpn_start_of(old(self).areas[i].0) <= v
                            < vpn_end_of(old(self).areas[i].0))
                            ==> #[trigger] final(self).page_table.translate(VPN(v)) == old(self).page_table.translate(VPN(v))
                    &&& forall|q: u64|
                        old(alc).live(q) && !(exists|k: int|
                            old(self).entry_some(i, k) && #[trigger] old(self).entry_ppn(i, k)
                                == q) ==> #[trigger] final(alc).refcount(q) == old(alc).refcount(q)
                    &&& forall|k: int|
                        old(self).entry_some(i, k) ==> #[trigger] final(alc).refcount(
                            old(self).entry_ppn(i, k),
                        ) == old(alc).refcount(old(self).entry_ppn(i, k)) - 1
                },
            forall|q: u64|
                old(alc).tracked_frame(q) ==> #[trigger] final(alc).tracked_frame(q) && final(alc).frame_bytes(q) == old(alc).frame_bytes(q),
            final(self).data_segment_end == old(self).data_segment_end,
            final(self).data_segment_max == old(self).data_segment_max,
            final(self).page_table.root@ == old(self).page_table.root@,
            forall|i: int|
                0 <= i < 512 ==> final(self).page_table.slot_owned(i) == old(self).page_table.slot_owned(i),
    {
        let i = match self.find_area(va) {
            Some(i) => i,
            None => {
                return false;
            },
        };
        let ghost oi = i as int;
        let ghost orng = old(self).areas[oi].0;
        let ghost oarea = old(self).areas[oi].1;
        let ghost s = vpn_start_of(orng);
        let ghost e = vpn_end_of(orng);
        proof {
            assert(old(self).area_ok(*old(alc), oi));
        }
        let entry = self.areas.remove(i);
        let rng = entry.0;
        let mut area = entry.1;
        let vr = rng.vpn_range();
        let s_u: u64 = vr.start.0;
        let mut k: usize = 0;
        let n: usize = area.data_frames.len();
        while k < n
            invariant
                old(self).wf(*old(alc)),
                0 <= oi < old(self).areas.len(),
                orng == old(self).areas[oi].0,
                oarea == old(self).areas[oi].1,
                s == vpn_start_of(orng),
                e == vpn_end_of(orng),
                s_u == s,
                n == oarea.data_frames.len(),
                n <= e - s,
                k <= n,
                area.data_frames.len() == n,
                area.map_perm == oarea.map_perm,
                forall|x: int| k <= x < n ==> area.data_frames[x] == oarea.data_frames[x],
                self.areas@ == old(self).areas@.remove(oi),
                self.data_segment_end == old(self).data_segment_end,
                self.data_segment_max == old(self).data_segment_max,
                self.page_table.wf(),
                self.page_table.root@ == old(self).page_table.root@,
                self.page_table.root_tracker == old(self).page_table.root_tracker,
                forall|x: int|
                    0 <= x < 512 ==> self.page_table.slot_owned(x) == old(self).page_table.slot_owned(x),
                forall|v: u64|
                    vpn_canon(v as int) && !(s <= v < s + k)
                        ==> #[trigger] self.page_table.translate(VPN(v)) == old(self).page_table.translate(VPN(v)),
                forall|x: int|
                    0 <= x < k ==> !(#[trigger] self.page_table.mapped(VPN((s + x) as u64))),
                alc.wf(),
                alc.spec_base() == old(alc).spec_base(),
                alc.spec_end() == old(alc).spec_end(),
                forall|q: u64|
                    old(alc).tracked_frame(q) ==> #[trigger] alc.tracked_frame(q)
                        && alc.frame_bytes(q) == old(alc).frame_bytes(q),
                forall|q: u64|
                    old(alc).live(q) && !(exists|x: int|
                        0 <= x < k && old(self).entry_some(oi, x) && #[trigger] old(self).entry_ppn(oi, x) == q) ==> #[trigger] alc.refcount(q) == old(alc).refcount(q),
                forall|x: int|
                    0 <= x < k && old(self).entry_some(oi, x) ==> #[trigger] alc.refcount(
                        old(self).entry_ppn(oi, x),
                    ) == old(alc).refcount(old(self).entry_ppn(oi, x)) - 1,
            decreases n - k,
        {
            proof {
                assert(old(self).area_ok(*old(alc), oi));
                assert(old(self).frame_entry_ok(*old(alc), oi, k as int));
                assert(range_canon(s, e));
                lemma_range_canon_elem(s, e, s + k);
            }
            let ghost head = *self;
            let ghost head_alc = *alc;
            let fo = area.data_frames[k].take();
            match fo {
                Some(t) => {
                    proof {
                        assert(old(self).entry_some(oi, k as int));
                        assert(old(self).entry_ppn(oi, k as int) == t.ppn.0);
                        assert(self.page_table.translate(VPN((s + k) as u64)) == old(self).page_table.translate(VPN((s + k) as u64)));
                        assert(old(self).page_table.mapped(VPN((s + k) as u64)));
                        assert(alc.refcount(t.ppn.0) == old(alc).refcount(t.ppn.0)) by {
                            assert forall|x: int|
                                0 <= x < k && old(self).entry_some(oi, x) implies #[trigger] old(self).entry_ppn(oi, x) != t.ppn.0 by {
                                assert(old(self).entry_ppn(oi, k as int) == t.ppn.0);
                            }
                        }
                        assert(alc.live(t.ppn.0));
                    }
                    self.page_table.unmap_one(VPN(s_u + k as u64));
                    alc.release(t);
                },
                None => {},
            }
            proof {
                assert forall|v: u64|
                    vpn_canon(v as int) && !(s <= v < s + k + 1) implies #[trigger] self.page_table.translate(VPN(v)) == old(self).page_table.translate(VPN(v)) by {
                    assert(head.page_table.translate(VPN(v)) == old(self).page_table.translate(VPN(v)));
                    if oarea.data_frames[k as int] is Some {
                        lemma_canon_slots_inject(v, (s + k) as u64);
                        assert(self.page_table.translate(VPN(v)) == head.page_table.translate(VPN(v)));
                    } else {
                        assert(self.page_table == head.page_table);
                    }
                }
                assert forall|x: int|
                    0 <= x < k + 1 implies !(#[trigger] self.page_table.mapped(VPN((s + x) as u64))) by {
                    lemma_range_canon_elem(s, e, s + x);
                    if x < k {
                        assert(!head.page_table.mapped(VPN((s + x) as u64)));
                        if oarea.data_frames[k as int] is Some {
                            lemma_canon_slots_inject((s + x) as u64, (s + k) as u64);
                            assert(self.page_table.translate(VPN((s + x) as u64)) == head.page_table.translate(VPN((s + x) as u64)));
                        } else {
                            assert(self.page_table == head.page_table);
                        }
                    } else {
                        if oarea.data_frames[k as int] is Some {
                            assert(!self.page_table.mapped(VPN((s + x) as u64)));
                        } else {
                            assert(old(self).frame_entry_ok(*old(alc), oi, x));
                            assert(old(self).page_table.translate(VPN((s + x) as u64)) is None);
                            assert(head.page_table.translate(VPN((s + x) as u64)) == old(self).page_table.translate(VPN((s + x) as u64)));
                            assert(self.page_table == head.page_table);
                        }
                    }
                }
            }
            k = k + 1;
        }
        proof {
            assert(oarea.map_type is Framed);
            assert(n == e - s);
            lemma_remove_finish(*old(self), *self, *old(alc), *alc, oi, s, e);
        }
        true
    }
}

/// Re-establish the address-space invariant after removing one framed
/// area: its pages are unmapped, its frames released, every other area
/// untouched.
#[verifier::rlimit(100)]
#[verifier::spinoff_prover]
proof fn lemma_remove_finish(
    pre: AddressSpace,
    post: AddressSpace,
    a0: FrameAllocator,
    a1: FrameAllocator,
    oi: int,
    s: int,
    e: int,
)
    requires
        pre.wf(a0),
        0 <= oi < pre.areas.len(),
        pre.areas[oi].1.map_type is Framed,
        s == vpn_start_of(pre.areas[oi].0),
        e == vpn_end_of(pre.areas[oi].0),
        post.areas@ == pre.areas@.remove(oi),
        post.page_table.wf(),
        forall|x: int|
            0 <= x < 512 ==> post.page_table.slot_owned(x) == pre.page_table.slot_owned(x),
        post.data_segment_end == pre.data_segment_end,
        post.data_segment_max == pre.data_segment_max,
        forall|v: u64|
            vpn_canon(v as int) && !(s <= v < e) ==> #[trigger] post.page_table.translate(VPN(v))
                == pre.page_table.translate(VPN(v)),
        forall|x: int|
            0 <= x < e - s ==> !(#[trigger] post.page_table.mapped(VPN((s + x) as u64))),
        a1.wf(),
        a1.spec_base() == a0.spec_base(),
        a1.spec_end() == a0.spec_end(),
        forall|q: u64|
            a0.tracked_frame(q) ==> #[trigger] a1.tracked_frame(q) && a1.frame_bytes(q)
                == a0.frame_bytes(q),
        forall|q: u64|
            a0.live(q) && !(exists|x: int|
                pre.entry_some(oi, x) && #[trigger] pre.entry_ppn(oi, x) == q)
                ==> #[trigger] a1.refcount(q) == a0.refcount(q),
    ensures
        post.wf(a1),
{
    let oldn = pre.areas.len() as int;
    assert(forall|x: int| 0 <= x < oi ==> post.areas[x] == pre.areas[x]);
    assert(forall|x: int| oi <= x < oldn - 1 ==> post.areas[x] == pre.areas[x + 1]);
    assert forall|i: int, j: int| 0 <= i < j < post.areas.len() implies vpn_end_of(
        #[trigger] post.areas[i].0,
    ) <= vpn_start_of(#[trigger] post.areas[j].0) by {
        let pi = if i < oi {
            i
        } else {
            i + 1
        };
        let pj = if j < oi {
            j
        } else {
            j + 1
        };
        assert(vpn_end_of(pre.areas[pi].0) <= vpn_start_of(pre.areas[pj].0));
    }
    assert forall|i: int| 0 <= i < post.areas.len() implies #[trigger] post.area_ok(a1, i) by {
        let pi = if i < oi {
            i
        } else {
            i + 1
        };
        assert(pre.area_ok(a0, pi));
        let orng = pre.areas[pi].0;
        let oa = pre.areas[pi].1;
        assert(post.areas[i].0 == orng && post.areas[i].1 == oa);
        assert forall|k: int| 0 <= k < oa.data_frames.len() implies #[trigger] post.frame_entry_ok(
            a1,
            i,
            k,
        ) by {
            assert(pre.frame_entry_ok(a0, pi, k));
            let v = (vpn_start_of(orng) + k) as u64;
            lemma_range_canon_elem(vpn_start_of(orng), vpn_end_of(orng), v as int);
            if pi < oi {
                assert(vpn_end_of(pre.areas[pi].0) <= vpn_start_of(pre.areas[oi].0));
            } else {
                assert(vpn_end_of(pre.areas[oi].0) <= vpn_start_of(pre.areas[pi].0));
            }
            assert(!(s <= v < e));
            assert(post.page_table.translate(VPN(v)) == pre.page_table.translate(VPN(v)));
            match oa.data_frames[k] {
                Some(t) => {
                    assert(a0.live(t.ppn.0));
                    assert(a1.refcount(t.ppn.0) == a0.refcount(t.ppn.0)) by {
                        assert forall|x: int|
                            pre.entry_some(oi, x) implies #[trigger] pre.entry_ppn(oi, x)
                            != t.ppn.0 by {
                            assert(pre.entry_some(pi, k));
                            assert(pre.entry_ppn(pi, k) == t.ppn.0);
                        }
                    }
                },
                None => {},
            }
        }
        assert forall|v: int| vpn_start_of(orng) <= v < vpn_end_of(orng) implies #[trigger] post
            .page_table.slot_owned(VPN(v as u64).spec_idx0() as int) by {
            crate::page_table::lemma_idx_bounds(VPN(v as u64));
            assert(pre.page_table.slot_owned(VPN(v as u64).spec_idx0() as int));
        }
    }
    assert forall|v: u64| vpn_canon(v as int) && !post.covered_vpn(v as int) implies !(
    #[trigger] post.page_table.mapped(VPN(v))) by {
        if s <= v < e {
            let x = v - s;
            assert(!post.page_table.mapped(VPN((s + x) as u64)));
        } else {
            assert(!pre.covered_vpn(v as int)) by {
                if pre.covered_vpn(v as int) {
                    let i = choose|i: int|
                        0 <= i < pre.areas.len() && vpn_start_of(#[trigger] pre.areas[i].0) <= v
                            < vpn_end_of(pre.areas[i].0);
                    assert(i != oi);
                    let ni = if i < oi {
                        i
                    } else {
                        i - 1
                    };
                    assert(vpn_start_of(post.areas[ni].0) <= v < vpn_end_of(post.areas[ni].0));
                }
            }
            assert(!pre.page_table.mapped(VPN(v)));
        }
    }
    assert forall|i: int, k: int, j: int, l: int|
        post.entry_some(i, k) && post.entry_some(j, l) && (i != j || k != l) implies #[trigger] post
        .entry_ppn(i, k) != #[trigger] post.entry_ppn(j, l) by {
        let pi = if i < oi {
            i
        } else {
            i + 1
        };
        let pj = if j < oi {
            j
        } else {
            j + 1
        };
        assert(pre.entry_some(pi, k) && pre.entry_some(pj, l));
        assert(pre.entry_ppn(pi, k) != pre.entry_ppn(pj, l));
        assert(post.entry_ppn(i, k) == pre.entry_ppn(pi, k));
        assert(post.entry_ppn(j, l) == pre.entry_ppn(pj, l));
    }
    assert(post.page_table.user_half_owned()) by {
        assert forall|i: int| 0 <= i < 256 implies post.page_table.slot_owned(i) by {
            assert(pre.page_table.slot_owned(i));
        }
    }
}

/// The sorted position at which an area whose first page is `s` belongs:
/// the index of the first area whose pages do not end at or before `s`.
fn find_insert_pos(areas: &Vec<(VARangeOrd, MapArea)>, s: u64) -> (pos: usize)
    requires
        forall|i: int| 0 <= i < areas.len() ==> (#[trigger] areas[i].0).wf(),
    ensures
        pos <= areas.len(),
        forall|j: int| 0 <= j < pos ==> vpn_end_of(#[trigger] areas[j].0) <= s,
        pos < areas.len() ==> vpn_end_of(areas[pos as int].0) > s,
{
    let mut pos: usize = 0;
    while pos < areas.len()
        invariant
            pos <= areas.len(),
            forall|i: int| 0 <= i < areas.len() ==> (#[trigger] areas[i].0).wf(),
            forall|j: int| 0 <= j < pos ==> vpn_end_of(#[trigger] areas[j].0) <= s,
        decreases areas.len() - pos,
    {
        let a_end = areas[pos].0.vpn_range().end.0;
        if a_end > s {
            return pos;
        }
        pos = pos + 1;
    }
    pos
}

/// Every page of a canonical range is canonical.
pub proof fn lemma_range_canon_elem(s: int, e: int, v: int)
    requires
        range_canon(s, e),
        s <= v < e,
    ensures
        vpn_canon(v),
{
}

impl AddressSpace {
    /// The index of the area whose pages cover the given page, if any.
    pub fn find_area_covering_vpn(&self, vpn: VPN) -> (r: Option<usize>)
        requires
            forall|i: int| 0 <= i < self.areas.len() ==> (#[trigger] self.areas[i].0).wf(),
        ensures
            r matches Some(i) ==> i < self.areas.len() && vpn_start_of(self.areas[i as int].0)
                <= vpn.0 < vpn_end_of(self.areas[i as int].0),
            r is None ==> !self.covered_vpn(vpn.0 as int),
    {
        let mut i: usize = 0;
        while i < self.areas.len()
            invariant
                i <= self.areas.len(),
                forall|j: int| 0 <= j < self.areas.len() ==> (#[trigger] self.areas[j].0).wf(),
                forall|j: int|
                    0 <= j < i ==> !(vpn_start_of(#[trigger] self.areas[j].0) <= vpn.0 < vpn_end_of(
                        self.areas[j].0,
                    )),
            decreases self.areas.len() - i,
        {
            let vr = self.areas[i].0.vpn_range();
            if vr.start.0 <= vpn.0 && vpn.0 < vr.end.0 {
                return Some(i);
            }
            i = i + 1;
        }
        None
    }

    /// What a load through this address space yields at `va`: the byte of
    /// the backing frame, if the page is mapped readable.
    pub open spec fn spec_read_byte(self, alc: FrameAllocator, va: VA) -> Option<u8> {
        let t = self.page_table.translate(VPN(va.0 / PAGE_SIZE));
        if t is Some && (t->0).0 & PTE_READABLE != 0 {
            Some(alc.frame_bytes(t->0.spec_ppn())[(va.0 % PAGE_SIZE) as int])
        } else {
            None
        }
    }

    /// Load one byte from the user half through the page table, as user
    /// code would: the access succeeds exactly on a mapped, readable page.
    pub fn read_byte(&self, alc: &FrameAllocator, va: VA) -> (r: Option<u8>)
        requires
            self.wf(*alc),
            va.0 < crate::config::USER_VA_LIMIT,
            forall|i: int|
                0 <= i < self.areas.len() && vpn_start_of(#[trigger] self.areas[i].0) <= va.0
                    / PAGE_SIZE < vpn_end_of(self.areas[i].0) ==> self.areas[i].1.map_type
                    is Framed,
        ensures
            r == self.spec_read_byte(*alc, va),
    {
        let vpn = va.floor();
        proof {
            assert(va.0 / PAGE_SIZE < USER_VPN_LIMIT) by {
                assert(va.0 < 0x40_0000_0000 ==> va.0 / 4096 < 0x400_0000);
            }
            lemma_user_vpn_idx0(vpn.0);
        }
        let w = match self.page_table.find_pte(vpn) {
            Some(w) => w,
            None => {
                return None;
            },
        };
        if w.0 & PTE_READABLE == 0 {
            return None;
        }
        proof {
            self.lemma_mapped_frame_live(*alc, vpn);
        }
        Some(alc.read_byte(w.ppn(), va.page_offset()))
    }

    /// Store one byte through the page table, as user code would: the
    /// access succeeds exactly on a mapped, writable page; a write to a
    /// copy-on-write page must first go through the fault handler.
    pub fn write_byte(&self, alc: &mut FrameAllocator, va: VA, val: u8) -> (r: bool)
        requires
            self.wf(*old(alc)),
            va.0 < crate::config::USER_VA_LIMIT,
            forall|i: int|
                0 <= i < self.areas.len() && vpn_start_of(#[trigger] self.areas[i].0) <= va.0
                    / PAGE_SIZE < vpn_end_of(self.areas[i].0) ==> self.areas[i].1.map_type
                    is Framed,
        ensures
            self.wf(*final(alc)),
            r <==> (self.page_table.translate(VPN(va.0 / PAGE_SIZE)) is Some
                && (self.page_table.translate(VPN(va.0 / PAGE_SIZE))->0).0 & PTE_WRITABLE != 0),
            !r ==> *final(alc) == *old(alc),
            r ==> {
                let p = self.page_table.translate(VPN(va.0 / PAGE_SIZE))->0.spec_ppn();
                &&& final(alc).frame_bytes(p) == old(alc).frame_bytes(p).update(
                    (va.0 % PAGE_SIZE) as int,
                    val,
                )
                &&& forall|q: u64|
                    q != p && old(alc).tracked_frame(q) ==> final(alc).frame_bytes(q) == old(alc).frame_bytes(q)
                &&& forall|q: u64| final(alc).refcount(q) == old(alc).refcount(q)
                &&& final(alc).spec_base() == old(alc).spec_base()
                &&& final(alc).spec_end() == old(alc).spec_end()
                &&& final(alc).avail() == old(alc).avail()
            },
    {
        let vpn = va.floor();
        proof {
            assert(va.0 / PAGE_SIZE < USER_VPN_LIMIT) by {
                assert(va.0 < 0x40_0000_0000 ==> va.0 / 4096 < 0x400_0000);
            }
            lemma_user_vpn_idx0(vpn.0);
        }
        let w = match self.page_table.find_pte(vpn) {
            Some(w) => w,
            None => {
                return false;
            },
        };
        if w.0 & PTE_WRITABLE == 0 {
            return false;
        }
        proof {
            self.lemma_mapped_frame_live(*old(alc), vpn);
        }
        alc.write_byte(w.ppn(), va.page_offset(), val);
        proof {
            assert forall|i: int| 0 <= i < self.areas.len() implies #[trigger] self.area_ok(
                *alc,
                i,
            ) by {
                assert(self.area_ok(*old(alc), i));
                assert forall|k: int|
                    0 <= k < self.areas[i].1.data_frames.len() implies #[trigger] self
                    .frame_entry_ok(*alc, i, k) by {
                    assert(self.frame_entry_ok(*old(alc), i, k));
                }
            }
        }
        true
    }

    /// A mapped page of a space whose covering areas are framed is backed
    /// by a live frame: the one its area records.
    pub proof fn lemma_mapped_frame_live(self, alc: FrameAllocator, vpn: VPN)
        requires
            self.wf(alc),
            vpn_canon(vpn.0 as int),
            self.page_table.mapped(vpn),
            forall|i: int|
                0 <= i < self.areas.len() && vpn_start_of(#[trigger] self.areas[i].0) <= vpn.0
                    < vpn_end_of(self.areas[i].0) ==> self.areas[i].1.map_type is Framed,
        ensures
            alc.live(self.page_table.translate(vpn)->0.spec_ppn()),
            self.page_table.translate(vpn)->0.spec_ppn() < 0x1000_0000_0000,
            alc.frame_bytes(self.page_table.translate(vpn)->0.spec_ppn()).len() == PAGE_SIZE,
            exists|i: int, k: int|
                #![auto]
                self.entry_some(i, k) && self.entry_ppn(i, k) == self.page_table.translate(
                    vpn,
                )->0.spec_ppn() && vpn_start_of(self.areas[i].0) + k == vpn.0,
    {
        assert(self.covered_vpn(vpn.0 as int)) by {
            if !self.covered_vpn(vpn.0 as int) {
                assert(!self.page_table.mapped(VPN(vpn.0)));
            }
        }
        assert(exists|i: int|
            0 <= i < self.areas.len() && vpn_start_of(#[trigger] self.areas[i].0) <= (
            vpn.0 as int) < vpn_end_of(self.areas[i].0));
        let i = choose|i: int|
            0 <= i < self.areas.len() && vpn_start_of(#[trigger] self.areas[i].0) <= (
            vpn.0 as int) < vpn_end_of(self.areas[i].0);
        assert(self.area_ok(alc, i));
        let k = vpn.0 - vpn_start_of(self.areas[i].0);
        assert(self.frame_entry_ok(alc, i, k));
        assert(VPN((vpn_start_of(self.areas[i].0) + k) as u64) == vpn);
        match self.areas[i].1.data_frames[k] {
            Some(t) => {
                assert(self.entry_some(i, k) && self.entry_ppn(i, k) == t.ppn.0);
                assert(alc.wf());
                assert(alc.live(t.ppn.0));
                assert(alc.tracked_frame(t.ppn.0));
            },
            None => {
                assert(false);
            },
        }
    }
}

/// What handling a page fault produced.
#[derive(Clone, Copy, Debug, PartialEq, Eq, Structural)]
pub enum PageFaultResult {
    /// The fault was a legitimate copy-on-write fault and is resolved.
    Fixed,
    /// A real protection violation: no mapping, or a mapping without the
    /// copy-on-write bit. Fatal to the faulting thread.
    Fatal,
    /// The copy could not be made: no frame is left.
    OutOfMemory,
}

impl AddressSpace {
    /// An address space keeps its invariant under any allocator change
    /// that keeps its frames live.
    pub proof fn lemma_wf_alloc_evolution(self, a0: FrameAllocator, a1: FrameAllocator)
        requires
            self.wf(a0),
            a1.wf(),
            forall|q: u64| a0.live(q) ==> #[trigger] a1.live(q),
        ensures
            self.wf(a1),
    {
        assert forall|i: int| 0 <= i < self.areas.len() implies #[trigger] self.area_ok(a1, i) by {
            assert(self.area_ok(a0, i));
            assert forall|k: int|
                0 <= k < self.areas[i].1.data_frames.len() implies #[trigger] self.frame_entry_ok(
                a1,
                i,
                k,
            ) by {
                assert(self.frame_entry_ok(a0, i, k));
            }
        }
    }

    /// Resolve a page fault at `va`, as the store path of the hardware
    /// demands it. A fault on a page that is not mapped with the
    /// copy-on-write bit is a protection violation, fatal to the thread.
    /// Otherwise the entry becomes writable with COW cleared; when other
    /// holders share the frame, the page is first copied into a fresh
    /// frame and the entry retargeted, so the sharers keep the old bytes.
    /// The caller owes the TLB shootdown for the page.
    pub fn handle_pagefault(&mut self, va: VA, alc: &mut FrameAllocator) -> (r: PageFaultResult)
        requires
            old(self).wf(*old(alc)),
            va.0 < crate::config::USER_VA_LIMIT,
            forall|i: int|
                0 <= i < old(self).areas.len() && vpn_start_of(#[trigger] old(self).areas[i].0)
                    <= va.0 / PAGE_SIZE < vpn_end_of(old(self).areas[i].0) ==> old(self).areas[i].1.map_type is Framed,
        ensures
            final(self).wf(*final(alc)),
            final(alc).spec_base() == old(alc).spec_base(),
            final(alc).spec_end() == old(alc).spec_end(),
            forall|q: u64| old(alc).tracked_frame(q) ==> final(alc).tracked_frame(q),
            r is Fatal <==> !(old(self).page_table.translate(VPN(va.0 / PAGE_SIZE)) is Some && (
            old(self).page_table.translate(VPN(va.0 / PAGE_SIZE))->0).0 & PTE_COW != 0),
            r is Fatal ==> *final(self) == *old(self) && *final(alc) == *old(alc),
            r is OutOfMemory ==> *final(self) == *old(self) && old(alc).avail() == 0 && final(alc).avail() == 0 && (forall|q: u64| final(alc).refcount(q) == old(alc).refcount(q)) && (
            forall|q: u64|
                old(alc).tracked_frame(q) ==> final(alc).frame_bytes(q) == old(alc).frame_bytes(
                    q,
                )),
            r is Fixed ==> {
                let t0 = old(self).page_table.translate(VPN(va.0 / PAGE_SIZE));
                let t1 = final(self).page_table.translate(VPN(va.0 / PAGE_SIZE));
                &&& t1 is Some
                &&& (t1->0).0 & PTE_COW == 0
                &&& (t1->0).0 & PTE_WRITABLE != 0
                &&& final(alc).frame_bytes((t1->0).spec_ppn()) == old(alc).frame_bytes(
                    (t0->0).spec_ppn(),
                )
                &&& (old(alc).refcount((t0->0).spec_ppn()) == 1 ==> (t1->0).spec_ppn() == (
                t0->0).spec_ppn() && *final(alc) == *old(alc))
                &&& (old(alc).refcount((t0->0).spec_ppn()) > 1 ==> {
                    &&& (t1->0).spec_ppn() != (t0->0).spec_ppn()
                    &&& old(alc).refcount((t1->0).spec_ppn()) == 0
                    &&& final(alc).refcount((t1->0).spec_ppn()) == 1
                    &&& final(alc).refcount((t0->0).spec_ppn()) == old(alc).refcount(
                        (t0->0).spec_ppn(),
                    ) - 1
                    &&& forall|q: u64|
                        q != (t0->0).spec_ppn() && q != (t1->0).spec_ppn() ==> final(alc).refcount(q) == old(alc).refcount(q)
                    &&& forall|q: u64|
                        q != (t1->0).spec_ppn() && old(alc).tracked_frame(q) ==> final(alc).frame_bytes(q) == old(alc).frame_bytes(q)
                })
                &&& forall|v: u64|
                    vpn_canon(v as int) && v != va.0 / PAGE_SIZE
                        ==> #[trigger] final(self).page_table.translate(VPN(v)) == old(self).page_table.translate(VPN(v))
                &&& final(self).areas.len() == old(self).areas.len()
                &&& forall|j: int|
                    0 <= j < old(self).areas.len() ==> (#[trigger] final(self).areas[j]).0 == old(self).areas[j].0 && final(self).areas[j].1.map_type == old(self).areas[j].1.map_type && final(self).areas[j].1.map_perm == old(self).areas[j].1.map_perm
            },
            r is Fixed <==> (old(self).page_table.translate(VPN(va.0 / PAGE_SIZE)) is Some && (old(self).page_table.translate(VPN(va.0 / PAGE_SIZE))->0).0 & PTE_COW != 0 && (old(alc).refcount(
                (old(self).page_table.translate(VPN(va.0 / PAGE_SIZE))->0).spec_ppn(),
            ) == 1 || old(alc).avail() > 0)),
            final(self).data_segment_end == old(self).data_segment_end,
            final(self).data_segment_max == old(self).data_segment_max,
    {
        let vpn = va.floor();
        proof {
            assert(va.0 / PAGE_SIZE < USER_VPN_LIMIT) by {
                assert(va.0 < 0x40_0000_0000 ==> va.0 / 4096 < 0x400_0000);
            }
            lemma_user_vpn_idx0(vpn.0);
            assert forall|i: int| 0 <= i < old(self).areas.len() implies (
            #[trigger] old(self).areas[i].0).wf() by {
                assert(old(self).area_ok(*old(alc), i));
            }
        }
        let w = match self.page_table.find_pte(vpn) {
            Some(w) => w,
            None => {
                return PageFaultResult::Fatal;
            },
        };
        if !w.contains(PTE_COW) {
            proof {
                assert(w.0 & PTE_COW == 0) by {
                    let b = w.0;
                    assert(!(b & 0x100 == 0x100) ==> b & 0x100 == 0) by (bit_vector);
                }
            }
            return PageFaultResult::Fatal;
        }
        proof {
            assert(w.0 & PTE_COW != 0) by {
                let b = w.0;
                assert(b & 0x100 == 0x100 ==> b & 0x100 != 0) by (bit_vector);
            }
        }
        let idx = match self.find_area_covering_vpn(vpn) {
            Some(i) => i,
            None => {
                proof {
                    assert(old(self).covered_vpn(vpn.0 as int)) by {
                        if !old(self).covered_vpn(vpn.0 as int) {
                            assert(!old(self).page_table.mapped(VPN(vpn.0)));
                        }
                    }
                    assert(false);
                }
                return PageFaultResult::Fatal;
            },
        };
        let ghost gi = idx as int;
        let vr = self.areas[idx].0.vpn_range();
        let kk: usize = (vpn.0 - vr.start.0) as usize;
        let ghost gk = kk as int;
        let perm = self.areas[idx].1.map_perm;
        proof {
            assert(old(self).area_ok(*old(alc), gi));
            assert(old(self).frame_entry_ok(*old(alc), gi, gk));
            assert(VPN((vpn_start_of(old(self).areas[gi].0) + gk) as u64) == vpn);
            assert(old(self).entry_some(gi, gk));
            assert(old(self).entry_ppn(gi, gk) == w.spec_ppn());
            assert(w.spec_flags() & PTE_COW != 0) by {
                let b = w.0;
                assert(b & 0x100 == 0x100 ==> (b & 0x1ff) & 0x100 != 0) by (bit_vector);
            }
            lemma_cow_forms(w.spec_flags(), perm.0);
        }
        let p0 = w.ppn();
        let count = alc.strong_count(p0);
        if count > 1 {
            let nt = match alc.alloc_frame() {
                Some(t) => t,
                None => {
                    proof {
                        old(self).lemma_wf_alloc_evolution(*old(alc), *alc);
                    }
                    return PageFaultResult::OutOfMemory;
                },
            };
            let np = nt.ppn;
            alc.copy_page(p0, np);
            self.page_table.remap_one(vpn, np, perm);
            let oldt = self.areas[idx].1.data_frames[kk].take();
            self.areas[idx].1.data_frames[kk] = Some(nt);
            match oldt {
                Some(t) => {
                    alc.release(t);
                },
                None => {
                    proof {
                        assert(false);
                    }
                },
            }
            proof {
                assert forall|v: u64|
                    vpn_canon(v as int) && v != vpn.0 implies #[trigger] self.page_table.translate(
                    VPN(v),
                ) == old(self).page_table.translate(VPN(v)) by {
                    lemma_canon_slots_inject(v, vpn.0);
                }
                lemma_pagefault_finish(
                    *old(self),
                    *self,
                    *old(alc),
                    *alc,
                    gi,
                    gk,
                    vpn,
                    p0.0,
                    np.0,
                );
                let w1 = self.page_table.translate(vpn)->0;
                assert(w1.spec_flags() == plain_word_flags(perm.0));
                assert(w1.0 & PTE_COW == 0 && w1.0 & PTE_WRITABLE != 0) by {
                    let b = w1.0;
                    let p = perm.0;
                    assert((b & 0x1ff == (p | 0x1) && (p | 0x1) & 0x100 == 0 && (p | 0x1) & 0x4
                        != 0) ==> (b & 0x100 == 0 && b & 0x4 != 0)) by (bit_vector);
                }
            }
            PageFaultResult::Fixed
        } else {
            self.page_table.remap_one(vpn, p0, perm);
            proof {
                assert forall|v: u64|
                    vpn_canon(v as int) && v != vpn.0 implies #[trigger] self.page_table.translate(
                    VPN(v),
                ) == old(self).page_table.translate(VPN(v)) by {
                    lemma_canon_slots_inject(v, vpn.0);
                }
                lemma_pagefault_finish(
                    *old(self),
                    *self,
                    *old(alc),
                    *alc,
                    gi,
                    gk,
                    vpn,
                    p0.0,
                    p0.0,
                );
                let w1 = self.page_table.translate(vpn)->0;
                assert(w1.spec_flags() == plain_word_flags(perm.0));
                assert(w1.0 & PTE_COW == 0 && w1.0 & PTE_WRITABLE != 0) by {
                    let b = w1.0;
                    let p = perm.0;
                    assert((b & 0x1ff == (p | 0x1) && (p | 0x1) & 0x100 == 0 && (p | 0x1) & 0x4
                        != 0) ==> (b & 0x100 == 0 && b & 0x4 != 0)) by (bit_vector);
                }
            }
            PageFaultResult::Fixed
        }
    }
}

/// When a mapped page of an area carries the copy-on-write bit, its word
/// is exactly the copy-on-write form of the area's permissions, the
/// permissions are writable, and restoring them gives the plain form.
pub proof fn lemma_cow_forms(f: u64, p: u64)
    requires
        p <= PTE_FLAG_MASK,
        p & PTE_COW == 0,
        p & PTE_VALID == 0,
        p & PTE_RWX != 0,
        area_flags_ok(f, p),
        f & PTE_COW != 0,
    ensures
        f == cow_word_flags(p),
        p & PTE_WRITABLE != 0,
        plain_word_flags(p) & PTE_COW == 0,
        plain_word_flags(p) & PTE_WRITABLE != 0,
        plain_word_flags(p) == (p | PTE_VALID),
{
    assert(p <= 0x1ff && p & 0x100 == 0 && p & 0x1 == 0 ==> ((p | 0x1) & 0x100 == 0) && ((((p
        & !0x4) | 0x100) | 0x1) & 0x100 != 0)) by (bit_vector);
    assert(p & 0x4 != 0 ==> (p | 0x1) & 0x4 != 0) by (bit_vector);
}

/// Re-establish the address-space invariant after the fault handler
/// rewrote one page's entry: the entry's frame may have been retargeted
/// from `old_p` to a fresh `new_p` (or kept, when `old_p == new_p`), its
/// flags restored to the area's plain permissions; everything else is
/// untouched.
#[verifier::rlimit(100)]
#[verifier::spinoff_prover]
proof fn lemma_pagefault_finish(
    pre: AddressSpace,
    post: AddressSpace,
    a0: FrameAllocator,
    a1: FrameAllocator,
    i: int,
    k: int,
    vpn: VPN,
    old_p: u64,
    new_p: u64,
)
    requires
        pre.wf(a0),
        0 <= i < pre.areas.len(),
        0 <= k < pre.areas[i].1.data_frames.len(),
        vpn.0 == vpn_start_of(pre.areas[i].0) + k,
        vpn_canon(vpn.0 as int),
        pre.entry_some(i, k),
        pre.entry_ppn(i, k) == old_p,
        post.areas.len() == pre.areas.len(),
        forall|j: int|
            0 <= j < pre.areas.len() ==> (#[trigger] post.areas[j]).0 == pre.areas[j].0
                && post.areas[j].1.map_type == pre.areas[j].1.map_type
                && post.areas[j].1.map_perm == pre.areas[j].1.map_perm
                && post.areas[j].1.data_frames.len() == pre.areas[j].1.data_frames.len(),
        forall|j: int, l: int|
            0 <= j < pre.areas.len() && 0 <= l < pre.areas[j].1.data_frames.len() && (j != i || l
                != k) ==> (#[trigger] post.areas[j].1.data_frames[l])
                == pre.areas[j].1.data_frames[l],
        post.entry_some(i, k),
        post.entry_ppn(i, k) == new_p,
        new_p < 0x1000_0000_0000,
        post.page_table.wf(),
        forall|x: int|
            0 <= x < 512 ==> post.page_table.slot_owned(x) == pre.page_table.slot_owned(x),
        forall|v: u64|
            vpn_canon(v as int) && v != vpn.0 ==> #[trigger] post.page_table.translate(VPN(v))
                == pre.page_table.translate(VPN(v)),
        post.page_table.translate(vpn) is Some,
        (post.page_table.translate(vpn)->0).spec_ppn() == new_p,
        (post.page_table.translate(vpn)->0).spec_flags() == plain_word_flags(
            pre.areas[i].1.map_perm.0,
        ),
        a1.wf(),
        a1.spec_base() == a0.spec_base(),
        a1.spec_end() == a0.spec_end(),
        a1.live(new_p),
        forall|q: u64| q != old_p && q != new_p ==> a1.refcount(q) == a0.refcount(q),
        old_p == new_p ==> a1.refcount(new_p) == a0.refcount(new_p),
        old_p != new_p ==> a0.refcount(new_p) == 0 && a1.refcount(old_p) == a0.refcount(old_p) - 1
            && a0.refcount(old_p) > 1,
        post.data_segment_end == pre.data_segment_end,
        post.data_segment_max == pre.data_segment_max,
    ensures
        post.wf(a1),
{
    assert(pre.area_ok(a0, i));
    assert forall|j: int| 0 <= j < post.areas.len() implies #[trigger] post.area_ok(a1, j) by {
        assert(pre.area_ok(a0, j));
        let rng = pre.areas[j].0;
        assert forall|l: int| 0 <= l < post.areas[j].1.data_frames.len() implies #[trigger] post
            .frame_entry_ok(a1, j, l) by {
            assert(pre.frame_entry_ok(a0, j, l));
            let v = (vpn_start_of(rng) + l) as u64;
            lemma_range_canon_elem(vpn_start_of(rng), vpn_end_of(rng), v as int);
            if j == i && l == k {
                assert(post.page_table.translate(VPN(v)) == post.page_table.translate(vpn));
            } else {
                assert(v != vpn.0) by {
                    if j != i {
                        if j < i {
                            assert(vpn_end_of(pre.areas[j].0) <= vpn_start_of(pre.areas[i].0));
                        } else {
                            assert(vpn_end_of(pre.areas[i].0) <= vpn_start_of(pre.areas[j].0));
                        }
                    }
                }
                assert(post.page_table.translate(VPN(v)) == pre.page_table.translate(VPN(v)));
                match pre.areas[j].1.data_frames[l] {
                    Some(t) => {
                        assert(pre.entry_some(j, l) && pre.entry_ppn(j, l) == t.ppn.0);
                        assert(t.ppn.0 != old_p || (i == j && k == l)) by {
                            assert(pre.entry_ppn(i, k) == old_p);
                        }
                        assert(a0.live(t.ppn.0));
                        if old_p != new_p {
                            assert(t.ppn.0 != new_p);
                        } else {
                            assert(t.ppn.0 != new_p);
                        }
                        assert(a1.refcount(t.ppn.0) == a0.refcount(t.ppn.0));
                    },
                    None => {},
                }
            }
        }
        assert forall|v: int| vpn_start_of(rng) <= v < vpn_end_of(rng) implies #[trigger] post
            .page_table.slot_owned(VPN(v as u64).spec_idx0() as int) by {
            crate::page_table::lemma_idx_bounds(VPN(v as u64));
            assert(pre.page_table.slot_owned(VPN(v as u64).spec_idx0() as int));
        }
    }
    assert forall|v: u64| vpn_canon(v as int) && !post.covered_vpn(v as int) implies !(
    #[trigger] post.page_table.mapped(VPN(v))) by {
        assert forall|x: int|
            0 <= x < pre.areas.len() implies !(vpn_start_of(#[trigger] pre.areas[x].0) <= (
        v as int) < vpn_end_of(pre.areas[x].0)) by {
            if vpn_start_of(pre.areas[x].0) <= (v as int) < vpn_end_of(pre.areas[x].0) {
                assert(vpn_start_of(post.areas[x].0) <= (v as int) < vpn_end_of(post.areas[x].0));
            }
        }
        assert(!pre.covered_vpn(v as int));
        assert(v != vpn.0);
        assert(post.page_table.translate(VPN(v)) == pre.page_table.translate(VPN(v)));
        assert(!pre.page_table.mapped(VPN(v)));
    }
    assert forall|j1: int, l1: int, j2: int, l2: int|
        post.entry_some(j1, l1) && post.entry_some(j2, l2) && (j1 != j2 || l1 != l2)
        implies #[trigger] post.entry_ppn(j1, l1) != #[trigger] post.entry_ppn(j2, l2) by {
        if (j1 == i && l1 == k) || (j2 == i && l2 == k) {
            let (oj, ol) = if j1 == i && l1 == k {
                (j2, l2)
            } else {
                (j1, l1)
            };
            assert(pre.entry_some(oj, ol));
            assert(pre.entry_ppn(oj, ol) == post.entry_ppn(oj, ol));
            assert(pre.area_ok(a0, oj));
            assert(pre.frame_entry_ok(a0, oj, ol));
            assert(a0.live(pre.entry_ppn(oj, ol)));
            if old_p != new_p {
                assert(a0.refcount(new_p) == 0);
                assert(pre.entry_ppn(oj, ol) != new_p);
            } else {
                assert(pre.entry_ppn(oj, ol) != pre.entry_ppn(i, k));
            }
        } else {
            assert(pre.entry_some(j1, l1) && pre.entry_some(j2, l2));
            assert(pre.entry_ppn(j1, l1) != pre.entry_ppn(j2, l2));
            assert(post.entry_ppn(j1, l1) == pre.entry_ppn(j1, l1));
            assert(post.entry_ppn(j2, l2) == pre.entry_ppn(j2, l2));
        }
    }
    assert(post.page_table.user_half_owned()) by {
        assert forall|x: int| 0 <= x < 256 implies post.page_table.slot_owned(x) by {
            assert(pre.page_table.slot_owned(x));
        }
    }
    assert forall|x: int, y: int| 0 <= x < y < post.areas.len() implies vpn_end_of(
        #[trigger] post.areas[x].0,
    ) <= vpn_start_of(#[trigger] post.areas[y].0) by {
        assert(vpn_end_of(pre.areas[x].0) <= vpn_start_of(pre.areas[y].0));
    }
}

/// The permission form a forked mapping carries: a writable (or already
/// copy-on-write) area is shared copy-on-write, with WRITABLE stripped and
/// COW added; a read-only area is shared as it is.
/// The page at offset `l` of area `j`.
pub open spec fn entry_vpn(s: AddressSpace, j: int, l: int) -> VPN {
    VPN((vpn_start_of(s.areas[j].0) + l) as u64)
}

pub open spec fn fork_flags(p: u64) -> u64 {
    if p & PTE_WRITABLE != 0 || p & PTE_COW != 0 {
        (p & !PTE_WRITABLE) | PTE_COW
    } else {
        p
    }
}

impl AddressSpace {
    /// Turn every frame-backed mapping of this space into its fork form:
    /// writable areas become copy-on-write, read-only areas stay. The
    /// caller owes a TLB flush for every remapped page.
    fn cow_protect(&mut self, alc: &FrameAllocator)
        requires
            old(self).wf(*alc),
            forall|i: int|
                0 <= i < old(self).areas.len() && (#[trigger] old(self).areas[i].1.map_perm.0) & PTE_WRITABLE != 0 ==> old(self).areas[i].1.map_perm.0
                    & 0xa != 0,
        ensures
            final(self).wf(*alc),
            final(self).areas == old(self).areas,
            final(self).data_segment_end == old(self).data_segment_end,
            final(self).data_segment_max == old(self).data_segment_max,
            forall|i: int|
                0 <= i < 512 ==> final(self).page_table.slot_owned(i) == old(self).page_table.slot_owned(i),
            forall|v: u64|
                vpn_canon(v as int) ==> ((#[trigger] final(self).page_table.translate(VPN(v)))
                    is Some <==> old(self).page_table.translate(VPN(v)) is Some),
            forall|v: u64|
                vpn_canon(v as int) && old(self).page_table.translate(VPN(v)) is Some ==> (
                #[trigger] final(self).page_table.translate(VPN(v)))->0.spec_ppn() == (old(self).page_table.translate(VPN(v))->0).spec_ppn(),
            forall|i: int, k: int|
                old(self).entry_some(i, k) ==> (#[trigger] final(self).page_table.translate(
                    VPN((vpn_start_of(old(self).areas[i].0) + k) as u64),
                ))->0.spec_flags() == (fork_flags(old(self).areas[i].1.map_perm.0) | PTE_VALID),
    {
        let ghost pre = *old(self);
        let n = self.areas.len();
        let mut i: usize = 0;
        while i < n
            invariant
                pre.wf(*alc),
                pre == *old(self),
                n == pre.areas.len(),
                i <= n,
                forall|x: int|
                    0 <= x < n && (#[trigger] pre.areas[x].1.map_perm.0) & PTE_WRITABLE != 0
                        ==> pre.areas[x].1.map_perm.0 & 0xa != 0,
                self.areas == pre.areas,
                self.data_segment_end == pre.data_segment_end,
                self.data_segment_max == pre.data_segment_max,
                self.page_table.wf(),
                forall|x: int|
                    0 <= x < 512 ==> self.page_table.slot_owned(x) == pre.page_table.slot_owned(
                        x,
                    ),
                forall|v: u64|
                    vpn_canon(v as int) ==> ((#[trigger] self.page_table.translate(VPN(v)))
                        is Some <==> pre.page_table.translate(VPN(v)) is Some),
                forall|v: u64|
                    vpn_canon(v as int) && pre.page_table.translate(VPN(v)) is Some ==> (
                    #[trigger] self.page_table.translate(VPN(v)))->0.spec_ppn() == (
                    pre.page_table.translate(VPN(v))->0).spec_ppn(),
                forall|j: int, k: int|
                    0 <= j < i && pre.entry_some(j, k) ==> (
                    #[trigger] self.page_table.translate(
                        VPN((vpn_start_of(pre.areas[j].0) + k) as u64),
                    ))->0.spec_flags() == (fork_flags(pre.areas[j].1.map_perm.0) | PTE_VALID),
                forall|v: u64|
                    vpn_canon(v as int) && !(exists|j: int, k: int|
                        0 <= j < i && #[trigger] pre.entry_some(j, k) && vpn_start_of(
                            pre.areas[j].0,
                        ) + k == v) ==> #[trigger] self.page_table.translate(VPN(v))
                        == pre.page_table.translate(VPN(v)),
            decreases n - i,
        {
            proof {
                assert(pre.area_ok(*alc, i as int));
            }
            let rng = self.areas[i].0;
            let perm = self.areas[i].1.map_perm;
            let vr = rng.vpn_range();
            let m = self.areas[i].1.data_frames.len();
            if perm.contains(PTE_WRITABLE) || perm.contains(PTE_COW) {
                proof {
                    assert(perm.0 & PTE_WRITABLE != 0 || perm.0 & PTE_COW != 0) by {
                        let p = perm.0;
                        assert((p & 0x4 == 0x4 || p & 0x100 == 0x100) ==> (p & 0x4 != 0 || p
                            & 0x100 != 0)) by (bit_vector);
                    }
                    assert(perm.0 & PTE_COW == 0);
                    assert(perm.0 & PTE_WRITABLE != 0);
                }
                let mut fl = perm;
                fl.remove(PTE_WRITABLE);
                fl.insert(PTE_COW);
                proof {
                    assert(fl.0 == fork_flags(perm.0));
                    let p = perm.0;
                    assert(p <= 0x1ff && p & 0xa != 0 ==> ((p & !0x4) | 0x100) <= 0x1ff && ((p
                        & !0x4) | 0x100) & 0xe != 0) by (bit_vector);
                }
                let mut k: usize = 0;
                while k < m
                    invariant
                        pre.wf(*alc),
                        pre == *old(self),
                        n == pre.areas.len(),
                        0 <= i < n,
                        k <= m,
                        rng == pre.areas[i as int].0,
                        perm == pre.areas[i as int].1.map_perm,
                        m == pre.areas[i as int].1.data_frames.len(),
                        vr.start.0 == vpn_start_of(rng),
                        m <= vpn_end_of(rng) - vpn_start_of(rng),
                        fl.0 == fork_flags(perm.0),
                        fl.0 <= PTE_FLAG_MASK,
                        fl.0 & PTE_RWX != 0,
                        self.areas == pre.areas,
                        self.data_segment_end == pre.data_segment_end,
                        self.data_segment_max == pre.data_segment_max,
                        self.page_table.wf(),
                        forall|x: int|
                            0 <= x < 512 ==> self.page_table.slot_owned(x)
                                == pre.page_table.slot_owned(x),
                        forall|v: u64|
                            vpn_canon(v as int) ==> ((#[trigger] self.page_table.translate(VPN(v)))
                                is Some <==> pre.page_table.translate(VPN(v)) is Some),
                        forall|v: u64|
                            vpn_canon(v as int) && pre.page_table.translate(VPN(v)) is Some ==> (
                            #[trigger] self.page_table.translate(VPN(v)))->0.spec_ppn() == (
                            pre.page_table.translate(VPN(v))->0).spec_ppn(),
                        forall|j: int, l: int|
                            (0 <= j < i && pre.entry_some(j, l)) || (j == i && 0 <= l < k
                                && pre.entry_some(j, l)) ==> (
                            #[trigger] self.page_table.translate(
                                VPN((vpn_start_of(pre.areas[j].0) + l) as u64),
                            ))->0.spec_flags() == (fork_flags(pre.areas[j].1.map_perm.0)
                                | PTE_VALID),
                        forall|v: u64|
                            vpn_canon(v as int) && !(exists|j: int, l: int|
                                ((0 <= j < i) || (j == i && l < k)) && #[trigger] pre.entry_some(
                                    j,
                                    l,
                                ) && vpn_start_of(pre.areas[j].0) + l == v)
                                ==> #[trigger] self.page_table.translate(VPN(v))
                                == pre.page_table.translate(VPN(v)),
                    decreases m - k,
                {
                    proof {
                        assert(pre.area_ok(*alc, i as int));
                        assert(pre.frame_entry_ok(*alc, i as int, k as int));
                        assert(range_canon(vpn_start_of(rng), vpn_end_of(rng)));
                        lemma_range_canon_elem(
                            vpn_start_of(rng),
                            vpn_end_of(rng),
                            vpn_start_of(rng) + k,
                        );
                    }
                    let fo_ppn: Option<crate::address::PPN> = match &self.areas[i].1.data_frames[k] {
                        Some(t) => Some(t.ppn),
                        None => None,
                    };
                    match fo_ppn {
                        Some(p) => {
                            let vpn = VPN(vr.start.0 + k as u64);
                            proof {
                                assert(pre.entry_some(i as int, k as int));
                                assert(pre.entry_ppn(i as int, k as int) == p.0);
                                assert(pre.page_table.mapped(vpn));
                                assert(self.page_table.mapped(vpn));
                                assert(p.0 < 0x1000_0000_0000);
                            }
                            let ghost head = *self;
                            self.page_table.remap_one(vpn, p, fl);
                            proof {
                                assert forall|v: u64| vpn_canon(v as int) && v != vpn.0 implies
                                    #[trigger] self.page_table.translate(VPN(v))
                                    == head.page_table.translate(VPN(v)) by {
                                    lemma_canon_slots_inject(v, vpn.0);
                                }
                                assert forall|j: int, l: int|
                                    (0 <= j < i && pre.entry_some(j, l)) || (j == i && 0 <= l < k
                                        + 1 && pre.entry_some(j, l)) implies (
                                #[trigger] self.page_table.translate(
                                    VPN((vpn_start_of(pre.areas[j].0) + l) as u64),
                                ))->0.spec_flags() == (fork_flags(pre.areas[j].1.map_perm.0)
                                    | PTE_VALID) by {
                                    let v = (vpn_start_of(pre.areas[j].0) + l) as u64;
                                    assert(pre.area_ok(*alc, j));
                                    lemma_range_canon_elem(
                                        vpn_start_of(pre.areas[j].0),
                                        vpn_end_of(pre.areas[j].0),
                                        v as int,
                                    );
                                    if j == i && l == k {
                                    } else {
                                        assert(v != vpn.0) by {
                                            if j < i {
                                                assert(vpn_end_of(pre.areas[j].0) <= vpn_start_of(
                                                    pre.areas[i as int].0,
                                                ));
                                            }
                                        }
                                        assert(self.page_table.translate(VPN(v))
                                            == head.page_table.translate(VPN(v)));
                                    }
                                }
                            }
                        },
                        None => {},
                    }
                    k = k + 1;
                }
            } else {
                proof {
                    assert(perm.0 & PTE_WRITABLE == 0 && perm.0 & PTE_COW == 0) by {
                        let p = perm.0;
                        assert((!(p & 0x4 == 0x4) && !(p & 0x100 == 0x100)) ==> (p & 0x4 == 0 && p
                            & 0x100 == 0)) by (bit_vector);
                    }
                    assert(fork_flags(perm.0) == perm.0);
                    assert forall|l: int| pre.entry_some(i as int, l) implies (
                    #[trigger] self.page_table.translate(
                        VPN((vpn_start_of(pre.areas[i as int].0) + l) as u64),
                    ))->0.spec_flags() == (fork_flags(pre.areas[i as int].1.map_perm.0)
                        | PTE_VALID) by {
                        assert(pre.area_ok(*alc, i as int));
                        assert(pre.frame_entry_ok(*alc, i as int, l));
                        let v = (vpn_start_of(pre.areas[i as int].0) + l) as u64;
                        lemma_range_canon_elem(
                            vpn_start_of(pre.areas[i as int].0),
                            vpn_end_of(pre.areas[i as int].0),
                            v as int,
                        );
                        assert(!(exists|j: int, x: int|
                            0 <= j < i && #[trigger] pre.entry_some(j, x) && vpn_start_of(
                                pre.areas[j].0,
                            ) + x == v)) by {
                            assert forall|j: int, x: int|
                                0 <= j < i && #[trigger] pre.entry_some(j, x) implies vpn_start_of(
                                pre.areas[j].0,
                            ) + x != v by {
                                assert(pre.area_ok(*alc, j));
                                assert(vpn_end_of(pre.areas[j].0) <= vpn_start_of(
                                    pre.areas[i as int].0,
                                ));
                            }
                        }
                        assert(self.page_table.translate(VPN(v)) == pre.page_table.translate(
                            VPN(v),
                        ));
                        let f = (pre.page_table.translate(VPN(v))->0).spec_flags();
                        assert(area_flags_ok(f, perm.0));
                        assert(f == plain_word_flags(perm.0));
                    }
                }
            }
            i = i + 1;
        }
        proof {
            lemma_cow_protect_finish(pre, *self, *alc);
        }
    }
}

/// Re-establish the invariant after every mapping of a space was put in
/// its fork form: same areas and frames, same physical pages, only the
/// permission bits of frame-backed entries changed to `fork_flags`.
#[verifier::rlimit(100)]
#[verifier::spinoff_prover]
proof fn lemma_cow_protect_finish(pre: AddressSpace, post: AddressSpace, alc: FrameAllocator)
    requires
        pre.wf(alc),
        post.areas == pre.areas,
        post.data_segment_end == pre.data_segment_end,
        post.data_segment_max == pre.data_segment_max,
        post.page_table.wf(),
        forall|x: int|
            0 <= x < 512 ==> post.page_table.slot_owned(x) == pre.page_table.slot_owned(x),
        forall|v: u64|
            vpn_canon(v as int) ==> ((#[trigger] post.page_table.translate(VPN(v))) is Some <==>
            pre.page_table.translate(VPN(v)) is Some),
        forall|v: u64|
            vpn_canon(v as int) && pre.page_table.translate(VPN(v)) is Some ==> (
            #[trigger] post.page_table.translate(VPN(v)))->0.spec_ppn() == (
            pre.page_table.translate(VPN(v))->0).spec_ppn(),
        forall|j: int, l: int|
            pre.entry_some(j, l) ==> (#[trigger] post.page_table.translate(
                VPN((vpn_start_of(pre.areas[j].0) + l) as u64),
            ))->0.spec_flags() == (fork_flags(pre.areas[j].1.map_perm.0) | PTE_VALID),
        forall|x: int|
            0 <= x < pre.areas.len() && (#[trigger] pre.areas[x].1.map_perm.0) & PTE_WRITABLE != 0
                ==> pre.areas[x].1.map_perm.0 & 0xa != 0,
    ensures
        post.wf(alc),
{
    assert forall|i: int| 0 <= i < post.areas.len() implies #[trigger] post.area_ok(alc, i) by {
        assert(pre.area_ok(alc, i));
        let rng = pre.areas[i].0;
        let p = pre.areas[i].1.map_perm.0;
        assert forall|k: int| 0 <= k < post.areas[i].1.data_frames.len() implies #[trigger] post
            .frame_entry_ok(alc, i, k) by {
            assert(pre.frame_entry_ok(alc, i, k));
            let v = (vpn_start_of(rng) + k) as u64;
            lemma_range_canon_elem(vpn_start_of(rng), vpn_end_of(rng), v as int);
            match pre.areas[i].1.data_frames[k] {
                Some(t) => {
                    assert(pre.entry_some(i, k));
                    assert(post.page_table.translate(VPN(v)) is Some);
                    assert((post.page_table.translate(VPN(v)))->0.spec_ppn() == t.ppn.0);
                    let f1 = (post.page_table.translate(VPN(v)))->0.spec_flags();
                    assert(f1 == (fork_flags(p) | PTE_VALID));
                    assert(area_flags_ok(f1, p)) by {
                        if p & PTE_WRITABLE != 0 || p & PTE_COW != 0 {
                            assert(p & PTE_COW == 0);
                            assert(f1 == cow_word_flags(p));
                        } else {
                            assert(f1 == plain_word_flags(p));
                        }
                    }
                },
                None => {
                    assert(pre.page_table.translate(VPN(v)) is None);
                    assert(post.page_table.translate(VPN(v)) is None);
                },
            }
        }
        assert forall|v: int| vpn_start_of(rng) <= v < vpn_end_of(rng) implies #[trigger] post
            .page_table.slot_owned(VPN(v as u64).spec_idx0() as int) by {
            crate::page_table::lemma_idx_bounds(VPN(v as u64));
            assert(pre.page_table.slot_owned(VPN(v as u64).spec_idx0() as int));
        }
    }
    assert forall|v: u64| vpn_canon(v as int) && !post.covered_vpn(v as int) implies !(
    #[trigger] post.page_table.mapped(VPN(v))) by {
        assert forall|x: int|
            0 <= x < pre.areas.len() implies !(vpn_start_of(#[trigger] pre.areas[x].0) <= (
        v as int) < vpn_end_of(pre.areas[x].0)) by {
            if vpn_start_of(pre.areas[x].0) <= (v as int) < vpn_end_of(pre.areas[x].0) {
                assert(vpn_start_of(post.areas[x].0) <= (v as int) < vpn_end_of(post.areas[x].0));
            }
        }
        assert(!pre.covered_vpn(v as int));
        assert(!pre.page_table.mapped(VPN(v)));
    }
    assert(post.page_table.user_half_owned()) by {
        assert forall|x: int| 0 <= x < 256 implies post.page_table.slot_owned(x) by {
            assert(pre.page_table.slot_owned(x));
        }
    }
    assert forall|i: int, k: int, j: int, l: int|
        post.entry_some(i, k) && post.entry_some(j, l) && (i != j || k != l) implies #[trigger] post
        .entry_ppn(i, k) != #[trigger] post.entry_ppn(j, l) by {
        assert(pre.entry_some(i, k) && pre.entry_some(j, l));
        assert(pre.entry_ppn(i, k) != pre.entry_ppn(j, l));
        assert(post.entry_ppn(i, k) == pre.entry_ppn(i, k));
        assert(post.entry_ppn(j, l) == pre.entry_ppn(j, l));
    }
    assert forall|x: int, y: int| 0 <= x < y < post.areas.len() implies vpn_end_of(
        #[trigger] post.areas[x].0,
    ) <= vpn_start_of(#[trigger] post.areas[y].0) by {
        assert(vpn_end_of(pre.areas[x].0) <= vpn_start_of(pre.areas[y].0));
    }
}

impl AddressSpace {
    /// The number of frame slots of the first `n` areas together.
    pub open spec fn frames_upto(self, n: int) -> int
        decreases n,
    {
        if n <= 0 {
            0
        } else {
            self.frames_upto(n - 1) + self.areas[n - 1].1.data_frames.len()
        }
    }

    /// The number of frame slots of all areas together.
    pub open spec fn total_frames(self) -> int {
        self.frames_upto(self.areas.len() as int)
    }

    /// In a well-formed space of framed user areas, the frame slots of the
    /// first `n` areas fit under the end of the `n`-th area: the areas are
    /// sorted and page-disjoint.
    pub proof fn lemma_frames_upto_bound(self, alc: FrameAllocator, n: int)
        requires
            self.wf(alc),
            0 <= n <= self.areas.len(),
            forall|i: int|
                0 <= i < self.areas.len() ==> vpn_end_of(#[trigger] self.areas[i].0)
                    <= USER_VPN_LIMIT,
        ensures
            0 <= self.frames_upto(n),
            n > 0 ==> self.frames_upto(n) <= vpn_end_of(self.areas[n - 1].0),
            self.frames_upto(n) <= USER_VPN_LIMIT,
        decreases n,
    {
        if n > 0 {
            self.lemma_frames_upto_bound(alc, n - 1);
            assert(self.area_ok(alc, n - 1));
            if n >= 2 {
                assert(vpn_end_of(self.areas[n - 2].0) <= vpn_start_of(self.areas[n - 1].0));
            }
        }
    }
}

impl AddressSpace {
    /// Fork this space copy-on-write. The child shares every frame of the
    /// parent: writable areas are remapped copy-on-write in both spaces,
    /// read-only areas are shared as they are; every shared frame's
    /// reference count rises by one, and no byte of memory changes. The
    /// child inherits the break and its ceiling verbatim. Fails, changing
    /// nothing, exactly when the allocator cannot reserve one frame for
    /// the child's root page plus two per shared frame for interior
    /// tables. The caller owes a TLB flush for every remapped page.
    #[verifier::rlimit(100)]
    #[verifier::spinoff_prover]
    pub fn fork(&mut self, kernel: &PageTableImpl, alc: &mut FrameAllocator) -> (r: Option<
        AddressSpace,
    >)
        requires
            old(self).wf(*old(alc)),
            kernel.wf(),
            forall|i: int|
                0 <= i < old(self).areas.len() ==> (#[trigger] old(self).areas[i].1.map_type)
                    is Framed,
            forall|i: int|
                0 <= i < old(self).areas.len() ==> vpn_end_of(#[trigger] old(self).areas[i].0)
                    <= USER_VPN_LIMIT,
            forall|i: int|
                0 <= i < old(self).areas.len() && (#[trigger] old(self).areas[i].1.map_perm.0) & PTE_WRITABLE != 0 ==> old(self).areas[i].1.map_perm.0
                    & 0xa != 0,
            forall|i: int, k: int|
                old(self).entry_some(i, k) ==> #[trigger] old(alc).refcount(
                    old(self).entry_ppn(i, k),
                ) < u64::MAX,
        ensures
            final(self).wf(*final(alc)),
            final(alc).spec_base() == old(alc).spec_base(),
            final(alc).spec_end() == old(alc).spec_end(),
            r is Some <==> old(alc).avail() >= 1 + 2 * old(self).total_frames(),
            r is None ==> *final(self) == *old(self) && *final(alc) == *old(alc),
            r matches Some(child) ==> child.wf(*final(alc)),
            r matches Some(child) ==> child.areas.len() == old(self).areas.len(),
            r matches Some(child) ==> forall|j: int|
                0 <= j < old(self).areas.len() ==> (#[trigger] child.areas[j]).0 == old(
                    self,
                ).areas[j].0 && child.areas[j].1.map_type == old(self).areas[j].1.map_type
                    && child.areas[j].1.map_perm == old(self).areas[j].1.map_perm
                    && child.areas[j].1.data_frames.len() == old(self).areas[j].1.data_frames.len(),
            r matches Some(child) ==> forall|j: int, l: int|
                #![trigger child.entry_some(j, l)]
                0 <= j < old(self).areas.len() && 0 <= l < old(self).areas[j].1.data_frames.len()
                    ==> (child.entry_some(j, l) <==> old(self).entry_some(j, l)) && (old(
                    self,
                ).entry_some(j, l) ==> child.entry_ppn(j, l) == old(self).entry_ppn(j, l)),
            r matches Some(child) ==> forall|j: int, l: int|
                #![trigger child.page_table.translate(entry_vpn(*old(self), j, l))]
                old(self).entry_some(j, l) ==> {
                    let v = entry_vpn(*old(self), j, l);
                    &&& (child.page_table.translate(v)) is Some
                    &&& (child.page_table.translate(v))->0.spec_ppn() == old(self).entry_ppn(j, l)
                    &&& (child.page_table.translate(v))->0.spec_flags() == (fork_flags(
                        old(self).areas[j].1.map_perm.0,
                    ) | PTE_VALID)
                    &&& (final(self).page_table.translate(v)) is Some
                    &&& (final(self).page_table.translate(v))->0.spec_ppn() == old(self).entry_ppn(j, l)
                    &&& (final(self).page_table.translate(v))->0.spec_flags() == (fork_flags(
                        old(self).areas[j].1.map_perm.0,
                    ) | PTE_VALID)
                },
            r matches Some(child) ==> forall|v: u64|
                vpn_canon(v as int) ==> ((#[trigger] final(self).page_table.translate(VPN(v)))
                    is Some <==> old(self).page_table.translate(VPN(v)) is Some),
            r matches Some(child) ==> forall|v: u64|
                vpn_canon(v as int) && old(self).page_table.translate(VPN(v)) is Some ==> (
                #[trigger] final(self).page_table.translate(VPN(v)))->0.spec_ppn() == (old(
                    self,
                ).page_table.translate(VPN(v))->0).spec_ppn(),
            r matches Some(child) ==> forall|x: int|
                256 <= x < 512 ==> (#[trigger] child.page_table.root[x]) == kernel.root[x],
            r matches Some(child) ==> child.data_segment_end == old(self).data_segment_end
                && child.data_segment_max == old(self).data_segment_max,
            r matches Some(child) ==> forall|q: u64|
                old(self).holds_frame(q) ==> #[trigger] final(alc).refcount(q) == old(
                    alc,
                ).refcount(q) + 1,
            r matches Some(child) ==> forall|q: u64|
                old(alc).live(q) && !old(self).holds_frame(q) ==> #[trigger] final(alc).refcount(
                    q,
                ) == old(alc).refcount(q),
            r matches Some(child) ==> final(alc).avail() >= old(alc).avail() - 1 - 2 * old(
                self,
            ).total_frames(),
            forall|q: u64| old(alc).tracked_frame(q) ==> final(alc).tracked_frame(q),
            forall|q: u64|
                old(alc).live(q) ==> final(alc).frame_bytes(q) == old(alc).frame_bytes(q),
            final(self).areas == old(self).areas,
            final(self).data_segment_end == old(self).data_segment_end,
            final(self).data_segment_max == old(self).data_segment_max,
    {
        let ghost pre = *old(self);
        let n = self.areas.len();
        let mut total: u64 = 0;
        let mut ti: usize = 0;
        while ti < n
            invariant
                pre.wf(*old(alc)),
                pre == *old(self),
                n == pre.areas.len(),
                ti <= n,
                *self == pre,
                forall|i: int|
                    0 <= i < pre.areas.len() ==> vpn_end_of(#[trigger] pre.areas[i].0)
                        <= USER_VPN_LIMIT,
                total == pre.frames_upto(ti as int),
                total <= USER_VPN_LIMIT,
            decreases n - ti,
        {
            proof {
                pre.lemma_frames_upto_bound(*old(alc), ti + 1);
            }
            total = total + self.areas[ti].1.data_frames.len() as u64;
            ti = ti + 1;
        }
        let need: u64 = 1 + 2 * total;
        if alc.available() < need {
            return None;
        }
        let mut child = match Self::new_kernel(kernel, alc) {
            Some(c) => c,
            None => {
                proof {
                    assert(false);
                }
                return None;
            },
        };
        let ghost a0 = *old(alc);
        let ghost a_root = *alc;
        let mut i: usize = 0;
        while i < n
            invariant
                pre.wf(a0),
                pre == *old(self),
                *self == pre,
                kernel.wf(),
                n == pre.areas.len(),
                i <= n,
                forall|x: int|
                    0 <= x < n ==> (#[trigger] pre.areas[x].1.map_type) is Framed,
                forall|x: int|
                    0 <= x < n ==> vpn_end_of(#[trigger] pre.areas[x].0) <= USER_VPN_LIMIT,
                forall|x: int|
                    0 <= x < n && (#[trigger] pre.areas[x].1.map_perm.0) & PTE_WRITABLE != 0
                        ==> pre.areas[x].1.map_perm.0 & 0xa != 0,
                forall|x: int, l: int|
                    pre.entry_some(x, l) ==> #[trigger] a0.refcount(pre.entry_ppn(x, l))
                        < u64::MAX,
                a0.avail() >= 1 + 2 * pre.total_frames(),
                child.page_table.wf(),
                child.page_table.user_half_owned(),
                forall|x: int|
                    256 <= x < 512 ==> (#[trigger] child.page_table.root[x]) == kernel.root[x],
                child.areas.len() == i,
                forall|j: int|
                    0 <= j < i ==> (#[trigger] child.areas[j]).0 == pre.areas[j].0
                        && child.areas[j].1.map_type == pre.areas[j].1.map_type
                        && child.areas[j].1.map_perm == pre.areas[j].1.map_perm
                        && child.areas[j].1.data_frames.len()
                        == pre.areas[j].1.data_frames.len(),
                forall|j: int, l: int|
                    #![trigger child.entry_some(j, l)]
                    0 <= j < i && 0 <= l < pre.areas[j].1.data_frames.len() ==> (child.entry_some(
                        j,
                        l,
                    ) <==> pre.entry_some(j, l)) && (pre.entry_some(j, l) ==> child.entry_ppn(j, l)
                        == pre.entry_ppn(j, l)),
                forall|j: int, l: int|
                    #![trigger child.page_table.translate(entry_vpn(pre, j, l))]
                    0 <= j < i && pre.entry_some(j, l) ==> {
                        let v = entry_vpn(pre, j, l);
                        &&& (child.page_table.translate(v)) is Some
                        &&& (child.page_table.translate(v))->0.spec_ppn() == pre.entry_ppn(j, l)
                        &&& (child.page_table.translate(v))->0.spec_flags() == (fork_flags(
                            pre.areas[j].1.map_perm.0,
                        ) | PTE_VALID)
                    },
                forall|v: u64|
                    vpn_canon(v as int) && !(exists|j: int, l: int|
                        0 <= j < i && #[trigger] pre.entry_some(j, l) && vpn_start_of(
                            pre.areas[j].0,
                        ) + l == v) ==> !(#[trigger] child.page_table.mapped(VPN(v))),
                alc.wf(),
                alc.spec_base() == a0.spec_base(),
                alc.spec_end() == a0.spec_end(),
                forall|q: u64|
                    (exists|j: int, l: int|
                        0 <= j < i && #[trigger] pre.entry_some(j, l) && pre.entry_ppn(j, l)
                            == q) ==> #[trigger] alc.refcount(q) == a0.refcount(q) + 1,
                forall|q: u64|
                    a0.live(q) && !(exists|j: int, l: int|
                        0 <= j < i && #[trigger] pre.entry_some(j, l) && pre.entry_ppn(j, l)
                            == q) ==> #[trigger] alc.refcount(q) == a0.refcount(q),
                forall|q: u64| a0.tracked_frame(q) ==> #[trigger] alc.tracked_frame(q),
                forall|q: u64|
                    a0.live(q) ==> #[trigger] alc.frame_bytes(q) == a0.frame_bytes(q),
                alc.avail() >= a0.avail() - 1 - 2 * pre.frames_upto(i as int),
            decreases n - i,
        {
            proof {
                assert(pre.area_ok(a0, i as int));
                pre.lemma_frames_upto_bound(a0, i as int);
                pre.lemma_frames_upto_bound(a0, n as int);
                lemma_frames_upto_mono(pre, i as int, n as int);
            }
            let rng = self.areas[i].0;
            let perm = self.areas[i].1.map_perm;
            let vr = rng.vpn_range();
            let m = self.areas[i].1.data_frames.len();
            let cow = perm.contains(PTE_WRITABLE) || perm.contains(PTE_COW);
            let mut fl = perm;
            if cow {
                fl.remove(PTE_WRITABLE);
                fl.insert(PTE_COW);
            }
            proof {
                assert(perm.0 & PTE_COW == 0 && perm.0 & PTE_VALID == 0 && perm.0 <= PTE_FLAG_MASK
                    && perm.0 & PTE_RWX != 0);
                let p = perm.0;
                if cow {
                    assert(p & 0x4 == 0x4 || p & 0x100 == 0x100 ==> (p & 0x4 != 0 || p & 0x100
                        != 0)) by (bit_vector);
                    assert(fl.0 == ((p & !0x4) | 0x100));
                    assert(fl.0 == fork_flags(p));
                    assert(p <= 0x1ff && p & 0xa != 0 ==> ((p & !0x4) | 0x100) <= 0x1ff && ((p
                        & !0x4) | 0x100) & 0xe != 0 && (((p & !0x4) | 0x100) & 0x100) != 0)
                        by (bit_vector);
                } else {
                    assert(!(p & 0x4 == 0x4) && !(p & 0x100 == 0x100) ==> (p & 0x4 == 0 && p
                        & 0x100 == 0)) by (bit_vector);
                    assert(fl.0 == fork_flags(p));
                }
            }
            let mut child_frames: Vec<Option<FrameTracker>> = Vec::new();
            let mut k: usize = 0;
            while k < m
                invariant
                    pre.wf(a0),
                    pre == *old(self),
                    *self == pre,
                    n == pre.areas.len(),
                    0 <= i < n,
                    k <= m,
                    rng == pre.areas[i as int].0,
                    perm == pre.areas[i as int].1.map_perm,
                    m == pre.areas[i as int].1.data_frames.len(),
                    vr.start.0 == vpn_start_of(rng),
                    m <= vpn_end_of(rng) - vpn_start_of(rng),
                    vpn_end_of(rng) <= USER_VPN_LIMIT,
                    fl.0 == fork_flags(perm.0),
                    fl.0 <= PTE_FLAG_MASK,
                    fl.0 & PTE_RWX != 0,
                    forall|x: int, l: int|
                        pre.entry_some(x, l) ==> #[trigger] a0.refcount(pre.entry_ppn(x, l))
                            < u64::MAX,
                    child.page_table.wf(),
                    child.page_table.user_half_owned(),
                    forall|x: int|
                        256 <= x < 512 ==> (#[trigger] child.page_table.root[x]) == kernel.root[x],
                    child.areas.len() == i,
                    forall|j: int|
                        0 <= j < i ==> (#[trigger] child.areas[j]).0 == pre.areas[j].0
                            && child.areas[j].1.map_type == pre.areas[j].1.map_type
                            && child.areas[j].1.map_perm == pre.areas[j].1.map_perm
                            && child.areas[j].1.data_frames.len()
                            == pre.areas[j].1.data_frames.len(),
                    forall|j: int, l: int|
                        #![trigger child.entry_some(j, l)]
                        0 <= j < i && 0 <= l < pre.areas[j].1.data_frames.len() ==> (
                        child.entry_some(j, l) <==> pre.entry_some(j, l)) && (pre.entry_some(j, l)
                            ==> child.entry_ppn(j, l) == pre.entry_ppn(j, l)),
                    child_frames.len() == k,
                    forall|l: int|
                        0 <= l < k ==> ((#[trigger] child_frames[l]) is Some <==> pre.entry_some(
                            i as int,
                            l,
                        )) && (pre.entry_some(i as int, l) ==> child_frames[l]->0.ppn.0
                            == pre.entry_ppn(i as int, l)),
                    forall|j: int, l: int|
                        #![trigger child.page_table.translate(entry_vpn(pre, j, l))]
                        (0 <= j < i && pre.entry_some(j, l)) || (j == i && 0 <= l < k
                            && pre.entry_some(j, l)) ==> {
                            let v = entry_vpn(pre, j, l);
                            &&& (child.page_table.translate(v)) is Some
                            &&& (child.page_table.translate(v))->0.spec_ppn() == pre.entry_ppn(
                                j,
                                l,
                            )
                            &&& (child.page_table.translate(v))->0.spec_flags() == (fork_flags(
                                pre.areas[j].1.map_perm.0,
                            ) | PTE_VALID)
                        },
                    forall|v: u64|
                        vpn_canon(v as int) && !(exists|j: int, l: int|
                            ((0 <= j < i) || (j == i && l < k)) && #[trigger] pre.entry_some(j, l)
                                && vpn_start_of(pre.areas[j].0) + l == v) ==> !(
                        #[trigger] child.page_table.mapped(VPN(v))),
                    alc.wf(),
                    alc.spec_base() == a0.spec_base(),
                    alc.spec_end() == a0.spec_end(),
                    forall|q: u64|
                        (exists|j: int, l: int|
                            (((0 <= j < i) || (j == i && l < k))) && #[trigger] pre.entry_some(
                                j,
                                l,
                            ) && pre.entry_ppn(j, l) == q) ==> #[trigger] alc.refcount(q)
                            == a0.refcount(q) + 1,
                    forall|q: u64|
                        a0.live(q) && !(exists|j: int, l: int|
                            (((0 <= j < i) || (j == i && l < k))) && #[trigger] pre.entry_some(
                                j,
                                l,
                            ) && pre.entry_ppn(j, l) == q) ==> #[trigger] alc.refcount(q)
                            == a0.refcount(q),
                    forall|q: u64| a0.tracked_frame(q) ==> #[trigger] alc.tracked_frame(q),
                    forall|q: u64|
                        a0.live(q) ==> #[trigger] alc.frame_bytes(q) == a0.frame_bytes(q),
                    alc.avail() >= a0.avail() - 1 - 2 * (pre.frames_upto(i as int) + k),
                    pre.frames_upto(i as int) + k <= pre.total_frames(),
                    a0.avail() >= 1 + 2 * pre.total_frames(),
                decreases m - k,
            {
                proof {
                    assert(pre.area_ok(a0, i as int));
                    assert(pre.frame_entry_ok(a0, i as int, k as int));
                    lemma_range_canon_elem(
                        vpn_start_of(rng),
                        vpn_end_of(rng),
                        vpn_start_of(rng) + k,
                    );
                    assert(pre.frames_upto(i as int + 1) == pre.frames_upto(i as int) + m);
                    lemma_frames_upto_mono(pre, i as int + 1, n as int);
                    assert(pre.frames_upto(i as int) + k + 1 <= pre.total_frames());
                }
                let is_some = self.areas[i].1.data_frames[k].is_some();
                if is_some {
                    let vpn = VPN(vr.start.0 + k as u64);
                    let tp: crate::address::PPN = match &self.areas[i].1.data_frames[k] {
                        Some(t) => t.ppn,
                        None => {
                            proof {
                                assert(false);
                            }
                            crate::address::PPN(0)
                        },
                    };
                    proof {
                        assert(pre.entry_some(i as int, k as int));
                        assert(pre.entry_ppn(i as int, k as int) == tp.0);
                        assert(!(exists|j: int, l: int|
                            ((0 <= j < i) || (j == i && l < k)) && #[trigger] pre.entry_some(j, l)
                                && vpn_start_of(pre.areas[j].0) + l == vpn.0)) by {
                            assert forall|j: int, l: int|
                                ((0 <= j < i) || (j == i && l < k)) && #[trigger] pre.entry_some(
                                    j,
                                    l,
                                ) implies vpn_start_of(pre.areas[j].0) + l != vpn.0 by {
                                assert(pre.area_ok(a0, j));
                                if j < i {
                                    assert(vpn_end_of(pre.areas[j].0) <= vpn_start_of(
                                        pre.areas[i as int].0,
                                    ));
                                }
                            }
                        }
                        assert(!child.page_table.mapped(vpn));
                        assert(vpn.0 < USER_VPN_LIMIT);
                        lemma_user_vpn_idx0(vpn.0);
                        assert(child.page_table.slot_owned(VPN(vpn.0).spec_idx0() as int));
                        assert(alc.refcount(tp.0) == a0.refcount(tp.0)) by {
                            assert forall|j: int, l: int|
                                ((0 <= j < i) || (j == i && l < k)) && #[trigger] pre.entry_some(
                                    j,
                                    l,
                                ) implies pre.entry_ppn(j, l) != tp.0 by {
                                assert(pre.entry_ppn(i as int, k as int) == tp.0);
                            }
                        }
                        assert(a0.live(tp.0));
                        assert(alc.live(tp.0));
                        assert(tp.0 < 0x1000_0000_0000);
                    }
                    let ghost c_head = child;
                    let ghost a_head = *alc;
                    let ok = child.page_table.map_one(vpn, tp, fl, alc);
                    proof {
                        assert(c_head.page_table.tables_needed(vpn) <= 2);
                        assert(a_head.avail() >= 2);
                        assert(ok);
                    }
                    let ct = match &self.areas[i].1.data_frames[k] {
                        Some(t) => alc.clone_tracker(t),
                        None => {
                            proof {
                                assert(false);
                            }
                            FrameTracker { ppn: tp }
                        },
                    };
                    child_frames.push(Some(ct));
                    proof {
                        assert(child.areas == c_head.areas);
                        assert forall|j: int, l: int|
                            #![trigger child.entry_some(j, l)]
                            0 <= j < i && 0 <= l < pre.areas[j].1.data_frames.len() implies ((
                        child.entry_some(j, l) <==> pre.entry_some(j, l)) && (pre.entry_some(j, l)
                            ==> child.entry_ppn(j, l) == pre.entry_ppn(j, l))) by {
                            assert(c_head.entry_some(j, l) <==> pre.entry_some(j, l));
                            assert(child.entry_some(j, l) == c_head.entry_some(j, l));
                            if pre.entry_some(j, l) {
                                assert(child.entry_ppn(j, l) == c_head.entry_ppn(j, l));
                            }
                        }
                        assert forall|v: u64|
                            vpn_canon(v as int) && v != vpn.0 implies
                            #[trigger] child.page_table.translate(VPN(v))
                            == c_head.page_table.translate(VPN(v)) by {
                            lemma_canon_slots_inject(v, vpn.0);
                        }
                        assert forall|q: u64| a0.live(q) implies #[trigger] alc.frame_bytes(q)
                            == a0.frame_bytes(q) by {
                            assert(a_head.frame_bytes(q) == a0.frame_bytes(q));
                            assert(a_head.live(q));
                        }
                        assert forall|j: int, l: int|
                            #![trigger child.page_table.translate(entry_vpn(pre, j, l))]
                            (0 <= j < i && pre.entry_some(j, l)) || (j == i && 0 <= l < k + 1
                                && pre.entry_some(j, l)) implies {
                            let v2 = entry_vpn(pre, j, l);
                            &&& (child.page_table.translate(v2)) is Some
                            &&& (child.page_table.translate(v2))->0.spec_ppn() == pre.entry_ppn(
                                j,
                                l,
                            )
                            &&& (child.page_table.translate(v2))->0.spec_flags() == (fork_flags(
                                pre.areas[j].1.map_perm.0,
                            ) | PTE_VALID)
                        } by {
                            let v2 = entry_vpn(pre, j, l);
                            assert(pre.area_ok(a0, j));
                            lemma_range_canon_elem(
                                vpn_start_of(pre.areas[j].0),
                                vpn_end_of(pre.areas[j].0),
                                v2.0 as int,
                            );
                            if j == i && l == k {
                                assert(v2 == vpn);
                            } else {
                                assert(v2.0 != vpn.0) by {
                                    if j < i {
                                        assert(vpn_end_of(pre.areas[j].0) <= vpn_start_of(
                                            pre.areas[i as int].0,
                                        ));
                                    }
                                }
                                assert(child.page_table.translate(VPN(v2.0))
                                    == c_head.page_table.translate(VPN(v2.0)));
                                assert(v2 == VPN(v2.0));
                            }
                        }
                        assert forall|v: u64|
                            vpn_canon(v as int) && !(exists|j: int, l: int|
                                ((0 <= j < i) || (j == i && l < k + 1)) && #[trigger] pre
                                    .entry_some(j, l) && vpn_start_of(pre.areas[j].0) + l == v)
                            implies !(#[trigger] child.page_table.mapped(VPN(v))) by {
                            assert(v != vpn.0) by {
                                if v == vpn.0 {
                                    assert(pre.entry_some(i as int, k as int) && vpn_start_of(
                                        pre.areas[i as int].0,
                                    ) + k == v);
                                }
                            }
                            assert(child.page_table.translate(VPN(v))
                                == c_head.page_table.translate(VPN(v)));
                            assert(!c_head.page_table.mapped(VPN(v)));
                        }
                        assert forall|q: u64|
                            (exists|j: int, l: int|
                                (((0 <= j < i) || (j == i && l < k + 1))) && #[trigger] pre
                                    .entry_some(j, l) && pre.entry_ppn(j, l) == q)
                            implies #[trigger] alc.refcount(q) == a0.refcount(q) + 1 by {
                            let (j, l) = choose|j: int, l: int|
                                (((0 <= j < i) || (j == i && l < k + 1))) && #[trigger] pre
                                    .entry_some(j, l) && pre.entry_ppn(j, l) == q;
                            if j == i && l == k {
                                assert(q == tp.0);
                            } else {
                                assert(a_head.refcount(q) == a0.refcount(q) + 1);
                                assert(a0.live(q)) by {
                                    assert(pre.area_ok(a0, j));
                                    assert(pre.frame_entry_ok(a0, j, l));
                                }
                                assert(q != tp.0) by {
                                    assert(pre.entry_ppn(i as int, k as int) == tp.0);
                                }
                            }
                        }
                        assert forall|q: u64|
                            a0.live(q) && !(exists|j: int, l: int|
                                (((0 <= j < i) || (j == i && l < k + 1))) && #[trigger] pre
                                    .entry_some(j, l) && pre.entry_ppn(j, l) == q)
                            implies #[trigger] alc.refcount(q) == a0.refcount(q) by {
                            assert(q != tp.0) by {
                                if q == tp.0 {
                                    assert(pre.entry_some(i as int, k as int) && pre.entry_ppn(
                                        i as int,
                                        k as int,
                                    ) == q);
                                }
                            }
                            assert(a_head.refcount(q) == a0.refcount(q));
                        }
                    }
                } else {
                    child_frames.push(None);
                    proof {
                        assert(!pre.entry_some(i as int, k as int));
                    }
                }
                k = k + 1;
            }
            let ghost chead2 = child;
            child.areas.push(
                (rng, MapArea { data_frames: child_frames, map_type: MapType::Framed, map_perm: perm }),
            );
            proof {
                assert(pre.areas[i as int].1.map_type is Framed);
                assert(child.areas@ == chead2.areas@.push(child.areas@[i as int]));
                assert(forall|j: int| 0 <= j < i ==> child.areas[j] == chead2.areas[j]);
                assert(child.areas[i as int].0 == rng);
                assert(child.areas[i as int].1.data_frames@ == child_frames@);
                assert(child.areas[i as int].1.data_frames.len() == m);
                assert forall|j: int, l: int|
                    #![trigger child.entry_some(j, l)]
                    0 <= j < i + 1 && 0 <= l < pre.areas[j].1.data_frames.len() implies (
                child.entry_some(j, l) <==> pre.entry_some(j, l)) && (pre.entry_some(j, l)
                    ==> child.entry_ppn(j, l) == pre.entry_ppn(j, l)) by {
                    if j < i {
                        assert(child.entry_some(j, l) <==> chead2.entry_some(j, l));
                    } else {
                        assert(child.areas[j].1.data_frames[l] == child_frames[l]);
                    }
                }
                assert(child.page_table == chead2.page_table);
            }
            i = i + 1;
        }
        let ghost cdone = child;
        child.data_segment_end = self.data_segment_end;
        child.data_segment_max = self.data_segment_max;
        proof {
            assert(child.areas == cdone.areas && child.page_table == cdone.page_table);
            assert forall|j: int, l: int|
                #![trigger child.entry_some(j, l)]
                0 <= j < pre.areas.len() && 0 <= l < pre.areas[j].1.data_frames.len() implies ((
            child.entry_some(j, l) <==> pre.entry_some(j, l)) && (pre.entry_some(j, l)
                ==> child.entry_ppn(j, l) == pre.entry_ppn(j, l))) by {
                assert(cdone.entry_some(j, l) <==> pre.entry_some(j, l));
                assert(child.entry_some(j, l) == cdone.entry_some(j, l));
                if pre.entry_some(j, l) {
                    assert(child.entry_ppn(j, l) == cdone.entry_ppn(j, l));
                }
            }
            assert forall|j: int| 0 <= j < pre.areas.len() implies (#[trigger] child.areas[j]).0
                == pre.areas[j].0 && child.areas[j].1.map_type == pre.areas[j].1.map_type
                && child.areas[j].1.map_perm == pre.areas[j].1.map_perm
                && child.areas[j].1.data_frames.len() == pre.areas[j].1.data_frames.len() by {
                assert((cdone.areas[j]).0 == pre.areas[j].0);
                assert(child.areas[j] == cdone.areas[j]);
            }
            assert forall|j: int, l: int|
                #![trigger child.page_table.translate(entry_vpn(pre, j, l))]
                0 <= j < pre.areas.len() && pre.entry_some(j, l) implies {
                let v2 = entry_vpn(pre, j, l);
                &&& (child.page_table.translate(v2)) is Some
                &&& (child.page_table.translate(v2))->0.spec_ppn() == pre.entry_ppn(j, l)
                &&& (child.page_table.translate(v2))->0.spec_flags() == (fork_flags(
                    pre.areas[j].1.map_perm.0,
                ) | PTE_VALID)
            } by {
                let v2 = entry_vpn(pre, j, l);
                assert(cdone.page_table.translate(v2) is Some);
                assert(child.page_table.translate(v2) == cdone.page_table.translate(v2));
            }
            assert forall|v: u64|
                vpn_canon(v as int) && !(exists|j: int, l: int|
                    0 <= j < pre.areas.len() && #[trigger] pre.entry_some(j, l) && vpn_start_of(
                        pre.areas[j].0,
                    ) + l == v) implies !(#[trigger] child.page_table.mapped(VPN(v))) by {
                assert(!cdone.page_table.mapped(VPN(v)));
                assert(child.page_table.translate(VPN(v)) == cdone.page_table.translate(VPN(v)));
            }
            assert forall|x: int| 256 <= x < 512 implies (#[trigger] child.page_table.root[x])
                == kernel.root[x] by {
                assert(cdone.page_table.root[x] == kernel.root[x]);
                assert(child.page_table == cdone.page_table);
            }
            pre.lemma_wf_alloc_evolution(a0, *alc);
        }
        self.cow_protect(alc);
        proof {
            lemma_fork_child_finish(pre, child, a0, *alc);
            assert(pre.frames_upto(n as int) == pre.total_frames());
            assert forall|j: int, l: int|
                #![trigger child.entry_some(j, l)]
                0 <= j < pre.areas.len() && 0 <= l < pre.areas[j].1.data_frames.len() implies ((
            child.entry_some(j, l) <==> pre.entry_some(j, l)) && (pre.entry_some(j, l)
                ==> child.entry_ppn(j, l) == pre.entry_ppn(j, l))) by {
                assert(cdone.entry_some(j, l) <==> pre.entry_some(j, l));
                assert(child.entry_some(j, l) == cdone.entry_some(j, l));
                if pre.entry_some(j, l) {
                    assert(child.entry_ppn(j, l) == cdone.entry_ppn(j, l));
                }
            }
            assert forall|j: int, l: int|
                #![trigger self.page_table.translate(entry_vpn(pre, j, l))]
                pre.entry_some(j, l) implies {
                let v = entry_vpn(pre, j, l);
                &&& (self.page_table.translate(v)) is Some
                &&& (self.page_table.translate(v))->0.spec_ppn() == pre.entry_ppn(j, l)
                &&& (self.page_table.translate(v))->0.spec_flags() == (fork_flags(
                    pre.areas[j].1.map_perm.0,
                ) | PTE_VALID)
            } by {
                let v = entry_vpn(pre, j, l);
                assert(pre.area_ok(a0, j));
                assert(pre.frame_entry_ok(a0, j, l));
                lemma_range_canon_elem(
                    vpn_start_of(pre.areas[j].0),
                    vpn_end_of(pre.areas[j].0),
                    v.0 as int,
                );
                assert(pre.page_table.translate(VPN(v.0)) is Some);
                assert(self.page_table.translate(VPN(v.0)) is Some);
                assert((self.page_table.translate(VPN(v.0)))->0.spec_ppn() == (
                pre.page_table.translate(VPN(v.0))->0).spec_ppn());
                assert((self.page_table.translate(
                    VPN((vpn_start_of(pre.areas[j].0) + l) as u64),
                ))->0.spec_flags() == (fork_flags(pre.areas[j].1.map_perm.0) | PTE_VALID));
                assert(v == VPN(v.0));
            }
            assert forall|q: u64| pre.holds_frame(q) implies #[trigger] alc.refcount(q)
                == a0.refcount(q) + 1 by {
                let (j, l) = choose|j: int, l: int|
                    pre.entry_some(j, l) && #[trigger] pre.entry_ppn(j, l) == q;
                assert(0 <= j < n && pre.entry_some(j, l) && pre.entry_ppn(j, l) == q);
            }
            assert forall|q: u64| a0.live(q) && !pre.holds_frame(q) implies #[trigger] alc
                .refcount(q) == a0.refcount(q) by {
                assert(!(exists|j: int, l: int|
                    0 <= j < n && #[trigger] pre.entry_some(j, l) && pre.entry_ppn(j, l) == q))
                    by {
                    assert forall|j: int, l: int|
                        0 <= j < n && #[trigger] pre.entry_some(j, l) implies pre.entry_ppn(j, l)
                        != q by {
                        if pre.entry_ppn(j, l) == q {
                            assert(pre.holds_frame(q));
                        }
                    }
                }
            }
        }
        Some(child)
    }
}

/// Assemble the child's invariant at the end of fork: its areas mirror
/// the parent's, every recorded frame is shared (one more holder) and
/// mapped in the child under the fork form of its area's permissions, and
/// nothing else is mapped.
#[verifier::rlimit(100)]
#[verifier::spinoff_prover]
proof fn lemma_fork_child_finish(
    pre: AddressSpace,
    child: AddressSpace,
    a0: FrameAllocator,
    a1: FrameAllocator,
)
    requires
        pre.wf(a0),
        forall|x: int| 0 <= x < pre.areas.len() ==> (#[trigger] pre.areas[x].1.map_type) is Framed,
        forall|x: int|
            0 <= x < pre.areas.len() ==> vpn_end_of(#[trigger] pre.areas[x].0) <= USER_VPN_LIMIT,
        forall|x: int|
            0 <= x < pre.areas.len() && (#[trigger] pre.areas[x].1.map_perm.0) & PTE_WRITABLE != 0
                ==> pre.areas[x].1.map_perm.0 & 0xa != 0,
        child.page_table.wf(),
        child.page_table.user_half_owned(),
        child.areas.len() == pre.areas.len(),
        forall|j: int|
            0 <= j < pre.areas.len() ==> (#[trigger] child.areas[j]).0 == pre.areas[j].0
                && child.areas[j].1.map_type == pre.areas[j].1.map_type
                && child.areas[j].1.map_perm == pre.areas[j].1.map_perm
                && child.areas[j].1.data_frames.len() == pre.areas[j].1.data_frames.len(),
        forall|j: int, l: int|
            #![trigger child.entry_some(j, l)]
            0 <= j < pre.areas.len() && 0 <= l < pre.areas[j].1.data_frames.len() ==> (
            child.entry_some(j, l) <==> pre.entry_some(j, l)) && (pre.entry_some(j, l)
                ==> child.entry_ppn(j, l) == pre.entry_ppn(j, l)),
        forall|j: int, l: int|
            #![trigger child.page_table.translate(entry_vpn(pre, j, l))]
            0 <= j < pre.areas.len() && pre.entry_some(j, l) ==> {
                let v = entry_vpn(pre, j, l);
                &&& (child.page_table.translate(v)) is Some
                &&& (child.page_table.translate(v))->0.spec_ppn() == pre.entry_ppn(j, l)
                &&& (child.page_table.translate(v))->0.spec_flags() == (fork_flags(
                    pre.areas[j].1.map_perm.0,
                ) | PTE_VALID)
            },
        forall|v: u64|
            vpn_canon(v as int) && !(exists|j: int, l: int|
                0 <= j < pre.areas.len() && #[trigger] pre.entry_some(j, l) && vpn_start_of(
                    pre.areas[j].0,
                ) + l == v) ==> !(#[trigger] child.page_table.mapped(VPN(v))),
        forall|q: u64|
            (exists|j: int, l: int|
                0 <= j < pre.areas.len() && #[trigger] pre.entry_some(j, l) && pre.entry_ppn(j, l)
                    == q) ==> #[trigger] a1.refcount(q) == a0.refcount(q) + 1,
        a1.wf(),
        child.data_segment_end == pre.data_segment_end,
        child.data_segment_max == pre.data_segment_max,
    ensures
        child.wf(a1),
{
    let n = pre.areas.len() as int;
    assert forall|x: int, y: int| 0 <= x < y < n implies vpn_end_of(#[trigger] child.areas[x].0)
        <= vpn_start_of(#[trigger] child.areas[y].0) by {
        assert(vpn_end_of(pre.areas[x].0) <= vpn_start_of(pre.areas[y].0));
    }
    assert forall|j: int| 0 <= j < n implies #[trigger] child.area_ok(a1, j) by {
        assert(pre.area_ok(a0, j));
        let rng = pre.areas[j].0;
        let p = pre.areas[j].1.map_perm.0;
        assert forall|l: int| 0 <= l < child.areas[j].1.data_frames.len() implies #[trigger] child
            .frame_entry_ok(a1, j, l) by {
            assert(pre.frame_entry_ok(a0, j, l));
            let v = (vpn_start_of(rng) + l) as u64;
            lemma_range_canon_elem(vpn_start_of(rng), vpn_end_of(rng), v as int);
            if pre.entry_some(j, l) {
                assert(child.entry_some(j, l));
                assert(child.entry_ppn(j, l) == pre.entry_ppn(j, l));
                assert(entry_vpn(pre, j, l).0 == v);
                assert(child.page_table.translate(entry_vpn(pre, j, l)) is Some);
                assert(child.page_table.translate(VPN(v)) is Some);
                assert(a1.refcount(pre.entry_ppn(j, l)) == a0.refcount(pre.entry_ppn(j, l)) + 1);
                assert(a0.live(pre.entry_ppn(j, l)));
                let f1 = (child.page_table.translate(VPN(v)))->0.spec_flags();
                assert(f1 == (fork_flags(p) | PTE_VALID));
                assert(area_flags_ok(f1, p)) by {
                    if p & PTE_WRITABLE != 0 || p & PTE_COW != 0 {
                        assert(p & PTE_COW == 0);
                        assert(f1 == cow_word_flags(p));
                    } else {
                        assert(f1 == plain_word_flags(p));
                    }
                }
            } else {
                assert(!child.entry_some(j, l));
                assert(!(exists|j2: int, l2: int|
                    0 <= j2 < n && #[trigger] pre.entry_some(j2, l2) && vpn_start_of(
                        pre.areas[j2].0,
                    ) + l2 == v)) by {
                    assert forall|j2: int, l2: int|
                        0 <= j2 < n && #[trigger] pre.entry_some(j2, l2) implies vpn_start_of(
                        pre.areas[j2].0,
                    ) + l2 != v by {
                        assert(pre.area_ok(a0, j2));
                        if j2 < j {
                            assert(vpn_end_of(pre.areas[j2].0) <= vpn_start_of(pre.areas[j].0));
                        } else if j2 > j {
                            assert(vpn_end_of(pre.areas[j].0) <= vpn_start_of(pre.areas[j2].0));
                        }
                    }
                }
                assert(!child.page_table.mapped(VPN(v)));
            }
        }
        assert forall|v: int| vpn_start_of(rng) <= v < vpn_end_of(rng) implies #[trigger] child
            .page_table.slot_owned(VPN(v as u64).spec_idx0() as int) by {
            crate::page_table::lemma_idx_bounds(VPN(v as u64));
            lemma_range_canon_elem(vpn_start_of(rng), vpn_end_of(rng), v);
            assert(v < USER_VPN_LIMIT);
            lemma_user_vpn_idx0(v as u64);
        }
    }
    assert forall|v: u64| vpn_canon(v as int) && !child.covered_vpn(v as int) implies !(
    #[trigger] child.page_table.mapped(VPN(v))) by {
        assert(!(exists|j: int, l: int|
            0 <= j < n && #[trigger] pre.entry_some(j, l) && vpn_start_of(pre.areas[j].0) + l
                == v)) by {
            assert forall|j: int, l: int|
                0 <= j < n && #[trigger] pre.entry_some(j, l) implies vpn_start_of(pre.areas[j].0)
                + l != v by {
                assert(pre.area_ok(a0, j));
                if vpn_start_of(pre.areas[j].0) + l == v {
                    assert(vpn_start_of(child.areas[j].0) <= (v as int) < vpn_end_of(
                        child.areas[j].0,
                    ));
                }
            }
        }
    }
    assert forall|i: int, k: int, j: int, l: int|
        child.entry_some(i, k) && child.entry_some(j, l) && (i != j || k != l) implies #[trigger]
        child.entry_ppn(i, k) != #[trigger] child.entry_ppn(j, l) by {
        assert(pre.entry_some(i, k) && pre.entry_some(j, l));
        assert(pre.entry_ppn(i, k) != pre.entry_ppn(j, l));
        assert(child.entry_ppn(i, k) == pre.entry_ppn(i, k));
        assert(child.entry_ppn(j, l) == pre.entry_ppn(j, l));
    }
}

/// The frame count over a prefix of the areas grows with the prefix.
proof fn lemma_frames_upto_mono(s: AddressSpace, a: int, b: int)
    requires
        0 <= a <= b,
    ensures
        s.frames_upto(a) <= s.frames_upto(b),
    decreases b - a,
{
    if a < b {
        lemma_frames_upto_mono(s, a, b - 1);
    }
}

impl AddressSpace {
    /// Grow or move the program break, as `sys_brk` asks.
    ///
    /// `addr == 0` reports the page-aligned end of the data segment.
    /// An address beyond the ceiling `data_segment_max` fails with -1.
    /// Growing past the mapped boundary allocates and maps each new page
    /// with the data area's permissions, zero-filled; when the allocator
    /// cannot reserve three frames per new page this fails with -12 and
    /// changes nothing. Otherwise the break moves to `addr` (shrinking
    /// unmaps nothing) and the new page-aligned end is returned.
    pub fn brk(&mut self, addr: VA, alc: &mut FrameAllocator) -> (r: i64)
        requires
            old(self).wf(*old(alc)),
            old(self).data_segment_end >= 1,
            old(self).data_segment_max % PAGE_SIZE == 0,
            old(self).data_segment_max < crate::config::USER_VA_LIMIT,
            old(self).covered_va(VA((old(self).data_segment_end - 1) as u64)),
            forall|i: int|
                0 <= i < old(self).areas.len() && (#[trigger] old(self).areas[i].0).spec_contains(
                    VA((old(self).data_segment_end - 1) as u64),
                ) ==> old(self).areas[i].1.map_type is Framed && old(self).areas[i].0.0.end.0 <= old(self).data_segment_max,
            forall|i: int|
                0 <= i < old(self).areas.len() && (#[trigger] old(self).areas[i].0).0.start.0
                    >= old(self).data_segment_end ==> vpn_start_of(old(self).areas[i].0) >= old(self).data_segment_max / PAGE_SIZE,
        ensures
            final(self).wf(*final(alc)),
            final(self).data_segment_max == old(self).data_segment_max,
            addr.0 == 0 ==> r == crate::address::spec_page_up(old(self).data_segment_end)
                && *final(self) == *old(self) && *final(alc) == *old(alc),
            addr.0 > old(self).data_segment_max ==> r == -1 && *final(self) == *old(self) && *final(alc) == *old(alc),
            r == -12 ==> *final(self) == *old(self) && *final(alc) == *old(alc),
            r == -12 <==> (addr.0 != 0 && addr.0 <= old(self).data_segment_max && exists|di: int|
                #![auto]
                {
                    &&& 0 <= di < old(self).areas.len()
                    &&& old(self).areas[di].0.spec_contains(
                        VA((old(self).data_segment_end - 1) as u64),
                    )
                    &&& crate::address::spec_page_up(addr.0) > crate::address::spec_page_up(
                        old(self).areas[di].0.0.end.0,
                    )
                    &&& old(alc).avail() < 3 * ((crate::address::spec_page_up(addr.0)
                        - crate::address::spec_page_up(old(self).areas[di].0.0.end.0)) / (
                    PAGE_SIZE as int))
                }),
            (addr.0 != 0 && addr.0 <= old(self).data_segment_max && r != -12) ==> {
                &&& r == crate::address::spec_page_up(addr.0)
                &&& final(self).data_segment_end == addr.0
                &&& exists|di: int|
                    #![auto]
                    {
                        &&& 0 <= di < old(self).areas.len()
                        &&& old(self).areas[di].0.spec_contains(
                            VA((old(self).data_segment_end - 1) as u64),
                        )
                        &&& forall|v: int|
                            crate::address::spec_page_up(old(self).areas[di].0.0.end.0) / (
                            PAGE_SIZE as int) <= v < crate::address::spec_page_up(addr.0) / (
                            PAGE_SIZE as int) ==> {
                                let t = final(self).page_table.translate(VPN(v as u64));
                                &&& (#[trigger] final(self).page_table.mapped(VPN(v as u64)))
                                &&& t->0.spec_flags() == plain_word_flags(
                                    old(self).areas[di].1.map_perm.0,
                                )
                                &&& forall|o: int|
                                    0 <= o < PAGE_SIZE ==> final(alc).frame_bytes(
                                        t->0.spec_ppn(),
                                    )[o] == 0
                            }
                        &&& forall|v: u64|
                            vpn_canon(v as int) && !(crate::address::spec_page_up(
                                old(self).areas[di].0.0.end.0,
                            ) / (PAGE_SIZE as int) <= v < crate::address::spec_page_up(addr.0)
                                / (PAGE_SIZE as int))
                                ==> #[trigger] final(self).page_table.translate(VPN(v)) == old(self).page_table.translate(VPN(v))
                    }
            },
            forall|q: u64|
                old(alc).live(q) ==> final(alc).refcount(q) == old(alc).refcount(q) && final(alc).frame_bytes(q) == old(alc).frame_bytes(q),
    {
        if addr.0 == 0 {
            let e = page_up(self.data_segment_end);
            proof {
                assert(e as i64 != -12i64);
            }
            return e as i64;
        }
        if addr.0 > self.data_segment_max {
            return -1;
        }
        let di = match self.find_area(VA(self.data_segment_end - 1)) {
            Some(i) => i,
            None => {
                proof {
                    assert(false);
                }
                return -1;
            },
        };
        let ghost gdi = di as int;
        let ae: u64 = self.areas[di].0.0.end.0;
        let b: u64 = page_up(ae);
        let perm = self.areas[di].1.map_perm;
        let e2: u64 = page_up(addr.0);
        proof {
            assert(old(self).area_ok(*old(alc), gdi));
            assert(b % PAGE_SIZE == 0);
            assert(vpn_end_of(old(self).areas[gdi].0) == (b as int) / (PAGE_SIZE as int)) by {
                assert(b == ((ae + PAGE_SIZE - 1) / (PAGE_SIZE as int)) * PAGE_SIZE);
                vstd::arithmetic::div_mod::lemma_fundamental_div_mod_converse(
                    b as int,
                    PAGE_SIZE as int,
                    (ae + PAGE_SIZE - 1) / (PAGE_SIZE as int),
                    0,
                );
            }
            assert(b <= old(self).data_segment_max) by {
                vstd::arithmetic::div_mod::lemma_div_is_ordered(
                    (ae + PAGE_SIZE - 1) as int,
                    (old(self).data_segment_max + PAGE_SIZE - 1) as int,
                    PAGE_SIZE as int,
                );
                vstd::arithmetic::div_mod::lemma_fundamental_div_mod_converse(
                    (old(self).data_segment_max + PAGE_SIZE - 1) as int,
                    PAGE_SIZE as int,
                    old(self).data_segment_max as int / PAGE_SIZE as int,
                    PAGE_SIZE as int - 1,
                );
                assert((old(self).data_segment_max + PAGE_SIZE - 1) / (PAGE_SIZE as int) == old(
                    self,
                ).data_segment_max as int / (PAGE_SIZE as int));
                vstd::arithmetic::div_mod::lemma_fundamental_div_mod(
                    old(self).data_segment_max as int,
                    PAGE_SIZE as int,
                );
                assert(b == ((ae + PAGE_SIZE - 1) / (PAGE_SIZE as int)) * PAGE_SIZE);
                let qa = (ae + PAGE_SIZE - 1) / (PAGE_SIZE as int);
                let qm = old(self).data_segment_max as int / (PAGE_SIZE as int);
                assert(qa <= qm);
                assert(qa * PAGE_SIZE <= qm * PAGE_SIZE) by (nonlinear_arith)
                    requires
                        qa <= qm,
                        PAGE_SIZE == 4096,
                ;
            }
            assert(e2 % PAGE_SIZE == 0);
            assert(e2 <= old(self).data_segment_max) by {
                assert(addr.0 <= old(self).data_segment_max);
                vstd::arithmetic::div_mod::lemma_div_is_ordered(
                    addr.0 + PAGE_SIZE - 1,
                    old(self).data_segment_max + PAGE_SIZE - 1,
                    PAGE_SIZE as int,
                );
                assert(old(self).data_segment_max + PAGE_SIZE - 1 == old(self).data_segment_max
                    + (PAGE_SIZE - 1));
                vstd::arithmetic::div_mod::lemma_fundamental_div_mod_converse(
                    (old(self).data_segment_max + PAGE_SIZE - 1) as int,
                    PAGE_SIZE as int,
                    old(self).data_segment_max as int / PAGE_SIZE as int,
                    PAGE_SIZE as int - 1,
                );
            }
        }
        proof {
            assert(e2 as i64 != -12i64) by {
                assert(e2 < crate::config::USER_VA_LIMIT);
            }
        }
        if e2 > b {
            proof {
                lemma_aligned_range_pages(b, e2);
                let rng2 = VARangeOrd(crate::address::VARange { start: VA(b), end: VA(e2) });
                let s2 = vpn_start_of(rng2);
                let t2 = vpn_end_of(rng2);
                assert(s2 == b as int / PAGE_SIZE as int && t2 == e2 as int / PAGE_SIZE as int);
                assert(s2 < t2) by {
                    vstd::arithmetic::div_mod::lemma_fundamental_div_mod(
                        b as int,
                        PAGE_SIZE as int,
                    );
                    vstd::arithmetic::div_mod::lemma_fundamental_div_mod(
                        e2 as int,
                        PAGE_SIZE as int,
                    );
                }
                assert(t2 <= old(self).data_segment_max / PAGE_SIZE) by {
                    vstd::arithmetic::div_mod::lemma_div_is_ordered(
                        e2 as int,
                        old(self).data_segment_max as int,
                        PAGE_SIZE as int,
                    );
                }
                assert(t2 <= USER_VPN_LIMIT) by {
                    vstd::arithmetic::div_mod::lemma_div_is_ordered(
                        e2 as int,
                        crate::config::USER_VA_LIMIT as int,
                        PAGE_SIZE as int,
                    );
                }
                assert(range_canon(s2, t2));
                assert(self.range_free(s2, t2)) by {
                    assert forall|j: int|
                        0 <= j < self.areas.len() implies vpn_end_of(#[trigger] self.areas[j].0)
                        <= s2 || t2 <= vpn_start_of(self.areas[j].0) by {
                        assert(self.area_ok(*alc, j));
                        if j == gdi {
                            assert(vpn_end_of(self.areas[j].0) == b as int / PAGE_SIZE as int);
                        } else if j < gdi {
                            assert(vpn_end_of(self.areas[j].0) <= vpn_start_of(
                                self.areas[gdi].0,
                            ));
                            assert(vpn_start_of(self.areas[gdi].0) <= vpn_end_of(
                                self.areas[gdi].0,
                            )) by {
                                vstd::arithmetic::div_mod::lemma_div_is_ordered(
                                    self.areas[gdi].0.0.start.0 as int,
                                    (self.areas[gdi].0.0.end.0 + PAGE_SIZE - 1) as int,
                                    PAGE_SIZE as int,
                                );
                            }
                            assert(vpn_end_of(self.areas[gdi].0) == b as int
                                / PAGE_SIZE as int);
                        } else {
                            assert(vpn_end_of(self.areas[gdi].0) <= vpn_start_of(
                                self.areas[j].0,
                            ));
                            assert(vpn_end_of(self.areas[gdi].0) == b as int
                                / PAGE_SIZE as int);
                            assert(self.areas[j].0.0.start.0 >= vpn_start_of(self.areas[j].0)
                                * PAGE_SIZE) by {
                                vstd::arithmetic::div_mod::lemma_fundamental_div_mod(
                                    self.areas[j].0.0.start.0 as int,
                                    PAGE_SIZE as int,
                                );
                            }
                            assert(vpn_start_of(self.areas[j].0) * PAGE_SIZE >= (b as int
                                / PAGE_SIZE as int) * PAGE_SIZE) by (nonlinear_arith)
                                requires
                                    vpn_start_of(self.areas[j].0) >= b as int / PAGE_SIZE as int,
                                    PAGE_SIZE == 4096,
                            ;
                            assert((b as int / PAGE_SIZE as int) * PAGE_SIZE == b) by {
                                vstd::arithmetic::div_mod::lemma_fundamental_div_mod(
                                    b as int,
                                    PAGE_SIZE as int,
                                );
                            }
                            assert(self.areas[j].0.0.start.0 >= old(self).data_segment_end);
                            assert(vpn_start_of(self.areas[j].0) >= old(self).data_segment_max
                                / PAGE_SIZE);
                        }
                    }
                }
                assert(self.range_slots_owned(s2, t2)) by {
                    assert forall|v: int| s2 <= v < t2 implies self.page_table.slot_owned(
                        (#[trigger] VPN(v as u64).spec_idx0()) as int,
                    ) by {
                        assert(v < USER_VPN_LIMIT);
                        lemma_user_vpn_idx0(v as u64);
                        crate::page_table::lemma_idx_bounds(VPN(v as u64));
                    }
                }
            }
            let ok = self.insert_framed_area(
                crate::address::VARange { start: VA(b), end: VA(e2) },
                perm,
                None,
                alc,
            );
            proof {
                assert((e2 as int) / (PAGE_SIZE as int) - (b as int) / (PAGE_SIZE as int) == ((
                e2 - b) as int) / (PAGE_SIZE as int)) by {
                    vstd::arithmetic::div_mod::lemma_fundamental_div_mod(
                        b as int,
                        PAGE_SIZE as int,
                    );
                    vstd::arithmetic::div_mod::lemma_fundamental_div_mod(
                        e2 as int,
                        PAGE_SIZE as int,
                    );
                    let qb = (b as int) / (PAGE_SIZE as int);
                    let qe = (e2 as int) / (PAGE_SIZE as int);
                    vstd::arithmetic::div_mod::lemma_fundamental_div_mod_converse(
                        (e2 - b) as int,
                        PAGE_SIZE as int,
                        qe - qb,
                        0,
                    );
                }
            }
            if !ok {
                proof {
                    assert forall|dj: int|
                        0 <= dj < old(self).areas.len() && #[trigger] old(
                            self,
                        ).areas[dj].0.spec_contains(
                            VA((old(self).data_segment_end - 1) as u64),
                        ) implies dj == gdi by {
                        old(self).lemma_covering_unique(
                            *old(alc),
                            VA((old(self).data_segment_end - 1) as u64),
                            dj,
                            gdi,
                        );
                    }
                }
                return -12;
            }
            proof {
                assert forall|dj: int|
                    0 <= dj < old(self).areas.len() && #[trigger] old(
                        self,
                    ).areas[dj].0.spec_contains(
                        VA((old(self).data_segment_end - 1) as u64),
                    ) implies dj == gdi by {
                    old(self).lemma_covering_unique(
                        *old(alc),
                        VA((old(self).data_segment_end - 1) as u64),
                        dj,
                        gdi,
                    );
                }
            }
        } else {
            proof {
                assert forall|dj: int|
                    0 <= dj < old(self).areas.len() && #[trigger] old(
                        self,
                    ).areas[dj].0.spec_contains(
                        VA((old(self).data_segment_end - 1) as u64),
                    ) implies dj == gdi by {
                    old(self).lemma_covering_unique(
                        *old(alc),
                        VA((old(self).data_segment_end - 1) as u64),
                        dj,
                        gdi,
                    );
                }
            }
        }
        let ghost before_scalar = *self;
        self.data_segment_end = addr.0;
        proof {
            lemma_wf_scalar_change(before_scalar, *self, *alc);
            assert(self.page_table == before_scalar.page_table);
            let s2 = (b as int) / (PAGE_SIZE as int);
            let t2 = crate::address::spec_page_up(addr.0) / (PAGE_SIZE as int);
            assert(crate::address::spec_page_up(addr.0) == e2);
            assert(crate::address::spec_page_up(old(self).areas[gdi].0.0.end.0) == b);
            if e2 > b {
                assert forall|v: int| s2 <= v < t2 implies {
                    let t = self.page_table.translate(VPN(v as u64));
                    &&& (#[trigger] self.page_table.mapped(VPN(v as u64)))
                    &&& t->0.spec_flags() == plain_word_flags(old(self).areas[gdi].1.map_perm.0)
                    &&& forall|o: int|
                        0 <= o < PAGE_SIZE ==> alc.frame_bytes(t->0.spec_ppn())[o] == 0
                } by {
                    assert(inserted_page_ok(
                        before_scalar,
                        *old(alc),
                        *alc,
                        b,
                        data_view(None),
                        perm.0,
                        v,
                    ));
                    assert(before_scalar.page_table.mapped(VPN(v as u64)));
                    assert(self.page_table.translate(VPN(v as u64))
                        == before_scalar.page_table.translate(VPN(v as u64)));
                    assert forall|o: int| 0 <= o < PAGE_SIZE implies #[trigger] alc.frame_bytes(
                        (self.page_table.translate(VPN(v as u64)))->0.spec_ppn(),
                    )[o] == 0 by {
                        assert(alc.frame_bytes(
                            (before_scalar.page_table.translate(VPN(v as u64)))->0.spec_ppn(),
                        )[o] == Self::init_byte(b, data_view(None), v, o));
                    }
                }
                assert forall|v: u64| vpn_canon(v as int) && !(s2 <= v < t2) implies #[trigger]
                    self.page_table.translate(VPN(v)) == old(self).page_table.translate(
                    VPN(v),
                ) by {
                    assert(before_scalar.page_table.translate(VPN(v)) == old(
                        self,
                    ).page_table.translate(VPN(v)));
                }
            } else {
                assert(t2 <= s2) by {
                    vstd::arithmetic::div_mod::lemma_div_is_ordered(
                        e2 as int,
                        b as int,
                        PAGE_SIZE as int,
                    );
                }
                assert forall|v: u64| vpn_canon(v as int) && !(s2 <= v < t2) implies #[trigger]
                    self.page_table.translate(VPN(v)) == old(self).page_table.translate(
                    VPN(v),
                ) by {
                    assert(before_scalar.page_table == old(self).page_table);
                }
            }
        }
        e2 as i64
    }
}

/// The invariant only reads the areas and the page table: changing the
/// break within its ceiling keeps it.
#[verifier::spinoff_prover]
pub proof fn lemma_wf_scalar_change(pre: AddressSpace, post: AddressSpace, alc: FrameAllocator)
    requires
        pre.wf(alc),
        post.areas == pre.areas,
        post.page_table == pre.page_table,
        post.data_segment_end <= post.data_segment_max,
    ensures
        post.wf(alc),
{
    assert forall|i: int| 0 <= i < post.areas.len() implies #[trigger] post.area_ok(alc, i) by {
        assert(pre.area_ok(alc, i));
        assert forall|k: int|
            0 <= k < post.areas[i].1.data_frames.len() implies #[trigger] post.frame_entry_ok(
            alc,
            i,
            k,
        ) by {
            assert(pre.frame_entry_ok(alc, i, k));
        }
        assert forall|v: int|
            vpn_start_of(post.areas[i].0) <= v < vpn_end_of(post.areas[i].0) implies #[trigger]
            post.page_table.slot_owned(VPN(v as u64).spec_idx0() as int) by {
            assert(pre.page_table.slot_owned(VPN(v as u64).spec_idx0() as int));
        }
    }
    assert forall|v: u64| vpn_canon(v as int) && !post.covered_vpn(v as int) implies !(
    #[trigger] post.page_table.mapped(VPN(v))) by {
        assert forall|x: int|
            0 <= x < pre.areas.len() implies !(vpn_start_of(#[trigger] pre.areas[x].0) <= (
        v as int) < vpn_end_of(pre.areas[x].0)) by {
            if vpn_start_of(pre.areas[x].0) <= (v as int) < vpn_end_of(pre.areas[x].0) {
                assert(vpn_start_of(post.areas[x].0) <= (v as int) < vpn_end_of(post.areas[x].0));
            }
        }
        assert(!pre.covered_vpn(v as int));
        assert(!pre.page_table.mapped(VPN(v)));
    }
    assert forall|i: int, k: int, j: int, l: int|
        post.entry_some(i, k) && post.entry_some(j, l) && (i != j || k != l) implies #[trigger]
        post.entry_ppn(i, k) != #[trigger] post.entry_ppn(j, l) by {
        assert(pre.entry_some(i, k) && pre.entry_some(j, l));
        assert(pre.entry_ppn(i, k) != pre.entry_ppn(j, l));
        assert(post.entry_ppn(i, k) == pre.entry_ppn(i, k));
        assert(post.entry_ppn(j, l) == pre.entry_ppn(j, l));
    }
}

/// In a page-aligned range, page numbers and page-multiples line up:
/// the covered pages are exactly `[b / PAGE, e / PAGE)`.
pub proof fn lemma_aligned_range_pages(b: u64, e: u64)
    requires
        b % PAGE_SIZE == 0,
        e % PAGE_SIZE == 0,
        b < e,
    ensures
        vpn_start_of(VARangeOrd(crate::address::VARange { start: VA(b), end: VA(e) })) == (
        b as int) / (PAGE_SIZE as int),
        vpn_end_of(VARangeOrd(crate::address::VARange { start: VA(b), end: VA(e) })) == (
        e as int) / (PAGE_SIZE as int),
{
    assert((e + PAGE_SIZE - 1) / (PAGE_SIZE as int) == (e as int) / (PAGE_SIZE as int)) by {
        vstd::arithmetic::div_mod::lemma_fundamental_div_mod_converse(
            (e + PAGE_SIZE - 1) as int,
            PAGE_SIZE as int,
            e as int / PAGE_SIZE as int,
            PAGE_SIZE as int - 1,
        );
        vstd::arithmetic::div_mod::lemma_fundamental_div_mod(e as int, PAGE_SIZE as int);
    }
}

impl AddressSpace {
    /// Pick a free user region for a new stack: the returned address is
    /// the exclusive end of a page-aligned range `[end - size, end)` that
    /// lies above the break ceiling, keeps a one-page guard before and
    /// after, and overlaps no existing area. The areas are scanned in
    /// sorted order, advancing past each conflict.
    pub fn alloc_user_area(&self, size: u64) -> (r: VA)
        requires
            forall|i: int, j: int|
                0 <= i < j < self.areas.len() ==> vpn_end_of(#[trigger] self.areas[i].0)
                    <= vpn_start_of(#[trigger] self.areas[j].0),
            forall|i: int| 0 <= i < self.areas.len() ==> (#[trigger] self.areas[i].0).wf(),
            forall|i: int|
                0 <= i < self.areas.len() ==> (#[trigger] self.areas[i].0).0.end.0
                    <= crate::config::USER_VA_LIMIT,
            size % PAGE_SIZE == 0,
            0 < size <= crate::config::USER_VA_LIMIT,
            self.data_segment_max % PAGE_SIZE == 0,
            self.data_segment_max <= crate::config::USER_VA_LIMIT,
        ensures
            r.0 % PAGE_SIZE == 0,
            r.0 >= self.data_segment_max + PAGE_SIZE + size,
            r.0 <= 2 * crate::config::USER_VA_LIMIT + PAGE_SIZE + size,
            (forall|i: int|
                0 <= i < self.areas.len() ==> (#[trigger] self.areas[i].0).0.end.0
                    <= self.data_segment_max) ==> r.0 + PAGE_SIZE <= self.data_segment_max + size
                + 2 * PAGE_SIZE,
            forall|i: int|
                0 <= i < self.areas.len() ==> (#[trigger] self.areas[i].0).0.end.0 <= r.0 - size
                    - PAGE_SIZE || r.0 + PAGE_SIZE <= self.areas[i].0.0.start.0,
    {
        let size2: u64 = size + 2 * PAGE_SIZE;
        let mut cand_end: u64 = self.data_segment_max + size2;
        let mut i: usize = 0;
        while i < self.areas.len()
            invariant
                forall|x: int, y: int|
                    0 <= x < y < self.areas.len() ==> vpn_end_of(#[trigger] self.areas[x].0)
                        <= vpn_start_of(#[trigger] self.areas[y].0),
                forall|x: int| 0 <= x < self.areas.len() ==> (#[trigger] self.areas[x].0).wf(),
                forall|x: int|
                    0 <= x < self.areas.len() ==> (#[trigger] self.areas[x].0).0.end.0
                        <= crate::config::USER_VA_LIMIT,
                size % PAGE_SIZE == 0,
                0 < size <= crate::config::USER_VA_LIMIT,
                self.data_segment_max % PAGE_SIZE == 0,
                self.data_segment_max <= crate::config::USER_VA_LIMIT,
                size2 == size + 2 * PAGE_SIZE,
                i <= self.areas.len(),
                cand_end % PAGE_SIZE == 0,
                cand_end >= self.data_segment_max + size2,
                cand_end <= 2 * crate::config::USER_VA_LIMIT + size2,
                (forall|i: int|
                    0 <= i < self.areas.len() ==> (#[trigger] self.areas[i].0).0.end.0
                        <= self.data_segment_max) ==> cand_end <= self.data_segment_max + size2,
                forall|x: int|
                    0 <= x < i ==> (#[trigger] self.areas[x].0).0.end.0 <= cand_end - size2,
            decreases self.areas.len() - i,
        {
            if cand_end <= self.areas[i].0.0.start.0 {
                proof {
                    assert forall|x: int|
                        0 <= x < self.areas.len() implies (#[trigger] self.areas[x].0).0.end.0
                        <= cand_end - size2 || cand_end <= self.areas[x].0.0.start.0 by {
                        if i as int <= x {
                            lemma_sorted_starts(self, i as int, x);
                        }
                    }
                }
                return VA(cand_end - PAGE_SIZE);
            }
            let e = self.areas[i].0.0.end.0;
            let eup = page_up(e);
            if eup + size2 > cand_end {
                cand_end = eup + size2;
            }
            proof {
                if forall|x: int|
                    0 <= x < self.areas.len() ==> (#[trigger] self.areas[x].0).0.end.0
                        <= self.data_segment_max {
                    assert(e <= self.data_segment_max);
                    assert(eup <= self.data_segment_max) by {
                        vstd::arithmetic::div_mod::lemma_div_is_ordered(
                            (e + PAGE_SIZE - 1) as int,
                            (self.data_segment_max + PAGE_SIZE - 1) as int,
                            PAGE_SIZE as int,
                        );
                        vstd::arithmetic::div_mod::lemma_fundamental_div_mod_converse(
                            (self.data_segment_max + PAGE_SIZE - 1) as int,
                            PAGE_SIZE as int,
                            self.data_segment_max as int / (PAGE_SIZE as int),
                            PAGE_SIZE as int - 1,
                        );
                        vstd::arithmetic::div_mod::lemma_fundamental_div_mod(
                            self.data_segment_max as int,
                            PAGE_SIZE as int,
                        );
                        let qe = (e + PAGE_SIZE - 1) / (PAGE_SIZE as int);
                        let qm = self.data_segment_max as int / (PAGE_SIZE as int);
                        assert(qe * PAGE_SIZE <= qm * PAGE_SIZE) by (nonlinear_arith)
                            requires
                                qe <= qm,
                                PAGE_SIZE == 4096,
                        ;
                    }
                }
            }
            proof {
                assert forall|x: int| 0 <= x < i + 1 implies (#[trigger] self.areas[x].0).0.end.0
                    <= cand_end - size2 by {
                    if x < i {
                        lemma_sorted_starts(self, x, i as int);
                        assert(self.areas[x].0.0.end.0 <= vpn_end_of(self.areas[x].0)
                            * PAGE_SIZE) by {
                            vstd::arithmetic::div_mod::lemma_fundamental_div_mod(
                                (self.areas[x].0.0.end.0 + PAGE_SIZE - 1) as int,
                                PAGE_SIZE as int,
                            );
                        }
                        assert(vpn_end_of(self.areas[x].0) * PAGE_SIZE <= vpn_start_of(
                            self.areas[i as int].0,
                        ) * PAGE_SIZE) by (nonlinear_arith)
                            requires
                                vpn_end_of(self.areas[x].0) <= vpn_start_of(
                                    self.areas[i as int].0,
                                ),
                                PAGE_SIZE == 4096,
                        ;
                        assert(vpn_start_of(self.areas[i as int].0) * PAGE_SIZE
                            <= self.areas[i as int].0.0.start.0) by {
                            vstd::arithmetic::div_mod::lemma_fundamental_div_mod(
                                self.areas[i as int].0.0.start.0 as int,
                                PAGE_SIZE as int,
                            );
                        }
                    }
                }
            }
            i = i + 1;
        }
        VA(cand_end - PAGE_SIZE)
    }
}

/// In a sorted area list, an address before one area's start is before
/// every later area's start.
proof fn lemma_sorted_starts(s: &AddressSpace, i: int, x: int)
    requires
        forall|a: int, b: int|
            0 <= a < b < s.areas.len() ==> vpn_end_of(#[trigger] s.areas[a].0) <= vpn_start_of(
                #[trigger] s.areas[b].0,
            ),
        forall|a: int| 0 <= a < s.areas.len() ==> (#[trigger] s.areas[a].0).wf(),
        0 <= i <= x < s.areas.len(),
    ensures
        s.areas[i].0.0.start.0 <= s.areas[x].0.0.start.0,
{
    if i < x {
        assert(vpn_end_of(s.areas[i].0) <= vpn_start_of(s.areas[x].0));
        assert(vpn_start_of(s.areas[i].0) <= vpn_end_of(s.areas[i].0)) by {
            vstd::arithmetic::div_mod::lemma_div_is_ordered(
                s.areas[i].0.0.start.0 as int,
                (s.areas[i].0.0.end.0 + PAGE_SIZE - 1) as int,
                PAGE_SIZE as int,
            );
        }
        assert(s.areas[i].0.0.start.0 < vpn_end_of(s.areas[i].0) * PAGE_SIZE) by {
            vstd::arithmetic::div_mod::lemma_fundamental_div_mod(
                s.areas[i].0.0.start.0 as int,
                PAGE_SIZE as int,
            );
            assert(vpn_start_of(s.areas[i].0) * PAGE_SIZE <= s.areas[i].0.0.start.0
                < (vpn_start_of(s.areas[i].0) + 1) * PAGE_SIZE) by (nonlinear_arith)
                requires
                    vpn_start_of(s.areas[i].0) == s.areas[i].0.0.start.0 as int / (
                    PAGE_SIZE as int),
                    PAGE_SIZE == 4096,
            ;
            assert((vpn_start_of(s.areas[i].0) + 1) * PAGE_SIZE <= vpn_end_of(s.areas[i].0)
                * PAGE_SIZE) by (nonlinear_arith)
                requires
                    vpn_start_of(s.areas[i].0) + 1 <= vpn_end_of(s.areas[i].0),
                    PAGE_SIZE == 4096,
            ;
            assert(vpn_start_of(s.areas[i].0) < vpn_end_of(s.areas[i].0)) by {
                vstd::arithmetic::div_mod::lemma_div_is_ordered(
                    (s.areas[i].0.0.start.0 + 1) as int,
                    (s.areas[i].0.0.end.0 + PAGE_SIZE - 1) as int,
                    PAGE_SIZE as int,
                );
                vstd::arithmetic::div_mod::lemma_div_plus_one(
                    s.areas[i].0.0.start.0 as int,
                    PAGE_SIZE as int,
                );
            }
        }
        assert(vpn_end_of(s.areas[i].0) * PAGE_SIZE <= vpn_start_of(s.areas[x].0) * PAGE_SIZE)
            by (nonlinear_arith)
            requires
                vpn_end_of(s.areas[i].0) <= vpn_start_of(s.areas[x].0),
                PAGE_SIZE == 4096,
        ;
        assert(vpn_start_of(s.areas[x].0) * PAGE_SIZE <= s.areas[x].0.0.start.0) by {
            vstd::arithmetic::div_mod::lemma_fundamental_div_mod(
                s.areas[x].0.0.start.0 as int,
                PAGE_SIZE as int,
            );
        }
    }
}

/// Copy into one live frame the bytes of `data` that fall inside the page
/// starting at address `page_base`, when the data itself starts at address
/// `start`; the rest of the frame keeps its contents.
fn fill_page(alc: &mut FrameAllocator, p: crate::address::PPN, page_base: u64, start: u64, data: &Vec<
    u8>)
    requires
        old(alc).wf(),
        old(alc).live(p.0),
        page_base + PAGE_SIZE <= u64::MAX,
        start + data@.len() <= u64::MAX,
        old(alc).frame_bytes(p.0).len() == PAGE_SIZE,
    ensures
        final(alc).wf(),
        final(alc).spec_base() == old(alc).spec_base(),
        final(alc).spec_end() == old(alc).spec_end(),
        final(alc).avail() == old(alc).avail(),
        forall|q: u64| final(alc).refcount(q) == old(alc).refcount(q),
        forall|q: u64| final(alc).tracked_frame(q) == old(alc).tracked_frame(q),
        forall|q: u64|
            q != p.0 && old(alc).tracked_frame(q) ==> final(alc).frame_bytes(q) == old(alc).frame_bytes(q),
        final(alc).frame_bytes(p.0).len() == PAGE_SIZE,
        forall|o: int|
            0 <= o < PAGE_SIZE ==> final(alc).frame_bytes(p.0)[o] == (if page_base + o >= start
                && page_base + o - start < data@.len() {
                data@[page_base + o - start]
            } else {
                old(alc).frame_bytes(p.0)[o]
            }),
{
    let mut o: u64 = 0;
    while o < PAGE_SIZE
        invariant
            alc.wf(),
            alc.live(p.0),
            o <= PAGE_SIZE,
            page_base + PAGE_SIZE <= u64::MAX,
            start + data@.len() <= u64::MAX,
            alc.spec_base() == old(alc).spec_base(),
            alc.spec_end() == old(alc).spec_end(),
            alc.avail() == old(alc).avail(),
            forall|q: u64| alc.refcount(q) == old(alc).refcount(q),
            forall|q: u64| alc.tracked_frame(q) == old(alc).tracked_frame(q),
            forall|q: u64|
                q != p.0 && old(alc).tracked_frame(q) ==> alc.frame_bytes(q) == old(alc).frame_bytes(q),
            alc.frame_bytes(p.0).len() == PAGE_SIZE,
            forall|j: int|
                0 <= j < o ==> alc.frame_bytes(p.0)[j] == (if page_base + j >= start && page_base
                    + j - start < data@.len() {
                    data@[page_base + j - start]
                } else {
                    old(alc).frame_bytes(p.0)[j]
                }),
            forall|j: int|
                o <= j < PAGE_SIZE ==> alc.frame_bytes(p.0)[j] == old(alc).frame_bytes(p.0)[j],
        decreases PAGE_SIZE - o,
    {
        let addr: u64 = page_base + o;
        if addr >= start && addr - start < data.len() as u64 {
            let b: u8 = data[(addr - start) as usize];
            alc.write_byte(p, o, b);
        }
        o = o + 1;
    }
}



/// One page of a freshly inserted area is fully accounted for: mapped
/// with the area's plain permissions onto a frame that was free before,
/// holds one reference now, and carries the area's initial bytes.
pub open spec fn inserted_page_ok(
    post: AddressSpace,
    a0: FrameAllocator,
    a1: FrameAllocator,
    start: u64,
    data: Option<Seq<u8>>,
    perm: u64,
    v: int,
) -> bool {
    let t = post.page_table.translate(VPN(v as u64));
    &&& post.page_table.mapped(VPN(v as u64))
    &&& t->0.spec_flags() == plain_word_flags(perm)
    &&& a0.refcount(t->0.spec_ppn()) == 0
    &&& a1.refcount(t->0.spec_ppn()) == 1
    &&& forall|o: int|
        0 <= o < PAGE_SIZE ==> a1.frame_bytes(t->0.spec_ppn())[o] == AddressSpace::init_byte(
            start,
            data,
            v,
            o,
        )
}

/// One page of a freshly inserted area, described by the final state
/// alone: mapped with the area's plain permissions onto a frame carrying
/// the area's initial bytes.
pub open spec fn loaded_page_ok(
    post: AddressSpace,
    a1: FrameAllocator,
    start: u64,
    data: Option<Seq<u8>>,
    perm: u64,
    v: int,
) -> bool {
    let t = post.page_table.translate(VPN(v as u64));
    &&& post.page_table.mapped(VPN(v as u64))
    &&& t->0.spec_flags() == plain_word_flags(perm)
    &&& forall|o: int|
        0 <= o < PAGE_SIZE ==> a1.frame_bytes(t->0.spec_ppn())[o] == AddressSpace::init_byte(
            start,
            data,
            v,
            o,
        )
}

/// Re-establish the address-space invariant, and the contract of an area
/// insertion, from the state the mapping loop leaves behind: the new area
/// fully mapped with fresh frames, everything else untouched, and the
/// area list extended at its sorted position.
#[verifier::rlimit(100)]
#[verifier::spinoff_prover]
proof fn lemma_insert_finish(
    pre: AddressSpace,
    post: AddressSpace,
    a0: FrameAllocator,
    a1: FrameAllocator,
    va_range: crate::address::VARange,
    map_perm: PTEImpl,
    data: Option<Seq<u8>>,
    pos: int,
    area: MapArea,
    s: int,
    e: int,
)
    requires
        pre.wf(a0),
        s == vpn_start_of(VARangeOrd(va_range)),
        e == vpn_end_of(VARangeOrd(va_range)),
        VARangeOrd(va_range).wf(),
        range_canon(s, e),
        map_perm.0 <= PTE_FLAG_MASK,
        map_perm.0 & PTE_RWX != 0,
        map_perm.0 & PTE_COW == 0,
        map_perm.0 & PTE_VALID == 0,
        pre.range_free(s, e),
        pre.range_slots_owned(s, e),
        data matches Some(d) ==> va_range.start.0 + d.len() <= va_range.end.0,
        0 <= pos <= pre.areas.len(),
        post.areas@ == pre.areas@.insert(pos, (VARangeOrd(va_range), area)),
        post.page_table == post.page_table,
        post.data_segment_end == pre.data_segment_end,
        post.data_segment_max == pre.data_segment_max,
        forall|j: int| 0 <= j < pos ==> vpn_end_of(#[trigger] pre.areas[j].0) <= s,
        forall|j: int|
            pos <= j < pre.areas.len() ==> e <= vpn_start_of(#[trigger] pre.areas[j].0),
        post.page_table.wf(),
        forall|i: int|
            0 <= i < 512 && pre.page_table.slot_owned(i) ==> #[trigger] post.page_table.slot_owned(
                i,
            ),
        forall|v: u64|
            vpn_canon(v as int) && !(s <= v < e) ==> #[trigger] post.page_table.translate(VPN(v))
                == pre.page_table.translate(VPN(v)),
        area.map_perm == map_perm,
        area.map_type is Framed,
        area.data_frames.len() == e - s,
        forall|k: int| 0 <= k < e - s ==> (#[trigger] area.data_frames[k]) is Some,
        forall|k: int|
            0 <= k < e - s ==> {
                let t = post.page_table.translate(VPN((s + k) as u64));
                &&& t is Some
                &&& t->0.spec_flags() == plain_word_flags(map_perm.0)
                &&& t->0.spec_ppn() == (#[trigger] area.data_frames[k])->0.ppn.0
            },
        forall|k: int|
            0 <= k < e - s ==> {
                let p = (#[trigger] area.data_frames[k])->0.ppn.0;
                &&& a0.refcount(p) == 0
                &&& a1.refcount(p) == 1
                &&& p < 0x1000_0000_0000
                &&& a1.frame_bytes(p).len() == PAGE_SIZE
                &&& forall|o: int|
                    0 <= o < PAGE_SIZE ==> a1.frame_bytes(p)[o] == AddressSpace::init_byte(
                        va_range.start.0,
                        data,
                        s + k,
                        o,
                    )
            },
        forall|k1: int, k2: int|
            0 <= k1 < k2 < e - s ==> (#[trigger] area.data_frames[k1])->0.ppn.0 != (
            #[trigger] area.data_frames[k2])->0.ppn.0,
        a1.wf(),
        a1.spec_base() == a0.spec_base(),
        a1.spec_end() == a0.spec_end(),
        forall|q: u64|
            a0.live(q) ==> a1.refcount(q) == a0.refcount(q) && a1.frame_bytes(q) == a0.frame_bytes(
                q,
            ),
        forall|q: u64| a0.tracked_frame(q) ==> a1.tracked_frame(q),
    ensures
        post.wf(a1),
        forall|v: int|
            #![trigger post.covered_vpn(v)]
            post.covered_vpn(v) <==> pre.covered_vpn(v) || (s <= v < e),
        forall|v: int|
            s <= v < e ==> #[trigger] inserted_page_ok(
                post,
                a0,
                a1,
                va_range.start.0,
                data,
                map_perm.0,
                v,
            ),
{
    let p = pos;
    let oldn = pre.areas.len() as int;
    assert(forall|j: int| 0 <= j < p ==> post.areas[j] == pre.areas[j]);
    assert(forall|j: int| p <= j < oldn ==> post.areas[j + 1] == pre.areas[j]);
    assert(post.areas[p] == (VARangeOrd(va_range), area));
    assert forall|i: int, j: int| 0 <= i < j < post.areas.len() implies vpn_end_of(
        #[trigger] post.areas[i].0,
    ) <= vpn_start_of(#[trigger] post.areas[j].0) by {
        if i < p && j == p {
            assert(vpn_end_of(pre.areas[i].0) <= s);
        } else if i == p && j > p {
            assert(e <= vpn_start_of(pre.areas[j - 1].0));
        } else if i < p && j > p {
            assert(vpn_end_of(pre.areas[i].0) <= vpn_start_of(pre.areas[j - 1].0));
        } else if i > p {
            assert(vpn_end_of(pre.areas[i - 1].0) <= vpn_start_of(pre.areas[j - 1].0));
        } else {
            assert(vpn_end_of(pre.areas[i].0) <= vpn_start_of(pre.areas[j].0));
        }
    }
    assert forall|v: int| post.covered_vpn(v) <==> pre.covered_vpn(v) || (s <= v < e) by {
        if pre.covered_vpn(v) {
            let i = choose|i: int|
                0 <= i < pre.areas.len() && vpn_start_of(#[trigger] pre.areas[i].0) <= v
                    < vpn_end_of(pre.areas[i].0);
            if i < p {
                assert(vpn_start_of(post.areas[i].0) <= v < vpn_end_of(post.areas[i].0));
            } else {
                assert(vpn_start_of(post.areas[i + 1].0) <= v < vpn_end_of(post.areas[i + 1].0));
            }
        }
        if s <= v < e {
            assert(vpn_start_of(post.areas[p].0) <= v < vpn_end_of(post.areas[p].0));
        }
        if post.covered_vpn(v) {
            let i = choose|i: int|
                0 <= i < post.areas.len() && vpn_start_of(#[trigger] post.areas[i].0) <= v
                    < vpn_end_of(post.areas[i].0);
            if i < p {
                assert(vpn_start_of(pre.areas[i].0) <= v < vpn_end_of(pre.areas[i].0));
            } else if i > p {
                assert(vpn_start_of(pre.areas[i - 1].0) <= v < vpn_end_of(pre.areas[i - 1].0));
            }
        }
    }
    assert forall|i: int| 0 <= i < post.areas.len() implies #[trigger] post.area_ok(a1, i) by {
        if i == p {
            assert forall|k: int| 0 <= k < area.data_frames.len() implies #[trigger] post
                .frame_entry_ok(a1, i, k) by {
                assert(area.data_frames[k] is Some);
            }
            assert forall|v: int| s <= v < e implies #[trigger] post.page_table.slot_owned(
                VPN(v as u64).spec_idx0() as int,
            ) by {
                crate::page_table::lemma_idx_bounds(VPN(v as u64));
                assert(pre.page_table.slot_owned(VPN(v as u64).spec_idx0() as int));
            }
        } else {
            let oi = if i < p {
                i
            } else {
                i - 1
            };
            assert(pre.area_ok(a0, oi));
            let orng = pre.areas[oi].0;
            let oa = pre.areas[oi].1;
            assert(post.areas[i].0 == orng && post.areas[i].1 == oa);
            assert forall|k: int| 0 <= k < oa.data_frames.len() implies #[trigger] post
                .frame_entry_ok(a1, i, k) by {
                assert(pre.frame_entry_ok(a0, oi, k));
                let v = (vpn_start_of(orng) + k) as u64;
                lemma_range_canon_elem(vpn_start_of(orng), vpn_end_of(orng), v as int);
                assert(!(s <= v < e));
                assert(post.page_table.translate(VPN(v)) == pre.page_table.translate(VPN(v)));
            }
            assert forall|v: int| vpn_start_of(orng) <= v < vpn_end_of(orng) implies #[trigger] post
                .page_table.slot_owned(VPN(v as u64).spec_idx0() as int) by {
                crate::page_table::lemma_idx_bounds(VPN(v as u64));
                assert(pre.page_table.slot_owned(VPN(v as u64).spec_idx0() as int));
            }
        }
    }
    assert forall|v: u64| vpn_canon(v as int) && !post.covered_vpn(v as int) implies !(
    #[trigger] post.page_table.mapped(VPN(v))) by {
        assert(!pre.covered_vpn(v as int));
        assert(!(s <= v < e));
        assert(post.page_table.translate(VPN(v)) == pre.page_table.translate(VPN(v)));
        assert(!pre.page_table.mapped(VPN(v)));
    }
    assert forall|i: int, k: int, j: int, l: int|
        post.entry_some(i, k) && post.entry_some(j, l) && (i != j || k != l) implies #[trigger] post
        .entry_ppn(i, k) != #[trigger] post.entry_ppn(j, l) by {
        lemma_entry_distinct(pre, post, a0, a1, area, p, s, e, i, k, j, l);
    }
    assert(post.page_table.user_half_owned()) by {
        assert forall|i: int| 0 <= i < 256 implies post.page_table.slot_owned(i) by {
            assert(pre.page_table.slot_owned(i));
        }
    }
    assert forall|v: int| s <= v < e implies #[trigger] inserted_page_ok(
        post,
        a0,
        a1,
        va_range.start.0,
        data,
        map_perm.0,
        v,
    ) by {
        let k = v - s;
        assert(area.data_frames[k] is Some);
        assert(VPN((s + k) as u64) == VPN(v as u64));
        let t = post.page_table.translate(VPN(v as u64));
        assert(t is Some && t->0.spec_flags() == plain_word_flags(map_perm.0) && t->0.spec_ppn()
            == area.data_frames[k]->0.ppn.0);
        let q = area.data_frames[k]->0.ppn.0;
        assert(a0.refcount(q) == 0 && a1.refcount(q) == 1);
        assert(forall|o: int|
            0 <= o < PAGE_SIZE ==> a1.frame_bytes(q)[o] == AddressSpace::init_byte(
                va_range.start.0,
                data,
                s + k,
                o,
            ));
        assert(forall|o: int|
            0 <= o < PAGE_SIZE ==> a1.frame_bytes(t->0.spec_ppn())[o] == AddressSpace::init_byte(
                va_range.start.0,
                data,
                v,
                o,
            ));
    }
}

/// Two distinct area slots of the extended space hold distinct frames:
/// slots of the new area are pairwise distinct and fresh, slots of old
/// areas were pairwise distinct and live.
#[verifier::rlimit(100)]
#[verifier::spinoff_prover]
proof fn lemma_entry_distinct(
    pre: AddressSpace,
    post: AddressSpace,
    a0: FrameAllocator,
    a1: FrameAllocator,
    area: MapArea,
    p: int,
    s: int,
    e: int,
    i: int,
    k: int,
    j: int,
    l: int,
)
    requires
        pre.wf(a0),
        0 <= p <= pre.areas.len(),
        post.areas@ == pre.areas@.insert(p, (post.areas[p].0, area)),
        post.areas[p].1 == area,
        area.data_frames.len() == e - s,
        forall|k1: int|
            0 <= k1 < e - s ==> (#[trigger] area.data_frames[k1]) is Some
                && a0.refcount(area.data_frames[k1]->0.ppn.0) == 0,
        forall|k1: int, k2: int|
            0 <= k1 < k2 < e - s ==> (#[trigger] area.data_frames[k1])->0.ppn.0 != (
            #[trigger] area.data_frames[k2])->0.ppn.0,
        post.entry_some(i, k),
        post.entry_some(j, l),
        i != j || k != l,
    ensures
        post.entry_ppn(i, k) != post.entry_ppn(j, l),
{
    let oldn = pre.areas.len() as int;
    assert(forall|x: int| 0 <= x < p ==> post.areas[x] == pre.areas[x]);
    assert(forall|x: int| p <= x < oldn ==> post.areas[x + 1] == pre.areas[x]);
    if i == p && j == p {
        if k < l {
            assert(area.data_frames[k]->0.ppn.0 != area.data_frames[l]->0.ppn.0);
        } else {
            assert(area.data_frames[l]->0.ppn.0 != area.data_frames[k]->0.ppn.0);
        }
    } else if i == p || j == p {
        let (ni, nk, oj, ol) = if i == p {
            (i, k, j, l)
        } else {
            (j, l, i, k)
        };
        let ooj = if oj < p {
            oj
        } else {
            oj - 1
        };
        assert(pre.entry_some(ooj, ol));
        assert(pre.area_ok(a0, ooj));
        assert(pre.frame_entry_ok(a0, ooj, ol));
        assert(a0.live(pre.entry_ppn(ooj, ol)));
        assert(a0.refcount(post.entry_ppn(ni, nk)) == 0);
        assert(post.entry_ppn(oj, ol) == pre.entry_ppn(ooj, ol));
    } else {
        let oi = if i < p {
            i
        } else {
            i - 1
        };
        let oj = if j < p {
            j
        } else {
            j - 1
        };
        assert(pre.entry_some(oi, k) && pre.entry_some(oj, l));
        assert(oi != oj || k != l);
        assert(pre.entry_ppn(oi, k) != pre.entry_ppn(oj, l));
        assert(post.entry_ppn(i, k) == pre.entry_ppn(oi, k));
        assert(post.entry_ppn(j, l) == pre.entry_ppn(oj, l));
    }
}

} // verus!
