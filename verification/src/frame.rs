//! The physical frame allocator and its reference-counted trackers.
//!
//! The allocator owns the model of physical memory: for every frame of the
//! managed region it keeps a reference count and the frame's byte contents.
//! Allocation is a bump pointer over the region plus a stack of recycled
//! frames; a frame is handed out zeroed, with count one. Cloning a tracker
//! (as fork does for shared pages) increments the count; releasing a
//! tracker decrements it and returns the frame to the free stack when the
//! last reference is gone.

use vstd::prelude::*;

use crate::address::PPN;
use crate::config::PAGE_SIZE;

verus! {

/// An owned, reference-counted claim on one physical frame.
#[derive(Debug)]
pub struct FrameTracker {
    pub ppn: PPN,
}

/// Per-frame bookkeeping: the number of live trackers and the frame's
/// contents.
pub struct FrameInfo {
    pub refcount: u64,
    pub bytes: Vec<u8>,
}

/// Allocator over the frame region `[base, end)`.
pub struct FrameAllocator {
    pub base: u64,
    pub end: u64,
    pub infos: Vec<FrameInfo>,
    pub recycled: Vec<u64>,
}

impl FrameAllocator {
    /// First page number of the managed region.
    pub open spec fn spec_base(self) -> u64 {
        self.base
    }

    /// First page number past the managed region.
    pub open spec fn spec_end(self) -> u64 {
        self.end
    }

    /// Whether the allocator has ever handed out this frame.
    pub open spec fn tracked_frame(self, p: u64) -> bool {
        self.base <= p < self.base + self.infos.len()
    }

    /// The number of live trackers of frame `p` (zero for frames never
    /// handed out).
    pub open spec fn refcount(self, p: u64) -> u64 {
        if self.tracked_frame(p) {
            self.infos[p - self.base].refcount
        } else {
            0
        }
    }

    /// The contents of frame `p`.
    pub open spec fn frame_bytes(self, p: u64) -> Seq<u8> {
        self.infos[p - self.base].bytes@
    }

    /// A frame is live while at least one tracker holds it.
    pub open spec fn live(self, p: u64) -> bool {
        self.refcount(p) > 0
    }

    /// How many more frames can be handed out.
    pub open spec fn avail(self) -> int {
        self.recycled.len() + self.end - self.base - self.infos.len()
    }

    /// The allocator's internal invariant.
    pub open spec fn wf(self) -> bool {
        &&& self.base <= self.end <= 0x1000_0000_0000
        &&& self.infos.len() <= self.end - self.base
        &&& forall|i: int|
            0 <= i < self.infos.len() ==> (#[trigger] self.infos[i]).bytes.len() == PAGE_SIZE
        &&& forall|j: int|
            0 <= j < self.recycled.len() ==> self.tracked_frame(#[trigger] self.recycled[j])
                && self.refcount(self.recycled[j]) == 0
        &&& forall|j: int, k: int|
            0 <= j < k < self.recycled.len() ==> self.recycled[j] != self.recycled[k]
    }

    /// A new allocator over `[base, end)`; no frame is live yet.
    pub fn new(base: PPN, end: PPN) -> (r: FrameAllocator)
        requires
            base.0 <= end.0 <= 0x1000_0000_0000,
        ensures
            r.wf(),
            r.spec_base() == base.0,
            r.spec_end() == end.0,
            r.avail() == end.0 - base.0,
            forall|p: u64| r.refcount(p) == 0,
    {
        FrameAllocator { base: base.0, end: end.0, infos: Vec::new(), recycled: Vec::new() }
    }

    /// How many more frames can be handed out.
    pub fn available(&self) -> (r: u64)
        requires
            self.wf(),
        ensures
            r == self.avail(),
    {
        proof {
            self.lemma_recycled_bounded();
        }
        self.recycled.len() as u64 + (self.end - self.base - self.infos.len() as u64)
    }

    /// The recycled stack never holds more entries than frames were ever
    /// handed out: its entries are distinct page numbers of the tracked
    /// range.
    proof fn lemma_recycled_bounded(&self)
        requires
            self.wf(),
        ensures
            self.recycled.len() <= self.infos.len(),
    {
        let s = self.recycled@.map_values(|p: u64| p as int);
        assert(s.no_duplicates()) by {
            assert forall|j: int, k: int| j != k && 0 <= j < s.len() && 0 <= k < s.len()
                implies s[j] != s[k] by {
                if j < k {
                    assert(self.recycled@[j] != self.recycled@[k]);
                } else {
                    assert(self.recycled@[k] != self.recycled@[j]);
                }
            }
        }
        s.unique_seq_to_set();
        let lo = self.base as int;
        let hi = self.base + self.infos.len();
        assert(s.to_set().subset_of(vstd::set_lib::set_int_range(lo, hi))) by {
            assert forall|x: int| s.to_set().contains(x) implies lo <= x < hi by {
                let j = choose|j: int| 0 <= j < s.len() && s[j] == x;
                assert(self.tracked_frame(self.recycled@[j]));
            }
        }
        vstd::set_lib::lemma_int_range(lo, hi);
        vstd::set_lib::lemma_len_subset(s.to_set(), vstd::set_lib::set_int_range(lo, hi));
    }

    /// Allocate one zeroed frame. Succeeds exactly while the region is not
    /// exhausted; the frame handed out had no live tracker before and has
    /// exactly one afterwards; no other frame changes.
    pub fn alloc_frame(&mut self) -> (r: Option<FrameTracker>)
        requires
            old(self).wf(),
        ensures
            final(self).wf(),
            final(self).spec_base() == old(self).spec_base(),
            final(self).spec_end() == old(self).spec_end(),
            r is Some <==> old(self).avail() > 0,
            r is None ==> final(self).avail() == old(self).avail() && (forall|q: u64|
                final(self).refcount(q) == old(self).refcount(q)) && (forall|q: u64|
                final(self).tracked_frame(q) == old(self).tracked_frame(q)) && (forall|q: u64|
                old(self).tracked_frame(q) ==> final(self).frame_bytes(q) == old(self).frame_bytes(
                    q,
                )),
            r matches Some(t) ==> {
                &&& old(self).refcount(t.ppn.0) == 0
                &&& final(self).refcount(t.ppn.0) == 1
                &&& final(self).live(t.ppn.0)
                &&& final(self).tracked_frame(t.ppn.0)
                &&& old(self).spec_base() <= t.ppn.0 < old(self).spec_end()
                &&& final(self).frame_bytes(t.ppn.0) =~= Seq::new(PAGE_SIZE as nat, |i: int| 0u8)
                &&& final(self).avail() == old(self).avail() - 1
                &&& forall|q: u64|
                    q != t.ppn.0 ==> final(self).refcount(q) == old(self).refcount(q)
                &&& forall|q: u64|
                    q != t.ppn.0 && old(self).tracked_frame(q) ==> final(self).frame_bytes(q)
                        == old(self).frame_bytes(q)
                &&& forall|q: u64|
                    old(self).tracked_frame(q) ==> final(self).tracked_frame(q)
            },
    {
        if let Some(p) = self.recycled.pop() {
            let idx: usize = (p - self.base) as usize;
            let zeros = zero_page();
            self.infos[idx].refcount = 1;
            self.infos[idx].bytes = zeros;
            Some(FrameTracker { ppn: PPN(p) })
        } else if self.base + (self.infos.len() as u64) < self.end {
            let p: u64 = self.base + self.infos.len() as u64;
            let zeros = zero_page();
            self.infos.push(FrameInfo { refcount: 1, bytes: zeros });
            Some(FrameTracker { ppn: PPN(p) })
        } else {
            None
        }
    }

    /// One more tracker of a live frame: the reference count rises by one;
    /// nothing else changes.
    pub fn clone_tracker(&mut self, t: &FrameTracker) -> (r: FrameTracker)
        requires
            old(self).wf(),
            old(self).live(t.ppn.0),
            old(self).refcount(t.ppn.0) < u64::MAX,
        ensures
            final(self).wf(),
            r.ppn == t.ppn,
            final(self).spec_base() == old(self).spec_base(),
            final(self).spec_end() == old(self).spec_end(),
            final(self).refcount(t.ppn.0) == old(self).refcount(t.ppn.0) + 1,
            forall|q: u64| q != t.ppn.0 ==> final(self).refcount(q) == old(self).refcount(q),
            forall|q: u64|
                old(self).tracked_frame(q) ==> final(self).frame_bytes(q) == old(self).frame_bytes(
                    q,
                ),
            forall|q: u64| final(self).tracked_frame(q) == old(self).tracked_frame(q),
            final(self).avail() == old(self).avail(),
    {
        let idx: usize = (t.ppn.0 - self.base) as usize;
        let c: u64 = self.infos[idx].refcount;
        self.infos[idx].refcount = c + 1;
        FrameTracker { ppn: t.ppn }
    }

    /// Drop one tracker: the reference count falls by one; the frame goes
    /// back on the free stack when the last tracker is gone.
    pub fn release(&mut self, t: FrameTracker)
        requires
            old(self).wf(),
            old(self).live(t.ppn.0),
        ensures
            final(self).wf(),
            final(self).spec_base() == old(self).spec_base(),
            final(self).spec_end() == old(self).spec_end(),
            final(self).refcount(t.ppn.0) == old(self).refcount(t.ppn.0) - 1,
            forall|q: u64| q != t.ppn.0 ==> final(self).refcount(q) == old(self).refcount(q),
            forall|q: u64|
                old(self).tracked_frame(q) ==> final(self).frame_bytes(q) == old(self).frame_bytes(
                    q,
                ),
            forall|q: u64| final(self).tracked_frame(q) == old(self).tracked_frame(q),
            final(self).avail() == old(self).avail() + if old(self).refcount(t.ppn.0) == 1 {
                1int
            } else {
                0int
            },
    {
        let idx: usize = (t.ppn.0 - self.base) as usize;
        let c: u64 = self.infos[idx].refcount;
        self.infos[idx].refcount = c - 1;
        if c == 1 {
            self.recycled.push(t.ppn.0);
        }
    }

    /// The number of live trackers of a frame, as fork and the page-fault
    /// handler observe it for the copy/rewrite decision.
    pub fn strong_count(&self, p: PPN) -> (r: u64)
        requires
            self.wf(),
            self.live(p.0),
        ensures
            r == self.refcount(p.0),
    {
        self.infos[(p.0 - self.base) as usize].refcount
    }

    /// Read one byte of a live frame.
    pub fn read_byte(&self, p: PPN, off: u64) -> (r: u8)
        requires
            self.wf(),
            self.live(p.0),
            off < PAGE_SIZE,
        ensures
            r == self.frame_bytes(p.0)[off as int],
    {
        self.infos[(p.0 - self.base) as usize].bytes[off as usize]
    }

    /// Write one byte of a live frame; every other frame keeps its contents
    /// and its count.
    pub fn write_byte(&mut self, p: PPN, off: u64, v: u8)
        requires
            old(self).wf(),
            old(self).live(p.0),
            off < PAGE_SIZE,
        ensures
            final(self).wf(),
            final(self).spec_base() == old(self).spec_base(),
            final(self).spec_end() == old(self).spec_end(),
            final(self).frame_bytes(p.0) == old(self).frame_bytes(p.0).update(off as int, v),
            forall|q: u64| final(self).refcount(q) == old(self).refcount(q),
            forall|q: u64|
                q != p.0 && old(self).tracked_frame(q) ==> final(self).frame_bytes(q) == old(
                    self,
                ).frame_bytes(q),
            forall|q: u64| final(self).tracked_frame(q) == old(self).tracked_frame(q),
            final(self).avail() == old(self).avail(),
    {
        let idx: usize = (p.0 - self.base) as usize;
        self.infos[idx].bytes[off as usize] = v;
    }

    /// Copy the contents of one live frame over another, as the page-fault
    /// handler does when it resolves a shared copy-on-write page.
    pub fn copy_page(&mut self, src: PPN, dst: PPN)
        requires
            old(self).wf(),
            old(self).live(src.0),
            old(self).live(dst.0),
            src.0 != dst.0,
        ensures
            final(self).wf(),
            final(self).spec_base() == old(self).spec_base(),
            final(self).spec_end() == old(self).spec_end(),
            final(self).frame_bytes(dst.0) == old(self).frame_bytes(src.0),
            forall|q: u64| final(self).refcount(q) == old(self).refcount(q),
            forall|q: u64|
                q != dst.0 && old(self).tracked_frame(q) ==> final(self).frame_bytes(q) == old(
                    self,
                ).frame_bytes(q),
            forall|q: u64| final(self).tracked_frame(q) == old(self).tracked_frame(q),
            final(self).avail() == old(self).avail(),
    {
        let mut off: usize = 0;
        while off < PAGE_SIZE as usize
            invariant
                self.wf(),
                self.spec_base() == old(self).spec_base(),
                self.spec_end() == old(self).spec_end(),
                old(self).live(src.0),
                old(self).live(dst.0),
                src.0 != dst.0,
                off <= PAGE_SIZE,
                self.frame_bytes(src.0) == old(self).frame_bytes(src.0),
                self.frame_bytes(dst.0).len() == PAGE_SIZE,
                forall|i: int|
                    0 <= i < off ==> self.frame_bytes(dst.0)[i] == old(self).frame_bytes(src.0)[i],
                forall|i: int|
                    off <= i < PAGE_SIZE ==> self.frame_bytes(dst.0)[i] == old(self).frame_bytes(
                        dst.0,
                    )[i],
                forall|q: u64| self.refcount(q) == old(self).refcount(q),
                forall|q: u64|
                    q != dst.0 && old(self).tracked_frame(q) ==> self.frame_bytes(q) == old(
                        self,
                    ).frame_bytes(q),
                forall|q: u64| self.tracked_frame(q) == old(self).tracked_frame(q),
                self.avail() == old(self).avail(),
            decreases PAGE_SIZE - off,
        {
            let b: u8 = self.read_byte(src, off as u64);
            self.write_byte(dst, off as u64, b);
            off = off + 1;
        }
        proof {
            assert(self.frame_bytes(dst.0) =~= old(self).frame_bytes(src.0));
        }
    }
}

/// A page of zero bytes.
fn zero_page() -> (r: Vec<u8>)
    ensures
        r@ =~= Seq::new(PAGE_SIZE as nat, |i: int| 0u8),
        r.len() == PAGE_SIZE,
{
    let mut v: Vec<u8> = Vec::new();
    let mut i: usize = 0;
    while i < PAGE_SIZE as usize
        invariant
            i <= PAGE_SIZE,
            v.len() == i,
            forall|j: int| 0 <= j < i ==> v@[j] == 0u8,
        decreases PAGE_SIZE - i,
    {
        v.push(0u8);
        i = i + 1;
    }
    proof {
        assert(v@ =~= Seq::new(PAGE_SIZE as nat, |i: int| 0u8));
    }
    v
}

} // verus!
