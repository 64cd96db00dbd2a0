//! The crate's global laws, proved from the invariants and contracts the
//! modules state.

use vstd::prelude::*;

use crate::address::{VA, VPN};
use crate::address_space::{
    area_flags_ok, cow_word_flags, entry_vpn, plain_word_flags, vpn_canon, vpn_end_of,
    vpn_start_of, AddressSpace, MapType,
};
use crate::config::PAGE_SIZE;
use crate::frame::FrameAllocator;
use crate::page_table::PageTableImpl;
use crate::pte::{PTE_COW, PTE_READABLE, PTE_WRITABLE};

verus! {

/// Every frame a well-formed address space records is reached by the
/// page-table walk: the walk from the root ends at a valid leaf whose
/// physical page is exactly the one the owning area's frame slot holds.
pub proof fn lemma_walk_matches_tracker(
    s: AddressSpace,
    alc: FrameAllocator,
    i: int,
    k: int,
)
    requires
        s.wf(alc),
        s.entry_some(i, k),
    ensures
        s.page_table.translate(entry_vpn(s, i, k)) is Some,
        (s.page_table.translate(entry_vpn(s, i, k))->0).spec_valid(),
        (s.page_table.translate(entry_vpn(s, i, k))->0).spec_ppn() == s.entry_ppn(i, k),
        alc.live(s.entry_ppn(i, k)),
{
    assert(s.area_ok(alc, i));
    assert(s.frame_entry_ok(alc, i, k));
}

/// The leaf discipline of the tables: in any well-formed page table, a
/// valid entry reached by the walk is a leaf (it carries at least one of
/// R, W, X), and every interior entry on a walk path is a non-leaf
/// pointer.
pub proof fn lemma_leaf_discipline(pt: PageTableImpl, vpn: VPN)
    requires
        pt.wf(),
        pt.translate(vpn) is Some,
    ensures
        (pt.translate(vpn)->0).spec_valid(),
        (pt.translate(vpn)->0).spec_leaf(),
        (pt.root[vpn.spec_idx0() as int]).spec_valid(),
        !(pt.root[vpn.spec_idx0() as int]).spec_leaf(),
{
    crate::page_table::lemma_idx_bounds(vpn);
    let i0 = vpn.spec_idx0() as int;
    let i1 = vpn.spec_idx1() as int;
    assert(pt.mids[i0] is Some);
    let m = pt.mids[i0]->0;
    assert(m.wf());
    assert(m.leaves[i1] is Some);
}

/// A mapped page of a well-formed address space never carries COW and
/// WRITABLE together: the copy-on-write form always strips WRITABLE.
pub proof fn lemma_cow_never_writable(s: AddressSpace, alc: FrameAllocator, vpn: VPN)
    requires
        s.wf(alc),
        vpn_canon(vpn.0 as int),
        s.page_table.mapped(vpn),
        forall|i: int|
            0 <= i < s.areas.len() && vpn_start_of(#[trigger] s.areas[i].0) <= vpn.0 < vpn_end_of(
                s.areas[i].0,
            ) ==> s.areas[i].1.map_type is Framed,
        (s.page_table.translate(vpn)->0).0 & PTE_COW != 0,
    ensures
        (s.page_table.translate(vpn)->0).0 & PTE_WRITABLE == 0,
{
    s.lemma_mapped_frame_live(alc, vpn);
    let (i, k) = choose|i: int, k: int|
        #![auto]
        s.entry_some(i, k) && s.entry_ppn(i, k) == s.page_table.translate(vpn)->0.spec_ppn()
            && vpn_start_of(s.areas[i].0) + k == vpn.0;
    assert(s.area_ok(alc, i));
    assert(s.frame_entry_ok(alc, i, k));
    assert(VPN((vpn_start_of(s.areas[i].0) + k) as u64) == vpn);
    let w = s.page_table.translate(vpn)->0;
    let p = s.areas[i].1.map_perm.0;
    assert(area_flags_ok(w.spec_flags(), p));
    let b = w.0;
    assert((b & 0x1ff) & 0x100 == b & 0x100 && (b & 0x1ff) & 0x4 == b & 0x4) by (bit_vector);
    assert(p <= 0x1ff && p & 0x100 == 0 && p & 0x1 == 0 ==> ((p | 0x1) & 0x100 == 0)
        && (((p & !0x4) | 0x100) | 0x1) & 0x4 == 0) by (bit_vector);
    if w.spec_flags() == plain_word_flags(p) {
        assert(b & 0x100 == 0);
        assert(false);
    } else {
        assert(w.spec_flags() == cow_word_flags(p));
        assert(b & 0x4 == 0);
    }
}

/// After a fork, any byte the child can read, the parent reads alike:
/// child and parent map every shared page to the same frame with the
/// same permission form, and no byte of memory changed.
///
/// The inputs are the parent and child as fork leaves them, with the
/// mapping relations fork's contract states.
pub proof fn lemma_fork_reads_agree(
    parent: AddressSpace,
    child: AddressSpace,
    alc: FrameAllocator,
    va: VA,
)
    requires
        va.0 < crate::config::USER_VA_LIMIT,
        forall|v: u64|
            vpn_canon(v as int) ==> ((#[trigger] child.page_table.translate(VPN(v))) is Some
                <==> parent.page_table.translate(VPN(v)) is Some),
        forall|v: u64|
            vpn_canon(v as int) && parent.page_table.translate(VPN(v)) is Some ==> (
            #[trigger] child.page_table.translate(VPN(v)))->0.spec_ppn() == (
            parent.page_table.translate(VPN(v))->0).spec_ppn() && (child.page_table.translate(
                VPN(v),
            )->0).spec_flags() == (parent.page_table.translate(VPN(v))->0).spec_flags(),
    ensures
        child.spec_read_byte(alc, va) == parent.spec_read_byte(alc, va),
{
    let v = va.0 / PAGE_SIZE;
    assert(vpn_canon(v as int)) by {
        assert(va.0 < 0x40_0000_0000 ==> va.0 / 4096 < 0x400_0000);
    }
    let tc = child.page_table.translate(VPN(v));
    let tp = parent.page_table.translate(VPN(v));
    if tp is Some {
        assert(tc is Some);
        let fc = (tc->0).spec_flags();
        let fp = (tp->0).spec_flags();
        assert(fc == fp);
        let bc = (tc->0).0;
        let bp = (tp->0).0;
        assert(bc & 0x1ff == bp & 0x1ff ==> ((bc & 0x2 != 0) == (bp & 0x2 != 0))) by (bit_vector);
    }
}

/// After the fault handler resolves a copy-on-write page in one space,
/// every byte of every other live frame is unchanged; in particular a
/// space whose frames are all live elsewhere (a fork parent) reads every
/// address exactly as before.
pub proof fn lemma_cow_write_isolates(
    other: AddressSpace,
    a0: FrameAllocator,
    a1: FrameAllocator,
    va: VA,
)
    requires
        other.wf(a0),
        a1.wf(),
        forall|q: u64| a0.live(q) ==> #[trigger] a1.live(q),
        forall|q: u64|
            a0.live(q) ==> #[trigger] a1.frame_bytes(q) == a0.frame_bytes(q),
        va.0 < crate::config::USER_VA_LIMIT,
        forall|i: int|
            0 <= i < other.areas.len() && vpn_start_of(#[trigger] other.areas[i].0) <= va.0
                / PAGE_SIZE < vpn_end_of(other.areas[i].0) ==> other.areas[i].1.map_type
                is Framed,
    ensures
        other.spec_read_byte(a1, va) == other.spec_read_byte(a0, va),
{
    let v = va.0 / PAGE_SIZE;
    assert(vpn_canon(v as int)) by {
        assert(va.0 < 0x40_0000_0000 ==> va.0 / 4096 < 0x400_0000);
    }
    let t = other.page_table.translate(VPN(v));
    if t is Some && (t->0).0 & PTE_READABLE != 0 {
        other.lemma_mapped_frame_live(a0, VPN(v));
        assert(a0.live((t->0).spec_ppn()));
        assert(a1.frame_bytes((t->0).spec_ppn()) == a0.frame_bytes((t->0).spec_ppn()));
    }
}

} // verus!
