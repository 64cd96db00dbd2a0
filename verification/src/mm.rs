//! Memory bring-up: the frame allocator and the kernel address space.
//!
//! `init` builds the two singletons of the memory subsystem: the frame
//! allocator over the usable physical region, and the kernel address
//! space, whose page table is the global kernel table every user space
//! shares its upper half with. The board's MMIO window is mapped Device
//! R|W in that table — through the shared upper half, every address
//! space carries it. The linear map of RAM itself is reached through the
//! typed conversions of the address module; materializing its entries is
//! board bring-up.

use vstd::prelude::*;

use crate::address::{PPN, VA, VARange, VARangeOrd, VPN};
use crate::address_space::{
    plain_word_flags, range_canon, vpn_canon, AddressSpace, MapArea, MapType,
};
use crate::config::{
    KERNEL_MAP_PAGE_OFFSET, MEMORY_END, MEMORY_START, MMIO_BASE, MMIO_SIZE, PAGE_SIZE,
};
use crate::frame::FrameAllocator;
use crate::page_table::PageTableImpl;
use crate::pte::{PTEImpl, PTE_FLAG_MASK, PTE_READABLE, PTE_RWX, PTE_WRITABLE};

verus! {

/// The memory subsystem after bring-up.
pub struct Memory {
    /// The physical frame allocator.
    pub allocator: FrameAllocator,
    /// The kernel address space; its page table is the global kernel
    /// table, fully owned, never torn down.
    pub kernel_space: AddressSpace,
}

/// Map `n` kernel-half pages starting at page `s` linearly (each page
/// onto the physical page the kernel map assigns it) with the given
/// permissions. Fails, changing nothing, exactly when the allocator
/// cannot reserve two table frames per page.
fn map_linear_range(
    pt: &mut PageTableImpl,
    alc: &mut FrameAllocator,
    s: u64,
    n: u64,
    flags: PTEImpl,
) -> (r: bool)
    requires
        old(pt).wf(),
        old(alc).wf(),
        old(pt).fully_owned(),
        range_canon(s as int, s + n),
        crate::config::KERNEL_VPN_BASE <= s,
        forall|v: u64| s <= v < s + n ==> !old(pt).mapped(VPN(v)),
        flags.0 <= PTE_FLAG_MASK,
        flags.0 & PTE_RWX != 0,
    ensures
        final(pt).wf(),
        final(alc).wf(),
        final(alc).spec_base() == old(alc).spec_base(),
        final(alc).spec_end() == old(alc).spec_end(),
        r <==> old(alc).avail() >= 2 * n,
        !r ==> *final(pt) == *old(pt) && *final(alc) == *old(alc),
        final(pt).fully_owned(),
        r ==> forall|v: u64|
            s <= v < s + n ==> (#[trigger] final(pt).translate(VPN(v))) is Some && (final(pt).translate(VPN(v))->0).spec_ppn() == v - KERNEL_MAP_PAGE_OFFSET && (final(pt).translate(VPN(v))->0).spec_flags() == plain_word_flags(flags.0),
        forall|v: u64|
            vpn_canon(v as int) && !(s <= v < s + n) ==> #[trigger] final(pt).translate(VPN(v))
                == old(pt).translate(VPN(v)),
        forall|q: u64|
            old(alc).live(q) ==> final(alc).refcount(q) == old(alc).refcount(q) && final(alc).frame_bytes(q) == old(alc).frame_bytes(q),
        forall|q: u64| old(alc).tracked_frame(q) ==> final(alc).tracked_frame(q),
        final(alc).avail() >= old(alc).avail() - 2 * n,
{
    if alc.available() < 2 * n {
        return false;
    }
    let mut cur: u64 = s;
    while cur < s + n
        invariant
            old(pt).wf(),
            old(alc).wf(),
            range_canon(s as int, s + n),
            crate::config::KERNEL_VPN_BASE <= s,
            s <= cur <= s + n,
            flags.0 <= PTE_FLAG_MASK,
            flags.0 & PTE_RWX != 0,
            forall|v: u64| s <= v < s + n ==> !old(pt).mapped(VPN(v)),
            pt.wf(),
            forall|i: int| 0 <= i < 512 ==> #[trigger] pt.slot_owned(i),
            forall|v: u64|
                s <= v < cur ==> (#[trigger] pt.translate(VPN(v))) is Some && (pt.translate(
                    VPN(v),
                )->0).spec_ppn() == v - KERNEL_MAP_PAGE_OFFSET && (pt.translate(
                    VPN(v),
                )->0).spec_flags() == plain_word_flags(flags.0),
            forall|v: u64|
                vpn_canon(v as int) && !(s <= v < cur) ==> #[trigger] pt.translate(VPN(v)) == old(pt).translate(VPN(v)),
            alc.wf(),
            alc.spec_base() == old(alc).spec_base(),
            alc.spec_end() == old(alc).spec_end(),
            forall|q: u64|
                old(alc).live(q) ==> #[trigger] alc.refcount(q) == old(alc).refcount(q)
                    && alc.frame_bytes(q) == old(alc).frame_bytes(q),
            forall|q: u64| old(alc).tracked_frame(q) ==> #[trigger] alc.tracked_frame(q),
            alc.avail() >= old(alc).avail() - 2 * (cur - s),
            old(alc).avail() >= 2 * n,
        decreases s + n - cur,
    {
        proof {
            crate::address_space::lemma_range_canon_elem(s as int, s + n, cur as int);
            assert(pt.translate(VPN(cur)) == old(pt).translate(VPN(cur)));
            assert(!old(pt).mapped(VPN(cur)));
            assert(!pt.mapped(VPN(cur)));
            crate::page_table::lemma_idx_bounds(VPN(cur));
            assert(pt.slot_owned(VPN(cur).spec_idx0() as int));
        }
        let ppn = PPN(cur - KERNEL_MAP_PAGE_OFFSET);
        proof {
            assert(ppn.0 < 0x1000_0000_0000) by {
                assert(cur < crate::config::KERNEL_VPN_END);
            }
        }
        let ghost pt_head = *pt;
        let ok = pt.map_one(VPN(cur), ppn, flags, alc);
        proof {
            assert(pt_head.tables_needed(VPN(cur)) <= 2);
            assert(ok);
            assert forall|v: u64| vpn_canon(v as int) && v != cur implies #[trigger] pt.translate(
                VPN(v),
            ) == pt_head.translate(VPN(v)) by {
                crate::address_space::lemma_canon_slots_inject(v, cur);
            }
            assert forall|i: int| 0 <= i < 512 implies #[trigger] pt.slot_owned(i) by {
                assert(pt_head.slot_owned(i));
            }
        }
        cur = cur + 1;
    }
    true
}

/// Bring the memory subsystem up: a frame allocator over the physical
/// region past the kernel image, the global kernel table with the
/// board's MMIO window mapped Device R|W, and the kernel address space
/// recording that window as its device area. The required headroom
/// guarantees success.
pub fn init(kernel_image_end: crate::address::PA) -> (r: Option<Memory>)
    requires
        MEMORY_START <= kernel_image_end.0,
        kernel_image_end.0 + 8 * PAGE_SIZE <= MEMORY_END,
    ensures
        r is Some,
        r matches Some(m) ==> {
            &&& m.kernel_space.wf(m.allocator)
            &&& m.kernel_space.page_table.fully_owned()
            &&& m.kernel_space.areas.len() == 1
            &&& m.allocator.spec_end() == MEMORY_END / PAGE_SIZE
            &&& forall|v: u64|
                MMIO_BASE / PAGE_SIZE <= v < MMIO_BASE / PAGE_SIZE + MMIO_SIZE / PAGE_SIZE ==> (
                #[trigger] m.kernel_space.page_table.translate(VPN(v))) is Some && (
                m.kernel_space.page_table.translate(VPN(v))->0).spec_ppn() == v
                    - KERNEL_MAP_PAGE_OFFSET && (m.kernel_space.page_table.translate(
                    VPN(v),
                )->0).spec_flags() == plain_word_flags(PTE_READABLE | PTE_WRITABLE)
        },
{
    let base = crate::address::PA(kernel_image_end.0).ceil();
    let end = PPN(MEMORY_END / PAGE_SIZE);
    proof {
        assert(base.0 <= end.0 <= 0x1000_0000_0000);
    }
    let mut allocator = FrameAllocator::new(base, end);
    let mut pt = match PageTableImpl::new_empty(&mut allocator) {
        Some(pt) => pt,
        None => {
            proof {
                assert(false);
            }
            return None;
        },
    };
    let mmio_first: u64 = MMIO_BASE / PAGE_SIZE;
    let mmio_pages: u64 = MMIO_SIZE / PAGE_SIZE;
    proof {
        assert(PTE_READABLE | PTE_WRITABLE == 6u64) by (bit_vector);
        assert(6u64 <= 0x1ff && 6u64 & 0xe != 0 && 6u64 & 0x100 == 0 && 6u64 & 0x1 == 0)
            by (bit_vector);
        assert(range_canon(mmio_first as int, mmio_first + mmio_pages));
        assert(crate::config::KERNEL_VPN_BASE <= mmio_first);
    }
    let ok = map_linear_range(
        &mut pt,
        &mut allocator,
        mmio_first,
        mmio_pages,
        PTEImpl(PTE_READABLE | PTE_WRITABLE),
    );
    proof {
        assert(ok);
    }
    let mmio = MapArea {
        data_frames: Vec::new(),
        map_type: MapType::Device,
        map_perm: PTEImpl(PTE_READABLE | PTE_WRITABLE),
    };
    let rng = VARangeOrd(VARange { start: VA(MMIO_BASE), end: VA(MMIO_BASE + MMIO_SIZE) });
    let mut areas: Vec<(VARangeOrd, MapArea)> = Vec::new();
    areas.push((rng, mmio));
    let kernel_space = AddressSpace {
        page_table: pt,
        areas,
        data_segment_end: 0,
        data_segment_max: 0,
    };
    proof {
        assert(crate::address_space::vpn_start_of(rng) == mmio_first as int);
        assert(crate::address_space::vpn_end_of(rng) == mmio_first + mmio_pages) by {
            vstd::arithmetic::div_mod::lemma_fundamental_div_mod_converse(
                (MMIO_BASE + MMIO_SIZE + PAGE_SIZE - 1) as int,
                PAGE_SIZE as int,
                (mmio_first + mmio_pages) as int,
                PAGE_SIZE as int - 1,
            );
        }
        assert(kernel_space.area_ok(allocator, 0)) by {
            assert(range_canon(
                crate::address_space::vpn_start_of(rng),
                crate::address_space::vpn_end_of(rng),
            ));
            assert forall|v: int|
                crate::address_space::vpn_start_of(rng) <= v < crate::address_space::vpn_end_of(
                    rng,
                ) implies #[trigger] kernel_space.page_table.slot_owned(
                VPN(v as u64).spec_idx0() as int,
            ) by {
                crate::page_table::lemma_idx_bounds(VPN(v as u64));
            }
        }
        assert forall|v: u64|
            vpn_canon(v as int) && !kernel_space.covered_vpn(v as int) implies !(
        #[trigger] kernel_space.page_table.mapped(VPN(v))) by {
            assert(!(mmio_first <= v < mmio_first + mmio_pages)) by {
                if mmio_first <= v < mmio_first + mmio_pages {
                    assert(crate::address_space::vpn_start_of(kernel_space.areas[0].0) <= (
                    v as int) < crate::address_space::vpn_end_of(kernel_space.areas[0].0));
                }
            }
            assert(kernel_space.page_table.translate(VPN(v)) is None);
        }
        assert(kernel_space.wf(allocator));
    }
    Some(Memory { allocator, kernel_space })
}

} // verus!
