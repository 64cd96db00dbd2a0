//! Building an address space from an ELF image.
//!
//! The fixed-layout ELF64 header and program headers are parsed here in
//! verified code — little-endian integer reads at fixed offsets, checked
//! against spec functions over the image bytes — and each loadable
//! program header becomes a plain [`Segment`]. Validation, mapping,
//! copying and zero-filling are the verified [`AddressSpace::from_segments`].

use vstd::prelude::*;

use crate::address::{VARangeOrd, VA, VPN};
use crate::address_space::{
    data_view, loaded_page_ok, plain_word_flags, range_canon, range_uses_slot, vpn_canon, vpn_end_of,
    vpn_start_of, AddressSpace, MapType,
};
use crate::config::{BRK_MAX, PAGE_SIZE, USER_VA_LIMIT};
use crate::frame::FrameAllocator;
use crate::page_table::PageTableImpl;
use crate::pte::{
    PTEImpl, PTE_EXECUTABLE, PTE_READABLE, PTE_USER, PTE_WRITABLE,
};

verus! {

/// One loadable program header, as plain values.
#[derive(Clone, Copy, Debug, PartialEq, Eq, Structural)]
pub struct Segment {
    /// First virtual address of the segment in memory.
    pub vaddr: u64,
    /// Offset of the segment's bytes within the ELF image.
    pub offset: u64,
    /// Number of bytes present in the image.
    pub file_size: u64,
    /// Size of the segment in memory; the tail past `file_size` is
    /// zero-filled.
    pub mem_size: u64,
    pub readable: bool,
    pub writable: bool,
    pub executable: bool,
}

impl Segment {
    /// The permission word the segment's pages carry: R/W/X as the header
    /// says, plus USER.
    pub open spec fn spec_perm(self) -> u64 {
        PTE_USER | (if self.readable {
            PTE_READABLE
        } else {
            0
        }) | (if self.writable {
            PTE_WRITABLE
        } else {
            0
        }) | (if self.executable {
            PTE_EXECUTABLE
        } else {
            0
        })
    }

    /// The byte the segment puts at page `v`, offset `o`: the image byte
    /// where the address falls inside the file-backed part, zero in the
    /// zero-filled tail and in the rounding slack.
    pub open spec fn seg_byte(self, data: Seq<u8>, v: int, o: int) -> u8 {
        let a = v * PAGE_SIZE + o - self.vaddr;
        if 0 <= a < self.file_size {
            data[self.offset + a]
        } else {
            0
        }
    }

    /// First page of the segment.
    pub open spec fn first_vpn(self) -> int {
        (self.vaddr as int) / (PAGE_SIZE as int)
    }

    /// First page past the segment; a partial tail page counts.
    pub open spec fn end_vpn(self) -> int {
        (self.vaddr + self.mem_size + PAGE_SIZE - 1) / (PAGE_SIZE as int)
    }

    /// A segment the loader accepts: nonempty, above the null page (so a
    /// fault at the null address never finds an area), below the user
    /// limit with room for the break ceiling, its file part within the
    /// image and within the memory size, with at least one permission
    /// and never write-only — a write-only page could not stay a leaf
    /// once copy-on-write strips WRITABLE.
    pub open spec fn seg_ok(self, data_len: int) -> bool {
        &&& self.vaddr >= PAGE_SIZE
        &&& self.mem_size >= 1
        &&& self.vaddr + self.mem_size + PAGE_SIZE + BRK_MAX < USER_VA_LIMIT
        &&& self.file_size <= self.mem_size
        &&& self.offset + self.file_size <= data_len
        &&& (self.readable || self.writable || self.executable)
        &&& (self.writable ==> (self.readable || self.executable))
    }
}

/// The segment list the loader accepts: each segment sound, and the
/// list ascending with no two segments sharing a page. The loader backs
/// memory page by page, each page owned by one area, so two loadable
/// segments meeting inside one page cannot both own its frame; images
/// linked page-aligned, as this kernel's are, satisfy this.
pub open spec fn segs_ok(segs: Seq<Segment>, data_len: int) -> bool {
    &&& segs.len() >= 1
    &&& forall|j: int| 0 <= j < segs.len() ==> (#[trigger] segs[j]).seg_ok(data_len)
    &&& forall|j: int|
        0 <= j < segs.len() - 1 ==> (#[trigger] segs[j]).end_vpn() <= segs[j + 1].first_vpn()
}

/// The pages of the first `n` segments together.
pub open spec fn seg_pages(segs: Seq<Segment>, n: int) -> int
    decreases n,
{
    if n <= 0 {
        0
    } else {
        seg_pages(segs, n - 1) + (segs[n - 1].end_vpn() - segs[n - 1].first_vpn())
    }
}

/// The pages of an ascending, page-disjoint segment list fit under the
/// last segment's end page.
proof fn lemma_seg_pages_bound(segs: Seq<Segment>, data_len: int, n: int)
    requires
        segs_ok(segs, data_len),
        0 <= n <= segs.len(),
    ensures
        0 <= seg_pages(segs, n),
        n > 0 ==> seg_pages(segs, n) <= segs[n - 1].end_vpn(),
        seg_pages(segs, n) <= crate::config::USER_VPN_LIMIT,
    decreases n,
{
    if n > 0 {
        lemma_seg_pages_bound(segs, data_len, n - 1);
        assert(segs[n - 1].seg_ok(data_len));
        assert(segs[n - 1].end_vpn() <= crate::config::USER_VPN_LIMIT) by {
            vstd::arithmetic::div_mod::lemma_div_is_ordered(
                (segs[n - 1].vaddr + segs[n - 1].mem_size + PAGE_SIZE - 1) as int,
                (USER_VA_LIMIT - 1) as int,
                PAGE_SIZE as int,
            );
        }
        if n >= 2 {
            assert(segs[n - 2].end_vpn() <= segs[n - 1].first_vpn());
        }
        assert(segs[n - 1].first_vpn() <= segs[n - 1].end_vpn()) by {
            vstd::arithmetic::div_mod::lemma_div_is_ordered(
                segs[n - 1].vaddr as int,
                (segs[n - 1].vaddr + segs[n - 1].mem_size + PAGE_SIZE - 1) as int,
                PAGE_SIZE as int,
            );
        }
    }
}

impl AddressSpace {
    /// Build a user address space from the loadable segments of an image.
    ///
    /// Each segment becomes a framed area covering its pages entirely,
    /// with the permissions its header names plus USER; the file-backed
    /// bytes are copied from `data`, the rest of the covered pages is
    /// zero. The break starts at the last segment's end; its ceiling is
    /// one `BRK_MAX` above the break's page-aligned end. Fails, changing
    /// nothing, exactly when the segment list is unsound or the allocator
    /// cannot reserve one frame for the root plus three per page.
    #[verifier::rlimit(100)]
    pub fn from_segments(
        data: &[u8],
        segs: &Vec<Segment>,
        kernel: &PageTableImpl,
        alc: &mut FrameAllocator,
    ) -> (r: Option<AddressSpace>)
        requires
            kernel.wf(),
            old(alc).wf(),
        ensures
            final(alc).wf(),
            final(alc).spec_base() == old(alc).spec_base(),
            final(alc).spec_end() == old(alc).spec_end(),
            r is Some <==> (segs_ok(segs@, data@.len() as int) && old(alc).avail() >= 1 + 3
                * seg_pages(segs@, segs@.len() as int)),
            r is None ==> *final(alc) == *old(alc),
            r matches Some(s) ==> {
                &&& s.wf(*final(alc))
                &&& s.data_segment_end == segs@.last().vaddr + segs@.last().mem_size
                &&& s.data_segment_max == crate::address::spec_page_up(
                    (segs@.last().vaddr + segs@.last().mem_size) as u64,
                ) + BRK_MAX
                &&& s.data_segment_max % PAGE_SIZE == 0
                &&& s.data_segment_max < USER_VA_LIMIT
                &&& s.data_segment_end >= 1
                &&& s.covered_va(VA((s.data_segment_end - 1) as u64))
                &&& forall|i: int|
                    0 <= i < s.areas.len() ==> (#[trigger] s.areas[i].1.map_type) is Framed
                &&& forall|i: int|
                    0 <= i < s.areas.len() ==> (#[trigger] s.areas[i].0).0.end.0
                        <= s.data_segment_max && s.areas[i].0.0.start.0 < s.data_segment_end
                        && s.areas[i].0.0.start.0 >= PAGE_SIZE && vpn_end_of(s.areas[i].0)
                        <= crate::config::USER_VPN_LIMIT
                &&& forall|i: int|
                    0 <= i < s.areas.len() && (#[trigger] s.areas[i].1.map_perm.0)
                        & PTE_WRITABLE != 0 ==> s.areas[i].1.map_perm.0 & 0xa != 0
                &&& forall|x: int|
                    256 <= x < 512 ==> (#[trigger] s.page_table.root[x]) == kernel.root[x]
                &&& forall|j: int, v: int|
                    #![trigger segs@[j].first_vpn(), s.page_table.translate(VPN(v as u64))]
                    0 <= j < segs@.len() && segs@[j].first_vpn() <= v < segs@[j].end_vpn()
                        ==> s.page_table.mapped(VPN(v as u64)) && (s.page_table.translate(
                        VPN(v as u64),
                    ))->0.spec_flags() == plain_word_flags(segs@[j].spec_perm()) && (forall|o: int|
                        0 <= o < PAGE_SIZE ==> final(alc).frame_bytes(
                            (s.page_table.translate(VPN(v as u64)))->0.spec_ppn(),
                        )[o] == segs@[j].seg_byte(data@, v, o))
            },
    {
        let n = segs.len();
        let dl: usize = data.len();
        proof {
            assert(data@.len() == dl);
        }
        if n == 0 {
            return None;
        }
        let mut j: usize = 0;
        while j < n
            invariant
                n == segs.len(),
                j <= n,
                *alc == *old(alc),
                old(alc).wf(),
                data@.len() <= usize::MAX,
                forall|x: int| 0 <= x < j ==> (#[trigger] segs@[x]).seg_ok(data@.len() as int),
                forall|x: int|
                    0 <= x < j && x + 1 < n ==> (#[trigger] segs@[x]).end_vpn() <= segs@[
                        x + 1
                    ].first_vpn(),
            decreases n - j,
        {
            let sg = segs[j];
            let good: bool = sg.vaddr >= PAGE_SIZE && sg.mem_size >= 1 && sg.vaddr < USER_VA_LIMIT
                && sg.mem_size < USER_VA_LIMIT && sg.vaddr + sg.mem_size + PAGE_SIZE + BRK_MAX
                < USER_VA_LIMIT && sg.file_size <= sg.mem_size && sg.offset <= u64::MAX
                - sg.file_size && sg.offset + sg.file_size <= data.len() as u64 && (sg.readable
                || sg.writable || sg.executable) && (!sg.writable || sg.readable
                || sg.executable);
            if !good {
                proof {
                    assert(!(#[trigger] segs@[j as int]).seg_ok(data@.len() as int));
                }
                return None;
            }
            if j + 1 < n {
                let nx = segs[j + 1];
                let e_pg = (sg.vaddr + sg.mem_size + PAGE_SIZE - 1) / PAGE_SIZE;
                let s_pg = nx.vaddr / PAGE_SIZE;
                if e_pg > s_pg {
                    proof {
                        assert((#[trigger] segs@[j as int]).end_vpn() > segs@[
                            j as int + 1
                        ].first_vpn());
                        assert(!segs_ok(segs@, data@.len() as int));
                    }
                    return None;
                }
            }
            j = j + 1;
        }
        proof {
            assert(segs_ok(segs@, data@.len() as int));
        }
        let mut total: u64 = 0;
        let mut tj: usize = 0;
        while tj < n
            invariant
                n == segs.len(),
                tj <= n,
                *alc == *old(alc),
                old(alc).wf(),
                segs_ok(segs@, data@.len() as int),
                total == seg_pages(segs@, tj as int),
                total <= crate::config::USER_VPN_LIMIT,
            decreases n - tj,
        {
            proof {
                lemma_seg_pages_bound(segs@, data@.len() as int, tj as int + 1);
            }
            let sg = segs[tj];
            let e_pg = (sg.vaddr + sg.mem_size + PAGE_SIZE - 1) / PAGE_SIZE;
            let s_pg = sg.vaddr / PAGE_SIZE;
            total = total + (e_pg - s_pg);
            tj = tj + 1;
        }
        if alc.available() < 1 + 3 * total {
            return None;
        }
        let mut sp = match AddressSpace::new_kernel(kernel, alc) {
            Some(sp) => sp,
            None => {
                proof {
                    assert(false);
                }
                return None;
            },
        };
        let ghost a0 = *old(alc);
        let mut i: usize = 0;
        while i < n
            invariant
                n == segs.len(),
                i <= n,
                kernel.wf(),
                segs_ok(segs@, data@.len() as int),
                a0 == *old(alc),
                a0.avail() >= 1 + 3 * seg_pages(segs@, n as int),
                sp.wf(*alc),
                sp.data_segment_end == 0 && sp.data_segment_max == 0,
                sp.areas.len() == i,
                forall|x: int|
                    0 <= x < sp.areas.len() ==> (#[trigger] sp.areas[x].1.map_type) is Framed,
                forall|x: int|
                    0 <= x < sp.areas.len() && (#[trigger] sp.areas[x].1.map_perm.0)
                        & PTE_WRITABLE != 0 ==> sp.areas[x].1.map_perm.0 & 0xa != 0,
                forall|x: int|
                    0 <= x < i ==> vpn_end_of(#[trigger] sp.areas[x].0) <= segs@[
                        i - 1
                    ].end_vpn() && sp.areas[x].0.0.end.0 <= segs@[i - 1].vaddr + segs@[
                        i - 1
                    ].mem_size && sp.areas[x].0.0.start.0 >= PAGE_SIZE && vpn_end_of(
                        sp.areas[x].0,
                    ) <= crate::config::USER_VPN_LIMIT,
                i >= 1 ==> exists|x: int|
                    0 <= x < sp.areas.len() && (#[trigger] sp.areas[x].0).0
                        == (crate::address::VARange {
                        start: VA(segs@[i - 1].vaddr),
                        end: VA((segs@[i - 1].vaddr + segs@[i - 1].mem_size) as u64),
                    }),
                forall|x: int, v: int|
                    #![trigger segs@[x].first_vpn(), sp.page_table.translate(VPN(v as u64))]
                    0 <= x < i && segs@[x].first_vpn() <= v < segs@[x].end_vpn() ==> sp.page_table
                        .mapped(VPN(v as u64)) && (sp.page_table.translate(
                        VPN(v as u64),
                    ))->0.spec_flags() == plain_word_flags(segs@[x].spec_perm()) && (forall|o: int|
                        0 <= o < PAGE_SIZE ==> alc.frame_bytes(
                            (sp.page_table.translate(VPN(v as u64)))->0.spec_ppn(),
                        )[o] == segs@[x].seg_byte(data@, v, o)),
                forall|x: int|
                    256 <= x < 512 ==> (#[trigger] sp.page_table.root[x]) == kernel.root[x],
                alc.wf(),
                alc.spec_base() == a0.spec_base(),
                alc.spec_end() == a0.spec_end(),
                alc.avail() >= a0.avail() - 1 - 3 * seg_pages(segs@, i as int),
            decreases n - i,
        {
            proof {
                lemma_seg_pages_bound(segs@, data@.len() as int, i as int + 1);
                lemma_seg_pages_bound(segs@, data@.len() as int, i as int);
                lemma_seg_pages_mono_ok(segs@, data@.len() as int, i as int + 1, n as int);
                assert(segs@[i as int].seg_ok(data@.len() as int));
            }
            let sg = segs[i];
            if sg.offset > data.len() as u64 || sg.file_size > data.len() as u64 - sg.offset {
                proof {
                    assert(false);
                }
                return None;
            }
            let mut temp: Vec<u8> = Vec::new();
            let mut c: u64 = 0;
            while c < sg.file_size
                invariant
                    sg.offset + sg.file_size <= data@.len(),
                    sg.offset + sg.file_size <= u64::MAX,
                    data@.len() <= usize::MAX,
                    c <= sg.file_size,
                    temp@.len() == c,
                    forall|x: int| 0 <= x < c ==> temp@[x] == data@[sg.offset + x],
                decreases sg.file_size - c,
            {
                temp.push(data[(sg.offset + c) as usize]);
                c = c + 1;
            }
            let perm_bits: u64 = PTE_USER | (if sg.readable {
                PTE_READABLE
            } else {
                0
            }) | (if sg.writable {
                PTE_WRITABLE
            } else {
                0
            }) | (if sg.executable {
                PTE_EXECUTABLE
            } else {
                0
            });
            proof {
                lemma_perm_bits(sg.readable, sg.writable, sg.executable);
                assert(perm_bits == sg.spec_perm());
            }
            let rng = crate::address::VARange {
                start: VA(sg.vaddr),
                end: VA(sg.vaddr + sg.mem_size),
            };
            let ghost s2 = vpn_start_of(VARangeOrd(rng));
            let ghost e2 = vpn_end_of(VARangeOrd(rng));
            proof {
                assert(s2 == sg.first_vpn() && e2 == sg.end_vpn());
                assert(s2 < e2) by {
                    vstd::arithmetic::div_mod::lemma_div_is_ordered(
                        (sg.vaddr + PAGE_SIZE) as int,
                        (sg.vaddr + sg.mem_size + PAGE_SIZE - 1) as int,
                        PAGE_SIZE as int,
                    );
                    vstd::arithmetic::div_mod::lemma_div_plus_one(
                        sg.vaddr as int,
                        PAGE_SIZE as int,
                    );
                }
                assert(1 <= s2) by {
                    vstd::arithmetic::div_mod::lemma_div_is_ordered(
                        PAGE_SIZE as int,
                        sg.vaddr as int,
                        PAGE_SIZE as int,
                    );
                }
                assert(e2 <= crate::config::USER_VPN_LIMIT) by {
                    vstd::arithmetic::div_mod::lemma_div_is_ordered(
                        (sg.vaddr + sg.mem_size + PAGE_SIZE - 1) as int,
                        (USER_VA_LIMIT - 1) as int,
                        PAGE_SIZE as int,
                    );
                }
                assert(range_canon(s2, e2));
                assert(sp.range_free(s2, e2)) by {
                    assert forall|x: int|
                        0 <= x < sp.areas.len() implies vpn_end_of(#[trigger] sp.areas[x].0) <= s2
                        || e2 <= vpn_start_of(sp.areas[x].0) by {
                        assert(vpn_end_of(sp.areas[x].0) <= segs@[i as int - 1].end_vpn());
                        lemma_segs_sorted(segs@, data@.len() as int, i as int - 1, i as int);
                    }
                }
                assert(sp.range_slots_owned(s2, e2)) by {
                    assert forall|v: int| s2 <= v < e2 implies sp.page_table.slot_owned(
                        (#[trigger] VPN(v as u64).spec_idx0()) as int,
                    ) by {
                        crate::address_space::lemma_user_vpn_idx0(v as u64);
                        crate::page_table::lemma_idx_bounds(VPN(v as u64));
                    }
                }
                assert forall|x: int|
                    0 <= x < 512 && 256 <= x implies !range_uses_slot(s2, e2, x) by {
                    if range_uses_slot(s2, e2, x) {
                        let v = choose|v: int|
                            s2 <= v < e2 && (#[trigger] VPN(v as u64).spec_idx0()) as int == x;
                        crate::address_space::lemma_user_vpn_idx0(v as u64);
                        assert(false);
                    }
                }
            }
            let ghost sp_head = sp;
            let ghost alc_head = *alc;
            let ok = sp.insert_framed_area(rng, PTEImpl(perm_bits), Some(&temp), alc);
            proof {
                assert(ok);
                lemma_from_segments_step(
                    sp_head,
                    sp,
                    segs@,
                    data@.len() as int,
                    i as int,
                    rng,
                    perm_bits,
                );
                assert forall|v: int|
                    vpn_start_of(VARangeOrd(rng)) <= v < vpn_end_of(
                        VARangeOrd(rng),
                    ) implies #[trigger] loaded_page_ok(
                    sp,
                    *alc,
                    rng.start.0,
                    data_view(Some(&temp)),
                    PTEImpl(perm_bits).0,
                    v,
                ) by {
                }
                assert forall|v: int| s2 <= v < e2 implies #[trigger] loaded_page_ok(
                    sp,
                    *alc,
                    sg.vaddr,
                    data_view(Some(&temp)),
                    perm_bits,
                    v,
                ) by {
                    assert(loaded_page_ok(
                        sp,
                        *alc,
                        rng.start.0,
                        data_view(Some(&temp)),
                        PTEImpl(perm_bits).0,
                        v,
                    ));
                }
                assert(data_view(Some(&temp)) == Some(temp@));
                lemma_loader_pages_step(
                    sp_head,
                    sp,
                    alc_head,
                    *alc,
                    segs@,
                    data@,
                    temp@,
                    i as int,
                    s2,
                    e2,
                    perm_bits,
                );
            }
            i = i + 1;
        }
        let last = segs[n - 1];
        let dse: u64 = last.vaddr + last.mem_size;
        let dmax: u64 = crate::address::page_up(dse) + BRK_MAX;
        let ghost before_scalar = sp;
        sp.data_segment_end = dse;
        sp.data_segment_max = dmax;
        proof {
            assert(sp.areas == before_scalar.areas && sp.page_table == before_scalar.page_table);
            assert(dse <= dmax) by {
                assert(crate::address::spec_page_up(dse) >= dse);
            }
            crate::address_space::lemma_wf_scalar_change(before_scalar, sp, *alc);
            assert(dmax % PAGE_SIZE == 0) by {
                assert(crate::address::spec_page_up(dse) % (PAGE_SIZE as int) == 0) by {
                    vstd::arithmetic::div_mod::lemma_mod_multiples_basic(
                        (dse + PAGE_SIZE - 1) / (PAGE_SIZE as int),
                        PAGE_SIZE as int,
                    );
                }
            }
            assert(sp.covered_va(VA((dse - 1) as u64))) by {
                let x = choose|x: int|
                    0 <= x < before_scalar.areas.len() && (#[trigger] before_scalar.areas[x].0).0
                        == (crate::address::VARange {
                        start: VA(last.vaddr),
                        end: VA((last.vaddr + last.mem_size) as u64),
                    });
                assert(sp.areas[x].0.spec_contains(VA((dse - 1) as u64)));
            }
            assert forall|j: int, v: int|
                #![trigger segs@[j].first_vpn(), sp.page_table.translate(VPN(v as u64))]
                0 <= j < segs@.len() && segs@[j].first_vpn() <= v < segs@[j].end_vpn() implies sp
                .page_table.mapped(VPN(v as u64)) && (sp.page_table.translate(
                VPN(v as u64),
            ))->0.spec_flags() == plain_word_flags(segs@[j].spec_perm()) && (forall|o: int|
                0 <= o < PAGE_SIZE ==> alc.frame_bytes(
                    (sp.page_table.translate(VPN(v as u64)))->0.spec_ppn(),
                )[o] == segs@[j].seg_byte(data@, v, o)) by {
                assert(before_scalar.page_table.mapped(VPN(v as u64)));
                assert(sp.page_table == before_scalar.page_table);
            }
            assert forall|x: int| 0 <= x < sp.areas.len() implies (#[trigger] sp.areas[x].0).0.end
                .0 <= sp.data_segment_max && sp.areas[x].0.0.start.0 < sp.data_segment_end
                && sp.areas[x].0.0.start.0 >= PAGE_SIZE && vpn_end_of(sp.areas[x].0)
                <= crate::config::USER_VPN_LIMIT by {
                assert(sp.area_ok(*alc, x));
                assert(sp.areas[x].0.wf());
                assert(before_scalar.areas[x] == sp.areas[x]);
                assert(vpn_end_of(before_scalar.areas[x].0) <= segs@[n - 1].end_vpn());
                assert(before_scalar.areas[x].0.0.end.0 <= dse);
                assert(crate::address::spec_page_up(dse) >= dse);
            }
        }
        Some(sp)
    }
}

/// The permission word built from R/W/X choices stays within the flag
/// mask, carries USER and no bookkeeping bits, has at least one
/// permission when any is chosen, and obeys the fork discipline.
proof fn lemma_perm_bits(r: bool, w: bool, x: bool)
    ensures
        ({
            let p = PTE_USER | (if r {
                PTE_READABLE
            } else {
                0
            }) | (if w {
                PTE_WRITABLE
            } else {
                0
            }) | (if x {
                PTE_EXECUTABLE
            } else {
                0
            });
            &&& p <= crate::pte::PTE_FLAG_MASK
            &&& p & crate::pte::PTE_COW == 0
            &&& p & crate::pte::PTE_VALID == 0
            &&& ((r || w || x) ==> p & crate::pte::PTE_RWX != 0)
            &&& ((p & PTE_WRITABLE != 0) <==> w)
            &&& ((w && (r || x)) ==> p & 0xa != 0)
        }),
{
    let pr: u64 = if r {
        2
    } else {
        0
    };
    let pw: u64 = if w {
        4
    } else {
        0
    };
    let px: u64 = if x {
        8
    } else {
        0
    };
    assert((pr == 2 || pr == 0) && (pw == 4 || pw == 0) && (px == 8 || px == 0) ==> {
        let p = ((0x10u64 | pr) | pw) | px;
        p <= 0x1ff && p & 0x100 == 0 && p & 0x1 == 0 && ((pr != 0 || pw != 0 || px != 0) ==> p
            & 0xe != 0) && ((p & 0x4 != 0) == (pw != 0)) && ((pw != 0 && (pr != 0 || px != 0))
            ==> p & 0xa != 0)
    }) by (bit_vector);
}

/// One loader step extends the loaded-contents account: pages of earlier
/// segments keep their mapping, flags and bytes (their frames are live
/// and untouched), and the pages of the segment just inserted carry its
/// permissions and its file bytes, zero elsewhere.
#[verifier::rlimit(100)]
#[verifier::spinoff_prover]
proof fn lemma_loader_pages_step(
    sp_head: AddressSpace,
    sp: AddressSpace,
    alc_head: FrameAllocator,
    alc: FrameAllocator,
    segs: Seq<Segment>,
    data: Seq<u8>,
    temp: Seq<u8>,
    i: int,
    s2: int,
    e2: int,
    perm_bits: u64,
)
    requires
        segs_ok(segs, data.len() as int),
        0 <= i < segs.len(),
        s2 == segs[i].first_vpn(),
        e2 == segs[i].end_vpn(),
        perm_bits == segs[i].spec_perm(),
        temp.len() == segs[i].file_size,
        forall|a: int| 0 <= a < temp.len() ==> temp[a] == data[segs[i].offset + a],
        sp_head.wf(alc_head),
        forall|x: int|
            0 <= x < sp_head.areas.len() ==> (#[trigger] sp_head.areas[x].1.map_type) is Framed,
        forall|x: int, v: int|
            #![trigger segs[x].first_vpn(), sp_head.page_table.translate(VPN(v as u64))]
            0 <= x < i && segs[x].first_vpn() <= v < segs[x].end_vpn() ==> sp_head.page_table
                .mapped(VPN(v as u64)) && (sp_head.page_table.translate(
                VPN(v as u64),
            ))->0.spec_flags() == plain_word_flags(segs[x].spec_perm()) && (forall|o: int|
                0 <= o < PAGE_SIZE ==> alc_head.frame_bytes(
                    (sp_head.page_table.translate(VPN(v as u64)))->0.spec_ppn(),
                )[o] == segs[x].seg_byte(data, v, o)),
        forall|v: int|
            s2 <= v < e2 ==> #[trigger] loaded_page_ok(sp, alc, segs[i].vaddr, Some(temp), perm_bits, v),
        forall|v: u64|
            vpn_canon(v as int) && !(s2 <= v < e2) ==> #[trigger] sp.page_table.translate(VPN(v))
                == sp_head.page_table.translate(VPN(v)),
        forall|q: u64|
            alc_head.live(q) ==> alc.refcount(q) == alc_head.refcount(q) && alc.frame_bytes(q)
                == alc_head.frame_bytes(q),
    ensures
        forall|x: int, v: int|
            #![trigger segs[x].first_vpn(), sp.page_table.translate(VPN(v as u64))]
            0 <= x < i + 1 && segs[x].first_vpn() <= v < segs[x].end_vpn() ==> sp.page_table
                .mapped(VPN(v as u64)) && (sp.page_table.translate(VPN(v as u64)))->0.spec_flags()
                == plain_word_flags(segs[x].spec_perm()) && (forall|o: int|
                0 <= o < PAGE_SIZE ==> alc.frame_bytes(
                    (sp.page_table.translate(VPN(v as u64)))->0.spec_ppn(),
                )[o] == segs[x].seg_byte(data, v, o)),
{
    assert forall|x: int, v: int|
        #![trigger segs[x].first_vpn(), sp.page_table.translate(VPN(v as u64))]
        0 <= x < i + 1 && segs[x].first_vpn() <= v < segs[x].end_vpn() implies sp.page_table
        .mapped(VPN(v as u64)) && (sp.page_table.translate(VPN(v as u64)))->0.spec_flags()
        == plain_word_flags(segs[x].spec_perm()) && (forall|o: int|
        0 <= o < PAGE_SIZE ==> alc.frame_bytes(
            (sp.page_table.translate(VPN(v as u64)))->0.spec_ppn(),
        )[o] == segs[x].seg_byte(data, v, o)) by {
        assert(segs[x].seg_ok(data.len() as int));
        assert(vpn_canon(v)) by {
            vstd::arithmetic::div_mod::lemma_div_is_ordered(
                (segs[x].vaddr + segs[x].mem_size + PAGE_SIZE - 1) as int,
                (USER_VA_LIMIT - 1) as int,
                PAGE_SIZE as int,
            );
            vstd::arithmetic::div_mod::lemma_div_is_ordered(0, segs[x].vaddr as int, PAGE_SIZE as int);
        }
        if x < i {
            assert(!(s2 <= v < e2)) by {
                lemma_segs_sorted(segs, data.len() as int, x, i);
            }
            assert(sp.page_table.translate(VPN(v as u64)) == sp_head.page_table.translate(
                VPN(v as u64),
            ));
            assert(sp_head.page_table.mapped(VPN(v as u64)));
            let t = sp_head.page_table.translate(VPN(v as u64));
            sp_head.lemma_mapped_frame_live(alc_head, VPN(v as u64));
            assert(alc_head.live(t->0.spec_ppn()));
            assert(alc.frame_bytes(t->0.spec_ppn()) == alc_head.frame_bytes(t->0.spec_ppn()));
            assert forall|o: int| 0 <= o < PAGE_SIZE implies #[trigger] alc.frame_bytes(
                (sp.page_table.translate(VPN(v as u64)))->0.spec_ppn(),
            )[o] == segs[x].seg_byte(data, v, o) by {
                assert(alc_head.frame_bytes(t->0.spec_ppn())[o] == segs[x].seg_byte(data, v, o));
            }
        } else {
            assert(loaded_page_ok(sp, alc, segs[i].vaddr, Some(temp), perm_bits, v));
            let t = sp.page_table.translate(VPN(v as u64));
            assert forall|o: int| 0 <= o < PAGE_SIZE implies #[trigger] alc.frame_bytes(
                t->0.spec_ppn(),
            )[o] == segs[x].seg_byte(data, v, o) by {
                assert(alc.frame_bytes(t->0.spec_ppn())[o] == AddressSpace::init_byte(
                    segs[i].vaddr,
                    Some(temp),
                    v,
                    o,
                ));
                let a = v * PAGE_SIZE + o - segs[i].vaddr;
                if 0 <= a < segs[i].file_size {
                    assert(temp[a] == data[segs[i].offset + a]);
                }
            }
        }
    }
}

/// After inserting the area of segment `i`, the loader's bookkeeping
/// facts extend to the new area list.
#[verifier::rlimit(100)]
#[verifier::spinoff_prover]
proof fn lemma_from_segments_step(
    pre: AddressSpace,
    post: AddressSpace,
    segs: Seq<Segment>,
    data_len: int,
    i: int,
    rng: crate::address::VARange,
    perm_bits: u64,
)
    requires
        segs_ok(segs, data_len),
        0 <= i < segs.len(),
        rng.start.0 == segs[i].vaddr,
        rng.end.0 == segs[i].vaddr + segs[i].mem_size,
        pre.areas.len() == i,
        forall|x: int|
            0 <= x < i ==> vpn_end_of(#[trigger] pre.areas[x].0) <= segs[i - 1].end_vpn()
                && pre.areas[x].0.0.end.0 <= segs[i - 1].vaddr + segs[i - 1].mem_size
                && pre.areas[x].0.0.start.0 >= PAGE_SIZE && vpn_end_of(pre.areas[x].0)
                <= crate::config::USER_VPN_LIMIT,
        forall|x: int| 0 <= x < i ==> (#[trigger] pre.areas[x].1.map_type) is Framed,
        forall|x: int|
            0 <= x < i && (#[trigger] pre.areas[x].1.map_perm.0) & PTE_WRITABLE != 0
                ==> pre.areas[x].1.map_perm.0 & 0xa != 0,
        perm_bits & PTE_WRITABLE != 0 ==> perm_bits & 0xa != 0,
        exists|pos: int|
            #![auto]
            {
                &&& 0 <= pos <= pre.areas.len()
                &&& post.areas.len() == pre.areas.len() + 1
                &&& (forall|y: int| 0 <= y < pos ==> post.areas[y] == pre.areas[y])
                &&& (forall|y: int|
                    pos <= y < pre.areas.len() ==> post.areas[y + 1] == pre.areas[y])
                &&& post.areas[pos].0 == VARangeOrd(rng)
                &&& post.areas[pos].1.map_type is Framed
                &&& post.areas[pos].1.map_perm == PTEImpl(perm_bits)
            },
    ensures
        forall|x: int|
            0 <= x < i + 1 ==> vpn_end_of(#[trigger] post.areas[x].0) <= segs[i].end_vpn()
                && post.areas[x].0.0.end.0 <= segs[i].vaddr + segs[i].mem_size
                && post.areas[x].0.0.start.0 >= PAGE_SIZE && vpn_end_of(post.areas[x].0)
                <= crate::config::USER_VPN_LIMIT,
        forall|x: int| 0 <= x < i + 1 ==> (#[trigger] post.areas[x].1.map_type) is Framed,
        forall|x: int|
            0 <= x < i + 1 && (#[trigger] post.areas[x].1.map_perm.0) & PTE_WRITABLE != 0
                ==> post.areas[x].1.map_perm.0 & 0xa != 0,
        exists|x: int|
            0 <= x < post.areas.len() && (#[trigger] post.areas[x].0).0
                == (crate::address::VARange {
                start: VA(segs[i].vaddr),
                end: VA((segs[i].vaddr + segs[i].mem_size) as u64),
            }),
{
    let sg = segs[i];
    assert(sg.seg_ok(data_len));
    let pos = choose|pos: int|
        #![auto]
        {
            &&& 0 <= pos <= pre.areas.len()
            &&& post.areas.len() == pre.areas.len() + 1
            &&& (forall|y: int| 0 <= y < pos ==> post.areas[y] == pre.areas[y])
            &&& (forall|y: int| pos <= y < pre.areas.len() ==> post.areas[y + 1] == pre.areas[y])
            &&& post.areas[pos].0 == VARangeOrd(rng)
            &&& post.areas[pos].1.map_type is Framed
            &&& post.areas[pos].1.map_perm == PTEImpl(perm_bits)
        };
    assert(1 <= vpn_start_of(VARangeOrd(rng))) by {
        vstd::arithmetic::div_mod::lemma_div_is_ordered(
            PAGE_SIZE as int,
            sg.vaddr as int,
            PAGE_SIZE as int,
        );
    }
    assert(vpn_end_of(VARangeOrd(rng)) == sg.end_vpn());
    assert(vpn_end_of(VARangeOrd(rng)) <= crate::config::USER_VPN_LIMIT) by {
        vstd::arithmetic::div_mod::lemma_div_is_ordered(
            (sg.vaddr + sg.mem_size + PAGE_SIZE - 1) as int,
            (USER_VA_LIMIT - 1) as int,
            PAGE_SIZE as int,
        );
    }
    assert forall|x: int|
        0 <= x < i + 1 implies vpn_end_of(#[trigger] post.areas[x].0) <= segs[i].end_vpn()
        && post.areas[x].0.0.end.0 <= segs[i].vaddr + segs[i].mem_size && post.areas[x].0.0.start
        .0 >= PAGE_SIZE && vpn_end_of(post.areas[x].0) <= crate::config::USER_VPN_LIMIT by {
        if x == pos {
            assert(post.areas[x].0 == VARangeOrd(rng));
        } else {
            let ox = if x < pos {
                x
            } else {
                x - 1
            };
            assert(post.areas[x] == pre.areas[ox]);
            if i >= 1 {
                lemma_segs_sorted(segs, data_len, i - 1, i);
                lemma_seg_le2(segs[i - 1], segs[i]);
            }
        }
    }
    assert forall|x: int| 0 <= x < i + 1 implies (#[trigger] post.areas[x].1.map_type)
        is Framed by {
        if x != pos {
            let ox = if x < pos {
                x
            } else {
                x - 1
            };
            assert(post.areas[x] == pre.areas[ox]);
        }
    }
    assert forall|x: int|
        0 <= x < i + 1 && (#[trigger] post.areas[x].1.map_perm.0) & PTE_WRITABLE != 0 implies post
        .areas[x].1.map_perm.0 & 0xa != 0 by {
        if x != pos {
            let ox = if x < pos {
                x
            } else {
                x - 1
            };
            assert(post.areas[x] == pre.areas[ox]);
        }
    }
    assert((post.areas[pos].0).0 == rng);
}

/// An earlier segment (page-wise before) ends, in addresses, no later
/// than the later one's memory end.
proof fn lemma_seg_le2(a: Segment, b: Segment)
    requires
        a.end_vpn() <= b.first_vpn(),
    ensures
        a.vaddr + a.mem_size <= b.vaddr + b.mem_size,
{
    vstd::arithmetic::div_mod::lemma_fundamental_div_mod(
        (a.vaddr + a.mem_size + PAGE_SIZE - 1) as int,
        PAGE_SIZE as int,
    );
    vstd::arithmetic::div_mod::lemma_fundamental_div_mod(b.vaddr as int, PAGE_SIZE as int);
    let qa = (a.vaddr + a.mem_size + PAGE_SIZE - 1) / (PAGE_SIZE as int);
    let qb = (b.vaddr as int) / (PAGE_SIZE as int);
    assert(a.vaddr + a.mem_size <= qa * PAGE_SIZE) by (nonlinear_arith)
        requires
            qa == (a.vaddr + a.mem_size + PAGE_SIZE - 1) / (PAGE_SIZE as int),
            PAGE_SIZE == 4096,
    ;
    assert(qa * PAGE_SIZE <= qb * PAGE_SIZE) by (nonlinear_arith)
        requires
            qa <= qb,
            PAGE_SIZE == 4096,
    ;
    assert(qb * PAGE_SIZE <= b.vaddr);
}

/// Ascending page order extends across any two indexes.
proof fn lemma_segs_sorted(segs: Seq<Segment>, data_len: int, a: int, b: int)
    requires
        segs_ok(segs, data_len),
        0 <= a < segs.len(),
        0 <= b < segs.len(),
        a < b,
    ensures
        segs[a].end_vpn() <= segs[b].first_vpn(),
        segs[a].end_vpn() <= segs[b].end_vpn(),
    decreases b - a,
{
    if a + 1 < b {
        lemma_segs_sorted(segs, data_len, a + 1, b);
        assert(segs[a].end_vpn() <= segs[a + 1].first_vpn());
        assert(segs[a + 1].first_vpn() <= segs[a + 1].end_vpn()) by {
            vstd::arithmetic::div_mod::lemma_div_is_ordered(
                segs[a + 1].vaddr as int,
                (segs[a + 1].vaddr + segs[a + 1].mem_size + PAGE_SIZE - 1) as int,
                PAGE_SIZE as int,
            );
        }
    } else {
        assert(segs[b].first_vpn() <= segs[b].end_vpn()) by {
            vstd::arithmetic::div_mod::lemma_div_is_ordered(
                segs[b].vaddr as int,
                (segs[b].vaddr + segs[b].mem_size + PAGE_SIZE - 1) as int,
                PAGE_SIZE as int,
            );
        }
    }
}

/// The page counts of segment prefixes grow with the prefix.
proof fn lemma_seg_pages_mono_ok(segs: Seq<Segment>, data_len: int, a: int, b: int)
    requires
        segs_ok(segs, data_len),
        0 <= a <= b <= segs.len(),
    ensures
        seg_pages(segs, a) <= seg_pages(segs, b),
    decreases b - a,
{
    if a < b {
        lemma_seg_pages_mono_ok(segs, data_len, a, b - 1);
        assert(segs[b - 1].first_vpn() <= segs[b - 1].end_vpn()) by {
            vstd::arithmetic::div_mod::lemma_div_is_ordered(
                segs[b - 1].vaddr as int,
                (segs[b - 1].vaddr + segs[b - 1].mem_size + PAGE_SIZE - 1) as int,
                PAGE_SIZE as int,
            );
        }
    }
}


/// The 16-bit little-endian integer at offset `o`.
pub open spec fn le16(d: Seq<u8>, o: int) -> u64 {
    (d[o] + 0x100 * d[o + 1]) as u64
}

/// The 32-bit little-endian integer at offset `o`.
pub open spec fn le32(d: Seq<u8>, o: int) -> u64 {
    (le16(d, o) + 0x1_0000 * le16(d, o + 2)) as u64
}

/// The 64-bit little-endian integer at offset `o`.
pub open spec fn le64(d: Seq<u8>, o: int) -> u64 {
    (le32(d, o) + 0x1_0000_0000 * le32(d, o + 4)) as u64
}

/// Largest image the loader takes; keeps all offset arithmetic within
/// the machine word.
pub const ELF_MAX_IMAGE: u64 = 0x1_0000_0000;

/// A well-formed ELF64 header: the magic, 64-bit class, little-endian
/// data, version one, the 56-byte program-header entry size, and an
/// image small enough for offset arithmetic.
pub open spec fn elf_header_ok(d: Seq<u8>) -> bool {
    &&& 64 <= d.len() < ELF_MAX_IMAGE
    &&& d[0] == 0x7f && d[1] == 0x45 && d[2] == 0x4c && d[3] == 0x46
    &&& d[4] == 2 && d[5] == 1 && d[6] == 1
    &&& le16(d, 54) == 56
}

/// The entry address the header names.
pub open spec fn elf_entry_of(d: Seq<u8>) -> u64 {
    le64(d, 24)
}

/// The program-header table offset.
pub open spec fn elf_ph_off(d: Seq<u8>) -> u64 {
    le64(d, 32)
}

/// The number of program headers.
pub open spec fn elf_ph_count(d: Seq<u8>) -> u64 {
    le16(d, 56)
}

/// The `i`-th program header as a plain segment, when it lies within the
/// image and is loadable (`PT_LOAD`); flag bits 0, 1, 2 are X, W, R.
pub open spec fn elf_segment_at(d: Seq<u8>, i: int) -> Option<Segment> {
    let o = elf_ph_off(d) + 56 * i;
    if o + 56 <= d.len() && le32(d, o) == 1 {
        Some(
            Segment {
                vaddr: le64(d, o + 16),
                offset: le64(d, o + 8),
                file_size: le64(d, o + 32),
                mem_size: le64(d, o + 40),
                readable: le32(d, o + 4) & 0x4 != 0,
                writable: le32(d, o + 4) & 0x2 != 0,
                executable: le32(d, o + 4) & 0x1 != 0,
            },
        )
    } else {
        None
    }
}

/// The loadable segments among the first `n` program headers, in order.
pub open spec fn elf_load_segments(d: Seq<u8>, n: int) -> Seq<Segment>
    decreases n,
{
    if n <= 0 {
        Seq::empty()
    } else {
        match elf_segment_at(d, n - 1) {
            Some(sg) => elf_load_segments(d, n - 1).push(sg),
            None => elf_load_segments(d, n - 1),
        }
    }
}

/// All loadable segments of the image.
pub open spec fn elf_segments(d: Seq<u8>) -> Seq<Segment> {
    elf_load_segments(d, elf_ph_count(d) as int)
}

/// Read the 16-bit little-endian integer at `o`.
fn read_le16(d: &[u8], o: usize) -> (r: u64)
    requires
        o + 2 <= d.len(),
    ensures
        r == le16(d@, o as int),
        r < 0x1_0000,
{
    let a: u64 = d[o] as u64;
    let b: u64 = d[o + 1] as u64;
    proof {
        assert(a < 0x100 && b < 0x100 ==> (a | (b << 8)) == a + 0x100 * b && (a | (b << 8))
            < 0x1_0000) by (bit_vector);
    }
    a | (b << 8)
}

/// Read the 32-bit little-endian integer at `o`.
fn read_le32(d: &[u8], o: usize) -> (r: u64)
    requires
        o + 4 <= d.len(),
    ensures
        r == le32(d@, o as int),
        r < 0x1_0000_0000,
{
    let a = read_le16(d, o);
    let b = read_le16(d, o + 2);
    proof {
        assert(a < 0x1_0000 && b < 0x1_0000 ==> (a | (b << 16)) == a + 0x1_0000 * b && (a | (b
            << 16)) < 0x1_0000_0000) by (bit_vector);
    }
    a | (b << 16)
}

/// Read the 64-bit little-endian integer at `o`.
fn read_le64(d: &[u8], o: usize) -> (r: u64)
    requires
        o + 8 <= d.len(),
    ensures
        r == le64(d@, o as int),
{
    let a = read_le32(d, o);
    let b = read_le32(d, o + 4);
    proof {
        assert(a < 0x1_0000_0000 && b < 0x1_0000_0000 ==> (a | (b << 32)) == a + 0x1_0000_0000
            * b) by (bit_vector);
    }
    a | (b << 32)
}

/// Check the fixed-size ELF64 header.
fn check_elf_header(d: &[u8]) -> (r: bool)
    ensures
        r == elf_header_ok(d@),
{
    if d.len() < 64 || d.len() as u64 >= ELF_MAX_IMAGE {
        return false;
    }
    if !(d[0] == 0x7f && d[1] == 0x45 && d[2] == 0x4c && d[3] == 0x46) {
        return false;
    }
    if !(d[4] == 2 && d[5] == 1 && d[6] == 1) {
        return false;
    }
    read_le16(d, 54) == 56
}

/// Read the `i`-th program header, when it is loadable.
fn read_segment(d: &[u8], i: u64) -> (r: Option<Segment>)
    requires
        elf_header_ok(d@),
        i < 0x1_0000,
    ensures
        r == elf_segment_at(d@, i as int),
{
    let pho = read_le64(d, 32);
    if pho >= ELF_MAX_IMAGE {
        proof {
            assert(elf_ph_off(d@) + 56 * i >= d@.len());
        }
        return None;
    }
    let o: u64 = pho + 56 * i;
    if o + 56 > d.len() as u64 {
        return None;
    }
    let ou = o as usize;
    if read_le32(d, ou) != 1 {
        return None;
    }
    let flags = read_le32(d, ou + 4);
    Some(
        Segment {
            vaddr: read_le64(d, ou + 16),
            offset: read_le64(d, ou + 8),
            file_size: read_le64(d, ou + 32),
            mem_size: read_le64(d, ou + 40),
            readable: flags & 0x4 != 0,
            writable: flags & 0x2 != 0,
            executable: flags & 0x1 != 0,
        },
    )
}

impl AddressSpace {
    /// Build an address space from an ELF image. The header and program
    /// headers are parsed here, in verified code, byte for byte; the
    /// loadable segments go with the raw bytes to [`AddressSpace::from_segments`].
    /// Succeeds exactly when the header is well formed, the loadable
    /// segments pass the loader's validation, and the allocator can
    /// reserve one frame for the root plus three per page; the returned
    /// entry address is the header's.
    pub fn from_elf(
        data: &[u8],
        kernel: &PageTableImpl,
        alc: &mut FrameAllocator,
    ) -> (r: Option<(AddressSpace, u64)>)
        requires
            kernel.wf(),
            old(alc).wf(),
        ensures
            final(alc).wf(),
            final(alc).spec_base() == old(alc).spec_base(),
            final(alc).spec_end() == old(alc).spec_end(),
            r is Some <==> (elf_header_ok(data@) && segs_ok(
                elf_segments(data@),
                data@.len() as int,
            ) && old(alc).avail() >= 1 + 3 * seg_pages(
                elf_segments(data@),
                elf_segments(data@).len() as int,
            )),
            r is None ==> *final(alc) == *old(alc),
            r matches Some(p) ==> p.1 == elf_entry_of(data@) && p.0.wf(*final(alc))
                && p.0.data_segment_end >= 1 && p.0.data_segment_max % PAGE_SIZE == 0
                && p.0.data_segment_max < USER_VA_LIMIT && p.0.covered_va(
                VA((p.0.data_segment_end - 1) as u64),
            ) && p.0.data_segment_end == elf_segments(data@).last().vaddr + elf_segments(
                data@,
            ).last().mem_size && (forall|i: int|
                0 <= i < p.0.areas.len() ==> (#[trigger] p.0.areas[i].1.map_type) is Framed) && (
            forall|i: int|
                0 <= i < p.0.areas.len() ==> (#[trigger] p.0.areas[i].0).0.end.0
                    <= p.0.data_segment_max && p.0.areas[i].0.0.start.0 < p.0.data_segment_end
                    && p.0.areas[i].0.0.start.0 >= PAGE_SIZE && vpn_end_of(p.0.areas[i].0)
                    <= crate::config::USER_VPN_LIMIT) && (forall|i: int|
                0 <= i < p.0.areas.len() && (#[trigger] p.0.areas[i].1.map_perm.0)
                    & PTE_WRITABLE != 0 ==> p.0.areas[i].1.map_perm.0 & 0xa != 0) && (forall|
                x: int,
            |
                256 <= x < 512 ==> (#[trigger] p.0.page_table.root[x]) == kernel.root[x]) && (
            forall|j: int, v: int|
                #![trigger elf_segments(data@)[j].first_vpn(), p.0.page_table.translate(VPN(v as u64))]
                0 <= j < elf_segments(data@).len() && elf_segments(data@)[j].first_vpn() <= v
                    < elf_segments(data@)[j].end_vpn() ==> p.0.page_table.mapped(VPN(v as u64))
                    && (p.0.page_table.translate(VPN(v as u64)))->0.spec_flags()
                    == plain_word_flags(elf_segments(data@)[j].spec_perm()) && (forall|o: int|
                    0 <= o < PAGE_SIZE ==> final(alc).frame_bytes(
                        (p.0.page_table.translate(VPN(v as u64)))->0.spec_ppn(),
                    )[o] == elf_segments(data@)[j].seg_byte(data@, v, o))),
    {
        if !check_elf_header(data) {
            return None;
        }
        let count = read_le16(data, 56);
        let mut segs: Vec<Segment> = Vec::new();
        let mut i: u64 = 0;
        while i < count
            invariant
                elf_header_ok(data@),
                count == elf_ph_count(data@),
                count < 0x1_0000,
                i <= count,
                segs@ == elf_load_segments(data@, i as int),
            decreases count - i,
        {
            match read_segment(data, i) {
                Some(sg) => {
                    segs.push(sg);
                },
                None => {},
            }
            i = i + 1;
        }
        let entry = read_le64(data, 24);
        match AddressSpace::from_segments(data, &segs, kernel, alc) {
            Some(sp) => Some((sp, entry)),
            None => None,
        }
    }
}

} // verus!
