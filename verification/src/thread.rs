//! Thread identifiers and the thread model.
//!
//! Thread ids are recycled through a freelist allocator. A thread carries
//! its id, the top of its user stack (null for a kernel thread), and its
//! status; its kernel stack and register state live in the memory model.

use vstd::prelude::*;

use crate::address::{VARangeOrd, VA, VPN};
use crate::address_space::{plain_word_flags, AddressSpace};
use crate::config::{PAGE_SIZE, USER_STACK_SIZE, USER_VA_LIMIT, USER_VPN_LIMIT};
use crate::frame::FrameAllocator;
use crate::page_table::PageTableImpl;
use crate::pte::{PTEImpl, PTE_READABLE, PTE_USER, PTE_WRITABLE};
use crate::trap::{TaskContextImpl, TrapFrameImpl};

verus! {

/// A thread id, handed out by [`TidAllocator`].
#[derive(Clone, Copy, Debug, PartialEq, Eq, Structural)]
pub struct Tid(pub u64);

/// Recycling allocator for thread ids: a bump counter plus a freelist.
pub struct TidAllocator {
    pub current: u64,
    pub recycled: Vec<u64>,
}

impl TidAllocator {
    /// Every recycled id was handed out before, and no id is on the
    /// freelist twice.
    pub open spec fn wf(self) -> bool {
        &&& forall|i: int| 0 <= i < self.recycled.len() ==> #[trigger] self.recycled[i] < self.current
        &&& forall|i: int, j: int|
            0 <= i < j < self.recycled.len() ==> self.recycled[i] != self.recycled[j]
    }

    /// A fresh allocator: no id handed out yet.
    pub fn new() -> (r: TidAllocator)
        ensures
            r.wf(),
            r.current == 0,
            r.recycled@ =~= Seq::<u64>::empty(),
    {
        TidAllocator { current: 0, recycled: Vec::new() }
    }

    /// Hand out an id: the most recently recycled one, or a fresh one.
    pub fn alloc_tid(&mut self) -> (r: Tid)
        requires
            old(self).wf(),
            old(self).current < u64::MAX,
        ensures
            final(self).wf(),
            old(self).recycled.len() > 0 ==> r.0 == old(self).recycled@.last() && final(self).recycled@ == old(self).recycled@.drop_last() && final(self).current == old(self).current,
            old(self).recycled.len() == 0 ==> r.0 == old(self).current && final(self).current
                == old(self).current + 1 && final(self).recycled@ == old(self).recycled@,
            r.0 < final(self).current,
    {
        match self.recycled.pop() {
            Some(t) => Tid(t),
            None => {
                let t = self.current;
                self.current = self.current + 1;
                Tid(t)
            },
        }
    }

    /// Return an id to the freelist. Freeing an id that was never handed
    /// out, or freeing one twice, is a kernel bug and is ruled out here.
    pub fn dealloc(&mut self, tid: u64)
        requires
            old(self).wf(),
            tid < old(self).current,
            forall|i: int| 0 <= i < old(self).recycled.len() ==> old(self).recycled[i] != tid,
        ensures
            final(self).wf(),
            final(self).recycled@ == old(self).recycled@.push(tid),
            final(self).current == old(self).current,
    {
        self.recycled.push(tid);
    }
}

/// A thread's scheduling state.
#[derive(Clone, Copy, Debug, PartialEq, Eq, Structural)]
pub enum ThreadStatus {
    Ready,
    Running,
    Waiting,
    Zombie,
}

/// The model of one thread: its id, the top of its user stack (null for
/// a kernel thread), and its status. Its register state lives in the
/// trap frame on its kernel stack.
pub struct Thread {
    pub tid: Tid,
    pub user_stack_top: VA,
    pub status: ThreadStatus,
}

impl Thread {
    /// A kernel thread: no user stack.
    pub fn new_kernel_thread(tid: Tid) -> (r: Thread)
        ensures
            r.tid == tid,
            r.user_stack_top.0 == 0,
            r.status is Ready,
    {
        Thread { tid, user_stack_top: VA(0), status: ThreadStatus::Ready }
    }

    /// A user thread with its stack top.
    pub fn new_user_thread(tid: Tid, user_stack_top: VA) -> (r: Thread)
        ensures
            r.tid == tid,
            r.user_stack_top == user_stack_top,
            r.status is Ready,
    {
        Thread { tid, user_stack_top, status: ThreadStatus::Ready }
    }

    /// Move the thread to a new scheduling state: Ready when it yields or
    /// is preempted, Running when the scheduler switches into it, Waiting
    /// when a blocking call parks it, Zombie when it exits.
    pub fn set_status(&mut self, status: ThreadStatus)
        ensures
            final(self).status == status,
            final(self).tid == old(self).tid,
            final(self).user_stack_top == old(self).user_stack_top,
    {
        self.status = status;
    }
}

/// A page-aligned range with one-page guards on both sides is
/// page-disjoint from an area it is address-disjoint from.
proof fn lemma_guarded_range_disjoint(rng: VARangeOrd, s_va: u64, e_va: u64)
    requires
        rng.wf(),
        s_va % PAGE_SIZE == 0,
        e_va % PAGE_SIZE == 0,
        s_va < e_va,
        rng.0.end.0 <= s_va - PAGE_SIZE || e_va + PAGE_SIZE <= rng.0.start.0,
    ensures
        crate::address_space::vpn_end_of(rng) <= (s_va as int) / (PAGE_SIZE as int)
            || (e_va as int) / (PAGE_SIZE as int) <= crate::address_space::vpn_start_of(rng),
{
    if rng.0.end.0 <= s_va - PAGE_SIZE {
        vstd::arithmetic::div_mod::lemma_div_is_ordered(
            (rng.0.end.0 + PAGE_SIZE - 1) as int,
            (s_va - 1) as int,
            PAGE_SIZE as int,
        );
        vstd::arithmetic::div_mod::lemma_fundamental_div_mod(s_va as int, PAGE_SIZE as int);
        vstd::arithmetic::div_mod::lemma_fundamental_div_mod_converse(
            (s_va - 1) as int,
            PAGE_SIZE as int,
            (s_va as int) / (PAGE_SIZE as int) - 1,
            PAGE_SIZE as int - 1,
        );
    } else {
        vstd::arithmetic::div_mod::lemma_div_is_ordered(
            (e_va + PAGE_SIZE) as int,
            rng.0.start.0 as int,
            PAGE_SIZE as int,
        );
        vstd::arithmetic::div_mod::lemma_fundamental_div_mod_converse(
            (e_va + PAGE_SIZE) as int,
            PAGE_SIZE as int,
            (e_va as int) / (PAGE_SIZE as int) + 1,
            0,
        );
        vstd::arithmetic::div_mod::lemma_fundamental_div_mod(e_va as int, PAGE_SIZE as int);
    }
}

impl Thread {
    /// Create a user thread from an ELF image, as the kernel does when it
    /// starts a program: build the address space from the image, pick and
    /// map a stack above the break ceiling with guard pages, take a
    /// thread id, and write the initial trap frame — program counter at
    /// the image entry, stack pointer just below the stack top, inside
    /// the freshly mapped R|W|U stack area.
    pub fn new_user_thread_from_image(
        data: &[u8],
        kernel: &PageTableImpl,
        alc: &mut FrameAllocator,
        tids: &mut TidAllocator,
    ) -> (r: Option<(Thread, AddressSpace, TrapFrameImpl)>)
        requires
            kernel.wf(),
            old(alc).wf(),
            old(tids).wf(),
            old(tids).current < u64::MAX,
        ensures
            final(alc).wf(),
            final(tids).wf(),
            r matches Some(t) ==> {
                &&& t.1.wf(*final(alc))
                &&& t.2.wf()
                &&& t.2.sepc == crate::elf::elf_entry_of(data@)
                &&& t.0.user_stack_top.0 % PAGE_SIZE == 0
                &&& t.2.x[1] == t.0.user_stack_top.0 - 8
                &&& t.0.status is Ready
                &&& t.1.page_table.mapped(VPN((((t.0.user_stack_top.0 - 8) as int) / (PAGE_SIZE as int)) as u64))
                &&& (t.1.page_table.translate(
                    VPN((((t.0.user_stack_top.0 - 8) as int) / (PAGE_SIZE as int)) as u64),
                )->0).spec_flags() == plain_word_flags(PTE_READABLE | PTE_WRITABLE | PTE_USER)
                &&& forall|x: int|
                    256 <= x < 512 ==> (#[trigger] t.1.page_table.root[x]) == kernel.root[x]
            },
    {
        let (mut space, entry) = match AddressSpace::from_elf(data, kernel, alc) {
            Some(p) => p,
            None => {
                return None;
            },
        };
        proof {
            assert forall|i: int| 0 <= i < space.areas.len() implies (
            #[trigger] space.areas[i].0).wf() && space.areas[i].0.0.end.0 <= USER_VA_LIMIT by {
                assert(space.area_ok(*alc, i));
                assert(space.areas[i].0.0.end.0 <= space.data_segment_max);
            }
        }
        let stack_top = space.alloc_user_area(USER_STACK_SIZE);
        if stack_top.0 > USER_VA_LIMIT {
            return None;
        }
        let s_va: u64 = stack_top.0 - USER_STACK_SIZE;
        let e_va: u64 = stack_top.0;
        let rng = crate::address::VARange { start: VA(s_va), end: VA(e_va) };
        let ghost s2 = crate::address_space::vpn_start_of(VARangeOrd(rng));
        let ghost e2 = crate::address_space::vpn_end_of(VARangeOrd(rng));
        proof {
            assert(s_va % PAGE_SIZE == 0 && e_va % PAGE_SIZE == 0);
            crate::address_space::lemma_aligned_range_pages(s_va, e_va);
            assert(s2 == (s_va as int) / (PAGE_SIZE as int));
            assert(e2 == (e_va as int) / (PAGE_SIZE as int));
            assert(e2 <= USER_VPN_LIMIT) by {
                vstd::arithmetic::div_mod::lemma_div_is_ordered(
                    e_va as int,
                    USER_VA_LIMIT as int,
                    PAGE_SIZE as int,
                );
            }
            assert(crate::address_space::range_canon(s2, e2)) by {
                vstd::arithmetic::div_mod::lemma_div_is_ordered(
                    (s_va + PAGE_SIZE) as int,
                    e_va as int,
                    PAGE_SIZE as int,
                );
                vstd::arithmetic::div_mod::lemma_fundamental_div_mod_converse(
                    (s_va + PAGE_SIZE) as int,
                    PAGE_SIZE as int,
                    (s_va as int) / (PAGE_SIZE as int) + 1,
                    0,
                );
                vstd::arithmetic::div_mod::lemma_fundamental_div_mod(
                    s_va as int,
                    PAGE_SIZE as int,
                );
            }
            assert(space.range_free(s2, e2)) by {
                assert forall|i: int|
                    0 <= i < space.areas.len() implies crate::address_space::vpn_end_of(
                    #[trigger] space.areas[i].0,
                ) <= s2 || e2 <= crate::address_space::vpn_start_of(space.areas[i].0) by {
                    assert(space.area_ok(*alc, i));
                    assert(space.areas[i].0.0.end.0 <= stack_top.0 - USER_STACK_SIZE - PAGE_SIZE
                        || stack_top.0 + PAGE_SIZE <= space.areas[i].0.0.start.0);
                    lemma_guarded_range_disjoint(space.areas[i].0, s_va, e_va);
                }
            }
            assert(space.range_slots_owned(s2, e2)) by {
                assert forall|v: int| s2 <= v < e2 implies space.page_table.slot_owned(
                    (#[trigger] VPN(v as u64).spec_idx0()) as int,
                ) by {
                    crate::address_space::lemma_user_vpn_idx0(v as u64);
                    crate::page_table::lemma_idx_bounds(VPN(v as u64));
                }
            }
        }
        proof {
            assert(PTE_READABLE | PTE_WRITABLE | PTE_USER == 0x16u64) by (bit_vector);
            assert(0x16u64 <= 0x1ff && 0x16u64 & 0xe != 0 && 0x16u64 & 0x100 == 0 && 0x16u64
                & 0x1 == 0) by (bit_vector);
        }
        let ghost sp0 = space;
        let ok = space.insert_framed_area(
            rng,
            PTEImpl(PTE_READABLE | PTE_WRITABLE | PTE_USER),
            None,
            alc,
        );
        if !ok {
            return None;
        }
        let tid = tids.alloc_tid();
        let frame = TrapFrameImpl::init(stack_top.0 - 8, entry);
        proof {
            let spv = ((stack_top.0 - 8) as int) / (PAGE_SIZE as int);
            assert(s2 <= spv < e2) by {
                vstd::arithmetic::div_mod::lemma_fundamental_div_mod(
                    stack_top.0 as int,
                    PAGE_SIZE as int,
                );
                vstd::arithmetic::div_mod::lemma_fundamental_div_mod_converse(
                    (stack_top.0 - 8) as int,
                    PAGE_SIZE as int,
                    (stack_top.0 as int) / (PAGE_SIZE as int) - 1,
                    PAGE_SIZE as int - 8,
                );
                vstd::arithmetic::div_mod::lemma_div_is_ordered(
                    s_va as int,
                    (stack_top.0 - 8) as int,
                    PAGE_SIZE as int,
                );
            }
            assert(crate::address_space::loaded_page_ok(
                space,
                *alc,
                rng.start.0,
                crate::address_space::data_view(None),
                PTEImpl(PTE_READABLE | PTE_WRITABLE | PTE_USER).0,
                spv,
            ));
            assert(space.page_table.mapped(VPN(spv as u64)));
            assert((space.page_table.translate(VPN(spv as u64))->0).spec_flags()
                == plain_word_flags(PTE_READABLE | PTE_WRITABLE | PTE_USER));
            assert forall|x: int| 256 <= x < 512 implies (#[trigger] space.page_table.root[x])
                == kernel.root[x] by {
                assert(!crate::address_space::range_uses_slot(s2, e2, x)) by {
                    if crate::address_space::range_uses_slot(s2, e2, x) {
                        let v = choose|v: int|
                            s2 <= v < e2 && (#[trigger] VPN(v as u64).spec_idx0()) as int == x;
                        crate::address_space::lemma_user_vpn_idx0(v as u64);
                    }
                }
                assert(space.page_table.root[x] == sp0.page_table.root[x]);
                assert(sp0.page_table.root[x] == kernel.root[x]);
            }
        }
        Some((Thread::new_user_thread(tid, stack_top), space, frame))
    }

    /// Create a kernel thread: map its kernel stack into the kernel
    /// space and prepare the task context whose return address is the
    /// function the thread runs, so the first switch into it starts
    /// there. The caller supplies the stack range's freeness in the
    /// kernel space.
    pub fn new_kernel_stack(
        kspace: &mut AddressSpace,
        tid: Tid,
        entry: u64,
        alc: &mut FrameAllocator,
    ) -> (r: Option<(Thread, TaskContextImpl)>)
        requires
            old(kspace).wf(*old(alc)),
            old(kspace).page_table.fully_owned(),
            tid.0 < 0x1f_0000,
            old(kspace).range_free(
                ((crate::config::KERNEL_STACK_TOP - tid.0 * (crate::config::KERNEL_STACK_SIZE
                    + crate::config::GUARD_PAGE_SIZE) - crate::config::KERNEL_STACK_SIZE) as int)
                    / (PAGE_SIZE as int),
                ((crate::config::KERNEL_STACK_TOP - tid.0 * (crate::config::KERNEL_STACK_SIZE
                    + crate::config::GUARD_PAGE_SIZE)) as int) / (PAGE_SIZE as int),
            ),
        ensures
            final(kspace).wf(*final(alc)),
            final(alc).wf(),
            final(kspace).page_table.fully_owned(),
            r matches Some(t) ==> {
                &&& t.0.tid == tid
                &&& t.0.user_stack_top.0 == 0
                &&& t.0.status is Ready
                &&& t.1.ra == entry
                &&& final(kspace).page_table.mapped(
                    VPN(
                        (crate::address_space::vpn_start_of(
                            VARangeOrd(
                                crate::address::VARange {
                                    start: VA(
                                        (crate::config::KERNEL_STACK_TOP - tid.0 * (
                                        crate::config::KERNEL_STACK_SIZE
                                            + crate::config::GUARD_PAGE_SIZE)
                                            - crate::config::KERNEL_STACK_SIZE) as u64,
                                    ),
                                    end: VA(
                                        (crate::config::KERNEL_STACK_TOP - tid.0 * (
                                        crate::config::KERNEL_STACK_SIZE
                                            + crate::config::GUARD_PAGE_SIZE)) as u64,
                                    ),
                                },
                            ),
                        )) as u64,
                    ),
                )
            },
    {
        let range = crate::trap::get_kernel_stack_range(tid.0);
        let ghost s2 = crate::address_space::vpn_start_of(VARangeOrd(range));
        let ghost e2 = crate::address_space::vpn_end_of(VARangeOrd(range));
        proof {
            assert(range.start.0 % PAGE_SIZE == 0 && range.end.0 % PAGE_SIZE == 0) by {
                let t = tid.0;
                assert(t < 0x1f_0000 ==> (0xffff_ffff_fffe_0000 - t * 0x2_0000) % 0x1000 == 0 && (
                0xffff_ffff_fffe_0000 - t * 0x2_0000 - 0x1_0000) % 0x1000 == 0) by (bit_vector);
            }
            crate::address_space::lemma_aligned_range_pages(range.start.0, range.end.0);
            assert(crate::address_space::range_canon(s2, e2)) by {
                let t = tid.0;
                assert(t < 0x1f_0000 ==> 0xffff_ffc0_0000_0000 <= 0xffff_ffff_fffe_0000 - t
                    * 0x2_0000 - 0x1_0000) by (bit_vector);
                vstd::arithmetic::div_mod::lemma_div_is_ordered(
                    crate::config::KERNEL_MAP_OFFSET as int,
                    range.start.0 as int,
                    PAGE_SIZE as int,
                );
                vstd::arithmetic::div_mod::lemma_div_is_ordered(
                    (range.start.0 + PAGE_SIZE) as int,
                    range.end.0 as int,
                    PAGE_SIZE as int,
                );
                vstd::arithmetic::div_mod::lemma_fundamental_div_mod_converse(
                    (range.start.0 + PAGE_SIZE) as int,
                    PAGE_SIZE as int,
                    (range.start.0 as int) / (PAGE_SIZE as int) + 1,
                    0,
                );
                vstd::arithmetic::div_mod::lemma_fundamental_div_mod(
                    range.start.0 as int,
                    PAGE_SIZE as int,
                );
                vstd::arithmetic::div_mod::lemma_div_is_ordered(
                    range.end.0 as int,
                    u64::MAX as int,
                    PAGE_SIZE as int,
                );
            }
            assert(kspace.range_slots_owned(s2, e2)) by {
                assert forall|v: int| s2 <= v < e2 implies kspace.page_table.slot_owned(
                    (#[trigger] VPN(v as u64).spec_idx0()) as int,
                ) by {
                    crate::page_table::lemma_idx_bounds(VPN(v as u64));
                }
            }
        }
        proof {
            assert(PTE_READABLE | PTE_WRITABLE == 6u64) by (bit_vector);
            assert(6u64 <= 0x1ff && 6u64 & 0xe != 0 && 6u64 & 0x100 == 0 && 6u64 & 0x1 == 0)
                by (bit_vector);
        }
        let ok = kspace.insert_framed_area(
            range,
            PTEImpl(PTE_READABLE | PTE_WRITABLE),
            None,
            alc,
        );
        if !ok {
            return None;
        }
        proof {
            assert(s2 <= s2 < e2);
            assert(crate::address_space::loaded_page_ok(
                *kspace,
                *alc,
                range.start.0,
                crate::address_space::data_view(None),
                PTEImpl(PTE_READABLE | PTE_WRITABLE).0,
                s2,
            ));
            assert(kspace.page_table.mapped(VPN(s2 as u64)));
            assert(range.start.0 / PAGE_SIZE == s2);
        }
        let ctx = TaskContextImpl {
            ra: entry,
            sp: range.end.0 - crate::trap::TRAP_FRAME_OFFSET,
            s0: 0,
            s1: 0,
            s2: 0,
            s3: 0,
            s4: 0,
            s5: 0,
            s6: 0,
            s7: 0,
            s8: 0,
            s9: 0,
            s10: 0,
            s11: 0,
        };
        Some((Thread::new_kernel_thread(tid), ctx))
    }
}

} // verus!
