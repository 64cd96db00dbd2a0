use sv39_core::address::{page_down, page_up, VARange, VARangeOrd, PA, PPN, VA, VPN};
use sv39_core::config::{
    BRK_MAX, KERNEL_MAP_OFFSET, KERNEL_MAP_PAGE_OFFSET, KERNEL_STACK_SIZE, KERNEL_STACK_TOP,
    PAGE_SIZE,
};
use sv39_core::fs::{FdTable, FileOpenKind, OpenFlags, O_APPEND, O_CREAT, O_DIRECTORY, O_RDWR, O_WRONLY};
use sv39_core::heap::{layout_to_allocator, slab_regions, usable_size, HeapAllocator};
use sv39_core::log::{level2color, Level};
use sv39_core::pte::{PTEImpl, PTE_COW, PTE_READABLE, PTE_VALID, PTE_WRITABLE};
use sv39_core::process::Process;
use sv39_core::sched::{Processor, Scheduler};
use sv39_core::thread::TidAllocator;
use sv39_core::trap::{
    dispatch_trap, get_kernel_stack_range, kernel_stack_top_of_sp, PrivilegeMode, TrapAction,
    TrapCause, TrapFrameImpl,
};

#[test]
fn page_rounding_round_trip() {
    // Rounding down then up returns the address exactly when it was aligned.
    assert_eq!(page_down(0x12345), 0x12000);
    assert_eq!(page_up(page_down(0x12345)), 0x12000);
    assert!(page_up(page_down(0x12345)) != 0x12345);
    assert_eq!(page_up(page_down(0x12000)), 0x12000);
    assert_eq!(page_up(0x12001), 0x13000);
    assert_eq!(page_up(0), 0);
}

#[test]
fn linear_map_round_trip() {
    let pa = PA(0x8020_0000);
    let va = pa.to_va();
    assert_eq!(va.0, 0x8020_0000 + KERNEL_MAP_OFFSET);
    assert_eq!(va.to_pa().0, pa.0);
    let ppn = PPN(0x80200);
    let vpn = ppn.to_vpn();
    assert_eq!(vpn.0, 0x80200 + KERNEL_MAP_PAGE_OFFSET);
    assert_eq!(vpn.to_ppn().0, ppn.0);
}

#[test]
fn address_floor_ceil_offset() {
    assert_eq!(VA(0x12345).floor().0, 0x12);
    assert_eq!(VA(0x12345).ceil().0, 0x13);
    assert_eq!(VA(0x12000).ceil().0, 0x12);
    assert_eq!(VA(0x12345).page_offset(), 0x345);
    assert!(VA(0).is_null());
    assert!(!VA(1).is_null());
}

#[test]
fn vpn_indexes_split() {
    // 0x12345 = 0b_000000000_001001000_110100_0101: idx0 = 0, idx1 = 0x91, idx2 = 0x145.
    let idx = VPN(0x12345).indexes();
    assert_eq!(idx[0], (0x12345u64 >> 18) as usize & 511);
    assert_eq!(idx[1], (0x12345u64 >> 9) as usize & 511);
    assert_eq!(idx[2], 0x145);
}

#[test]
fn vpn_range_covers_partial_tail_page() {
    // A range whose end is not page-aligned covers the tail page entirely.
    let r = VARangeOrd(VARange { start: VA(0x11000), end: VA(0x12200) });
    let vr = r.vpn_range();
    assert_eq!(vr.start.0, 0x11);
    assert_eq!(vr.end.0, 0x13);
}

#[test]
fn pte_word_is_bit_exact() {
    let w = PTEImpl::new(PPN(0xabcde), PTEImpl(PTE_READABLE | PTE_WRITABLE | PTE_VALID));
    assert_eq!(w.0, (0xabcde << 10) | 0x7);
    assert_eq!(w.ppn().0, 0xabcde);
    assert!(w.is_valid());
    assert!(w.is_leaf());
    let mut w2 = w;
    w2.set_ppn(PPN(0x11111));
    assert_eq!(w2.ppn().0, 0x11111);
    assert_eq!(w2.0 & 0x3ff, w.0 & 0x3ff);
    let mut w3 = w;
    w3.remove(PTE_WRITABLE);
    w3.insert(PTE_COW);
    assert!(!w3.contains(PTE_WRITABLE));
    assert!(w3.contains(PTE_COW));
}

#[test]
fn trap_dispatch_decisions() {
    assert_eq!(
        dispatch_trap(TrapCause::SupervisorTimer, PrivilegeMode::User),
        TrapAction::TimerYield
    );
    assert_eq!(
        dispatch_trap(TrapCause::SupervisorTimer, PrivilegeMode::Supervisor),
        TrapAction::TimerResume
    );
    assert_eq!(dispatch_trap(TrapCause::UserEnvCall, PrivilegeMode::User), TrapAction::Syscall);
    assert_eq!(
        dispatch_trap(TrapCause::StorePageFault, PrivilegeMode::User),
        TrapAction::PageFault
    );
    assert_eq!(
        dispatch_trap(TrapCause::LoadAccessFault, PrivilegeMode::User),
        TrapAction::PageFault
    );
    assert_eq!(
        dispatch_trap(TrapCause::SupervisorExternal, PrivilegeMode::Supervisor),
        TrapAction::Fatal
    );
    assert_eq!(dispatch_trap(TrapCause::Unknown, PrivilegeMode::User), TrapAction::Fatal);
}

#[test]
fn syscall_frame_convention() {
    // a7 carries the number, a0..a5 the arguments; the result lands in a0
    // and the saved program counter steps past the ecall.
    let mut f = TrapFrameImpl::init(0x3f_0000_0000, 0x10000);
    assert_eq!(f.x[1], 0x3f_0000_0000);
    assert_eq!(f.sepc, 0x10000);
    f.x[16] = 64;
    f.x[9] = 1;
    f.x[10] = 0x2000;
    f.x[11] = 5;
    assert_eq!(f.syscall_number(), 64);
    assert_eq!(f.syscall_arg(0), 1);
    assert_eq!(f.syscall_arg(1), 0x2000);
    assert_eq!(f.syscall_arg(2), 5);
    f.finish_syscall(5);
    assert_eq!(f.x[9], 5);
    assert_eq!(f.sepc, 0x10004);
}

#[test]
fn kernel_stack_layout() {
    let r0 = get_kernel_stack_range(0);
    assert_eq!(r0.end.0, KERNEL_STACK_TOP);
    assert_eq!(r0.start.0, KERNEL_STACK_TOP - KERNEL_STACK_SIZE);
    let r1 = get_kernel_stack_range(1);
    assert!(r1.end.0 < r0.start.0);
    let sp = r0.end.0 - 0x100;
    assert_eq!(kernel_stack_top_of_sp(sp), r0.end.0);
}

#[test]
fn tid_allocation_recycles() {
    let mut t = TidAllocator::new();
    let a = t.alloc_tid();
    let b = t.alloc_tid();
    assert_eq!(a.0, 0);
    assert_eq!(b.0, 1);
    t.dealloc(a.0);
    let c = t.alloc_tid();
    assert_eq!(c.0, 0);
    let d = t.alloc_tid();
    assert_eq!(d.0, 2);
}

#[test]
fn ready_queue_is_fifo() {
    // Two threads entered in order leave in the same order, repeatedly.
    let mut s = Scheduler::new();
    s.add_thread(1);
    s.add_thread(2);
    assert_eq!(s.get_next(), Some(1));
    s.add_thread(1);
    assert_eq!(s.get_next(), Some(2));
    assert_eq!(s.get_next(), Some(1));
    assert_eq!(s.get_next(), None);
}

#[test]
fn open_flags_rules() {
    assert!(OpenFlags(0).readable());
    assert!(!OpenFlags(0).writable());
    assert!(OpenFlags(O_WRONLY).writable());
    assert!(!OpenFlags(O_WRONLY).readable());
    assert!(OpenFlags(O_RDWR).readable());
    assert!(OpenFlags(O_RDWR).writable());
    assert_eq!(sv39_core::fs::open_kind(OpenFlags(O_CREAT)), FileOpenKind::CreateFile);
    assert_eq!(sv39_core::fs::open_kind(OpenFlags(O_DIRECTORY)), FileOpenKind::OpenDir);
    assert_eq!(sv39_core::fs::open_kind(OpenFlags(O_RDWR)), FileOpenKind::OpenFile);
    assert_eq!(sv39_core::fs::initial_position(OpenFlags(O_APPEND), 77), 77);
    assert_eq!(sv39_core::fs::initial_position(OpenFlags(0), 77), 0);
}

#[test]
fn fd_table_allocates_lowest_free_slot() {
    let mut t = FdTable::new();
    assert_eq!(t.slots[0], Some(sv39_core::fs::CONSOLE_DESC));
    assert_eq!(t.slots[1], Some(sv39_core::fs::CONSOLE_DESC));
    let a = t.fd_alloc();
    assert_eq!(a, 2);
    t.fd_install(a as usize, 7);
    let b = t.fd_alloc();
    assert_eq!(b, 3);
    t.fd_install(b as usize, 8);
    t.fd_free(2);
    assert_eq!(t.fd_alloc(), 2);
    let mut full = FdTable::new();
    for i in 2..101 {
        let fd = full.fd_alloc();
        assert_eq!(fd, i);
        full.fd_install(fd as usize, i as u64);
    }
    assert_eq!(full.fd_alloc(), -1);
}

#[test]
fn process_fork_shares_descriptors() {
    let mut parent = Process::new_root(1);
    let fd = parent.fd_table.fd_alloc();
    parent.fd_table.fd_install(fd as usize, 42);
    let child = parent.fork(2);
    // The child shares every open description and inherits the cwd.
    assert_eq!(child.fd_table.slots, parent.fd_table.slots);
    assert_eq!(child.fd_table.slots[fd as usize], Some(42));
    assert_eq!(child.cwd, parent.cwd);
    assert_eq!(child.parent, Some(1));
    assert_eq!(parent.children, vec![2]);
    // A child's exit moves it to the exited list with its code.
    assert!(parent.record_child_exit(2, 0));
    assert!(parent.children.is_empty());
    assert_eq!(parent.children_exited, vec![(2, 0)]);
    assert!(!parent.record_child_exit(2, 0));
}

#[test]
fn fork_child_frame_returns_zero() {
    let mut f = TrapFrameImpl::init(0x3f_0000_0000, 0x10000);
    f.x[9] = 99;
    f.x[10] = 5;
    let child = f.fork_child_frame();
    assert_eq!(child.x[9], 0);
    assert_eq!(child.x[10], 5);
    assert_eq!(child.sepc, f.sepc);
}

#[test]
fn processor_sleep_and_wake() {
    let mut p = Processor::new();
    p.sleep(3);
    p.sleep(4);
    assert!(p.wake(3));
    assert!(!p.wake(3));
    assert!(p.wake(4));
    assert!(p.sleeping_threads.is_empty());
}

#[test]
fn heap_sizing_rules() {
    assert_eq!(layout_to_allocator(1, 1), HeapAllocator::Slab64Bytes);
    assert_eq!(layout_to_allocator(64, 64), HeapAllocator::Slab64Bytes);
    assert_eq!(layout_to_allocator(65, 1), HeapAllocator::Slab128Bytes);
    assert_eq!(layout_to_allocator(64, 128), HeapAllocator::Slab128Bytes);
    assert_eq!(layout_to_allocator(3000, 8), HeapAllocator::Slab4096Bytes);
    assert_eq!(layout_to_allocator(4097, 8), HeapAllocator::LinkedListAllocator);
    assert_eq!(usable_size(100, 8), (100, 128));
    assert_eq!(usable_size(5000, 8), (5000, 5000));
    let regions = slab_regions(0x1000_0000, 8 * 32768);
    assert_eq!(regions.len(), 8);
    assert_eq!(regions[0], (0x1000_0000, 32768));
    assert_eq!(regions[7], (0x1000_0000 + 7 * 32768, 32768));
}

#[test]
fn log_colors() {
    assert_eq!(level2color(Level::Error), 31);
    assert_eq!(level2color(Level::Warn), 93);
    assert_eq!(level2color(Level::Info), 34);
    assert_eq!(level2color(Level::Debug), 32);
    assert_eq!(level2color(Level::Trace), 90);
}

#[test]
fn brk_ceiling_constant_matches_design() {
    assert_eq!(BRK_MAX, 0x3000);
    assert_eq!(PAGE_SIZE, 4096);
}
