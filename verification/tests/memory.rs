use sv39_core::address::{VARange, VA, VPN, PA};
use sv39_core::address_space::{AddressSpace, PageFaultResult};
use sv39_core::config::{KERNEL_MAP_PAGE_OFFSET, MEMORY_START, MMIO_BASE, PAGE_SIZE};
use sv39_core::thread::{Thread, Tid, TidAllocator};
use sv39_core::elf::Segment;
use sv39_core::mm;
use sv39_core::pte::{PTEImpl, PTE_READABLE, PTE_USER, PTE_WRITABLE};
use sv39_core::trap::TrapFrameImpl;

fn bring_up() -> mm::Memory {
    mm::init(PA(MEMORY_START + 0x10_0000)).expect("memory bring-up")
}

/// A minimal ELF64 image with the given loadable segments.
fn build_elf(entry: u64, segs: &[(u64, u64, u64, u64, u32)]) -> Vec<u8> {
    // (vaddr, offset, file_size, mem_size, flags); flags bit0 X, bit1 W, bit2 R.
    let mut d = vec![0u8; 64 + 56 * segs.len()];
    d[0] = 0x7f;
    d[1] = b'E';
    d[2] = b'L';
    d[3] = b'F';
    d[4] = 2; // 64-bit
    d[5] = 1; // little endian
    d[6] = 1; // version
    d[16] = 2; // ET_EXEC
    d[18] = 0xf3; // RISC-V
    d[20] = 1; // version
    d[24..32].copy_from_slice(&entry.to_le_bytes());
    d[32..40].copy_from_slice(&64u64.to_le_bytes()); // ph_off
    d[52..54].copy_from_slice(&64u16.to_le_bytes()); // header size
    d[54..56].copy_from_slice(&56u16.to_le_bytes()); // ph entry size
    d[56..58].copy_from_slice(&(segs.len() as u16).to_le_bytes()); // ph count
    for (i, (vaddr, offset, file_size, mem_size, flags)) in segs.iter().enumerate() {
        let o = 64 + 56 * i;
        d[o..o + 4].copy_from_slice(&1u32.to_le_bytes()); // PT_LOAD
        d[o + 4..o + 8].copy_from_slice(&flags.to_le_bytes());
        d[o + 8..o + 16].copy_from_slice(&offset.to_le_bytes());
        d[o + 16..o + 24].copy_from_slice(&vaddr.to_le_bytes());
        d[o + 24..o + 32].copy_from_slice(&vaddr.to_le_bytes());
        d[o + 32..o + 40].copy_from_slice(&file_size.to_le_bytes());
        d[o + 40..o + 48].copy_from_slice(&mem_size.to_le_bytes());
        d[o + 48..o + 56].copy_from_slice(&PAGE_SIZE.to_le_bytes());
    }
    d
}

fn load_two_segment_image(m: &mut mm::Memory) -> (AddressSpace, u64) {
    // Segments [0x10000, 0x10800) R-X and [0x11000, 0x12200) RW with
    // file_size 0x200.
    let mut data = build_elf(
        0x10000,
        &[
            (0x10000, 0x1000, 0x800, 0x800, 0b101),
            (0x11000, 0x1800, 0x200, 0x1200, 0b110),
        ],
    );
    data.resize(0x1a00, 0);
    for i in 0..0x800usize {
        data[0x1000 + i] = (i % 251) as u8;
    }
    for i in 0..0x200usize {
        data[0x1800 + i] = 0x40 + (i % 7) as u8;
    }
    let (sp, entry) = AddressSpace::from_elf(
        &data,
        &m.kernel_space.page_table,
        &mut m.allocator,
    )
    .expect("load");
    (sp, entry)
}

#[test]
fn elf_load_copies_and_zero_fills() {
    let mut m = bring_up();
    let (sp, entry) = load_two_segment_image(&mut m);
    assert_eq!(entry, 0x10000);
    // File-backed bytes of the code segment.
    assert_eq!(sp.read_byte(&m.allocator, VA(0x10000)), Some(0));
    assert_eq!(sp.read_byte(&m.allocator, VA(0x10007)), Some(7));
    // File-backed bytes of the data segment.
    assert_eq!(sp.read_byte(&m.allocator, VA(0x11000)), Some(0x40));
    assert_eq!(sp.read_byte(&m.allocator, VA(0x11001)), Some(0x41));
    // The tail past file_size reads as zero, including the partial page.
    for va in [0x11200u64, 0x11201, 0x11fff, 0x12000, 0x121ff] {
        assert_eq!(sp.read_byte(&m.allocator, VA(va)), Some(0), "va {va:#x}");
    }
    // A write to the data segment succeeds.
    assert!(sp.write_byte(&mut m.allocator, VA(0x11000), 0x99));
    assert_eq!(sp.read_byte(&m.allocator, VA(0x11000)), Some(0x99));
    // A write to the read-only code segment does not.
    assert!(!sp.write_byte(&mut m.allocator, VA(0x10000), 0x99));
    // The fault that write would raise is a real protection violation.
    let mut sp = sp;
    assert_eq!(sp.handle_pagefault(VA(0x10000), &mut m.allocator), PageFaultResult::Fatal);
    // An unmapped address is fatal too.
    assert_eq!(sp.handle_pagefault(VA(0x30000), &mut m.allocator), PageFaultResult::Fatal);
}

#[test]
fn pagefault_on_null_address_is_fatal() {
    let mut m = bring_up();
    let (mut sp, _) = load_two_segment_image(&mut m);
    assert_eq!(sp.handle_pagefault(VA(0), &mut m.allocator), PageFaultResult::Fatal);
}

#[test]
fn brk_grows_and_respects_ceiling() {
    let mut m = bring_up();
    let (mut sp, _) = load_two_segment_image(&mut m);
    // The break starts at the data segment's end, reported page-aligned.
    assert_eq!(sp.brk(VA(0), &mut m.allocator), 0x13000);
    assert_eq!(sp.data_segment_max, 0x13000 + 0x3000);
    // Growing one page maps a fresh zero page that accepts writes.
    assert_eq!(sp.brk(VA(0x14000), &mut m.allocator), 0x14000);
    assert_eq!(sp.read_byte(&m.allocator, VA(0x13000)), Some(0));
    assert!(sp.write_byte(&mut m.allocator, VA(0x13000), 0x55));
    assert_eq!(sp.read_byte(&m.allocator, VA(0x13000)), Some(0x55));
    // Growing to exactly the ceiling succeeds; one byte more fails.
    assert_eq!(sp.brk(VA(0x16000), &mut m.allocator), 0x16000);
    assert_eq!(sp.brk(VA(0x16001), &mut m.allocator), -1);
}

#[test]
fn fork_shares_then_isolates() {
    let mut m = bring_up();
    let mut parent = AddressSpace::new_kernel(&m.kernel_space.page_table, &mut m.allocator)
        .expect("space");
    let a: u64 = 0x20000;
    assert!(parent.insert_framed_area(
        VARange { start: VA(a), end: VA(a + 4096) },
        PTEImpl(PTE_READABLE | PTE_WRITABLE | PTE_USER),
        None,
        &mut m.allocator,
    ));
    assert!(parent.write_byte(&mut m.allocator, VA(a), 0xAB));
    let mut child = parent
        .fork(&m.kernel_space.page_table, &mut m.allocator)
        .expect("fork");
    // The child reads what the parent wrote, through the same frame.
    assert_eq!(child.read_byte(&m.allocator, VA(a)), Some(0xAB));
    let parent_ppn = parent.page_table.find_pte(VPN(a / PAGE_SIZE)).unwrap().ppn();
    let child_ppn = child.page_table.find_pte(VPN(a / PAGE_SIZE)).unwrap().ppn();
    assert_eq!(parent_ppn.0, child_ppn.0);
    assert_eq!(m.allocator.strong_count(parent_ppn), 2);
    // Neither side may write through the shared mapping.
    assert!(!parent.write_byte(&mut m.allocator, VA(a), 0xCD));
    assert!(!child.write_byte(&mut m.allocator, VA(a), 0xCD));
    // The child's write fault copies the page; then the write lands.
    assert_eq!(child.handle_pagefault(VA(a), &mut m.allocator), PageFaultResult::Fixed);
    assert!(child.write_byte(&mut m.allocator, VA(a), 0xCD));
    // Parent and child now see their own bytes, one frame each.
    assert_eq!(parent.read_byte(&m.allocator, VA(a)), Some(0xAB));
    assert_eq!(child.read_byte(&m.allocator, VA(a)), Some(0xCD));
    let child_ppn2 = child.page_table.find_pte(VPN(a / PAGE_SIZE)).unwrap().ppn();
    assert!(parent_ppn.0 != child_ppn2.0);
    assert_eq!(m.allocator.strong_count(parent_ppn), 1);
    assert_eq!(m.allocator.strong_count(child_ppn2), 1);
    // The parent resolves its own fault in place: the count is one.
    assert_eq!(parent.handle_pagefault(VA(a), &mut m.allocator), PageFaultResult::Fixed);
    assert!(parent.write_byte(&mut m.allocator, VA(a), 0xEE));
    assert_eq!(parent.read_byte(&m.allocator, VA(a)), Some(0xEE));
    assert_eq!(child.read_byte(&m.allocator, VA(a)), Some(0xCD));
}

#[test]
fn fork_preserves_reads_everywhere() {
    let mut m = bring_up();
    let (mut parent, _) = load_two_segment_image(&mut m);
    let child = parent
        .fork(&m.kernel_space.page_table, &mut m.allocator)
        .expect("fork");
    for va in [0x10000u64, 0x10007, 0x11000, 0x11200, 0x12000, 0x121ff] {
        assert_eq!(
            child.read_byte(&m.allocator, VA(va)),
            parent.read_byte(&m.allocator, VA(va)),
            "va {va:#x}"
        );
    }
}

#[test]
fn exec_lands_in_fresh_image_and_stack() {
    let mut m = bring_up();
    let (parent, _) = load_two_segment_image(&mut m);
    // Exec: a fresh space from a new image replaces the old one.
    let data2 = build_elf(0x40000, &[(0x40000, 0, 0, 0x1000, 0b101)]);
    let (mut fresh, entry2) = AddressSpace::from_elf(
        &data2,
        &m.kernel_space.page_table,
        &mut m.allocator,
    )
    .expect("exec image");
    assert_eq!(entry2, 0x40000);
    // A user stack above the break ceiling, with guard pages.
    let stack_top = fresh.alloc_user_area(0x10000);
    assert_eq!(stack_top.0 % PAGE_SIZE, 0);
    assert!(stack_top.0 - 0x10000 - PAGE_SIZE >= fresh.data_segment_max);
    assert!(fresh.insert_framed_area(
        VARange { start: VA(stack_top.0 - 0x10000), end: VA(stack_top.0) },
        PTEImpl(PTE_READABLE | PTE_WRITABLE | PTE_USER),
        None,
        &mut m.allocator,
    ));
    // The thread's frame restarts at the new entry with sp in the stack.
    let sp0 = stack_top.0 - 8;
    let frame = TrapFrameImpl::init(sp0, entry2);
    assert_eq!(frame.sepc, 0x40000);
    assert!(frame.x[1] >= stack_top.0 - 0x10000 && frame.x[1] < stack_top.0);
    assert!(fresh.write_byte(&mut m.allocator, VA(sp0), 0x77));
    assert_eq!(fresh.read_byte(&m.allocator, VA(sp0)), Some(0x77));
    // The old image's pages still read in the pre-exec space.
    assert_eq!(parent.read_byte(&m.allocator, VA(0x10007)), Some(7));
}

#[test]
fn remove_area_unmaps_and_releases() {
    let mut m = bring_up();
    let mut sp = AddressSpace::new_kernel(&m.kernel_space.page_table, &mut m.allocator)
        .expect("space");
    let a: u64 = 0x20000;
    assert!(sp.insert_framed_area(
        VARange { start: VA(a), end: VA(a + 2 * PAGE_SIZE) },
        PTEImpl(PTE_READABLE | PTE_WRITABLE | PTE_USER),
        None,
        &mut m.allocator,
    ));
    assert!(sp.read_byte(&m.allocator, VA(a)).is_some());
    assert!(sp.remove_area(VA(a), &mut m.allocator));
    assert_eq!(sp.read_byte(&m.allocator, VA(a)), None);
    assert!(!sp.remove_area(VA(a), &mut m.allocator));
}

#[test]
fn mmio_window_is_mapped_in_kernel_table() {
    let m = bring_up();
    let w = m.kernel_space.page_table.find_pte(VPN(MMIO_BASE / PAGE_SIZE)).expect("mmio pte");
    assert_eq!(w.ppn().0, MMIO_BASE / PAGE_SIZE - KERNEL_MAP_PAGE_OFFSET);
    assert!(w.is_valid() && w.is_leaf());
    // A fresh space shares the window through its copied upper half.
    let mut m2 = bring_up();
    let sp = AddressSpace::new_kernel(&m2.kernel_space.page_table, &mut m2.allocator).unwrap();
    let idx = VPN(MMIO_BASE / PAGE_SIZE).indexes();
    assert_eq!(sp.page_table.root[idx[0]].0, m2.kernel_space.page_table.root[idx[0]].0);
}

#[test]
fn elf_parser_matches_reference_parser() {
    // The verified header/program-header reads agree with xmas-elf on a
    // well-formed image.
    let mut data = build_elf(
        0x10000,
        &[
            (0x10000, 0x1000, 0x800, 0x800, 0b101),
            (0x11000, 0x1800, 0x200, 0x1200, 0b110),
        ],
    );
    data.resize(0x1a00, 0);
    let f = xmas_elf::ElfFile::new(&data).expect("reference parse");
    assert_eq!(f.header.pt2.entry_point(), 0x10000);
    assert_eq!(f.header.pt2.ph_count(), 2);
    let ph0 = f.program_header(0).unwrap();
    assert_eq!(ph0.virtual_addr(), 0x10000);
    assert_eq!(ph0.offset(), 0x1000);
    assert_eq!(ph0.file_size(), 0x800);
    assert_eq!(ph0.mem_size(), 0x800);
    assert!(ph0.flags().is_read() && ph0.flags().is_execute() && !ph0.flags().is_write());
    let ph1 = f.program_header(1).unwrap();
    assert_eq!(ph1.virtual_addr(), 0x11000);
    assert_eq!(ph1.file_size(), 0x200);
    assert!(ph1.flags().is_write());
    // And the verified loader accepts the same image.
    let mut m = bring_up();
    assert!(AddressSpace::from_elf(&data, &m.kernel_space.page_table, &mut m.allocator).is_some());
}

#[test]
fn user_thread_lands_in_fresh_stack() {
    let mut m = bring_up();
    let mut tids = TidAllocator::new();
    let mut data = build_elf(
        0x10000,
        &[
            (0x10000, 0x1000, 0x800, 0x800, 0b101),
            (0x11000, 0x1800, 0x200, 0x1200, 0b110),
        ],
    );
    data.resize(0x1a00, 0);
    let (thread, space, frame) =
        Thread::new_user_thread_from_image(&data, &m.kernel_space.page_table, &mut m.allocator, &mut tids)
            .expect("thread");
    assert_eq!(frame.sepc, 0x10000);
    assert_eq!(frame.x[1], thread.user_stack_top.0 - 8);
    assert!(thread.user_stack_top.0 % PAGE_SIZE == 0);
    // The stack pointer's page is mapped read-write for user code.
    assert!(space.write_byte(&mut m.allocator, VA(frame.x[1]), 0x5a));
    assert_eq!(space.read_byte(&m.allocator, VA(frame.x[1])), Some(0x5a));
}

#[test]
fn kernel_thread_stack_and_context() {
    let mut m = bring_up();
    let (thread, ctx) =
        Thread::new_kernel_stack(&mut m.kernel_space, Tid(0), 0x8020_0000, &mut m.allocator)
            .expect("kernel thread");
    assert_eq!(thread.tid.0, 0);
    assert!(thread.user_stack_top.0 == 0);
    assert_eq!(ctx.ra, 0x8020_0000);
    let range = sv39_core::trap::get_kernel_stack_range(0);
    assert!(m.kernel_space.page_table.find_pte(VPN(range.start.0 / PAGE_SIZE)).is_some());
}

#[test]
fn loader_rejects_malformed_images() {
    let mut m = bring_up();
    // Not an ELF at all.
    assert!(AddressSpace::from_elf(&[0u8; 64], &m.kernel_space.page_table, &mut m.allocator)
        .is_none());
    // A segment over the null page is refused.
    let segs = vec![Segment {
        vaddr: 0,
        offset: 0,
        file_size: 0,
        mem_size: 0x1000,
        readable: true,
        writable: false,
        executable: false,
    }];
    let empty: Vec<u8> = Vec::new();
    assert!(AddressSpace::from_segments(
        &empty,
        &segs,
        &m.kernel_space.page_table,
        &mut m.allocator,
    )
    .is_none());
}
