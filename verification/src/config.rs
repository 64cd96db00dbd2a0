//! Board and kernel layout constants.
//!
//! The values follow the K210 board variant: 8 MiB of RAM at `0x8000_0000`,
//! a linear kernel map in the upper half of the Sv39 virtual space, and
//! per-thread kernel stacks descending from the top of that space.

use vstd::prelude::*;

verus! {

/// log2 of the page size.
pub const PAGE_SIZE_BITS: u64 = 12;

/// Size of one page / physical frame in bytes.
pub const PAGE_SIZE: u64 = 4096;

/// Offset of the linear kernel map: `VA = PA + KERNEL_MAP_OFFSET` in the
/// kernel half.
pub const KERNEL_MAP_OFFSET: u64 = 0xffff_ffc0_0000_0000;

/// `KERNEL_MAP_OFFSET` divided by the page size, for page-number conversion.
pub const KERNEL_MAP_PAGE_OFFSET: u64 = 0xffff_ffc0_0000_0;

/// Start of physical memory.
pub const MEMORY_START: u64 = 0x8000_0000;

/// Size of physical memory.
pub const MEMORY_SIZE: u64 = 0x80_0000;

/// First physical address past the end of memory.
pub const MEMORY_END: u64 = 0x8080_0000;

/// How far `brk` may raise the data segment past its initial page-aligned
/// end.
pub const BRK_MAX: u64 = 0x3000;

/// Size of a user thread's stack.
pub const USER_STACK_SIZE: u64 = 0x1_0000;

/// Size of a thread's kernel stack.
pub const KERNEL_STACK_SIZE: u64 = 0x1_0000;

/// Guard space between consecutive kernel stacks; no frame is ever mapped
/// there.
pub const GUARD_PAGE_SIZE: u64 = 0x1_0000;

/// Top of the kernel stack of thread 0; stack `tid` descends from
/// `KERNEL_STACK_TOP - tid * (KERNEL_STACK_SIZE + GUARD_PAGE_SIZE)`.
pub const KERNEL_STACK_TOP: u64 = 0xffff_ffff_fffe_0000;

/// Virtual address of the one MMIO region the board needs mapped
/// (the UART, seen through the linear kernel map).
pub const MMIO_BASE: u64 = 0xffff_ffc0_3800_0000;

/// Size of the MMIO region.
pub const MMIO_SIZE: u64 = 0x1000;

/// Number of 8-byte general-purpose register slots in a trap frame
/// (`x1..=x31`; `x0` is hard-wired to zero and not saved).
pub const TRAP_FRAME_GPRS: u64 = 31;

/// First virtual address past the user half (the lower 256 GiB).
pub const USER_VA_LIMIT: u64 = 0x40_0000_0000;

/// First virtual page number past the user half.
pub const USER_VPN_LIMIT: u64 = 0x400_0000;

/// First virtual page number of the kernel half (the upper 256 GiB).
pub const KERNEL_VPN_BASE: u64 = 0xf_ffff_fc00_0000;

/// First page number past the virtual space.
pub const KERNEL_VPN_END: u64 = 0x10_0000_0000_0000;

} // verus!
