//! Strongly typed physical/virtual addresses and page numbers.
//!
//! Four newtypes over a 64-bit machine word. A process-wide constant
//! [`crate::config::KERNEL_MAP_OFFSET`] defines a linear map between the
//! kernel half of the virtual space and physical memory: `VA = PA + OFFSET`,
//! `VPN = PPN + OFFSET / PAGE_SIZE`. The conversions here are total in the
//! kernel half and are the only way kernel code touches a physical frame.

use vstd::prelude::*;

use crate::config::{KERNEL_MAP_OFFSET, KERNEL_MAP_PAGE_OFFSET, PAGE_SIZE};

verus! {

/// A physical address.
#[derive(Clone, Copy, Debug, PartialEq, Eq, Structural)]
pub struct PA(pub u64);

/// A virtual address.
#[derive(Clone, Copy, Debug, PartialEq, Eq, Structural)]
pub struct VA(pub u64);

/// A physical page number.
#[derive(Clone, Copy, Debug, PartialEq, Eq, Structural)]
pub struct PPN(pub u64);

/// A virtual page number.
#[derive(Clone, Copy, Debug, PartialEq, Eq, Structural)]
pub struct VPN(pub u64);

/// A virtual address lies in the kernel half iff the linear map covers it.
pub open spec fn va_in_kernel_half(va: VA) -> bool {
    va.0 >= KERNEL_MAP_OFFSET
}

/// A virtual page number lies in the kernel half iff the linear map covers
/// it.
pub open spec fn vpn_in_kernel_half(vpn: VPN) -> bool {
    vpn.0 >= KERNEL_MAP_PAGE_OFFSET
}

impl PA {
    /// Linear map into the kernel half: `VA = PA + OFFSET`.
    pub fn to_va(self) -> (r: VA)
        requires
            self.0 + KERNEL_MAP_OFFSET <= u64::MAX,
        ensures
            r.0 == self.0 + KERNEL_MAP_OFFSET,
            va_in_kernel_half(r),
    {
        VA(self.0 + KERNEL_MAP_OFFSET)
    }

    /// The page containing this address.
    pub fn floor(self) -> (r: PPN)
        ensures
            r.0 == self.0 / PAGE_SIZE,
    {
        let a: u64 = self.0;
        proof {
            assert(a >> 12 == a / 4096) by (bit_vector);
        }
        PPN(a >> 12)
    }

    /// The first page boundary at or above this address, as a page number.
    pub fn ceil(self) -> (r: PPN)
        requires
            self.0 + PAGE_SIZE <= u64::MAX,
        ensures
            r.0 == (self.0 + PAGE_SIZE - 1) / (PAGE_SIZE as int),
    {
        let s: u64 = self.0 + PAGE_SIZE - 1;
        proof {
            assert(s >> 12 == s / 4096) by (bit_vector);
        }
        PPN(s >> 12)
    }

    /// The low 12 bits: the offset of this address within its page.
    pub fn page_offset(self) -> (r: u64)
        ensures
            r == self.0 % PAGE_SIZE,
    {
        let a: u64 = self.0;
        proof {
            assert(a & 4095 == a % 4096) by (bit_vector);
        }
        a & (PAGE_SIZE - 1)
    }
}

impl VA {
    /// Linear map out of the kernel half: `PA = VA - OFFSET`.
    pub fn to_pa(self) -> (r: PA)
        requires
            va_in_kernel_half(self),
        ensures
            r.0 == self.0 - KERNEL_MAP_OFFSET,
    {
        PA(self.0 - KERNEL_MAP_OFFSET)
    }

    /// The page containing this address.
    pub fn floor(self) -> (r: VPN)
        ensures
            r.0 == self.0 / PAGE_SIZE,
    {
        let a: u64 = self.0;
        proof {
            assert(a >> 12 == a / 4096) by (bit_vector);
        }
        VPN(a >> 12)
    }

    /// The first page boundary at or above this address, as a page number.
    pub fn ceil(self) -> (r: VPN)
        requires
            self.0 + PAGE_SIZE <= u64::MAX,
        ensures
            r.0 == (self.0 + PAGE_SIZE - 1) / (PAGE_SIZE as int),
    {
        let s: u64 = self.0 + PAGE_SIZE - 1;
        proof {
            assert(s >> 12 == s / 4096) by (bit_vector);
        }
        VPN(s >> 12)
    }

    /// The low 12 bits: the offset of this address within its page.
    pub fn page_offset(self) -> (r: u64)
        ensures
            r == self.0 % PAGE_SIZE,
    {
        let a: u64 = self.0;
        proof {
            assert(a & 4095 == a % 4096) by (bit_vector);
        }
        a & (PAGE_SIZE - 1)
    }

    /// The null address stands for "no address" (a kernel thread's missing
    /// user stack, for instance).
    pub fn is_null(self) -> (r: bool)
        ensures
            r == (self.0 == 0),
    {
        self.0 == 0
    }
}

impl PPN {
    /// Linear map into the kernel half, page-number form.
    pub fn to_vpn(self) -> (r: VPN)
        requires
            self.0 + KERNEL_MAP_PAGE_OFFSET <= u64::MAX,
        ensures
            r.0 == self.0 + KERNEL_MAP_PAGE_OFFSET,
            vpn_in_kernel_half(r),
    {
        VPN(self.0 + KERNEL_MAP_PAGE_OFFSET)
    }
}

impl VPN {
    /// Linear map out of the kernel half, page-number form.
    pub fn to_ppn(self) -> (r: PPN)
        requires
            vpn_in_kernel_half(self),
        ensures
            r.0 == self.0 - KERNEL_MAP_PAGE_OFFSET,
    {
        PPN(self.0 - KERNEL_MAP_PAGE_OFFSET)
    }

    /// The first address of this page.
    pub fn base_va(self) -> (r: VA)
        requires
            self.0 * PAGE_SIZE <= u64::MAX,
        ensures
            r.0 == self.0 * PAGE_SIZE,
    {
        proof {
            let v = self.0;
            assert(v <= 0x000f_ffff_ffff_ffff ==> (v << 12) == v * 4096) by (bit_vector);
        }
        VA(self.0 << 12)
    }

    /// The Sv39 walk index of this page at the top level of the page table.
    pub open spec fn spec_idx0(self) -> u64 {
        (self.0 >> 18) & 0x1ff
    }

    /// The Sv39 walk index of this page at the middle level.
    pub open spec fn spec_idx1(self) -> u64 {
        (self.0 >> 9) & 0x1ff
    }

    /// The Sv39 walk index of this page at the leaf level.
    pub open spec fn spec_idx2(self) -> u64 {
        self.0 & 0x1ff
    }

    /// Split a virtual page number into its three 9-bit Sv39 walk indexes,
    /// high level first.
    pub fn indexes(self) -> (r: [usize; 3])
        ensures
            r[0] == self.spec_idx0(),
            r[1] == self.spec_idx1(),
            r[2] == self.spec_idx2(),
            r[0] < 512 && r[1] < 512 && r[2] < 512,
    {
        proof {
            let v = self.0;
            assert(((v >> 18) & 0x1ff) < 512 && ((v >> 9) & 0x1ff) < 512 && (v & 0x1ff) < 512)
                by (bit_vector);
        }
        [
            ((self.0 >> 18) & 0x1ff) as usize,
            ((self.0 >> 9) & 0x1ff) as usize,
            (self.0 & 0x1ff) as usize,
        ]
    }
}


/// Round an address down to its page boundary.
pub fn page_down(a: u64) -> (r: u64)
    ensures
        r == a - a % PAGE_SIZE,
{
    proof {
        assert(a & !4095 == a - a % 4096) by (bit_vector);
    }
    a & !(PAGE_SIZE - 1)
}

/// Round an address up to the next page boundary.
pub fn page_up(a: u64) -> (r: u64)
    requires
        a + PAGE_SIZE <= u64::MAX,
    ensures
        r == ((a + PAGE_SIZE - 1) / (PAGE_SIZE as int)) * PAGE_SIZE,
        r % PAGE_SIZE == 0,
        a <= r < a + PAGE_SIZE,
{
    let s: u64 = a + PAGE_SIZE - 1;
    proof {
        assert((s & !4095) == (s / 4096) * 4096 && (s & !4095) <= s && s - (s & !4095) < 4096 && (
        (s & !4095) % 4096) == 0) by (bit_vector);
    }
    s & !(PAGE_SIZE - 1)
}

/// Rounding down is the mathematical floor to a page multiple.
pub open spec fn spec_page_down(a: u64) -> int {
    (a as int) - (a as int) % (PAGE_SIZE as int)
}

/// Rounding up is the mathematical ceiling to a page multiple.
pub open spec fn spec_page_up(a: u64) -> int {
    ((a + PAGE_SIZE - 1) / (PAGE_SIZE as int)) * (PAGE_SIZE as int)
}

/// Rounding an address down and then up returns it unchanged exactly when
/// the address was page-aligned to begin with.
pub proof fn lemma_page_up_of_page_down(a: u64)
    ensures
        (spec_page_up((spec_page_down(a)) as u64) == a) <==> a % PAGE_SIZE == 0,
{
    let d = spec_page_down(a);
    assert(0 <= d <= a);
    assert(d % (PAGE_SIZE as int) == 0) by {
        vstd::arithmetic::div_mod::lemma_sub_mod_noop(a as int, a as int, PAGE_SIZE as int);
    }
    let du = d as u64;
    assert(du % 4096 == 0 ==> ((du + 4095) / 4096) * 4096 == du) by (bit_vector);
    if a % PAGE_SIZE == 0 {
        assert(d == a);
    } else {
        assert(d < a);
        assert(spec_page_up(du) == du);
    }
}

/// A half-open range of virtual addresses `[start, end)`.
#[derive(Clone, Copy, Debug, PartialEq, Eq, Structural)]
pub struct VARange {
    pub start: VA,
    pub end: VA,
}

/// A half-open range of virtual page numbers `[start, end)`.
#[derive(Clone, Copy, Debug, PartialEq, Eq, Structural)]
pub struct VPNRange {
    pub start: VPN,
    pub end: VPN,
}

/// A virtual-address range as an address-space key: areas are kept sorted
/// by `start` and two keys conflict when their ranges overlap.
#[derive(Clone, Copy, Debug, PartialEq, Eq, Structural)]
pub struct VARangeOrd(pub VARange);

impl VARangeOrd {
    /// The range is well formed: nonempty and closed under page rounding.
    pub open spec fn wf(self) -> bool {
        &&& self.0.start.0 < self.0.end.0
        &&& self.0.end.0 + PAGE_SIZE <= u64::MAX
    }

    /// The range of pages the address range touches: the start page is
    /// rounded down, the end page up, so a partial tail page is covered
    /// entirely.
    pub fn vpn_range(&self) -> (r: VPNRange)
        requires
            self.0.end.0 + PAGE_SIZE <= u64::MAX,
        ensures
            r.start.0 == self.0.start.0 / PAGE_SIZE,
            r.end.0 == (self.0.end.0 + PAGE_SIZE - 1) / (PAGE_SIZE as int),
    {
        VPNRange { start: self.0.start.floor(), end: self.0.end.ceil() }
    }

    /// Whether the range contains the given address.
    pub open spec fn spec_contains(self, va: VA) -> bool {
        self.0.start.0 <= va.0 < self.0.end.0
    }

    /// Whether the range contains the given address.
    pub fn contains(&self, va: VA) -> (r: bool)
        ensures
            r == self.spec_contains(va),
    {
        self.0.start.0 <= va.0 && va.0 < self.0.end.0
    }

    /// Whether two ranges share an address.
    pub open spec fn spec_overlaps(self, other: VARangeOrd) -> bool {
        self.0.start.0 < other.0.end.0 && other.0.start.0 < self.0.end.0
    }

    /// Whether two ranges share an address.
    pub fn overlaps(&self, other: &VARangeOrd) -> (r: bool)
        ensures
            r == self.spec_overlaps(*other),
    {
        self.0.start.0 < other.0.end.0 && other.0.start.0 < self.0.end.0
    }
}

} // verus!
