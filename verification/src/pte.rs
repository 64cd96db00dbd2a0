//! Sv39 page-table entries, bit exact.
//!
//! One entry is a 64-bit word: bits 0..=7 are the hardware flags V, R, W, X,
//! U, G, A, D; bit 8 is the software copy-on-write bit; bits 10..54 hold the
//! physical page number. An entry is a *leaf* iff at least one of R, W, X is
//! set; a valid entry with R = W = X = 0 points to the next-level table.

use vstd::prelude::*;

use crate::address::PPN;

verus! {

/// Valid bit.
pub const PTE_VALID: u64 = 0x1;

/// Readable bit.
pub const PTE_READABLE: u64 = 0x2;

/// Writable bit.
pub const PTE_WRITABLE: u64 = 0x4;

/// Executable bit.
pub const PTE_EXECUTABLE: u64 = 0x8;

/// User-accessible bit.
pub const PTE_USER: u64 = 0x10;

/// Global-mapping bit.
pub const PTE_GLOBAL: u64 = 0x20;

/// Accessed bit.
pub const PTE_ACCESSED: u64 = 0x40;

/// Dirty bit.
pub const PTE_DIRTY: u64 = 0x80;

/// Software copy-on-write bit.
pub const PTE_COW: u64 = 0x100;

/// Mask of all flag bits an entry carries (hardware flags plus COW).
pub const PTE_FLAG_MASK: u64 = 0x1ff;

/// Mask of the three permission bits R, W, X.
pub const PTE_RWX: u64 = 0xe;

/// One Sv39 page-table entry (or a bare set of its flag bits, when used as
/// an area's permission word).
#[derive(Clone, Copy, Debug, PartialEq, Eq, Structural)]
pub struct PTEImpl(pub u64);

impl PTEImpl {
    /// The flag bits of the entry.
    pub open spec fn spec_flags(self) -> u64 {
        self.0 & PTE_FLAG_MASK
    }

    /// Whether the entry is marked valid.
    pub open spec fn spec_valid(self) -> bool {
        self.0 & PTE_VALID != 0
    }

    /// Whether the entry is a leaf: at least one of R, W, X set.
    pub open spec fn spec_leaf(self) -> bool {
        self.0 & PTE_RWX != 0
    }

    /// The physical page number stored in bits 10..54.
    pub open spec fn spec_ppn(self) -> u64 {
        (self.0 >> 10) & 0xfff_ffff_ffff
    }

    /// Whether every flag of `mask` is set in the entry.
    pub open spec fn spec_contains(self, mask: u64) -> bool {
        self.0 & mask == mask
    }

    /// The empty (invalid) entry.
    pub fn empty() -> (r: PTEImpl)
        ensures
            r.0 == 0,
            !r.spec_valid(),
    {
        proof {
            assert(0u64 & PTE_VALID == 0) by (bit_vector);
        }
        PTEImpl(0)
    }

    /// Build an entry from a page number and a flag word.
    pub fn new(ppn: PPN, flags: PTEImpl) -> (r: PTEImpl)
        requires
            ppn.0 < 0x1000_0000_0000,
            flags.0 <= PTE_FLAG_MASK,
        ensures
            r.spec_ppn() == ppn.0,
            r.spec_flags() == flags.0,
            r.spec_valid() == (flags.0 & PTE_VALID != 0),
            r.spec_leaf() == (flags.0 & PTE_RWX != 0),
    {
        let p: u64 = ppn.0;
        let f: u64 = flags.0;
        let w: u64 = (p << 10) | f;
        proof {
            assert(p < 0x1000_0000_0000 && f <= 0x1ff ==> {
                let ww = ((p << 10) | f);
                (ww >> 10) & 0xfff_ffff_ffff == p && ww & 0x1ff == f && (ww & 0x1 != 0) == (f
                    & 0x1 != 0) && (ww & 0xe != 0) == (f & 0xe != 0)
            }) by (bit_vector);
        }
        PTEImpl(w)
    }

    /// Replace the page number, keeping the flag bits.
    pub fn set_ppn(&mut self, ppn: PPN)
        requires
            ppn.0 < 0x1000_0000_0000,
        ensures
            final(self).spec_ppn() == ppn.0,
            final(self).spec_flags() == old(self).spec_flags(),
            final(self).spec_valid() == old(self).spec_valid(),
            final(self).spec_leaf() == old(self).spec_leaf(),
    {
        let p: u64 = ppn.0;
        let b: u64 = self.0;
        let w: u64 = (p << 10) | (b & PTE_FLAG_MASK);
        proof {
            assert(p < 0x1000_0000_0000 ==> {
                let ww = ((p << 10) | (b & 0x1ff));
                (ww >> 10) & 0xfff_ffff_ffff == p && ww & 0x1ff == b & 0x1ff && (ww & 0x1 == b
                    & 0x1) && (ww & 0xe == b & 0xe)
            }) by (bit_vector);
            assert(b & 0x1 == w & 0x1 ==> ((b & 0x1 != 0) == (w & 0x1 != 0)));
        }
        self.0 = w;
    }

    /// The physical page number the entry refers to.
    pub fn ppn(self) -> (r: PPN)
        ensures
            r.0 == self.spec_ppn(),
    {
        PPN((self.0 >> 10) & 0xfff_ffff_ffff)
    }

    /// Whether the entry is marked valid.
    pub fn is_valid(self) -> (r: bool)
        ensures
            r == self.spec_valid(),
    {
        self.0 & PTE_VALID != 0
    }

    /// Whether the entry is a leaf.
    pub fn is_leaf(self) -> (r: bool)
        ensures
            r == self.spec_leaf(),
    {
        self.0 & PTE_RWX != 0
    }

    /// Whether every flag of `mask` is set.
    pub fn contains(self, mask: u64) -> (r: bool)
        ensures
            r == self.spec_contains(mask),
    {
        self.0 & mask == mask
    }

    /// Set every flag of `mask`.
    pub fn insert(&mut self, mask: u64)
        ensures
            final(self).0 == old(self).0 | mask,
    {
        self.0 = self.0 | mask;
    }

    /// Clear every flag of `mask`.
    pub fn remove(&mut self, mask: u64)
        ensures
            final(self).0 == old(self).0 & !mask,
    {
        self.0 = self.0 & !mask;
    }
}


} // verus!
