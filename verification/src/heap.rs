//! The slab heap's sizing rules.
//!
//! The kernel heap is a fixed region split into seven slabs of doubling
//! block sizes plus a linked-list region for large blocks. The allocator
//! implementation itself is an external collaborator; what is verified
//! here is its sizing logic: which slab serves a layout, what usable
//! size that guarantees, and how the region is split at bring-up.

use vstd::prelude::*;

verus! {

/// Number of sub-allocators the heap region is split into.
pub const NUM_OF_SLABS: u64 = 8;

/// Smallest slab region.
pub const MIN_SLAB_SIZE: u64 = 4096;

/// Smallest heap the splitting rule accepts.
pub const MIN_HEAP_SIZE: u64 = 32768;

/// The sub-allocator that serves an allocation.
#[derive(Clone, Copy, Debug, PartialEq, Eq, Structural)]
pub enum HeapAllocator {
    Slab64Bytes,
    Slab128Bytes,
    Slab256Bytes,
    Slab512Bytes,
    Slab1024Bytes,
    Slab2048Bytes,
    Slab4096Bytes,
    LinkedListAllocator,
}

/// Which sub-allocator serves a layout: the smallest slab whose block
/// holds both the size and the alignment; anything over 4096 bytes goes
/// to the linked-list allocator.
pub open spec fn spec_layout_to_allocator(size: u64, align: u64) -> HeapAllocator {
    if size > 4096 {
        HeapAllocator::LinkedListAllocator
    } else if size <= 64 && align <= 64 {
        HeapAllocator::Slab64Bytes
    } else if size <= 128 && align <= 128 {
        HeapAllocator::Slab128Bytes
    } else if size <= 256 && align <= 256 {
        HeapAllocator::Slab256Bytes
    } else if size <= 512 && align <= 512 {
        HeapAllocator::Slab512Bytes
    } else if size <= 1024 && align <= 1024 {
        HeapAllocator::Slab1024Bytes
    } else if size <= 2048 && align <= 2048 {
        HeapAllocator::Slab2048Bytes
    } else {
        HeapAllocator::Slab4096Bytes
    }
}

/// Pick the sub-allocator for a layout.
pub fn layout_to_allocator(size: u64, align: u64) -> (r: HeapAllocator)
    ensures
        r == spec_layout_to_allocator(size, align),
{
    if size > 4096 {
        HeapAllocator::LinkedListAllocator
    } else if size <= 64 && align <= 64 {
        HeapAllocator::Slab64Bytes
    } else if size <= 128 && align <= 128 {
        HeapAllocator::Slab128Bytes
    } else if size <= 256 && align <= 256 {
        HeapAllocator::Slab256Bytes
    } else if size <= 512 && align <= 512 {
        HeapAllocator::Slab512Bytes
    } else if size <= 1024 && align <= 1024 {
        HeapAllocator::Slab1024Bytes
    } else if size <= 2048 && align <= 2048 {
        HeapAllocator::Slab2048Bytes
    } else {
        HeapAllocator::Slab4096Bytes
    }
}

/// Bounds on the usable size of a successful allocation: the requested
/// size, and the serving block's size (the request itself for the
/// linked-list allocator).
pub fn usable_size(size: u64, align: u64) -> (r: (u64, u64))
    ensures
        r.0 == size,
        r.1 == match spec_layout_to_allocator(size, align) {
            HeapAllocator::Slab64Bytes => 64,
            HeapAllocator::Slab128Bytes => 128,
            HeapAllocator::Slab256Bytes => 256,
            HeapAllocator::Slab512Bytes => 512,
            HeapAllocator::Slab1024Bytes => 1024,
            HeapAllocator::Slab2048Bytes => 2048,
            HeapAllocator::Slab4096Bytes => 4096,
            HeapAllocator::LinkedListAllocator => size,
        },
{
    match layout_to_allocator(size, align) {
        HeapAllocator::Slab64Bytes => (size, 64),
        HeapAllocator::Slab128Bytes => (size, 128),
        HeapAllocator::Slab256Bytes => (size, 256),
        HeapAllocator::Slab512Bytes => (size, 512),
        HeapAllocator::Slab1024Bytes => (size, 1024),
        HeapAllocator::Slab2048Bytes => (size, 2048),
        HeapAllocator::Slab4096Bytes => (size, 4096),
        HeapAllocator::LinkedListAllocator => (size, size),
    }
}

/// The heap region split at bring-up: eight equal sub-regions, one per
/// slab and one for the linked-list allocator, starting back to back at
/// the region's start. The start must be page-aligned and the size a
/// positive multiple of the minimum heap size.
pub fn slab_regions(heap_start: u64, heap_size: u64) -> (r: Vec<(u64, u64)>)
    requires
        heap_start % 4096 == 0,
        heap_size >= MIN_HEAP_SIZE,
        heap_size % MIN_HEAP_SIZE == 0,
        heap_start + heap_size <= u64::MAX,
    ensures
        r.len() == NUM_OF_SLABS,
        forall|i: int|
            0 <= i < 8 ==> (#[trigger] r[i]).0 == heap_start + i * ((heap_size as int) / 8)
                && r[i].1 == (heap_size as int) / 8,
{
    let slab_size: u64 = heap_size / 8;
    let mut v: Vec<(u64, u64)> = Vec::new();
    let mut i: u64 = 0;
    while i < 8
        invariant
            i <= 8,
            v.len() == i,
            slab_size == heap_size / 8,
            heap_start + heap_size <= u64::MAX,
            heap_size >= MIN_HEAP_SIZE,
            forall|j: int|
                0 <= j < i ==> (#[trigger] v[j]).0 == heap_start + j * ((heap_size as int) / 8)
                    && v[j].1 == (heap_size as int) / 8,
        decreases 8 - i,
    {
        proof {
            assert(8 * ((heap_size as int) / 8) <= heap_size) by (nonlinear_arith);
            assert(i * ((heap_size as int) / 8) <= 7 * ((heap_size as int) / 8)) by (nonlinear_arith)
                requires
                    0 <= i < 8,
            ;
        }
        v.push((heap_start + i * slab_size, slab_size));
        i = i + 1;
    }
    v
}

} // verus!
