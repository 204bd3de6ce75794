//! Bringing physical memory under management at boot.

use vstd::prelude::*;
use crate::mm::address::{PhysAddr, page_ceil, page_floor};
use crate::mm::frame_allocator::StackFrameAllocator;
use crate::mm::memory_set::MemorySet;

verus! {

/// The allocator of the frames between the end of the kernel image,
/// `ekernel`, and the end of memory, `memory_end`: every frame that lies
/// wholly in between, all free.
pub fn init(ekernel: PhysAddr, memory_end: PhysAddr) -> (r: StackFrameAllocator)
    requires
        ekernel.0 <= memory_end.0,
        page_ceil(ekernel.0 as int) <= page_floor(memory_end.0 as int),
    ensures
        r.wf(),
        r.limit() == page_floor(memory_end.0 as int),
        r.free() == Seq::new(
            (page_floor(memory_end.0 as int) - page_ceil(ekernel.0 as int)) as nat,
            |i: int| (page_ceil(ekernel.0 as int) + i) as u64,
        ),
        forall|p: u64| r.allocated(p) == (p < page_ceil(ekernel.0 as int)),
{
    let mut allocator = StackFrameAllocator::new();
    allocator.init(ekernel.ceil(), memory_end.floor());
    allocator
}

/// The value to load into the MMU to run on the page table of the kernel.
/// The caller loads it and fences.
pub fn enable_kernel_page_table(kernel_space: &MemorySet) -> (satp: u64)
    ensures
        satp == kernel_space.spec_token(),
{
    kernel_space.activate()
}

} // verus!
