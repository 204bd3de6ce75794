//! Memory management: addresses, page tables, frames, swap and the
//! replacement policies.

use vstd::prelude::*;

pub mod address;
pub mod frame_allocator;
pub mod frame_manager;
pub mod memory_set;
pub mod page_table;
pub mod system;
pub mod vmm;

use crate::mm::address::{PhysAddr, page_ceil, page_floor};
use crate::mm::frame_allocator::StackFrameAllocator;
use crate::mm::frame_manager::PRA;
use crate::mm::memory_set::{KernelLayout, MemorySet, kernel_sections, section_frames, sections_ok};
use crate::mm::vmm::ReverseMap;

verus! {

/// What the boot CPU has after it brought memory management up: the frame
/// allocator, the reverse map, and the address space of the kernel, if it
/// could be built.
pub struct KernelMemory {
    pub frame_allocator: StackFrameAllocator,
    pub p2v_map: ReverseMap,
    pub kernel_space: Option<MemorySet>,
}

/// Brings memory management up: takes the frames between the end of the
/// kernel image and `memory_end` under management and builds the address
/// space of the kernel in them, under policy `pra`. The caller switches
/// the MMU to that space.
///
/// There is no kernel space where the sections of the kernel are
/// malformed or the frames do not suffice.
pub fn init(layout: &KernelLayout, memory_end: u64, mmio: &[(u64, u64)], pra: PRA) -> (r:
    KernelMemory)
    requires
        layout.ekernel <= memory_end,
        memory_end <= 0x100_0000_0000_0000,
        page_ceil(layout.ekernel as int) <= page_floor(memory_end as int),
        forall|k: int| 0 <= k < mmio@.len() ==> (#[trigger] mmio@[k]).0 + mmio@[k].1 <= u64::MAX,
    ensures
        r.frame_allocator.wf(),
        r.frame_allocator.limit() == page_floor(memory_end as int),
        r.kernel_space is None ==> !sections_ok(kernel_sections(*layout, memory_end, mmio@))
            || r.frame_allocator.free().len() < 3,
        sections_ok(kernel_sections(*layout, memory_end, mmio@)) && page_floor(memory_end as int)
            - page_ceil(layout.ekernel as int) >= 3 + section_frames(
            kernel_sections(*layout, memory_end, mmio@),
        ) ==> r.kernel_space is Some,
        r.kernel_space is Some ==> {
            let ks = r.kernel_space->0;
            let sections = kernel_sections(*layout, memory_end, mmio@);
            &&& ks.inv(r.p2v_map@, r.frame_allocator)
            &&& ks.page_table.root() == page_ceil(layout.ekernel as int)
            &&& ks.frame_manager.pra() == pra
            &&& sections_ok(sections)
            &&& ks.areas@.len() == sections.len()
            &&& forall|k: int|
                0 <= k < sections.len() ==> {
                    &&& (#[trigger] ks.areas@[k]).map_type == crate::mm::memory_set::MapType::Identical
                    &&& ks.areas@[k].vpn_range.start() == page_floor(sections[k].start as int)
                    &&& ks.areas@[k].vpn_range.end() == page_ceil(sections[k].end as int)
                    &&& ks.areas@[k].map_perm.bits == sections[k].perm
                    &&& ks.fully_mapped(k)
                }
            &&& forall|p: u64| #[trigger] ks.owns(p) ==> p >= page_ceil(layout.ekernel as int)
        },
{
    let mut frame_allocator = crate::memory::init(PhysAddr(layout.ekernel), PhysAddr(memory_end));
    let mut p2v_map = ReverseMap::new();
    let kernel_space = MemorySet::new_kernel(
        layout,
        memory_end,
        mmio,
        pra,
        &mut p2v_map,
        &mut frame_allocator,
    );
    KernelMemory { frame_allocator, p2v_map, kernel_space }
}

} // verus!
