//! Compile-time parameters of the kernel.

use vstd::prelude::*;

verus! {

/// The CPU that runs first.
pub const BOOTSTRAP_CPU_ID: usize = 0;

/// Number of cores.
pub const CPU_NUM: usize = 4;

/// The highest CPU id.
pub const LAST_CPU_ID: usize = 3;

pub const IS_SINGLE_CORE: bool = false;

pub const KERNEL_HEAP_SIZE: usize = 0x40_0000;

pub const USER_STACK_SIZE: usize = 8192;

pub const KERNEL_STACK_SIZE: usize = 8192;

/// Bytes in a page.
pub const PAGE_SIZE: usize = 0x1000;

/// log2 of `PAGE_SIZE`.
pub const PAGE_SIZE_BITS: usize = 0xc;

/// Bits in a virtual address (Sv39).
pub const VA_WIDTH: usize = 39;

/// Bits in a physical address.
pub const PA_WIDTH: usize = 56;

/// Number of virtual pages in an address space: 2^27.
pub const VPN_LIMIT: u64 = 0x800_0000;

/// Number of physical pages that a page-table entry can name: 2^44.
pub const PPN_LIMIT: u64 = 0x1000_0000_0000;

/// Number of virtual addresses in an address space: 2^39.
pub const VA_LIMIT: u64 = 0x80_0000_0000;

/// Number of physical addresses: 2^56.
pub const PA_LIMIT: u64 = 0x100_0000_0000_0000;

/// Address of the trampoline page: the last page of the 64-bit space, which
/// Sv39 truncation places at the top of the virtual address space.
pub const TRAMPOLINE: u64 = 0xffff_ffff_ffff_f000;

/// Address of the trap-context page, just below the trampoline.
pub const TRAP_CONTEXT: u64 = 0xffff_ffff_ffff_e000;

/// Timer ticks per second of the board.
pub const CLOCK_FREQ: usize = 12_500_000;

/// First physical address past usable memory.
pub const MEMORY_END: u64 = 0x8080_0000;

/// Number of page-sized slots on the swap device.
pub const MAX_PAGES: usize = 2535;

/// Page-fault-frequency threshold, in timer ticks: faults further apart
/// than this shrink the resident sets.
pub const PFF_T: u64 = 100_000;

/// Length of the working-set sampling history.
pub const WORKINGSET_DELTA_NUM: usize = 4;

} // verus!
