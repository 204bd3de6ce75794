//! Virtual memory and demand paging for a small multi-core RISC-V kernel,
//! written as a machine-independent library: address spaces, the frame
//! allocator, the swap store, the reverse map and the page-replacement
//! policies, each with a contract that Verus proves.

pub mod arch;
pub mod boot;
pub mod config;
pub mod drivers;
pub mod memory;
pub mod mm;
pub mod sync;
pub mod task;
pub mod timer;
