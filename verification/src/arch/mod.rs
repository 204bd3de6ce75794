//! What the kernel needs of the processor.

use vstd::prelude::*;

pub mod stdout;

verus! {

/// The id of the CPU that runs this code, from the value `tp` of its
/// thread-pointer register, which the boot code loads with the hart id.
pub fn get_cpu_id(tp: usize) -> (r: usize)
    ensures
        r == tp,
{
    tp
}

} // verus!
