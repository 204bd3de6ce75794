//! The boot handshake of the CPUs.
//!
//! One CPU, the first to ask, does the initialization that must happen
//! once. The others wait until it is done. Then every CPU reports in, and
//! all wait until the last has.

use vstd::prelude::*;
use crate::config::CPU_NUM;

verus! {

/// The flags and the counter that the CPUs share while they boot.
pub struct BootState {
    global_init_started: bool,
    global_init_finished: bool,
    booted_cpu_num: usize,
}

impl BootState {
    /// Whether a CPU has taken on the global initialization.
    pub closed spec fn started(self) -> bool {
        self.global_init_started
    }

    /// Whether the global initialization is done.
    pub closed spec fn finished(self) -> bool {
        self.global_init_finished
    }

    /// Number of CPUs that have reported in.
    pub closed spec fn booted(self) -> nat {
        self.booted_cpu_num as nat
    }

    /// The state before any CPU runs.
    pub fn new() -> (r: BootState)
        ensures
            !r.started(),
            !r.finished(),
            r.booted() == 0,
    {
        BootState { global_init_started: false, global_init_finished: false, booted_cpu_num: 0 }
    }
}

/// Asks for the global initialization. The first CPU to ask gets it; every
/// later one is told no.
pub fn can_do_global_init(state: &mut BootState) -> (r: bool)
    ensures
        r == !old(state).started(),
        final(state).started(),
        final(state).finished() == old(state).finished(),
        final(state).booted() == old(state).booted(),
{
    if state.global_init_started {
        false
    } else {
        state.global_init_started = true;
        true
    }
}

/// Reports that the global initialization is done. It is done once.
pub fn mark_global_init_finished(state: &mut BootState)
    requires
        !old(state).finished(),
    ensures
        final(state).finished(),
        final(state).started() == old(state).started(),
        final(state).booted() == old(state).booted(),
{
    state.global_init_finished = true;
}

/// One look at the flag that a CPU waits on before it goes on: whether
/// the global initialization is done.
pub fn wait_global_init_finished(state: &BootState) -> (r: bool)
    ensures
        r == state.finished(),
{
    state.global_init_finished
}

/// Reports that one more CPU has booted.
pub fn mark_bootstrap_finish(state: &mut BootState)
    requires
        old(state).booted() < usize::MAX,
    ensures
        final(state).booted() == old(state).booted() + 1,
        final(state).started() == old(state).started(),
        final(state).finished() == old(state).finished(),
{
    state.booted_cpu_num = state.booted_cpu_num + 1;
}

/// One look at the counter that a CPU waits on before it runs tasks:
/// whether every CPU has booted.
pub fn wait_all_cpu_started(state: &BootState) -> (r: bool)
    ensures
        r == (state.booted() >= CPU_NUM),
{
    state.booted_cpu_num >= CPU_NUM
}

} // verus!
