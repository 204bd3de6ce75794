//! The timer: from clock ticks to milliseconds and to the next interrupt.

use vstd::prelude::*;
use crate::config::CLOCK_FREQ;

verus! {

/// Timer interrupts per second.
pub const TICKS_PER_SEC: usize = 10;

pub const MSEC_PER_SEC: usize = 1000;

/// The time in milliseconds at `time` clock ticks since the start.
pub fn get_time_ms(time: usize) -> (r: usize)
    ensures
        r == time / 12_500,
{
    time / (CLOCK_FREQ / MSEC_PER_SEC)
}

/// The clock value at which the timer must fire next, when the clock
/// stands at `time`: one tenth of a second later.
pub fn set_next_trigger(time: usize) -> (r: u64)
    requires
        time + 1_250_000 <= usize::MAX,
    ensures
        r == time + 1_250_000,
{
    (time + CLOCK_FREQ / TICKS_PER_SEC) as u64
}

} // verus!
