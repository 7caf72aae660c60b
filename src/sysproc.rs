//! The decision at the heart of the `sleep` system call. Fetching its
//! argument, reading the clock and waiting for a tick are done by the
//! caller, which hands the results in.

use vstd::prelude::*;

verus! {

/// What `sleep` does next.
#[derive(Clone, Copy, Debug, PartialEq, Eq)]
pub enum SleepStep {
    /// Enough ticks have passed: return 0.
    Done,
    /// The process was killed while waiting: return -1.
    Killed,
    /// Wait for the next tick and look again.
    Wait,
}

/// Whether `n` ticks have passed between `ticks0` and `ticks`, on a clock
/// that wraps around and with `n` read as unsigned.
pub open spec fn slept_enough(ticks0: u32, ticks: u32, n: i32) -> bool {
    ((ticks - ticks0) % 0x1_0000_0000) >= (n as u32)
}

/// Decides the next step of a process sleeping `n` ticks since the clock
/// read `ticks0`, now that it reads `ticks`.
pub fn sleep_step(ticks0: u32, ticks: u32, n: i32, killed: bool) -> (r: SleepStep)
    ensures
        r == (if slept_enough(ticks0, ticks, n) {
            SleepStep::Done
        } else if killed {
            SleepStep::Killed
        } else {
            SleepStep::Wait
        }),
{
    if ticks.wrapping_sub(ticks0) >= n as u32 {
        SleepStep::Done
    } else if killed {
        SleepStep::Killed
    } else {
        SleepStep::Wait
    }
}

} // verus!
