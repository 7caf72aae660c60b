use xv6_kernel::proc::{Context, ProcState};
use xv6_kernel::sysproc::{sleep_step, SleepStep};

#[test]
fn sleep_waits_until_enough_ticks() {
    assert_eq!(sleep_step(100, 100, 5, false), SleepStep::Wait);
    assert_eq!(sleep_step(100, 104, 5, false), SleepStep::Wait);
    assert_eq!(sleep_step(100, 105, 5, false), SleepStep::Done);
    assert_eq!(sleep_step(100, 100, 0, false), SleepStep::Done);
}

#[test]
fn sleep_stops_when_killed() {
    assert_eq!(sleep_step(100, 101, 5, true), SleepStep::Killed);
    assert_eq!(sleep_step(100, 105, 5, true), SleepStep::Done);
}

#[test]
fn sleep_clock_wraps_around() {
    assert_eq!(sleep_step(u32::MAX - 1, 2, 4, false), SleepStep::Done);
    assert_eq!(sleep_step(u32::MAX - 1, 1, 4, false), SleepStep::Wait);
    // A negative count reads as a very long wait.
    assert_eq!(sleep_step(0, 1000, -1, false), SleepStep::Wait);
}

#[test]
fn process_records_are_plain_data() {
    let c = Context {
        ra: 1, sp: 2, s0: 0, s1: 0, s2: 0, s3: 0, s4: 0, s5: 0,
        s6: 0, s7: 0, s8: 0, s9: 0, s10: 0, s11: 3,
    };
    let d = c;
    assert_eq!(c, d);
    assert_ne!(ProcState::RUNNING, ProcState::ZOMBIE);
}
