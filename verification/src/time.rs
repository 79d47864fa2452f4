//! Time values as the time-related syscalls exchange them. Converting to
//! and from fractional seconds is floating-point work that lives with the
//! callers; the arithmetic on whole values is verified here.

use vstd::prelude::*;

verus! {

/// Nanoseconds per second.
pub const NSEC_PER_SEC: usize = 1_000_000_000;

/// The nanosecond value that asks for "set this time to now".
pub const UTIME_NOW: usize = 0x3fffffff;

/// The nanosecond value that asks for "leave this time unchanged".
pub const UTIME_OMIT: usize = 0x3ffffffe;

/// A point in time: whole seconds and nanoseconds below a second.
#[derive(Clone, Copy, Debug, PartialEq, Eq, Structural)]
pub struct TimeSpec {
    /// Whole seconds.
    pub tv_sec: usize,
    /// Nanoseconds within the second.
    pub tv_nsec: usize,
}

impl TimeSpec {
    /// Whether the value asks for the time to be set to the present moment.
    pub fn should_set_to_current_time(&self) -> (r: bool)
        ensures
            r == (self.tv_nsec == UTIME_NOW),
    {
        self.tv_nsec == UTIME_NOW
    }

    /// Whether the value asks for the time to be left unchanged.
    pub fn should_left_unchanged(&self) -> (r: bool)
        ensures
            r == (self.tv_nsec == UTIME_OMIT),
    {
        self.tv_nsec == UTIME_OMIT
    }

    /// The sum of two time values, with the nanoseconds normalized below
    /// one second.
    pub fn add(self, other: TimeSpec) -> (r: TimeSpec)
        requires
            self.tv_sec + other.tv_sec + 1 <= usize::MAX,
            self.tv_nsec < NSEC_PER_SEC,
            other.tv_nsec < NSEC_PER_SEC,
        ensures
            r.tv_nsec < NSEC_PER_SEC,
            r.tv_sec * (NSEC_PER_SEC as int) + r.tv_nsec == (self.tv_sec + other.tv_sec) * (
            NSEC_PER_SEC as int) + self.tv_nsec + other.tv_nsec,
    {
        let mut new_ts = TimeSpec {
            tv_sec: self.tv_sec + other.tv_sec,
            tv_nsec: self.tv_nsec + other.tv_nsec,
        };
        if new_ts.tv_nsec >= NSEC_PER_SEC {
            new_ts.tv_sec = new_ts.tv_sec + 1;
            new_ts.tv_nsec = new_ts.tv_nsec - NSEC_PER_SEC;
        }
        proof {
            assert(new_ts.tv_sec * (NSEC_PER_SEC as int) + new_ts.tv_nsec == (self.tv_sec
                + other.tv_sec) * (NSEC_PER_SEC as int) + self.tv_nsec + other.tv_nsec)
                by (nonlinear_arith)
                requires
                    new_ts.tv_sec * (NSEC_PER_SEC as int) + new_ts.tv_nsec == (self.tv_sec
                        + other.tv_sec) * (NSEC_PER_SEC as int) + self.tv_nsec + other.tv_nsec,
            ;
        }
        new_ts
    }
}

/// Times a process accumulated, as `sys_times` reports them.
#[derive(Clone, Copy, Debug, PartialEq, Eq, Structural)]
pub struct TMS {
    /// Time spent in user mode.
    pub tms_utime: usize,
    /// Time spent in kernel mode.
    pub tms_stime: usize,
    /// Children's time spent in user mode.
    pub tms_cutime: usize,
    /// Children's time spent in kernel mode.
    pub tms_cstime: usize,
}

} // verus!
