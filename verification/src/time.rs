//! Wall-clock readings and latency timers, in nanoseconds.

use vstd::prelude::*;

verus! {

/// Relies on chrono::Utc::now and chrono::DateTime::timestamp_nanos_opt: the
/// current wall-clock time as nanoseconds since the Unix epoch. Nothing can be
/// promised of the value read from the clock.
#[verifier::external_body]
pub(crate) fn wall_clock_nanos() -> u64 {
    match chrono::Utc::now().timestamp_nanos_opt() {
        Some(n) => n as u64,
        None => u64::MAX,
    }
}

/// A wall-clock timestamp captured at construction time.
#[derive(Debug, Clone, Copy, PartialEq, Eq, Structural)]
pub struct PrecisionTimestamp {
    /// Nanoseconds since the Unix epoch at capture time.
    pub nanos: u64,
}

impl PrecisionTimestamp {
    /// Capture the current wall-clock time.
    pub fn now() -> PrecisionTimestamp {
        PrecisionTimestamp { nanos: wall_clock_nanos() }
    }

    /// Nanoseconds elapsed between this timestamp and a fresh clock reading;
    /// zero if the clock reads earlier than the capture.
    pub fn elapsed(&self) -> u64 {
        let now: u64 = wall_clock_nanos();
        if now >= self.nanos {
            now - self.nanos
        } else {
            0
        }
    }

    /// Nanoseconds between two timestamps; zero when `earlier` is in fact later.
    pub fn duration_since(&self, earlier: &PrecisionTimestamp) -> (r: u64)
        ensures
            r == if self.nanos >= earlier.nanos {
                self.nanos - earlier.nanos
            } else {
                0
            },
    {
        if self.nanos >= earlier.nanos {
            self.nanos - earlier.nanos
        } else {
            0
        }
    }

    /// Nanoseconds since the Unix epoch.
    pub fn nanos_since_epoch(&self) -> (r: u64)
        ensures
            r == self.nanos,
    {
        self.nanos
    }
}

/// Timer for measuring operation latency.
#[derive(Debug, Clone, Copy, PartialEq, Eq, Structural)]
pub struct LatencyTimer {
    /// The clock reading when the timer was started.
    pub start_nanos: u64,
}

impl LatencyTimer {
    /// Start a new timer at the current clock reading.
    pub fn start() -> LatencyTimer {
        LatencyTimer { start_nanos: wall_clock_nanos() }
    }

    /// Stop the timer and return the elapsed nanoseconds (zero if the clock
    /// went backwards).
    pub fn stop(self) -> u64 {
        let now: u64 = wall_clock_nanos();
        if now >= self.start_nanos {
            now - self.start_nanos
        } else {
            0
        }
    }

    /// Elapsed nanoseconds without consuming the timer.
    pub fn elapsed(&self) -> u64 {
        let now: u64 = wall_clock_nanos();
        if now >= self.start_nanos {
            now - self.start_nanos
        } else {
            0
        }
    }
}

/// Clock utilities over the wall clock.
pub struct Clock;

impl Clock {
    /// Capture the current time as a timestamp.
    pub fn now() -> PrecisionTimestamp {
        PrecisionTimestamp::now()
    }

    /// Nanoseconds since the Unix epoch.
    pub fn nanos() -> u64 {
        wall_clock_nanos()
    }

    /// Microseconds since the Unix epoch.
    pub fn micros() -> u64 {
        wall_clock_nanos() / 1000
    }

    /// Milliseconds since the Unix epoch.
    pub fn millis() -> u64 {
        wall_clock_nanos() / 1000000
    }
}

} // verus!
