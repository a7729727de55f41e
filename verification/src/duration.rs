use vstd::prelude::*;

verus! {

/// Largest value a `Duration` can hold, as whole nanoseconds.
pub open spec fn max_duration_nanos() -> int {
    u64::MAX * 1_000_000_000 + 999_999_999
}

/// A non-negative span of time with nanosecond resolution.
///
/// Well-formed values keep the sub-second part below one second, so every
/// span has exactly one representation.
#[derive(Clone, Copy, PartialEq, Eq, Structural, Debug)]
pub struct Duration {
    pub secs: u64,
    pub nanos: u32,
}

impl Duration {
    /// The sub-second part never reaches a whole second.
    pub open spec fn wf(self) -> bool {
        self.nanos < 1_000_000_000
    }

    /// The whole span as a mathematical number of nanoseconds.
    pub open spec fn total_nanos(self) -> int {
        self.secs * 1_000_000_000 + self.nanos
    }

    pub fn zero() -> (r: Duration)
        ensures
            r.wf(),
            r.total_nanos() == 0,
    {
        Duration { secs: 0, nanos: 0 }
    }

    pub fn new(secs: u64, nanos: u32) -> (r: Duration)
        requires
            nanos < 1_000_000_000,
        ensures
            r.wf(),
            r.secs == secs,
            r.nanos == nanos,
    {
        Duration { secs, nanos }
    }

    pub fn from_secs(secs: u64) -> (r: Duration)
        ensures
            r.wf(),
            r.total_nanos() == secs * 1_000_000_000,
    {
        Duration { secs, nanos: 0 }
    }

    pub fn from_millis(millis: u64) -> (r: Duration)
        ensures
            r.wf(),
            r.total_nanos() == millis * 1_000_000,
    {
        let r = Duration { secs: millis / 1_000, nanos: (millis % 1_000) as u32 * 1_000_000 };
        proof {
            assert(r.total_nanos() == millis * 1_000_000) by (nonlinear_arith)
                requires
                    r.secs == millis / 1_000,
                    r.nanos == (millis % 1_000) * 1_000_000,
            {
            }
        }
        r
    }

    pub fn from_nanos(n: u64) -> (r: Duration)
        ensures
            r.wf(),
            r.total_nanos() == n,
    {
        let r = Duration { secs: n / 1_000_000_000, nanos: (n % 1_000_000_000) as u32 };
        proof {
            assert(r.total_nanos() == n) by (nonlinear_arith)
                requires
                    r.secs == n / 1_000_000_000,
                    r.nanos == n % 1_000_000_000,
            {
            }
        }
        r
    }

    pub fn is_zero(&self) -> (b: bool)
        ensures
            b == (self.total_nanos() == 0),
    {
        self.secs == 0 && self.nanos == 0
    }

    /// Sum of two spans, or `None` where the sum exceeds the largest
    /// representable span.
    pub fn checked_add(&self, other: &Duration) -> (r: Option<Duration>)
        requires
            self.wf(),
            other.wf(),
        ensures
            match r {
                Some(d) => d.wf() && d.total_nanos() == self.total_nanos() + other.total_nanos(),
                None => self.total_nanos() + other.total_nanos() > max_duration_nanos(),
            },
    {
        let ns: u32 = self.nanos + other.nanos;
        let carry: u64 = (ns / 1_000_000_000) as u64;
        let nanos: u32 = ns % 1_000_000_000;
        match self.secs.checked_add(other.secs) {
            Some(s) => match s.checked_add(carry) {
                Some(secs) => Some(Duration { secs, nanos }),
                None => None,
            },
            None => None,
        }
    }

    /// The smaller of two spans.
    pub fn min_with(&self, other: &Duration) -> (r: Duration)
        requires
            self.wf(),
            other.wf(),
        ensures
            r.wf(),
            r.total_nanos() == if self.total_nanos() <= other.total_nanos() {
                self.total_nanos()
            } else {
                other.total_nanos()
            },
    {
        if self.secs < other.secs || (self.secs == other.secs && self.nanos <= other.nanos) {
            *self
        } else {
            *other
        }
    }

    /// Strictly-less comparison of spans.
    pub fn lt(&self, other: &Duration) -> (b: bool)
        requires
            self.wf(),
            other.wf(),
        ensures
            b == (self.total_nanos() < other.total_nanos()),
    {
        self.secs < other.secs || (self.secs == other.secs && self.nanos < other.nanos)
    }
}

} // verus!
