//! Time spans, in milliseconds.

use vstd::prelude::*;

verus! {

/// A span of time, in whole milliseconds.
#[derive(Debug, Clone, Copy, PartialEq, Eq, Structural)]
pub struct Duration {
    millis: u64,
}

impl Duration {
    /// The span of `millis` milliseconds.
    pub fn from_millis(millis: u64) -> (r: Duration)
        ensures
            r.as_millis_spec() == millis,
    {
        Duration { millis }
    }

    /// The span of `secs` seconds.
    pub fn from_secs(secs: u64) -> (r: Duration)
        requires
            secs <= u64::MAX / 1000,
        ensures
            r.as_millis_spec() == secs * 1000,
    {
        Duration { millis: secs * 1000 }
    }

    /// The length of the span in milliseconds.
    pub closed spec fn as_millis_spec(&self) -> u64 {
        self.millis
    }

    /// The length of the span in milliseconds.
    pub fn as_millis(&self) -> (r: u64)
        ensures
            r == self.as_millis_spec(),
    {
        self.millis
    }

    /// The shorter of two spans.
    pub fn min(self, other: Duration) -> (r: Duration)
        ensures
            r.as_millis_spec() == if self.as_millis_spec() <= other.as_millis_spec() {
                self.as_millis_spec()
            } else {
                other.as_millis_spec()
            },
    {
        if self.millis <= other.millis {
            self
        } else {
            other
        }
    }
}

} // verus!
