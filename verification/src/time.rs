//! Spans of time.

use vstd::prelude::*;

verus! {

/// A span of time, in nanoseconds.
#[derive(Clone, Copy, PartialEq, Eq, Debug, Structural)]
pub struct Duration {
    pub nanos: u64,
}

pub open spec fn nanos_in_secs(secs: nat) -> nat {
    secs * 1_000_000_000
}

pub open spec fn nanos_in_millis(millis: nat) -> nat {
    millis * 1_000_000
}

impl Duration {
    /// A span of whole seconds.
    pub fn from_secs(secs: u64) -> (r: Duration)
        requires
            secs * 1_000_000_000 <= u64::MAX,
        ensures
            r.nanos == nanos_in_secs(secs as nat),
    {
        Duration { nanos: secs * 1_000_000_000 }
    }

    /// A span of whole milliseconds.
    pub fn from_millis(millis: u64) -> (r: Duration)
        requires
            millis * 1_000_000 <= u64::MAX,
        ensures
            r.nanos == nanos_in_millis(millis as nat),
    {
        Duration { nanos: millis * 1_000_000 }
    }

    /// The whole seconds in the span.
    pub open spec fn whole_secs(self) -> nat {
        (self.nanos / 1_000_000_000) as nat
    }

    /// The whole seconds in the span.
    pub fn as_secs(&self) -> (r: u64)
        ensures
            r == self.whole_secs(),
    {
        self.nanos / 1_000_000_000
    }
}

/// A span of whole seconds has as many seconds, and still has as many with up to
/// 999 milliseconds more; a second is as long as a thousand milliseconds, and a
/// millisecond as a million nanoseconds.
pub proof fn lemma_seconds_come_back(d: Duration, secs: nat, millis: nat)
    requires
        millis < 1000,
        d.nanos == nanos_in_secs(secs) + nanos_in_millis(millis),
    ensures
        d.whole_secs() == secs,
        nanos_in_secs(secs) == nanos_in_millis(1000 * secs),
        nanos_in_millis(millis + 1) == nanos_in_millis(millis) + 1_000_000,
{
}

} // verus!
