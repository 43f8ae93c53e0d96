//! How long each stage of a model's work took.
use vstd::prelude::*;

verus! {

/// The nanoseconds of the longest span of time.
pub open spec fn longest() -> nat {
    u64::MAX as nat * 1_000_000_000 + 999_999_999
}

/// A span of time in nanoseconds.
#[derive(Debug, Clone, Copy, PartialEq, Eq, Structural)]
pub struct Duration {
    pub nanos: u128,
}

impl Duration {
    pub fn zero() -> (d: Duration)
        ensures
            d.nanos == 0,
    {
        Duration { nanos: 0 }
    }

    pub fn from_millis(millis: u64) -> (d: Duration)
        ensures
            d.nanos == millis as nat * 1_000_000,
            d.nanos <= longest(),
    {
        Duration { nanos: millis as u128 * 1_000_000 }
    }

    /// The sum of two spans that is itself no longer than the longest.
    pub fn plus(self, other: Duration) -> (d: Duration)
        requires
            self.nanos + other.nanos <= longest(),
        ensures
            d.nanos == self.nanos + other.nanos,
    {
        Duration { nanos: self.nanos + other.nanos }
    }
}

/// The time of the four stages.
#[derive(Debug, Clone, Copy)]
pub struct StageTimings {
    pub tokenize: Duration,
    pub build_tensors: Duration,
    pub forward: Duration,
    pub postprocess: Duration,
}

impl Default for StageTimings {
    fn default() -> (t: StageTimings)
        ensures
            t.tokenize.nanos == 0,
            t.build_tensors.nanos == 0,
            t.forward.nanos == 0,
            t.postprocess.nanos == 0,
    {
        StageTimings {
            tokenize: Duration::zero(),
            build_tensors: Duration::zero(),
            forward: Duration::zero(),
            postprocess: Duration::zero(),
        }
    }
}

impl StageTimings {
    /// The time of all stages together.
    pub open spec fn nanos(&self) -> nat {
        (self.tokenize.nanos + self.build_tensors.nanos + self.forward.nanos
            + self.postprocess.nanos) as nat
    }

    pub fn accumulate(&mut self, other: &StageTimings)
        requires
            old(self).tokenize.nanos + other.tokenize.nanos <= longest(),
            old(self).build_tensors.nanos + other.build_tensors.nanos <= longest(),
            old(self).forward.nanos + other.forward.nanos <= longest(),
            old(self).postprocess.nanos + other.postprocess.nanos <= longest(),
        ensures
            final(self).tokenize.nanos == old(self).tokenize.nanos + other.tokenize.nanos,
            final(self).build_tensors.nanos == old(self).build_tensors.nanos
                + other.build_tensors.nanos,
            final(self).forward.nanos == old(self).forward.nanos + other.forward.nanos,
            final(self).postprocess.nanos == old(self).postprocess.nanos + other.postprocess.nanos,
            final(self).nanos() == old(self).nanos() + other.nanos(),
    {
        self.tokenize = self.tokenize.plus(other.tokenize);
        self.build_tensors = self.build_tensors.plus(other.build_tensors);
        self.forward = self.forward.plus(other.forward);
        self.postprocess = self.postprocess.plus(other.postprocess);
    }

    pub fn total(&self) -> (d: Duration)
        requires
            self.nanos() <= longest(),
        ensures
            d.nanos == self.nanos(),
    {
        self.tokenize.plus(self.build_tensors).plus(self.forward).plus(self.postprocess)
    }
}

} // verus!
