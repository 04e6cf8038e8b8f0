//! A repeating countdown that signals once per completed interval.
use vstd::prelude::*;

verus! {

/// A repeating timer over nanoseconds.
#[derive(Clone, Copy, Debug, PartialEq, Eq, Structural)]
pub struct TimerGate {
    /// Length of one interval; never zero.
    pub interval: u64,
    /// Time since the last completed interval; below `interval`.
    pub elapsed: u64,
}

impl TimerGate {
    pub open spec fn wf(self) -> bool {
        self.interval > 0 && self.elapsed < self.interval
    }

    /// Whether ticking by `delta` completes an interval.
    pub open spec fn completes(self, delta: u64) -> bool {
        self.elapsed + delta >= self.interval
    }

    /// The timer after ticking by `delta`: time past the last completed
    /// interval is kept, whole intervals beyond it are dropped.
    pub open spec fn ticked(self, delta: u64) -> TimerGate {
        TimerGate {
            interval: self.interval,
            elapsed: ((self.elapsed + delta) % (self.interval as int)) as u64,
        }
    }

    /// A fresh timer with the given interval.
    pub fn new(interval: u64) -> (t: TimerGate)
        requires
            interval > 0,
        ensures
            t.wf(),
            t.interval == interval,
            t.elapsed == 0,
    {
        TimerGate { interval, elapsed: 0 }
    }

    /// Start the current interval over.
    pub fn reset(&mut self)
        ensures
            final(self).interval == old(self).interval,
            final(self).elapsed == 0,
    {
        self.elapsed = 0;
    }

    /// Advance by `delta`; true exactly when an interval was completed. Several
    /// intervals completed in one tick give one signal.
    pub fn tick(&mut self, delta: u64) -> (done: bool)
        requires
            old(self).wf(),
        ensures
            final(self).wf(),
            done == old(self).completes(delta),
            *final(self) == old(self).ticked(delta),
    {
        let total: u128 = self.elapsed as u128 + delta as u128;
        let rest: u128 = total % (self.interval as u128);
        assert(rest < self.interval);
        self.elapsed = rest as u64;
        proof {
            if total < self.interval {
                vstd::arithmetic::div_mod::lemma_small_mod(total as nat, self.interval as nat);
            }
        }
        total >= self.interval as u128
    }
}

} // verus!
