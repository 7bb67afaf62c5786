use vstd::prelude::*;

verus! {

/// Largest frame time, in milliseconds, that a timer accepts in one tick.
pub const MAX_FRAME_MS: u64 = 0x1_0000_0000;

/// Largest period, in milliseconds, of a repeating timer.
pub const MAX_PERIOD_MS: u64 = 0x1_0000_0000;

/// A countdown that restarts itself each time its period elapses.
#[derive(Clone, Copy, Debug, PartialEq, Eq, Structural)]
pub struct RepeatingTimer {
    /// Length of one period, in milliseconds.
    pub period_ms: u64,
    /// Time elapsed in the current period, in milliseconds.
    pub elapsed_ms: u64,
    /// Whether the last tick crossed the end of a period.
    pub finished: bool,
}

impl RepeatingTimer {
    /// A positive period, with less than one period elapsed.
    pub open spec fn wf(self) -> bool {
        0 < self.period_ms <= MAX_PERIOD_MS && self.elapsed_ms < self.period_ms
    }

    /// The timer after `delta_ms` more milliseconds.
    pub open spec fn ticked(self, delta_ms: int) -> RepeatingTimer {
        let total = self.elapsed_ms + delta_ms;
        RepeatingTimer {
            period_ms: self.period_ms,
            elapsed_ms: (total % self.period_ms as int) as u64,
            finished: total >= self.period_ms,
        }
    }

    /// A timer at the start of a period of `period_ms` milliseconds.
    pub fn new(period_ms: u64) -> (r: RepeatingTimer)
        requires
            0 < period_ms <= MAX_PERIOD_MS,
        ensures
            r.wf(),
            r.period_ms == period_ms,
            r.elapsed_ms == 0,
            !r.finished,
    {
        RepeatingTimer { period_ms, elapsed_ms: 0, finished: false }
    }

    /// Advances the timer by `delta_ms`; it is finished when a period ended.
    pub fn tick(&mut self, delta_ms: u64)
        requires
            old(self).wf(),
            delta_ms <= MAX_FRAME_MS,
        ensures
            *final(self) == old(self).ticked(delta_ms as int),
            final(self).wf(),
    {
        let total: u64 = self.elapsed_ms + delta_ms;
        self.elapsed_ms = total % self.period_ms;
        self.finished = total >= self.period_ms;
    }

    /// Starts the current period over.
    pub fn reset(&mut self)
        requires
            old(self).wf(),
        ensures
            final(self).period_ms == old(self).period_ms,
            final(self).elapsed_ms == 0,
            !final(self).finished,
            final(self).wf(),
    {
        self.elapsed_ms = 0;
        self.finished = false;
    }
}

} // verus!
