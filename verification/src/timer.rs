//! Countdown timers driven by the per-tick elapsed time.

use vstd::prelude::*;
use crate::resource::Time;

verus! {

/// A countdown in milliseconds. The remaining time never goes negative: a
/// step past zero clamps to zero, and a timer is elapsed exactly when its
/// remaining time is zero.
#[derive(Clone, Copy, Debug)]
pub struct Timer {
    remaining: i64,
}

impl Timer {
    /// Remaining milliseconds, for specification purposes.
    pub closed spec fn remaining(self) -> int {
        self.remaining as int
    }

    /// The remaining time is non-negative; every constructor establishes
    /// this and every method preserves it.
    pub closed spec fn wf(self) -> bool {
        self.remaining >= 0
    }

    /// A timer that has already elapsed.
    pub fn elapsed() -> (t: Timer)
        ensures
            t.remaining() == 0,
            t.wf(),
    {
        Timer { remaining: 0 }
    }

    /// A timer with `remaining` milliseconds left.
    pub fn with_remaining(remaining: i64) -> (t: Timer)
        requires
            remaining >= 0,
        ensures
            t.remaining() == remaining,
            t.wf(),
    {
        Timer { remaining }
    }

    /// Advance by the elapsed time, clamping at zero.
    pub fn step(&mut self, time: &Time)
        requires
            old(self).wf(),
        ensures
            final(self).remaining() == if old(self).remaining() - time.elapsed_millis >= 0 {
                old(self).remaining() - time.elapsed_millis
            } else {
                0
            },
            final(self).wf(),
    {
        if self.remaining >= time.elapsed_millis as i64 {
            self.remaining = self.remaining - time.elapsed_millis as i64;
        } else {
            self.remaining = 0;
        }
    }

    /// Whether the countdown has run out.
    pub fn is_elapsed(&self) -> (r: bool)
        requires
            self.wf(),
        ensures
            r == (self.remaining() == 0),
    {
        self.remaining == 0
    }

    /// Advance, then report whether the countdown has run out.
    pub fn step_and_is_elapsed(&mut self, time: &Time) -> (r: bool)
        requires
            old(self).wf(),
        ensures
            final(self).remaining() == if old(self).remaining() - time.elapsed_millis >= 0 {
                old(self).remaining() - time.elapsed_millis
            } else {
                0
            },
            final(self).wf(),
            r == (final(self).remaining() == 0),
    {
        self.step(time);
        self.is_elapsed()
    }

    /// Restart the countdown at `millis`.
    pub fn reset(&mut self, millis: i64)
        requires
            millis >= 0,
        ensures
            final(self).remaining() == millis,
            final(self).wf(),
    {
        self.remaining = millis;
    }

    /// Force the countdown to run out immediately.
    pub fn elapse_now(&mut self)
        ensures
            final(self).remaining() == 0,
            final(self).wf(),
    {
        self.remaining = 0;
    }
}

} // verus!
