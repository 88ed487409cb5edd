//! A one-shot clock that counts elapsed nanoseconds up to a duration.

use crate::interp::Fraction;
use vstd::prelude::*;

verus! {

/// An elapsed/duration clock driven by frame deltas. It runs once: when the
/// elapsed time reaches the duration it stops there and reports the frame on
/// which that happened.
#[derive(Debug, Clone, Copy, PartialEq, Eq, Structural)]
pub struct Timer {
    /// Nanoseconds counted so far, never more than `duration`.
    pub elapsed: u64,
    /// Nanoseconds the timer runs for.
    pub duration: u64,
    /// Whether the timer has reached its duration.
    pub finished: bool,
    /// Whether the timer reached its duration on the latest tick.
    pub just_finished: bool,
}

impl Timer {
    pub open spec fn wf(self) -> bool {
        &&& self.elapsed <= self.duration
        &&& self.finished ==> self.elapsed == self.duration
        &&& self.just_finished ==> self.finished
    }

    /// A timer that has not been ticked yet.
    pub open spec fn spec_new(duration: u64) -> Timer {
        Timer { elapsed: 0, duration, finished: false, just_finished: false }
    }

    /// The timer after a frame of `delta` nanoseconds. A finished timer stays
    /// as it is and no longer reports completion; a running timer finishes on
    /// the tick that brings it to its duration.
    pub open spec fn spec_tick(self, delta: u64) -> Timer {
        if self.finished {
            Timer { just_finished: false, ..self }
        } else if delta >= self.duration - self.elapsed {
            Timer { elapsed: self.duration, finished: true, just_finished: true, ..self }
        } else {
            Timer { elapsed: (self.elapsed + delta) as u64, ..self }
        }
    }

    /// Elapsed time over duration. A timer of no duration counts as complete.
    pub open spec fn spec_fraction(self) -> Fraction {
        if self.duration == 0 {
            Fraction::spec_one()
        } else {
            Fraction { num: self.elapsed, den: self.duration }
        }
    }

    /// Nanoseconds still to run.
    pub open spec fn spec_remaining(self) -> int {
        self.duration - self.elapsed
    }

    pub fn new(duration: u64) -> (timer: Timer)
        ensures
            timer == Timer::spec_new(duration),
            timer.wf(),
    {
        Timer { elapsed: 0, duration, finished: false, just_finished: false }
    }

    /// Advances the timer by `delta` nanoseconds.
    pub fn tick(&mut self, delta: u64)
        requires
            old(self).wf(),
        ensures
            *final(self) == old(self).spec_tick(delta),
            final(self).wf(),
    {
        if self.finished {
            self.just_finished = false;
        } else if delta >= self.duration - self.elapsed {
            self.elapsed = self.duration;
            self.finished = true;
            self.just_finished = true;
        } else {
            self.elapsed = self.elapsed + delta;
        }
    }

    /// The fraction of the duration that has elapsed.
    pub fn fraction(&self) -> (t: Fraction)
        requires
            self.wf(),
        ensures
            t == self.spec_fraction(),
            t.wf(),
    {
        if self.duration == 0 {
            Fraction::one()
        } else {
            Fraction { num: self.elapsed, den: self.duration }
        }
    }

    /// Nanoseconds still to run.
    pub fn remaining(&self) -> (r: u64)
        requires
            self.wf(),
        ensures
            r == self.spec_remaining(),
    {
        self.duration - self.elapsed
    }
}

/// A running timer finishes exactly on the tick whose delta covers what
/// remains, and a finished timer never reports completion again.
pub proof fn lemma_timer_completion(timer: Timer, delta: u64)
    requires
        timer.wf(),
    ensures
        timer.spec_tick(delta).wf(),
        timer.spec_tick(delta).just_finished <==> !timer.finished && delta
            >= timer.spec_remaining(),
        timer.spec_tick(delta).finished <==> timer.finished || delta >= timer.spec_remaining(),
        timer.spec_tick(delta).finished ==> timer.spec_tick(delta).spec_fraction().num
            == timer.spec_tick(delta).spec_fraction().den,
        !timer.spec_tick(delta).finished ==> timer.spec_tick(delta).spec_remaining()
            == timer.spec_remaining() - delta,
{
}

} // verus!
