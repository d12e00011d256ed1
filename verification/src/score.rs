//! Run-state bookkeeping values: the eligibility score and the run timer.

use vstd::prelude::*;

verus! {

/// A weighted eligibility value. `Fail` means "ineligible for selection" and
/// orders below every weight.
#[derive(Clone, Copy, Debug, PartialEq, Eq, Hash, Structural)]
pub enum Score {
    Fail,
    Weight(u32),
}

impl Score {
    /// The position of a score in the selection order: `Fail` sits below
    /// every weight, weights order by their number.
    pub open spec fn rank(self) -> int {
        match self {
            Score::Fail => -1,
            Score::Weight(w) => w as int,
        }
    }

    pub fn is_fail(self) -> (b: bool)
        ensures
            b == (self == Score::Fail),
            b == (self.rank() < 0),
    {
        match self {
            Score::Fail => true,
            Score::Weight(_) => false,
        }
    }

    /// Whether `self` orders strictly above `other`.
    pub fn beats(self, other: Score) -> (b: bool)
        ensures
            b == (self.rank() > other.rank()),
    {
        match (self, other) {
            (Score::Fail, _) => false,
            (Score::Weight(_), Score::Fail) => true,
            (Score::Weight(a), Score::Weight(b)) => a > b,
        }
    }
}

impl Default for Score {
    fn default() -> (s: Score)
        ensures
            s == Score::Fail,
    {
        Score::Fail
    }
}

/// Ticks elapsed since the node's current `Running` period began.
#[derive(Clone, Copy, Debug, PartialEq, Eq, Hash, Structural)]
pub struct RunTimer {
    pub ticks: u64,
}

impl RunTimer {
    pub fn new() -> (t: RunTimer)
        ensures
            t.ticks == 0,
    {
        RunTimer { ticks: 0 }
    }

    /// Counts one more tick; the count stays at its maximum once reached.
    pub fn tick(&mut self)
        ensures
            final(self).ticks == if old(self).ticks == u64::MAX {
                u64::MAX
            } else {
                (old(self).ticks + 1) as u64
            },
    {
        if self.ticks < u64::MAX {
            self.ticks = self.ticks + 1;
        }
    }

    pub fn reset(&mut self)
        ensures
            final(self).ticks == 0,
    {
        self.ticks = 0;
    }

    /// Whether at least `ticks` ticks have elapsed.
    pub fn has_elapsed(&self, ticks: u64) -> (b: bool)
        ensures
            b == (self.ticks >= ticks),
    {
        self.ticks >= ticks
    }
}

impl Default for RunTimer {
    fn default() -> (t: RunTimer)
        ensures
            t.ticks == 0,
    {
        RunTimer { ticks: 0 }
    }
}

} // verus!
