//! Timeline state and the monotonicity policy. Trace timestamps from
//! independently-clocked spans can regress; flame-graph consumers require a
//! non-decreasing timeline. The policy applies a cumulative corrective offset
//! ("slop"): a candidate timestamp is shifted by the current slop, and when
//! it would still fall behind the last emitted timestamp, the slop grows by
//! exactly the deficit, clamping the event forward and never further than
//! necessary. Each such growth counts as one correction, the advisory
//! diagnostic a caller may surface.

use vstd::prelude::*;

verus! {

/// The mathematical timeline: last emitted timestamp, cumulative corrective
/// offset, and how many corrections have been applied.
pub struct Timeline {
    pub last: int,
    pub slop: int,
    pub corrections: int,
}

impl Timeline {
    /// The state at the start of a conversion: nothing emitted, no slop.
    pub open spec fn initial() -> Timeline {
        Timeline { last: 0, slop: 0, corrections: 0 }
    }

    /// Well-formedness, established initially and preserved by every step:
    /// the slop never exceeds the last emitted timestamp (it is at most a
    /// deficit against it), and it grows strictly at each correction, so the
    /// correction count never exceeds it.
    pub open spec fn wf(self) -> bool {
        0 <= self.corrections <= self.slop <= self.last
    }
}

/// The monotonicity policy, a pure function of the candidate timestamp and
/// the current timeline: the corrected timestamp and the new timeline.
/// When `t + slop` has not fallen behind the last emitted timestamp, the
/// event is emitted at `t + slop` and the slop is unchanged; otherwise the
/// slop grows by exactly the deficit, which places the event at the last
/// emitted timestamp, and one correction is recorded.
pub open spec fn correct(t: int, tl: Timeline) -> (int, Timeline) {
    if t + tl.slop >= tl.last {
        (t + tl.slop, Timeline { last: t + tl.slop, slop: tl.slop, corrections: tl.corrections })
    } else {
        (
            tl.last,
            Timeline {
                last: tl.last,
                slop: tl.last - t,
                corrections: tl.corrections + 1,
            },
        )
    }
}

/// Facts the policy guarantees for any non-negative candidate: the corrected
/// timestamp never goes backward and never falls below the shifted candidate,
/// it always equals the candidate plus the (possibly grown) slop, the slop
/// and correction count never shrink, and well-formedness is preserved.
pub proof fn lemma_correct(t: int, tl: Timeline)
    requires
        tl.wf(),
        t >= 0,
    ensures
        correct(t, tl).1.wf(),
        correct(t, tl).0 == correct(t, tl).1.last,
        correct(t, tl).0 >= tl.last,
        correct(t, tl).0 >= t + tl.slop,
        correct(t, tl).0 >= t,
        correct(t, tl).0 == t + correct(t, tl).1.slop,
        correct(t, tl).1.slop >= tl.slop,
        correct(t, tl).1.corrections >= tl.corrections,
        correct(t, tl).1.corrections - tl.corrections <= correct(t, tl).1.slop - tl.slop,
{
}

/// The threaded per-conversion state: the most recently emitted timestamp,
/// the cumulative corrective offset, and the number of corrections applied
/// so far. Created fresh for each conversion and never shared across
/// conversions.
pub struct TimelineState {
    pub last: u64,
    pub slop: u64,
    pub corrections: u64,
}

impl View for TimelineState {
    type V = Timeline;

    open spec fn view(&self) -> Timeline {
        Timeline {
            last: self.last as int,
            slop: self.slop as int,
            corrections: self.corrections as int,
        }
    }
}

impl TimelineState {
    /// A fresh state for one conversion.
    pub fn new() -> (r: TimelineState)
        ensures
            r@ == Timeline::initial(),
    {
        TimelineState { last: 0, slop: 0, corrections: 0 }
    }

    /// Applies the monotonicity policy to the candidate timestamp `t`,
    /// updating the state and returning the corrected timestamp at which
    /// the event must be emitted.
    pub fn advance(&mut self, t: u64) -> (at: u64)
        requires
            old(self)@.wf(),
            t + old(self)@.slop <= u64::MAX,
        ensures
            at == correct(t as int, old(self)@).0,
            final(self)@ == correct(t as int, old(self)@).1,
            final(self)@.wf(),
    {
        proof {
            lemma_correct(t as int, self@);
        }
        let shifted = t + self.slop;
        if shifted >= self.last {
            self.last = shifted;
            shifted
        } else {
            self.slop = self.last - t;
            self.corrections = self.corrections + 1;
            self.last
        }
    }
}

} // verus!
