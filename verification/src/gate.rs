//! Boolean rate gates for periodic background work.

use vstd::prelude::*;

verus! {

/// Largest tick value the library accepts; keeps all tick arithmetic far
/// from `i64` overflow.
pub const TICKS_MAX: i64 = 0x1fff_ffff_ffff_ffff;

/// A monotone interval gate: `gate(now)` answers true, and latches, at most
/// once per `freq` milliseconds.
pub struct IntervalGate {
    freq: i64,
    last: i64,
}

impl IntervalGate {
    pub closed spec fn spec_freq(self) -> i64 {
        self.freq
    }

    pub closed spec fn spec_last(self) -> i64 {
        self.last
    }

    pub open spec fn wf(self) -> bool {
        0 <= self.spec_last() <= TICKS_MAX && 0 <= self.spec_freq() <= TICKS_MAX
    }

    /// A gate with the given period that has never fired.
    pub fn new(freq: i64) -> (r: IntervalGate)
        requires
            0 <= freq <= TICKS_MAX,
        ensures
            r.wf(),
            r.spec_freq() == freq,
            r.spec_last() == 0,
    {
        IntervalGate { freq, last: 0 }
    }

    /// True, latching `time`, iff at least one period has passed since the
    /// gate last fired.
    pub fn gate(&mut self, time: i64) -> (r: bool)
        requires
            old(self).wf(),
            0 <= time <= TICKS_MAX,
        ensures
            final(self).wf(),
            final(self).spec_freq() == old(self).spec_freq(),
            r == (time - old(self).spec_last() >= old(self).spec_freq()),
            r ==> final(self).spec_last() == time,
            !r ==> final(self).spec_last() == old(self).spec_last(),
    {
        if time - self.last >= self.freq {
            self.last = time;
            true
        } else {
            false
        }
    }
}

} // verus!
