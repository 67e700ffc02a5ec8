//! Running counters of a fuzzing campaign.

use vstd::prelude::*;

verus! {

/// The campaign counters the drivers keep.
#[derive(Debug, Clone, Copy, PartialEq, Eq, Structural)]
pub struct Stats {
    pub executions: u64,
    pub crashes: u64,
}

impl Stats {
    /// Fresh counters.
    pub fn new() -> (r: Stats)
        ensures
            r.executions == 0,
            r.crashes == 0,
    {
        Stats { executions: 0, crashes: 0 }
    }

    /// Counts one more finished run.
    pub fn count_execution(&mut self)
        requires
            old(self).executions < u64::MAX,
        ensures
            final(self).executions == old(self).executions + 1,
            final(self).crashes == old(self).crashes,
    {
        self.executions = self.executions + 1;
    }

    /// Counts one more reported divergence.
    pub fn count_crash(&mut self)
        requires
            old(self).crashes < u64::MAX,
        ensures
            final(self).crashes == old(self).crashes + 1,
            final(self).executions == old(self).executions,
    {
        self.crashes = self.crashes + 1;
    }
}

} // verus!
