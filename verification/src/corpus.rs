//! The greybox corpus: the inputs kept because they showed new
//! coverage, served round-robin by a queue scheduler, and the merge of
//! observed coverage into the global map.

use vstd::prelude::*;
use crate::feedback::CoverageMap;
use crate::workload::Workload;

verus! {

/// The corpus and the scheduler's cursor into it.
pub struct Corpus {
    pub entries: Vec<Workload>,
    pub cursor: usize,
}

impl Corpus {
    /// Whether the cursor points into the corpus.
    pub open spec fn wf(&self) -> bool {
        self.cursor < self.entries@.len()
    }

    /// A corpus holding one starting input.
    pub fn new(seed: Workload) -> (r: Corpus)
        ensures
            r.entries@.len() == 1,
            r.entries@[0] == seed,
            r.cursor == 0,
            r.wf(),
    {
        let mut entries: Vec<Workload> = Vec::new();
        entries.push(seed);
        Corpus { entries, cursor: 0 }
    }

    /// How many inputs the corpus holds.
    pub fn len(&self) -> (r: usize)
        ensures
            r == self.entries@.len(),
    {
        self.entries.len()
    }

    /// The input at `i`.
    pub fn get(&self, i: usize) -> (r: &Workload)
        requires
            i < self.entries@.len(),
        ensures
            *r == self.entries@[i as int],
    {
        &self.entries[i]
    }

    /// The queue scheduler: serves the entries in order and cycles back
    /// to the front.
    pub fn select(&mut self) -> (r: usize)
        requires
            old(self).wf(),
        ensures
            final(self).wf(),
            r == old(self).cursor,
            r < old(self).entries@.len(),
            final(self).entries == old(self).entries,
            final(self).cursor == (if old(self).cursor + 1 < old(self).entries@.len() {
                old(self).cursor + 1
            } else {
                0
            }),
    {
        let r = self.cursor;
        let len = self.entries.len();
        if self.cursor + 1 < len {
            self.cursor = self.cursor + 1;
        } else {
            self.cursor = 0;
        }
        r
    }

    /// Keeps an input the feedback judged novel.
    pub fn add(&mut self, workload: Workload)
        requires
            old(self).wf(),
        ensures
            final(self).wf(),
            final(self).entries@ == old(self).entries@.push(workload),
            final(self).cursor == old(self).cursor,
    {
        self.entries.push(workload);
    }
}

/// Folds one run's observed hit counts into the global map: every slot
/// keeps the larger count, so novelty can only shrink over time.
pub fn merge_coverage(map: &mut CoverageMap, observed: &CoverageMap)
    requires
        old(map)@.len() == observed@.len(),
    ensures
        final(map)@.len() == old(map)@.len(),
        forall|i: int|
            0 <= i < final(map)@.len() ==> #[trigger] final(map)@[i] == (if observed@[i] > old(
                map,
            )@[i] {
                observed@[i]
            } else {
                old(map)@[i]
            }),
{
    let n = map.len();
    let mut i: usize = 0;
    while i < n
        invariant
            0 <= i <= n,
            n == map@.len(),
            map@.len() == old(map)@.len(),
            observed@.len() == old(map)@.len(),
            forall|j: int|
                0 <= j < i ==> #[trigger] map@[j] == (if observed@[j] > old(map)@[j] {
                    observed@[j]
                } else {
                    old(map)@[j]
                }),
            forall|j: int| i <= j < n ==> #[trigger] map@[j] == old(map)@[j],
        decreases n - i,
    {
        if observed[i] > map[i] {
            map[i] = observed[i];
        }
        i += 1;
    }
}

} // verus!
