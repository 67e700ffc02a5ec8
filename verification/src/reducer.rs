//! The reducer's decision core: delta-debugging a workload that
//! triggers a content divergence, keeping an edit only when the same
//! divergence is still observed.

use vstd::prelude::*;
use crate::model::{fs_init, run_ops, valid_ops, ErrG, FsG};
use crate::mutator::ops_view;
use crate::outcome::FileDiff;
use crate::workload::Workload;

verus! {

/// Where one reduction round stands: the smallest reproducing workload
/// found so far, and the next index to try deleting.
pub struct Reducer {
    pub workload: Workload,
    pub index: usize,
}

/// What the environment reports for one tried candidate.
pub enum ReduceOutcome {
    /// The run diverged again with exactly the reference difference.
    SameDiff,
    /// The run completed without that difference.
    OtherBehaviour,
    /// The candidate would not replay at all.
    NotReplayable,
}

/// What the caller must do next.
pub enum ReduceAction {
    /// Try this candidate workload on the two filesystems.
    Try(Workload),
    /// Reduction is finished; the kept workload is minimal for this
    /// strategy.
    Done,
}

impl Reducer {
    /// Starts a round over `workload`, trying indices from the back.
    pub fn new(workload: Workload) -> (r: Reducer)
        ensures
            r.workload == workload,
            r.index == workload.ops@.len(),
    {
        let index = workload.ops.len();
        Reducer { workload, index }
    }

    /// The next candidate: the kept workload with one more operation
    /// deleted, walking the indices from the last to the first. A handed
    /// out candidate is exactly the replay of the kept workload minus
    /// the operation at the new index, one operation shorter; `Done`
    /// means no index below the cursor yields a replayable deletion.
    pub fn next_candidate(&mut self) -> (r: ReduceAction)
        ensures
            final(self).workload == old(self).workload,
            final(self).index <= old(self).index,
            match r {
                ReduceAction::Try(w) => {
                    &&& final(self).index < old(self).index
                    &&& final(self).index < ops_view(old(self).workload).len()
                    &&& run_ops(
                        fs_init(),
                        ops_view(old(self).workload).remove(final(self).index as int),
                    ) is Ok
                    &&& ops_view(w) == (run_ops(
                        fs_init(),
                        ops_view(old(self).workload).remove(final(self).index as int),
                    )->Ok_0).recording
                    &&& ops_view(w).len() == ops_view(old(self).workload).len() - 1
                    &&& valid_ops(ops_view(w))
                },
                ReduceAction::Done => {
                    &&& final(self).index == 0
                    &&& forall|i: int|
                        0 <= i < old(self).index && i < ops_view(old(self).workload).len()
                            ==> !(run_ops(
                            fs_init(),
                            ops_view(old(self).workload).remove(i),
                        ) is Ok)
                },
            },
    {
        let mut i = self.index;
        while i > 0
            invariant
                i <= self.index,
                self.workload == old(self).workload,
                self.index == old(self).index,
                forall|j: int|
                    i <= j < old(self).index && j < ops_view(old(self).workload).len() ==> !(
                    run_ops(fs_init(), ops_view(old(self).workload).remove(j)) is Ok),
            decreases i,
        {
            i = i - 1;
            if i < self.workload.ops.len() {
                match crate::mutator::remove(&self.workload, i) {
                    Some(candidate) => {
                        self.index = i;
                        return ReduceAction::Try(candidate);
                    },
                    None => {},
                }
            }
        }
        self.index = 0;
        ReduceAction::Done
    }

    /// Commits the candidate after the environment reports the same
    /// divergence, or keeps the old workload otherwise.
    pub fn report(&mut self, candidate: Workload, outcome: ReduceOutcome)
        ensures
            match outcome {
                ReduceOutcome::SameDiff => final(self).workload == candidate,
                _ => final(self).workload == old(self).workload,
            },
            final(self).index == old(self).index,
    {
        match outcome {
            ReduceOutcome::SameDiff => {
                self.workload = candidate;
            },
            _ => {},
        }
    }
}

/// Whether two observed difference lists are exactly the same, entry
/// for entry: only then is a smaller workload kept.
pub fn diffs_equal(a: &Vec<FileDiff>, b: &Vec<FileDiff>) -> (r: bool)
    ensures
        r == (a@.len() == b@.len() && (forall|i: int|
            0 <= i < a@.len() ==> (#[trigger] a@[i]).path@ == b@[i].path@ && a@[i].in_first
                == b@[i].in_first && a@[i].in_second == b@[i].in_second && a@[i].prints_differ
                == b@[i].prints_differ)),
{
    if a.len() != b.len() {
        return false;
    }
    let mut i: usize = 0;
    while i < a.len()
        invariant
            0 <= i <= a@.len(),
            a@.len() == b@.len(),
            forall|j: int|
                0 <= j < i ==> (#[trigger] a@[j]).path@ == b@[j].path@ && a@[j].in_first
                    == b@[j].in_first && a@[j].in_second == b@[j].in_second && a@[j].prints_differ
                    == b@[j].prints_differ,
        decreases a@.len() - i,
    {
        let same = crate::text::str_eq(a[i].path.as_str(), b[i].path.as_str()) && a[i].in_first
            == b[i].in_first && a[i].in_second == b[i].in_second && a[i].prints_differ
            == b[i].prints_differ;
        if !same {
            return false;
        }
        i += 1;
    }
    true
}

} // verus!
