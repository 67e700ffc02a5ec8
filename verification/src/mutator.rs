//! The two mutation primitives over workloads: deleting one operation
//! and inserting one sampled operation, each accepted only when the
//! edited workload still replays. Whatever comes back is valid.

use vstd::prelude::*;
use crate::executor::AbstractExecutor;
use crate::laws::{lemma_init_reproducible, lemma_reproducible_run, lemma_reproducible_valid};
use crate::model::{fs_init, op_abs, run_ops, step, valid_ops, ErrG, FsG, OpG};
use crate::operation::{clone_operation, Operation, OperationWeights};
use crate::workload::Workload;

verus! {

/// The relative weights of the two mutation primitives.
#[derive(Debug, Clone, Copy, PartialEq, Eq, Structural)]
pub struct MutationWeights {
    pub insert: u32,
    pub remove: u32,
}

impl MutationWeights {
    /// The same weight for each primitive.
    pub fn uniform() -> (r: MutationWeights)
        ensures
            r.insert == 100,
            r.remove == 100,
    {
        MutationWeights { insert: 100, remove: 100 }
    }
}

/// The operation views of a workload.
pub open spec fn ops_view(w: Workload) -> Seq<crate::model::OpG> {
    w.ops@.map_values(|op: Operation| op_abs(op))
}

/// A copy of `workload` with the operation at `index` deleted.
fn prune(workload: &Workload, index: usize) -> (r: Workload)
    requires
        index < workload.ops@.len(),
    ensures
        ops_view(r) == ops_view(*workload).remove(index as int),
{
    let mut ops: Vec<Operation> = Vec::new();
    let mut i: usize = 0;
    proof {
        ops_view(*workload).remove_ensures(index as int);
        assert(ops.view().map_values(|op: Operation| op_abs(op)) =~= Seq::<
            crate::model::OpG,
        >::empty());
    }
    while i < workload.ops.len()
        invariant
            0 <= i <= workload.ops@.len(),
            index < workload.ops@.len(),
            ops@.len() == (if i <= index {
                i as int
            } else {
                i - 1
            }),
            forall|k: int| 0 <= k < ops@.len() ==> op_abs(#[trigger] ops@[k]) == op_abs(
                workload.ops@[
                    (if k < index {
                        k
                    } else {
                        k + 1
                    })],
            ),
        decreases workload.ops@.len() - i,
    {
        if i != index {
            ops.push(clone_operation(&workload.ops[i]));
        }
        i += 1;
    }
    let r = Workload { ops };
    proof {
        ops_view(*workload).remove_ensures(index as int);
        assert(ops_view(r) =~= ops_view(*workload).remove(index as int));
    }
    r
}

/// Deletes the operation at `index` and replays the rest on a fresh
/// state: the edit is kept only if every remaining operation still
/// applies, and what is returned is that replay's recording, a valid
/// workload.
pub fn remove(workload: &Workload, index: usize) -> (r: Option<Workload>)
    requires
        index < workload.ops@.len(),
    ensures
        match r {
            Some(w2) => {
                &&& run_ops(fs_init(), ops_view(*workload).remove(index as int)) is Ok
                &&& ops_view(w2) == (run_ops(
                    fs_init(),
                    ops_view(*workload).remove(index as int),
                )->Ok_0).recording
                &&& ops_view(w2).len() == ops_view(*workload).len() - 1
                &&& valid_ops(ops_view(w2))
            },
            None => !(run_ops(fs_init(), ops_view(*workload).remove(index as int)) is Ok),
        },
{
    let pruned = prune(workload, index);
    let mut exec = AbstractExecutor::new();
    proof {
        lemma_init_reproducible();
    }
    match exec.replay(&pruned) {
        Ok(()) => {
            proof {
                lemma_reproducible_run(fs_init(), ops_view(pruned));
                lemma_reproducible_valid(exec.abs());
                crate::laws::lemma_run_recording_len(fs_init(), ops_view(pruned));
            }
            let r = exec.recording;
            Some(r)
        },
        Err(_) => None,
    }
}

/// What `insert` hands back when it succeeds: the recording of replaying
/// the front of the workload, then at most one generated operation, then
/// the back.
pub open spec fn inserted_outcome(w: Workload, index: int, w2: Workload) -> bool {
    exists|ins: Seq<OpG>|
        #![trigger run_ops(run_ops(fs_init(), ops_view(w).take(index))->Ok_0, ins)]
        {
            let s1r = run_ops(fs_init(), ops_view(w).take(index));
            let s2r = run_ops(s1r->Ok_0, ins);
            &&& ins.len() <= 1
            &&& s1r is Ok
            &&& s2r is Ok
            &&& run_ops(s2r->Ok_0, ops_view(w).skip(index)) matches Ok(end) && ops_view(w2)
                == end.recording
        }
}

/// Replays the front of the workload, asks the generator for one more
/// operation drawn from `pick_from`, then replays the back: the edit is
/// kept only if both replays succeed, and what is returned is the
/// recording, a valid workload.
#[verifier::rlimit(60)]
pub fn insert(
    rng: &mut rand::rngs::StdRng,
    workload: &Workload,
    index: usize,
    pick_from: &OperationWeights,
) -> (r: Option<Workload>)
    requires
        index <= workload.ops@.len(),
    ensures
        run_ops(fs_init(), ops_view(*workload).take(index as int)) is Err ==> r is None,
        (run_ops(fs_init(), ops_view(*workload).take(index as int)) is Ok && index
            == workload.ops@.len()) ==> r is Some,
        match r {
            Some(w2) => valid_ops(ops_view(w2)) && inserted_outcome(*workload, index as int, w2),
            None => true,
        },
{
    let ghost beforeg = ops_view(*workload).take(index as int);
    let ghost afterg = ops_view(*workload).skip(index as int);
    let mut before: Vec<Operation> = Vec::new();
    let mut i: usize = 0;
    proof {
        assert(before@.map_values(|op: Operation| op_abs(op)) =~= beforeg.take(0));
    }
    while i < index
        invariant
            0 <= i <= index,
            index <= workload.ops@.len(),
            beforeg == ops_view(*workload).take(index as int),
            before@.map_values(|op: Operation| op_abs(op)) == beforeg.take(i as int),
        decreases index - i,
    {
        before.push(clone_operation(&workload.ops[i]));
        proof {
            assert(before@.map_values(|op: Operation| op_abs(op)) =~= beforeg.take(i as int).push(
                op_abs(workload.ops@[i as int]),
            ));
            assert(beforeg.take(i as int).push(op_abs(workload.ops@[i as int])) =~= beforeg.take(
                i as int + 1,
            ));
        }
        i += 1;
    }
    proof {
        assert(beforeg.take(index as int) =~= beforeg);
    }
    let mut after: Vec<Operation> = Vec::new();
    let mut j: usize = index;
    proof {
        assert(after@.map_values(|op: Operation| op_abs(op)) =~= afterg.take(0));
    }
    while j < workload.ops.len()
        invariant
            index <= j <= workload.ops@.len(),
            afterg == ops_view(*workload).skip(index as int),
            after@.map_values(|op: Operation| op_abs(op)) == afterg.take(j - index),
        decreases workload.ops@.len() - j,
    {
        after.push(clone_operation(&workload.ops[j]));
        proof {
            assert(afterg[j - index] == op_abs(workload.ops@[j as int]));
            assert(after@.map_values(|op: Operation| op_abs(op)) =~= afterg.take(j - index).push(
                op_abs(workload.ops@[j as int]),
            ));
            assert(afterg.take(j - index).push(op_abs(workload.ops@[j as int])) =~= afterg.take(
                j - index + 1,
            ));
        }
        j += 1;
    }
    proof {
        assert(afterg.take(workload.ops@.len() - index) =~= afterg);
    }
    let mut exec = AbstractExecutor::new();
    proof {
        lemma_init_reproducible();
    }
    let before_w = Workload { ops: before };
    match exec.replay(&before_w) {
        Ok(()) => {},
        Err(_) => {
            return None;
        },
    }
    proof {
        lemma_reproducible_run(fs_init(), beforeg);
    }
    let ghost s1 = exec.abs();
    let name_idx = exec.recording.len() as u64;
    let accepted = crate::generator::append_one(rng, &mut exec, pick_from, name_idx);
    let after_w = Workload { ops: after };
    let ghost mid = exec.abs();
    proof {
        if accepted {
            let op = choose|op: OpG| step(s1, op) == Ok::<FsG, ErrG>(mid);
            assert(step(s1, op) == Ok::<FsG, ErrG>(mid));
            assert(run_ops(s1, seq![op]) == Ok::<FsG, ErrG>(mid)) by {
                assert(step(s1, op) == Ok::<FsG, ErrG>(mid));
                assert(seq![op][0] == op);
                assert(seq![op].skip(1) =~= Seq::<OpG>::empty());
                assert(run_ops(mid, seq![op].skip(1)) == Ok::<FsG, ErrG>(mid));
            }
        } else {
            assert(run_ops(s1, Seq::<OpG>::empty()) == Ok::<FsG, ErrG>(mid));
        }
    }
    match exec.replay(&after_w) {
        Ok(()) => {},
        Err(_) => {
            proof {
                if index == workload.ops@.len() {
                    assert(afterg.len() == 0);
                    assert(run_ops(mid, afterg) == Ok::<FsG, ErrG>(mid));
                }
            }
            return None;
        },
    }
    proof {
        lemma_reproducible_run(mid, afterg);
        lemma_reproducible_valid(exec.abs());
        let ghost ins: Seq<OpG> = if accepted {
            seq![choose|op: OpG| step(s1, op) == Ok::<FsG, ErrG>(mid)]
        } else {
            Seq::<OpG>::empty()
        };
        assert(run_ops(fs_init(), beforeg) == Ok::<FsG, ErrG>(s1));
        assert(run_ops(s1, ins) == Ok::<FsG, ErrG>(mid));
        assert(run_ops(run_ops(fs_init(), ops_view(*workload).take(index as int))->Ok_0, ins)
            == Ok::<FsG, ErrG>(mid));
        assert(run_ops(mid, afterg) == Ok::<FsG, ErrG>(exec.abs()));
    }
    let r = exec.recording;
    Some(r)
}

} // verus!
