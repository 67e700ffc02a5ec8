//! Objectives: when two runs of the same workload diverge. Traces are
//! compared row by row on the `(Command, ReturnCode, Errno)` projection;
//! content snapshots are compared as name-to-fingerprint trees.

use vstd::prelude::*;
use crate::text::str_eq;
use crate::trace::{row_abs, RowG, Trace, TraceRow};

verus! {

/// Two rows agree when their command, return code and errno agree; the
/// row index is positional and does not count.
pub open spec fn rows_agree(a: RowG, b: RowG) -> bool {
    a.command == b.command && a.return_code == b.return_code && a.errno == b.errno
}

/// Two traces diverge when their lengths differ or some position
/// disagrees on the projection.
pub open spec fn traces_differ(a: Seq<RowG>, b: Seq<RowG>) -> bool {
    a.len() != b.len() || exists|i: int| 0 <= i < a.len() && !rows_agree(#[trigger] a[i], b[i])
}

/// The trace objective: a pair of runs is interesting iff the syscall
/// traces diverge.
pub struct TraceObjective {}

impl TraceObjective {
    pub fn new() -> (r: TraceObjective) {
        TraceObjective {  }
    }

    /// Whether the two traces diverge.
    pub fn is_interesting(&self, fst: &Trace, snd: &Trace) -> (r: bool)
        ensures
            r == traces_differ(
                fst.rows@.map_values(|row: TraceRow| row_abs(row)),
                snd.rows@.map_values(|row: TraceRow| row_abs(row)),
            ),
    {
        let ghost a = fst.rows@.map_values(|row: TraceRow| row_abs(row));
        let ghost b = snd.rows@.map_values(|row: TraceRow| row_abs(row));
        if fst.rows.len() != snd.rows.len() {
            return true;
        }
        let mut i: usize = 0;
        while i < fst.rows.len()
            invariant
                0 <= i <= fst.rows@.len(),
                a == fst.rows@.map_values(|row: TraceRow| row_abs(row)),
                b == snd.rows@.map_values(|row: TraceRow| row_abs(row)),
                a.len() == fst.rows@.len(),
                b.len() == snd.rows@.len(),
                a.len() == b.len(),
                forall|j: int| 0 <= j < i ==> rows_agree(#[trigger] a[j], b[j]),
            decreases fst.rows@.len() - i,
        {
            let same = str_eq(fst.rows[i].command.as_str(), snd.rows[i].command.as_str())
                && fst.rows[i].return_code == snd.rows[i].return_code && str_eq(
                fst.rows[i].errno.as_str(),
                snd.rows[i].errno.as_str(),
            );
            proof {
                assert(a[i as int] == row_abs(fst.rows@[i as int]));
                assert(b[i as int] == row_abs(snd.rows@[i as int]));
            }
            if !same {
                return true;
            }
            i += 1;
        }
        false
    }
}

/// A stable fingerprint of one file or directory, as the walker reports
/// it: the toggleable attributes and a content hash.
#[derive(Debug, Clone, Copy, PartialEq, Eq, Structural)]
pub struct Fingerprint {
    pub size: u64,
    pub nlink: u64,
    pub mode: u64,
    pub content_hash: u64,
}

/// One entry of a content snapshot: a path and its fingerprint.
#[derive(Debug, Clone, PartialEq, Eq)]
pub struct DashEntry {
    pub path: String,
    pub print: Fingerprint,
}

/// One structural difference between the two sides: on which sides the
/// path exists, and whether the fingerprints disagree.
#[derive(Debug, Clone, PartialEq, Eq)]
pub struct FileDiff {
    pub path: String,
    pub in_first: bool,
    pub in_second: bool,
    pub prints_differ: bool,
}

/// The fingerprint a snapshot gives a path, if any (first match).
pub open spec fn dash_lookup(t: Seq<DashEntry>, path: Seq<char>) -> Option<Fingerprint>
    decreases t.len(),
{
    if t.len() == 0 {
        None
    } else if t[0].path@ == path {
        Some(t[0].print)
    } else {
        dash_lookup(t.skip(1), path)
    }
}

/// Two snapshots agree when each side's entries are found on the other
/// side with the same fingerprint.
pub open spec fn dash_agree(a: Seq<DashEntry>, b: Seq<DashEntry>) -> bool {
    &&& forall|i: int|
        0 <= i < a.len() ==> dash_lookup(b, (#[trigger] a[i]).path@) == Some(a[i].print)
    &&& forall|i: int|
        0 <= i < b.len() ==> dash_lookup(a, (#[trigger] b[i]).path@) == Some(b[i].print)
}

/// Looks a path up in a snapshot.
fn lookup_entry(t: &Vec<DashEntry>, path: &str) -> (r: Option<Fingerprint>)
    ensures
        r == dash_lookup(t@, path@),
{
    let mut i: usize = 0;
    proof {
        assert(t@.skip(0) =~= t@);
    }
    while i < t.len()
        invariant
            0 <= i <= t@.len(),
            dash_lookup(t@, path@) == dash_lookup(t@.skip(i as int), path@),
        decreases t@.len() - i,
    {
        proof {
            assert(t@.skip(i as int)[0] == t@[i as int]);
            assert(t@.skip(i as int).skip(1) =~= t@.skip(i as int + 1));
        }
        if str_eq(t[i].path.as_str(), path) {
            return Some(t[i].print);
        }
        i += 1;
    }
    proof {
        assert(t@.skip(t@.len() as int).len() == 0);
    }
    None
}

/// What one difference entry attests: the path is present on the sides
/// it claims, absent where it claims absence, and when both sides hold
/// it, some occurrence carries another fingerprint than the other side.
pub open spec fn diff_entry_witnessed(a: Seq<DashEntry>, b: Seq<DashEntry>, e: FileDiff) -> bool {
    &&& (e.in_first && !e.in_second) ==> ((exists|i: int|
        0 <= i < a.len() && (#[trigger] a[i]).path@ == e.path@) && dash_lookup(b, e.path@) is None
        && !e.prints_differ)
    &&& (!e.in_first && e.in_second) ==> ((exists|i: int|
        0 <= i < b.len() && (#[trigger] b[i]).path@ == e.path@) && dash_lookup(a, e.path@) is None
        && !e.prints_differ)
    &&& (e.in_first && e.in_second) ==> (e.prints_differ && ((exists|i: int|
        0 <= i < a.len() && (#[trigger] a[i]).path@ == e.path@ && dash_lookup(b, e.path@) != Some(
            a[i].print,
        )) || (exists|i: int|
        0 <= i < b.len() && (#[trigger] b[i]).path@ == e.path@ && dash_lookup(a, e.path@) != Some(
            b[i].print,
        ))))
    &&& e.in_first || e.in_second
}

/// The structural difference of two content snapshots: one entry per
/// path that is missing on a side or carries another fingerprint. The
/// diff is empty exactly when the snapshots agree, and every entry
/// attests a real disagreement.
pub fn dash_diff(fst: &Vec<DashEntry>, snd: &Vec<DashEntry>) -> (r: Vec<FileDiff>)
    ensures
        (r@.len() == 0) == dash_agree(fst@, snd@),
        forall|k: int| 0 <= k < r@.len() ==> diff_entry_witnessed(fst@, snd@, #[trigger] r@[k]),
{
    let mut r: Vec<FileDiff> = Vec::new();
    let mut i: usize = 0;
    while i < fst.len()
        invariant
            0 <= i <= fst@.len(),
            r@.len() == 0 ==> forall|j: int|
                0 <= j < i ==> dash_lookup(snd@, (#[trigger] fst@[j]).path@) == Some(
                    fst@[j].print,
                ),
            r@.len() > 0 ==> !dash_agree(fst@, snd@),
            forall|k: int| 0 <= k < r@.len() ==> diff_entry_witnessed(
                fst@,
                snd@,
                #[trigger] r@[k],
            ),
        decreases fst@.len() - i,
    {
        let ghost r0 = r@;
        match lookup_entry(snd, fst[i].path.as_str()) {
            Some(p) => {
                if !(p == fst[i].print) {
                    proof {
                        assert(dash_lookup(snd@, fst@[i as int].path@) != Some(
                            fst@[i as int].print,
                        ));
                    }
                    r.push(
                        FileDiff {
                            path: fst[i].path.clone(),
                            in_first: true,
                            in_second: true,
                            prints_differ: true,
                        },
                    );
                    proof {
                        let e = r@[r@.len() - 1];
                        assert(fst@[i as int].path@ == e.path@);
                        assert(diff_entry_witnessed(fst@, snd@, e));
                        assert(forall|k: int|
                            0 <= k < r0.len() ==> r@[k] == #[trigger] r0[k]);
                    }
                }
            },
            None => {
                r.push(
                    FileDiff {
                        path: fst[i].path.clone(),
                        in_first: true,
                        in_second: false,
                        prints_differ: false,
                    },
                );
                proof {
                    let e = r@[r@.len() - 1];
                    assert(fst@[i as int].path@ == e.path@);
                    assert(diff_entry_witnessed(fst@, snd@, e));
                    assert(forall|k: int| 0 <= k < r0.len() ==> r@[k] == #[trigger] r0[k]);
                }
            },
        }
        i += 1;
    }
    let mut j: usize = 0;
    while j < snd.len()
        invariant
            0 <= j <= snd@.len(),
            r@.len() == 0 ==> forall|k: int|
                0 <= k < fst@.len() ==> dash_lookup(snd@, (#[trigger] fst@[k]).path@) == Some(
                    fst@[k].print,
                ),
            r@.len() == 0 ==> forall|k: int|
                0 <= k < j ==> dash_lookup(fst@, (#[trigger] snd@[k]).path@) == Some(
                    snd@[k].print,
                ),
            r@.len() > 0 ==> !dash_agree(fst@, snd@),
            forall|k: int| 0 <= k < r@.len() ==> diff_entry_witnessed(
                fst@,
                snd@,
                #[trigger] r@[k],
            ),
        decreases snd@.len() - j,
    {
        let ghost r0 = r@;
        match lookup_entry(fst, snd[j].path.as_str()) {
            Some(p) => {
                if !(p == snd[j].print) {
                    proof {
                        assert(dash_lookup(fst@, snd@[j as int].path@) != Some(
                            snd@[j as int].print,
                        ));
                    }
                    r.push(
                        FileDiff {
                            path: snd[j].path.clone(),
                            in_first: true,
                            in_second: true,
                            prints_differ: true,
                        },
                    );
                    proof {
                        let e = r@[r@.len() - 1];
                        assert(snd@[j as int].path@ == e.path@);
                        assert(diff_entry_witnessed(fst@, snd@, e));
                        assert(forall|k: int| 0 <= k < r0.len() ==> r@[k] == #[trigger] r0[k]);
                    }
                }
            },
            None => {
                r.push(
                    FileDiff {
                        path: snd[j].path.clone(),
                        in_first: false,
                        in_second: true,
                        prints_differ: false,
                    },
                );
                proof {
                    let e = r@[r@.len() - 1];
                    assert(snd@[j as int].path@ == e.path@);
                    assert(diff_entry_witnessed(fst@, snd@, e));
                    assert(forall|k: int| 0 <= k < r0.len() ==> r@[k] == #[trigger] r0[k]);
                }
            },
        }
        j += 1;
    }
    r
}

/// The dash objective: a pair of runs is interesting iff the snapshots
/// disagree.
pub struct DashObjective {}

impl DashObjective {
    pub fn new() -> (r: DashObjective) {
        DashObjective {  }
    }

    /// Whether the two snapshots disagree.
    pub fn is_interesting(&self, fst: &Vec<DashEntry>, snd: &Vec<DashEntry>) -> (r: bool)
        ensures
            r == !dash_agree(fst@, snd@),
    {
        let d = dash_diff(fst, snd);
        d.len() > 0
    }
}

/// A finished pair of runs: both traces, and the two verdicts.
pub struct DiffCompleted {
    pub fst_trace: Trace,
    pub snd_trace: Trace,
    pub trace_diff: bool,
    pub dash_diff: Vec<FileDiff>,
}

impl DiffCompleted {
    /// Whether the syscall traces diverged.
    pub fn trace_interesting(&self) -> (r: bool)
        ensures
            r == self.trace_diff,
    {
        self.trace_diff
    }

    /// Whether the content snapshots diverged.
    pub fn dash_interesting(&self) -> (r: bool)
        ensures
            r == (self.dash_diff@.len() > 0),
    {
        self.dash_diff.len() > 0
    }

    /// Whether anything diverged.
    pub fn any_interesting(&self) -> (r: bool)
        ensures
            r == (self.trace_diff || self.dash_diff@.len() > 0),
    {
        self.trace_diff || self.dash_diff.len() > 0
    }
}

} // verus!
