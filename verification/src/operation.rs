//! The operation vocabulary of a workload, and sampling weights.

use vstd::prelude::*;
use crate::flags::Mode;
use crate::node::FileDescriptor;
use crate::pathname::PathName;

verus! {

/// One filesystem operation, with canonical absolute paths.
#[derive(Debug, Clone, PartialEq)]
pub enum Operation {
    Create { path: PathName, mode: Mode },
    MkDir { path: PathName, mode: Mode },
    Remove { path: PathName },
    Hardlink { old_path: PathName, new_path: PathName },
    Rename { old_path: PathName, new_path: PathName },
    Open { path: PathName, des: FileDescriptor },
    Close { des: FileDescriptor },
    Read { des: FileDescriptor, size: u64 },
    Write { des: FileDescriptor, src_offset: u64, size: u64 },
    FSync { des: FileDescriptor },
    Symlink { target: PathName, linkpath: PathName },
}

/// The kind of an operation, without its arguments.
#[derive(Debug, Clone, Copy, PartialEq, Eq, Hash, Structural)]
pub enum OperationKind {
    Create,
    MkDir,
    Remove,
    Hardlink,
    Rename,
    Open,
    Close,
    Read,
    Write,
    FSync,
    Symlink,
}

impl Operation {
    /// The kind of this operation.
    pub fn kind(&self) -> (r: OperationKind)
        ensures
            r == self.spec_kind(),
    {
        match self {
            Operation::Create { .. } => OperationKind::Create,
            Operation::MkDir { .. } => OperationKind::MkDir,
            Operation::Remove { .. } => OperationKind::Remove,
            Operation::Hardlink { .. } => OperationKind::Hardlink,
            Operation::Rename { .. } => OperationKind::Rename,
            Operation::Open { .. } => OperationKind::Open,
            Operation::Close { .. } => OperationKind::Close,
            Operation::Read { .. } => OperationKind::Read,
            Operation::Write { .. } => OperationKind::Write,
            Operation::FSync { .. } => OperationKind::FSync,
            Operation::Symlink { .. } => OperationKind::Symlink,
        }
    }

    pub open spec fn spec_kind(&self) -> OperationKind {
        match self {
            Operation::Create { .. } => OperationKind::Create,
            Operation::MkDir { .. } => OperationKind::MkDir,
            Operation::Remove { .. } => OperationKind::Remove,
            Operation::Hardlink { .. } => OperationKind::Hardlink,
            Operation::Rename { .. } => OperationKind::Rename,
            Operation::Open { .. } => OperationKind::Open,
            Operation::Close { .. } => OperationKind::Close,
            Operation::Read { .. } => OperationKind::Read,
            Operation::Write { .. } => OperationKind::Write,
            Operation::FSync { .. } => OperationKind::FSync,
            Operation::Symlink { .. } => OperationKind::Symlink,
        }
    }
}

/// Sampling weights: a non-negative weight per operation kind. Kinds not
/// listed have weight zero.
#[derive(Debug, Clone)]
pub struct OperationWeights {
    pub weights: Vec<(OperationKind, u32)>,
}

impl OperationWeights {
    pub fn new(weights: Vec<(OperationKind, u32)>) -> (r: OperationWeights)
        ensures
            r.weights == weights,
    {
        OperationWeights { weights }
    }

    /// The same weight for each of the four structural operations.
    pub fn uniform() -> (r: OperationWeights)
        ensures
            r.weights@.len() == 4,
            r.weights@[0] == (OperationKind::Create, 100u32),
            r.weights@[1] == (OperationKind::MkDir, 100u32),
            r.weights@[2] == (OperationKind::Remove, 100u32),
            r.weights@[3] == (OperationKind::Hardlink, 100u32),
    {
        let mut weights: Vec<(OperationKind, u32)> = Vec::new();
        weights.push((OperationKind::Create, 100));
        weights.push((OperationKind::MkDir, 100));
        weights.push((OperationKind::Remove, 100));
        weights.push((OperationKind::Hardlink, 100));
        OperationWeights { weights }
    }

    /// The weight of `kind`: its first listed weight, or zero.
    pub fn weight_of(&self, kind: OperationKind) -> (r: u32)
        ensures
            r == spec_weight_of(self.weights@, kind),
    {
        let mut i: usize = 0;
        proof {
            assert(self.weights@.skip(0) =~= self.weights@);
        }
        while i < self.weights.len()
            invariant
                0 <= i <= self.weights@.len(),
                spec_weight_of(self.weights@, kind) == spec_weight_of(
                    self.weights@.skip(i as int),
                    kind,
                ),
            decreases self.weights@.len() - i,
        {
            proof {
                assert(self.weights@.skip(i as int)[0] == self.weights@[i as int]);
                assert(self.weights@.skip(i as int).skip(1) =~= self.weights@.skip(i as int + 1));
            }
            if self.weights[i].0 == kind {
                return self.weights[i].1;
            }
            i += 1;
        }
        proof {
            assert(self.weights@.skip(self.weights@.len() as int).len() == 0);
        }
        0
    }
}

/// A copy of an operation with the same meaning.
pub fn clone_operation(op: &Operation) -> (r: Operation)
    ensures
        crate::model::op_abs(r) == crate::model::op_abs(*op),
{
    match op {
        Operation::Create { path, mode } => Operation::Create {
            path: path.clone_path(),
            mode: crate::flags::clone_mode(mode),
        },
        Operation::MkDir { path, mode } => Operation::MkDir {
            path: path.clone_path(),
            mode: crate::flags::clone_mode(mode),
        },
        Operation::Remove { path } => Operation::Remove { path: path.clone_path() },
        Operation::Hardlink { old_path, new_path } => Operation::Hardlink {
            old_path: old_path.clone_path(),
            new_path: new_path.clone_path(),
        },
        Operation::Rename { old_path, new_path } => Operation::Rename {
            old_path: old_path.clone_path(),
            new_path: new_path.clone_path(),
        },
        Operation::Open { path, des } => Operation::Open { path: path.clone_path(), des: *des },
        Operation::Close { des } => Operation::Close { des: *des },
        Operation::Read { des, size } => Operation::Read { des: *des, size: *size },
        Operation::Write { des, src_offset, size } => Operation::Write {
            des: *des,
            src_offset: *src_offset,
            size: *size,
        },
        Operation::FSync { des } => Operation::FSync { des: *des },
        Operation::Symlink { target, linkpath } => Operation::Symlink {
            target: target.clone_path(),
            linkpath: linkpath.clone_path(),
        },
    }
}

/// The weight a weight table gives a kind.
pub open spec fn spec_weight_of(ws: Seq<(OperationKind, u32)>, kind: OperationKind) -> u32
    decreases ws.len(),
{
    if ws.len() == 0 {
        0u32
    } else if ws[0].0 == kind {
        ws[0].1
    } else {
        spec_weight_of(ws.skip(1), kind)
    }
}

} // verus!
