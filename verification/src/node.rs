//! The node graph of the abstract filesystem: arena-indexed files and
//! directories, file contents as symbolic write ranges, and descriptors.

use vstd::prelude::*;
use crate::pathname::Name;

verus! {

/// Arena index of a file node.
#[derive(Debug, Clone, Copy, PartialEq, Eq, PartialOrd, Ord, Hash, Structural)]
pub struct FileIndex(pub usize);

/// Arena index of a directory node.
#[derive(Debug, Clone, Copy, PartialEq, Eq, PartialOrd, Ord, Hash, Structural)]
pub struct DirIndex(pub usize);

/// A file descriptor index, assigned in order of `Open` operations and
/// never reused.
#[derive(Debug, Clone, Copy, PartialEq, Eq, PartialOrd, Ord, Hash, Structural)]
pub struct FileDescriptor(pub usize);

/// One recorded write: a half-open range of the source buffer.
#[derive(Debug, Clone, PartialEq, Eq)]
pub struct SourceSlice {
    /// inclusive
    pub from: u64,
    /// exclusive
    pub to: u64,
}

/// The symbolic content of a file: the ordered list of writes made
/// through its descriptor. It stands for the bytes without holding them.
#[derive(Debug, Clone, PartialEq, Eq)]
pub struct Content {
    pub slices: Vec<SourceSlice>,
}

impl Content {
    pub fn new() -> (r: Content)
        ensures
            r.slices@ =~= Seq::<SourceSlice>::empty(),
    {
        Content { slices: Vec::new() }
    }

    /// Records one write of `size` bytes taken at `src_offset`.
    pub fn write(&mut self, src_offset: u64, size: u64)
        requires
            src_offset + size <= u64::MAX,
        ensures
            final(self).slices@ == old(self).slices@.push(
                SourceSlice { from: src_offset, to: (src_offset + size) as u64 },
            ),
    {
        self.slices.push(SourceSlice { from: src_offset, to: src_offset + size });
    }
}

/// A file node. `parents` is the set of directories from which the file
/// is reachable; hardlinks add to it. At most one descriptor is open on
/// a file at a time.
#[derive(Debug, Clone, PartialEq, Eq)]
pub struct File {
    pub parents: Vec<DirIndex>,
    pub descriptor: Option<FileDescriptor>,
    pub content: Content,
}

/// A directory node. The root has index 0 and no parent; a detached
/// directory (after removal) has no parent and no children.
#[derive(Debug, Clone)]
pub struct Dir {
    pub parent: Option<DirIndex>,
    pub children: Vec<(Name, Node)>,
}

impl Dir {
    /// The number of entries in the directory.
    pub fn children_len(&self) -> (r: usize)
        ensures
            r == self.children@.len(),
    {
        self.children.len()
    }

    /// The node a name maps to, if the name is present.
    pub fn child(&self, name: &str) -> (r: Option<Node>)
        ensures
            match r {
                Some(n) => exists|i: int|
                    0 <= i < self.children@.len() && #[trigger] self.children@[i].0@ == name@
                        && self.children@[i].1 == n,
                None => forall|i: int|
                    0 <= i < self.children@.len() ==> #[trigger] self.children@[i].0@ != name@,
            },
    {
        let mut i: usize = 0;
        while i < self.children.len()
            invariant
                0 <= i <= self.children@.len(),
                forall|j: int| 0 <= j < i ==> #[trigger] self.children@[j].0@ != name@,
            decreases self.children@.len() - i,
        {
            if crate::text::str_eq(self.children[i].0.as_str(), name) {
                return Some(self.children[i].1);
            }
            i += 1;
        }
        None
    }
}

/// A node: a tagged arena index.
#[allow(nonstandard_style)]
#[derive(Debug, Clone, Copy, PartialEq, Eq, PartialOrd, Ord, Hash, Structural)]
pub enum Node {
    FILE(FileIndex),
    DIR(DirIndex),
}

} // verus!
