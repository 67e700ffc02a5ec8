//! The mathematical model of the abstract filesystem: a ghost mirror of
//! the executor's state, a step function giving the meaning of every
//! operation, and the well-formedness invariant the state keeps.
//!
//! The executor's contracts say that each mutator implements `step`; the
//! laws about workloads (prefix validity, the recording round-trip) are
//! proved about `run_ops` alone.

use vstd::prelude::*;
use crate::flags::ModeFlag;
use crate::node::{Dir, File, Node};
use crate::operation::Operation;
use crate::pathname::{
    is_abs_path, is_canonical_path, is_seg, path_join, segs, split_name, split_parent,
};

verus! {

/// Ghost mirror of `Node`.
pub ghost enum NodeG {
    File(int),
    Dir(int),
}

/// Ghost mirror of `Dir`: parent link and ordered named children.
#[verifier::ext_equal]
pub ghost struct DirG {
    pub parent: Option<int>,
    pub children: Seq<(Seq<char>, NodeG)>,
}

/// Ghost mirror of `File`: parent directories, open descriptor, and the
/// recorded write ranges.
#[verifier::ext_equal]
pub ghost struct FileG {
    pub parents: Seq<int>,
    pub descriptor: Option<int>,
    pub content: Seq<(int, int)>,
}

/// Ghost mirror of an operation, over character sequences.
pub ghost enum OpG {
    Create { path: Seq<char>, mode: Seq<ModeFlag> },
    MkDir { path: Seq<char>, mode: Seq<ModeFlag> },
    Remove { path: Seq<char> },
    Hardlink { old_path: Seq<char>, new_path: Seq<char> },
    Rename { old_path: Seq<char>, new_path: Seq<char> },
    Open { path: Seq<char>, des: int },
    Close { des: int },
    Read { des: int, size: int },
    Write { des: int, src_offset: int, size: int },
    FSync { des: int },
    Symlink { target: Seq<char>, linkpath: Seq<char> },
}

/// Ghost mirror of `ExecutorError`.
pub ghost enum ErrG {
    NotAFile(Seq<char>),
    NotADir(Seq<char>),
    NameAlreadyExists(Seq<char>),
    RootRemovalForbidden,
    NotFound(Seq<char>),
    InvalidPath(Seq<char>),
    AlreadyOpen(Seq<char>),
    InvalidDescriptor(int),
    InvalidRange(int, int),
}

/// The whole abstract state, recording included.
#[verifier::ext_equal]
pub ghost struct FsG {
    pub dirs: Seq<DirG>,
    pub files: Seq<FileG>,
    pub nodes_created: int,
    pub next_descriptor: int,
    pub recording: Seq<OpG>,
}

pub open spec fn node_abs(n: Node) -> NodeG {
    match n {
        Node::FILE(f) => NodeG::File(f.0 as int),
        Node::DIR(d) => NodeG::Dir(d.0 as int),
    }
}

pub open spec fn dir_abs(d: Dir) -> DirG {
    DirG {
        parent: match d.parent {
            Some(p) => Some(p.0 as int),
            None => None,
        },
        children: d.children@.map_values(|e: (String, Node)| (e.0@, node_abs(e.1))),
    }
}

pub open spec fn file_abs(f: File) -> FileG {
    FileG {
        parents: f.parents@.map_values(|d: crate::node::DirIndex| d.0 as int),
        descriptor: match f.descriptor {
            Some(d) => Some(d.0 as int),
            None => None,
        },
        content: f.content.slices@.map_values(
            |s: crate::node::SourceSlice| (s.from as int, s.to as int),
        ),
    }
}

pub open spec fn op_abs(op: Operation) -> OpG {
    match op {
        Operation::Create { path, mode } => OpG::Create { path: path@, mode: mode@ },
        Operation::MkDir { path, mode } => OpG::MkDir { path: path@, mode: mode@ },
        Operation::Remove { path } => OpG::Remove { path: path@ },
        Operation::Hardlink { old_path, new_path } => OpG::Hardlink {
            old_path: old_path@,
            new_path: new_path@,
        },
        Operation::Rename { old_path, new_path } => OpG::Rename {
            old_path: old_path@,
            new_path: new_path@,
        },
        Operation::Open { path, des } => OpG::Open { path: path@, des: des.0 as int },
        Operation::Close { des } => OpG::Close { des: des.0 as int },
        Operation::Read { des, size } => OpG::Read { des: des.0 as int, size: size as int },
        Operation::Write { des, src_offset, size } => OpG::Write {
            des: des.0 as int,
            src_offset: src_offset as int,
            size: size as int,
        },
        Operation::FSync { des } => OpG::FSync { des: des.0 as int },
        Operation::Symlink { target, linkpath } => OpG::Symlink {
            target: target@,
            linkpath: linkpath@,
        },
    }
}

/// The fresh state: a lone root directory and an empty recording.
pub open spec fn fs_init() -> FsG {
    FsG {
        dirs: seq![DirG { parent: None, children: Seq::empty() }],
        files: Seq::empty(),
        nodes_created: 0,
        next_descriptor: 0,
        recording: Seq::empty(),
    }
}

/// The node `name` maps to among `cs`, if any (first match).
pub open spec fn lookup(cs: Seq<(Seq<char>, NodeG)>, name: Seq<char>) -> Option<NodeG>
    decreases cs.len(),
{
    if cs.len() == 0 {
        None
    } else if cs[0].0 == name {
        Some(cs[0].1)
    } else {
        lookup(cs.skip(1), name)
    }
}

/// Walks `rest` down from `cur`; `done` is the path walked so far, used
/// in error values.
pub open spec fn resolve_segs(s: FsG, cur: NodeG, done: Seq<char>, rest: Seq<Seq<char>>) -> Result<
    NodeG,
    ErrG,
>
    decreases rest.len(),
{
    if rest.len() == 0 {
        Ok(cur)
    } else {
        let done2 = done + seq!['/'] + rest[0];
        match cur {
            NodeG::Dir(d) => {
                if 0 <= d < s.dirs.len() {
                    match lookup(s.dirs[d].children, rest[0]) {
                        Some(n) => resolve_segs(s, n, done2, rest.skip(1)),
                        None => Err(ErrG::NotFound(done2)),
                    }
                } else {
                    Err(ErrG::NotFound(done2))
                }
            },
            NodeG::File(_) => Err(ErrG::NotADir(done2)),
        }
    }
}

/// Resolves a path from the root, ignoring empty segments; an invalid
/// path is rejected outright.
pub open spec fn resolve_node_g(s: FsG, p: Seq<char>) -> Result<NodeG, ErrG> {
    if !is_abs_path(p) {
        Err(ErrG::InvalidPath(p))
    } else {
        resolve_segs(s, NodeG::Dir(0), Seq::empty(), segs(p))
    }
}

/// Resolves a path that must denote a directory.
pub open spec fn resolve_dir_g(s: FsG, p: Seq<char>) -> Result<int, ErrG> {
    match resolve_node_g(s, p) {
        Ok(NodeG::Dir(d)) => Ok(d),
        Ok(NodeG::File(_)) => Err(ErrG::NotADir(p)),
        Err(e) => Err(e),
    }
}

/// Resolves a path that must denote a file.
pub open spec fn resolve_file_g(s: FsG, p: Seq<char>) -> Result<int, ErrG> {
    match resolve_node_g(s, p) {
        Ok(NodeG::File(f)) => Ok(f),
        Ok(NodeG::Dir(_)) => Err(ErrG::NotAFile(p)),
        Err(e) => Err(e),
    }
}

/// Whether directory `c` stands strictly below directory `d`, through
/// attached parent links. Parent indices are strictly smaller than their
/// children's, which grounds the recursion.
pub open spec fn is_desc(s: FsG, c: int, d: int) -> bool
    decreases (if 0 <= c < s.dirs.len() {
        c
    } else {
        0
    }),
{
    if 0 <= c < s.dirs.len() {
        match s.dirs[c].parent {
            Some(p) => 0 <= p < c && (p == d || is_desc(s, p, d)),
            None => false,
        }
    } else {
        false
    }
}

/// Whether directory `d` is reachable from the root.
pub open spec fn alive_dir(s: FsG, d: int) -> bool {
    0 <= d < s.dirs.len() && (d == 0 || is_desc(s, d, 0))
}

/// The canonical path of an alive directory.
pub open spec fn path_of(s: FsG, d: int) -> Seq<char>
    decreases (if 0 <= d < s.dirs.len() {
        d
    } else {
        0
    }),
{
    if d == 0 {
        seq!['/']
    } else if 0 <= d < s.dirs.len() {
        match s.dirs[d].parent {
            Some(p) => {
                if 0 <= p < d {
                    path_join(path_of(s, p), dir_name_in_parent(s, p, d))
                } else {
                    Seq::empty()
                }
            },
            None => Seq::empty(),
        }
    } else {
        Seq::empty()
    }
}

/// The name under which directory `d` stands in directory `p`.
pub open spec fn dir_name_in_parent(s: FsG, p: int, d: int) -> Seq<char> {
    let cs = s.dirs[p].children;
    let i = choose|i: int| 0 <= i < cs.len() && cs[i].1 == NodeG::Dir(d);
    cs[i].0
}

/// The first occurrence of `v` removed from `q` (or `q` unchanged).
pub open spec fn seq_remove_first<A>(q: Seq<A>, v: A) -> Seq<A>
    decreases q.len(),
{
    if q.len() == 0 {
        q
    } else if q[0] == v {
        q.skip(1)
    } else {
        seq![q[0]] + seq_remove_first(q.skip(1), v)
    }
}

/// Index of the first child entry named `name`, or `-1`.
pub open spec fn child_index(cs: Seq<(Seq<char>, NodeG)>, name: Seq<char>) -> int
    decreases cs.len(),
{
    if cs.len() == 0 {
        -1
    } else if cs[0].0 == name {
        0
    } else if child_index(cs.skip(1), name) == -1 {
        -1
    } else {
        1 + child_index(cs.skip(1), name)
    }
}

/// The names of the links to file `f` among `cs`, in entry order.
pub open spec fn file_links_in(cs: Seq<(Seq<char>, NodeG)>, f: int) -> Seq<Seq<char>>
    decreases cs.len(),
{
    if cs.len() == 0 {
        Seq::empty()
    } else if cs[0].1 == NodeG::File(f) {
        seq![cs[0].0] + file_links_in(cs.skip(1), f)
    } else {
        file_links_in(cs.skip(1), f)
    }
}

/// All full paths of the links to file `f`, grouped by the parents list.
pub open spec fn file_paths_from(s: FsG, parents: Seq<int>, f: int) -> Seq<Seq<char>>
    decreases parents.len(),
{
    if parents.len() == 0 {
        Seq::empty()
    } else {
        file_links_in(s.dirs[parents[0]].children, f).map_values(
            |n: Seq<char>| path_join(path_of(s, parents[0]), n),
        ) + file_paths_from(s, parents.skip(1), f)
    }
}

/// All full paths of the links to file `f`.
pub open spec fn file_paths(s: FsG, f: int) -> Seq<Seq<char>> {
    file_paths_from(s, s.files[f].parents, f)
}

/// The lexicographically greatest of a non-empty list of paths.
pub open spec fn lex_max(q: Seq<Seq<char>>) -> Seq<char>
    decreases q.len(),
{
    if q.len() <= 1 {
        q[0]
    } else if crate::text::lex_le(lex_max(q.skip(1)), q[0]) {
        q[0]
    } else {
        lex_max(q.skip(1))
    }
}

/// Well-formedness of one directory's children list.
pub open spec fn wf_children(s: FsG, d: int) -> bool {
    let cs = s.dirs[d].children;
    &&& forall|i: int| 0 <= i < cs.len() ==> is_seg((#[trigger] cs[i]).0)
    &&& forall|i: int, j: int| 0 <= i < j < cs.len() ==> (#[trigger] cs[i]).0 != (#[trigger] cs[j]).0
    &&& forall|i: int|
        0 <= i < cs.len() ==> match (#[trigger] cs[i]).1 {
            NodeG::File(f) => 0 <= f < s.files.len(),
            NodeG::Dir(c) => 0 <= c < s.dirs.len() && c != 0 && s.dirs[c].parent == Some(d),
        }
    &&& forall|i: int, j: int|
        0 <= i < cs.len() && 0 <= j < cs.len() && (#[trigger] cs[i]).1 == (#[trigger] cs[j]).1
            && cs[i].1 is Dir ==> i == j
}

/// Well-formedness of the directory arena.
pub open spec fn wf_dirs(s: FsG) -> bool {
    &&& s.dirs.len() >= 1
    &&& s.dirs[0].parent is None
    &&& forall|d: int|
        1 <= d < s.dirs.len() ==> match (#[trigger] s.dirs[d]).parent {
            Some(p) => 0 <= p < d,
            None => true,
        }
    &&& forall|d: int| 0 <= d < s.dirs.len() ==> wf_children(s, d)
    &&& forall|d: int|
        1 <= d < s.dirs.len() && (#[trigger] s.dirs[d]).parent is None ==> s.dirs[d].children.len()
            == 0
    &&& forall|d: int|
        1 <= d < s.dirs.len() ==> ((#[trigger] s.dirs[d]).parent matches Some(p)
            ==> linked_in_parent(s, p, d))
}

/// Directory `d` stands, under exactly one entry, in `p`'s children.
pub open spec fn linked_in_parent(s: FsG, p: int, d: int) -> bool {
    exists|i: int|
        0 <= i < s.dirs[p].children.len() && (#[trigger] s.dirs[p].children[i]).1 == NodeG::Dir(d)
}

/// Well-formedness of the file arena: `parents` is duplicate-free and is
/// exactly the set of alive directories holding a link to the file.
pub open spec fn wf_files(s: FsG) -> bool {
    &&& forall|f: int, k: int, l: int|
        0 <= f < s.files.len() && 0 <= k < l < s.files[f].parents.len() ==> #[trigger] s.files[f].parents[k]
            != #[trigger] s.files[f].parents[l]
    &&& forall|f: int, k: int|
        0 <= f < s.files.len() && 0 <= k < s.files[f].parents.len() ==> alive_dir(
            s,
            #[trigger] s.files[f].parents[k],
        ) && file_linked_in(s, s.files[f].parents[k], f)
    &&& forall|d: int, i: int|
        0 <= d < s.dirs.len() && 0 <= i < s.dirs[d].children.len() ==> ((
        #[trigger] s.dirs[d].children[i]).1 matches NodeG::File(f) ==> s.files[f].parents.contains(
            d,
        ))
}

/// Directory `d` holds at least one link to file `f`.
pub open spec fn file_linked_in(s: FsG, d: int, f: int) -> bool {
    exists|i: int|
        0 <= i < s.dirs[d].children.len() && (#[trigger] s.dirs[d].children[i]).1 == NodeG::File(f)
}

/// Well-formedness of the descriptor table: open descriptors are below
/// the next index and belong to at most one file each.
pub open spec fn wf_descriptors(s: FsG) -> bool {
    &&& forall|f: int|
        0 <= f < s.files.len() ==> ((#[trigger] s.files[f]).descriptor matches Some(k) ==> 0 <= k
            < s.next_descriptor)
    &&& forall|f: int, g: int|
        0 <= f < s.files.len() && 0 <= g < s.files.len() && f != g && (
        #[trigger] s.files[f]).descriptor is Some && (#[trigger] s.files[g]).descriptor is Some
            ==> s.files[f].descriptor != s.files[g].descriptor
}

/// The whole state invariant.
pub open spec fn inv(s: FsG) -> bool {
    &&& wf_dirs(s)
    &&& wf_files(s)
    &&& wf_descriptors(s)
    &&& s.nodes_created >= 0
    &&& s.next_descriptor >= 0
    &&& s.nodes_created <= s.recording.len()
    &&& s.next_descriptor <= s.recording.len()
}

// ---------------------------------------------------------------------
// The step function: the meaning of each operation.
// ---------------------------------------------------------------------

/// The new-file effect shared by `Create` and `Symlink`: a fresh leaf
/// node under `parent`, recorded as `rec`.
pub open spec fn attach_new_file(s: FsG, parent: int, name: Seq<char>, rec: OpG) -> FsG {
    let idx = s.files.len() as int;
    FsG {
        dirs: s.dirs.update(
            parent,
            DirG {
                parent: s.dirs[parent].parent,
                children: s.dirs[parent].children.push((name, NodeG::File(idx))),
            },
        ),
        files: s.files.push(
            FileG { parents: seq![parent], descriptor: None, content: Seq::empty() },
        ),
        nodes_created: s.nodes_created + 1,
        next_descriptor: s.next_descriptor,
        recording: s.recording.push(rec),
    }
}

/// `create(path, mode)`: a fresh file node under the resolved parent.
pub open spec fn step_create(s: FsG, path: Seq<char>, mode: Seq<ModeFlag>) -> Result<FsG, ErrG> {
    if !is_abs_path(path) || split_name(path).len() == 0 {
        Err(ErrG::InvalidPath(path))
    } else {
        let name = split_name(path);
        match resolve_dir_g(s, split_parent(path)) {
            Err(e) => Err(e),
            Ok(parent) => {
                if lookup(s.dirs[parent].children, name) is Some {
                    Err(ErrG::NameAlreadyExists(path_join(path_of(s, parent), name)))
                } else {
                    Ok(
                        attach_new_file(
                            s,
                            parent,
                            name,
                            OpG::Create { path: path_join(path_of(s, parent), name), mode },
                        ),
                    )
                }
            },
        }
    }
}

/// `symlink(target, linkpath)`: the link occupies a fresh leaf node at
/// `linkpath`; the target is free text, never resolved.
pub open spec fn step_symlink(s: FsG, target: Seq<char>, linkpath: Seq<char>) -> Result<
    FsG,
    ErrG,
> {
    if !is_abs_path(linkpath) || split_name(linkpath).len() == 0 {
        Err(ErrG::InvalidPath(linkpath))
    } else {
        let name = split_name(linkpath);
        match resolve_dir_g(s, split_parent(linkpath)) {
            Err(e) => Err(e),
            Ok(parent) => {
                if lookup(s.dirs[parent].children, name) is Some {
                    Err(ErrG::NameAlreadyExists(path_join(path_of(s, parent), name)))
                } else {
                    Ok(
                        attach_new_file(
                            s,
                            parent,
                            name,
                            OpG::Symlink {
                                target,
                                linkpath: path_join(path_of(s, parent), name),
                            },
                        ),
                    )
                }
            },
        }
    }
}

/// `mkdir(path, mode)`: a fresh directory under the resolved parent.
pub open spec fn step_mkdir(s: FsG, path: Seq<char>, mode: Seq<ModeFlag>) -> Result<FsG, ErrG> {
    if !is_abs_path(path) || split_name(path).len() == 0 {
        Err(ErrG::InvalidPath(path))
    } else {
        let name = split_name(path);
        match resolve_dir_g(s, split_parent(path)) {
            Err(e) => Err(e),
            Ok(parent) => {
                if lookup(s.dirs[parent].children, name) is Some {
                    Err(ErrG::NameAlreadyExists(path_join(path_of(s, parent), name)))
                } else {
                    let idx = s.dirs.len() as int;
                    Ok(
                        FsG {
                            dirs: s.dirs.update(
                                parent,
                                DirG {
                                    parent: s.dirs[parent].parent,
                                    children: s.dirs[parent].children.push(
                                        (name, NodeG::Dir(idx)),
                                    ),
                                },
                            ).push(DirG { parent: Some(parent), children: Seq::empty() }),
                            files: s.files,
                            nodes_created: s.nodes_created + 1,
                            next_descriptor: s.next_descriptor,
                            recording: s.recording.push(
                                OpG::MkDir { path: path_join(path_of(s, parent), name), mode },
                            ),
                        },
                    )
                }
            },
        }
    }
}

/// `remove(path)`: unlinks one name; removing a directory detaches its
/// whole subtree in one pass and strips the detached directories from
/// every file's parents.
pub open spec fn step_remove(s: FsG, path: Seq<char>) -> Result<FsG, ErrG> {
    match resolve_node_g(s, path) {
        Err(e) => Err(e),
        Ok(node) => {
            if node == NodeG::Dir(0) {
                Err(ErrG::RootRemovalForbidden)
            } else {
                let name = split_name(path);
                match resolve_dir_g(s, split_parent(path)) {
                    Err(e) => Err(e),
                    Ok(parent) => {
                        let i = child_index(s.dirs[parent].children, name);
                        if i < 0 {
                            Err(ErrG::NotFound(path))
                        } else {
                            Ok(remove_effect(s, parent, i, path))
                        }
                    },
                }
            }
        },
    }
}

/// The effect of removing entry `i` of directory `parent`.
pub open spec fn remove_effect(s: FsG, parent: int, i: int, path: Seq<char>) -> FsG {
    let entry = s.dirs[parent].children[i];
    let cs2 = s.dirs[parent].children.remove(i);
    match entry.1 {
        NodeG::File(f) => {
            let still = exists|j: int|
                0 <= j < cs2.len() && (#[trigger] cs2[j]).1 == NodeG::File(f);
            FsG {
                dirs: s.dirs.update(
                    parent,
                    DirG { parent: s.dirs[parent].parent, children: cs2 },
                ),
                files: if still {
                    s.files
                } else {
                    s.files.update(
                        f,
                        FileG {
                            parents: seq_remove_first(s.files[f].parents, parent),
                            descriptor: s.files[f].descriptor,
                            content: s.files[f].content,
                        },
                    )
                },
                nodes_created: s.nodes_created,
                next_descriptor: s.next_descriptor,
                recording: s.recording.push(OpG::Remove { path }),
            }
        },
        NodeG::Dir(rd) => {
            FsG {
                dirs: Seq::new(
                    s.dirs.len(),
                    |k: int|
                        if k == rd || is_desc(s, k, rd) {
                            DirG { parent: None, children: Seq::empty() }
                        } else if k == parent {
                            DirG { parent: s.dirs[parent].parent, children: cs2 }
                        } else {
                            s.dirs[k]
                        },
                ),
                files: Seq::new(
                    s.files.len(),
                    |f: int|
                        FileG {
                            parents: s.files[f].parents.filter(
                                |q: int| !(q == rd || is_desc(s, q, rd)),
                            ),
                            descriptor: s.files[f].descriptor,
                            content: s.files[f].content,
                        },
                ),
                nodes_created: s.nodes_created,
                next_descriptor: s.next_descriptor,
                recording: s.recording.push(OpG::Remove { path }),
            }
        },
    }
}

/// `hardlink(old, new)`: one more link to the file at `old`, recorded
/// with the file's greatest existing path.
pub open spec fn step_hardlink(s: FsG, old_path: Seq<char>, new_path: Seq<char>) -> Result<
    FsG,
    ErrG,
> {
    match resolve_file_g(s, old_path) {
        Err(e) => Err(e),
        Ok(f) => {
            if !is_abs_path(new_path) || split_name(new_path).len() == 0 {
                Err(ErrG::InvalidPath(new_path))
            } else {
                let name = split_name(new_path);
                match resolve_dir_g(s, split_parent(new_path)) {
                    Err(e) => Err(e),
                    Ok(parent) => {
                        if lookup(s.dirs[parent].children, name) is Some {
                            Err(ErrG::NameAlreadyExists(path_join(path_of(s, parent), name)))
                        } else {
                            let old_rec = lex_max(file_paths(s, f));
                            Ok(
                                FsG {
                                    dirs: s.dirs.update(
                                        parent,
                                        DirG {
                                            parent: s.dirs[parent].parent,
                                            children: s.dirs[parent].children.push(
                                                (name, NodeG::File(f)),
                                            ),
                                        },
                                    ),
                                    files: if s.files[f].parents.contains(parent) {
                                        s.files
                                    } else {
                                        s.files.update(
                                            f,
                                            FileG {
                                                parents: s.files[f].parents.push(parent),
                                                descriptor: s.files[f].descriptor,
                                                content: s.files[f].content,
                                            },
                                        )
                                    },
                                    nodes_created: s.nodes_created + 1,
                                    next_descriptor: s.next_descriptor,
                                    recording: s.recording.push(
                                        OpG::Hardlink {
                                            old_path: old_rec,
                                            new_path: path_join(path_of(s, parent), name),
                                        },
                                    ),
                                },
                            )
                        }
                    },
                }
            }
        },
    }
}

/// `rename(old, new)`: moves one link of a file. Directories are not
/// renamed by the model.
pub open spec fn step_rename(s: FsG, old_path: Seq<char>, new_path: Seq<char>) -> Result<
    FsG,
    ErrG,
> {
    match resolve_file_g(s, old_path) {
        Err(e) => Err(e),
        Ok(f) => {
            let oname = split_name(old_path);
            match resolve_dir_g(s, split_parent(old_path)) {
                Err(e) => Err(e),
                Ok(oparent) => {
                    if !is_abs_path(new_path) || split_name(new_path).len() == 0 {
                        Err(ErrG::InvalidPath(new_path))
                    } else {
                        let nname = split_name(new_path);
                        match resolve_dir_g(s, split_parent(new_path)) {
                            Err(e) => Err(e),
                            Ok(nparent) => {
                                if lookup(s.dirs[nparent].children, nname) is Some {
                                    Err(
                                        ErrG::NameAlreadyExists(
                                            path_join(path_of(s, nparent), nname),
                                        ),
                                    )
                                } else {
                                    let i = child_index(s.dirs[oparent].children, oname);
                                    if i < 0 || s.dirs[oparent].children[i].1 != NodeG::File(f) {
                                        Err(ErrG::NotFound(old_path))
                                    } else {
                                        Ok(
                                            rename_effect(
                                                s,
                                                f,
                                                oparent,
                                                i,
                                                nparent,
                                                nname,
                                                old_path,
                                            ),
                                        )
                                    }
                                }
                            },
                        }
                    }
                },
            }
        },
    }
}

/// The effect of moving link `i` of `oparent` to `(nparent, nname)`.
pub open spec fn rename_effect(
    s: FsG,
    f: int,
    oparent: int,
    i: int,
    nparent: int,
    nname: Seq<char>,
    old_path: Seq<char>,
) -> FsG {
    let cs2 = s.dirs[oparent].children.remove(i);
    let still = exists|j: int| 0 <= j < cs2.len() && (#[trigger] cs2[j]).1 == NodeG::File(f);
    let parents1 = if still {
        s.files[f].parents
    } else {
        seq_remove_first(s.files[f].parents, oparent)
    };
    let parents2 = if parents1.contains(nparent) {
        parents1
    } else {
        parents1.push(nparent)
    };
    let dirs1 = s.dirs.update(oparent, DirG { parent: s.dirs[oparent].parent, children: cs2 });
    let dirs2 = dirs1.update(
        nparent,
        DirG {
            parent: dirs1[nparent].parent,
            children: dirs1[nparent].children.push((nname, NodeG::File(f))),
        },
    );
    FsG {
        dirs: dirs2,
        files: s.files.update(
            f,
            FileG {
                parents: parents2,
                descriptor: s.files[f].descriptor,
                content: s.files[f].content,
            },
        ),
        nodes_created: s.nodes_created,
        next_descriptor: s.next_descriptor,
        recording: s.recording.push(
            OpG::Rename {
                old_path,
                new_path: path_join(path_of(s, nparent), nname),
            },
        ),
    }
}

/// The file holding open descriptor `des`.
pub open spec fn file_with_descriptor(s: FsG, des: int) -> int {
    choose|f: int| 0 <= f < s.files.len() && s.files[f].descriptor == Some(des)
}

pub open spec fn some_file_has_descriptor(s: FsG, des: int) -> bool {
    exists|f: int| 0 <= f < s.files.len() && (#[trigger] s.files[f]).descriptor == Some(des)
}

/// `open(path, des)`: marks the file open under the next descriptor
/// index, which is exactly `des`.
pub open spec fn step_open(s: FsG, path: Seq<char>, des: int) -> Result<FsG, ErrG> {
    if des != s.next_descriptor {
        Err(ErrG::InvalidDescriptor(des))
    } else {
        match resolve_file_g(s, path) {
            Err(e) => Err(e),
            Ok(f) => {
                if s.files[f].descriptor is Some {
                    Err(ErrG::AlreadyOpen(path))
                } else {
                    Ok(
                        FsG {
                            dirs: s.dirs,
                            files: s.files.update(
                                f,
                                FileG {
                                    parents: s.files[f].parents,
                                    descriptor: Some(des),
                                    content: s.files[f].content,
                                },
                            ),
                            nodes_created: s.nodes_created,
                            next_descriptor: s.next_descriptor + 1,
                            recording: s.recording.push(OpG::Open { path, des }),
                        },
                    )
                }
            },
        }
    }
}

/// `close(des)`: clears the descriptor; the index is never reused.
pub open spec fn step_close(s: FsG, des: int) -> Result<FsG, ErrG> {
    if !some_file_has_descriptor(s, des) {
        Err(ErrG::InvalidDescriptor(des))
    } else {
        let f = file_with_descriptor(s, des);
        Ok(
            FsG {
                dirs: s.dirs,
                files: s.files.update(
                    f,
                    FileG {
                        parents: s.files[f].parents,
                        descriptor: None,
                        content: s.files[f].content,
                    },
                ),
                nodes_created: s.nodes_created,
                next_descriptor: s.next_descriptor,
                recording: s.recording.push(OpG::Close { des }),
            },
        )
    }
}

/// `read(des, size)`: recorded, no state change.
pub open spec fn step_read(s: FsG, des: int, size: int) -> Result<FsG, ErrG> {
    if !some_file_has_descriptor(s, des) {
        Err(ErrG::InvalidDescriptor(des))
    } else {
        Ok(
            FsG {
                dirs: s.dirs,
                files: s.files,
                nodes_created: s.nodes_created,
                next_descriptor: s.next_descriptor,
                recording: s.recording.push(OpG::Read { des, size }),
            },
        )
    }
}

/// `write(des, src_offset, size)`: appends one source range to the open
/// file's symbolic content.
pub open spec fn step_write(s: FsG, des: int, src_offset: int, size: int) -> Result<FsG, ErrG> {
    if !some_file_has_descriptor(s, des) {
        Err(ErrG::InvalidDescriptor(des))
    } else if src_offset + size > u64::MAX as int {
        Err(ErrG::InvalidRange(src_offset, size))
    } else {
        let f = file_with_descriptor(s, des);
        Ok(
            FsG {
                dirs: s.dirs,
                files: s.files.update(
                    f,
                    FileG {
                        parents: s.files[f].parents,
                        descriptor: s.files[f].descriptor,
                        content: s.files[f].content.push((src_offset, src_offset + size)),
                    },
                ),
                nodes_created: s.nodes_created,
                next_descriptor: s.next_descriptor,
                recording: s.recording.push(OpG::Write { des, src_offset, size }),
            },
        )
    }
}

/// `fsync(des)`: recorded, no state change.
pub open spec fn step_fsync(s: FsG, des: int) -> Result<FsG, ErrG> {
    if !some_file_has_descriptor(s, des) {
        Err(ErrG::InvalidDescriptor(des))
    } else {
        Ok(
            FsG {
                dirs: s.dirs,
                files: s.files,
                nodes_created: s.nodes_created,
                next_descriptor: s.next_descriptor,
                recording: s.recording.push(OpG::FSync { des }),
            },
        )
    }
}

/// One step of the abstract machine.
pub open spec fn step(s: FsG, op: OpG) -> Result<FsG, ErrG> {
    match op {
        OpG::Create { path, mode } => step_create(s, path, mode),
        OpG::MkDir { path, mode } => step_mkdir(s, path, mode),
        OpG::Remove { path } => step_remove(s, path),
        OpG::Hardlink { old_path, new_path } => step_hardlink(s, old_path, new_path),
        OpG::Rename { old_path, new_path } => step_rename(s, old_path, new_path),
        OpG::Open { path, des } => step_open(s, path, des),
        OpG::Close { des } => step_close(s, des),
        OpG::Read { des, size } => step_read(s, des, size),
        OpG::Write { des, src_offset, size } => step_write(s, des, src_offset, size),
        OpG::FSync { des } => step_fsync(s, des),
        OpG::Symlink { target, linkpath } => step_symlink(s, target, linkpath),
    }
}

/// Runs a sequence of operations, stopping at the first error.
pub open spec fn run_ops(s: FsG, ops: Seq<OpG>) -> Result<FsG, ErrG>
    decreases ops.len(),
{
    if ops.len() == 0 {
        Ok(s)
    } else {
        match step(s, ops[0]) {
            Ok(s2) => run_ops(s2, ops.skip(1)),
            Err(e) => Err(e),
        }
    }
}

/// A workload is valid when replaying it on a fresh state succeeds.
pub open spec fn valid_ops(ops: Seq<OpG>) -> bool {
    run_ops(fs_init(), ops) is Ok
}

/// A successful lookup names some entry.
pub proof fn lemma_lookup_some(cs: Seq<(Seq<char>, NodeG)>, name: Seq<char>, n: NodeG)
    requires
        lookup(cs, name) == Some(n),
    ensures
        exists|j: int| 0 <= j < cs.len() && #[trigger] cs[j] == (name, n),
    decreases cs.len(),
{
    if cs.len() == 0 {
    } else if cs[0].0 == name {
        assert(cs[0] == (name, n));
    } else {
        lemma_lookup_some(cs.skip(1), name, n);
        let j = choose|j: int| 0 <= j < cs.skip(1).len() && #[trigger] cs.skip(1)[j] == (name, n);
        assert(cs[j + 1] == (name, n));
    }
}

/// A failed lookup means no entry has the name.
pub proof fn lemma_lookup_none(cs: Seq<(Seq<char>, NodeG)>, name: Seq<char>)
    requires
        lookup(cs, name) is None,
    ensures
        forall|j: int| 0 <= j < cs.len() ==> (#[trigger] cs[j]).0 != name,
    decreases cs.len(),
{
    if cs.len() > 0 {
        lemma_lookup_none(cs.skip(1), name);
        assert forall|j: int| 0 <= j < cs.len() implies (#[trigger] cs[j]).0 != name by {
            if j > 0 {
                assert(cs.skip(1)[j - 1] == cs[j]);
            }
        }
    }
}

/// If no entry has the name, lookup finds nothing.
pub proof fn lemma_lookup_none_intro(cs: Seq<(Seq<char>, NodeG)>, name: Seq<char>)
    requires
        forall|a: int| 0 <= a < cs.len() ==> (#[trigger] cs[a]).0 != name,
    ensures
        lookup(cs, name) is None,
    decreases cs.len(),
{
    if cs.len() > 0 {
        assert(forall|a: int| 0 <= a < cs.skip(1).len() ==> #[trigger] cs.skip(1)[a] == cs[a + 1]);
        lemma_lookup_none_intro(cs.skip(1), name);
    }
}

/// Under distinct names, an entry's node is what lookup finds.
pub proof fn lemma_lookup_found(cs: Seq<(Seq<char>, NodeG)>, name: Seq<char>, j: int)
    requires
        forall|a: int, b: int| 0 <= a < b < cs.len() ==> (#[trigger] cs[a]).0 != (#[trigger] cs[b]).0,
        0 <= j < cs.len(),
        cs[j].0 == name,
    ensures
        lookup(cs, name) == Some(cs[j].1),
    decreases cs.len(),
{
    if j == 0 {
    } else {
        assert(cs[0].0 != name);
        assert(forall|a: int, b: int|
            0 <= a < b < cs.skip(1).len() ==> (#[trigger] cs.skip(1)[a]).0 != (
            #[trigger] cs.skip(1)[b]).0) by {
            assert(forall|a: int| 0 <= a < cs.skip(1).len() ==> #[trigger] cs.skip(1)[a] == cs[a + 1]);
        }
        assert(cs.skip(1)[j - 1].0 == name);
        lemma_lookup_found(cs.skip(1), name, j - 1);
    }
}

/// Under distinct names, an entry's index is what `child_index` finds.
pub proof fn lemma_child_index_found(cs: Seq<(Seq<char>, NodeG)>, name: Seq<char>, j: int)
    requires
        forall|a: int, b: int| 0 <= a < b < cs.len() ==> (#[trigger] cs[a]).0 != (#[trigger] cs[b]).0,
        0 <= j < cs.len(),
        cs[j].0 == name,
    ensures
        child_index(cs, name) == j,
    decreases cs.len(),
{
    if j == 0 {
    } else {
        assert(cs[0].0 != name);
        assert(forall|a: int, b: int|
            0 <= a < b < cs.skip(1).len() ==> (#[trigger] cs.skip(1)[a]).0 != (
            #[trigger] cs.skip(1)[b]).0) by {
            assert(forall|a: int| 0 <= a < cs.skip(1).len() ==> #[trigger] cs.skip(1)[a] == cs[a + 1]);
        }
        assert(cs.skip(1)[j - 1].0 == name);
        lemma_child_index_found(cs.skip(1), name, j - 1);
    }
}

/// If no entry has the name, `child_index` finds nothing.
pub proof fn lemma_child_index_none(cs: Seq<(Seq<char>, NodeG)>, name: Seq<char>)
    requires
        forall|a: int| 0 <= a < cs.len() ==> (#[trigger] cs[a]).0 != name,
    ensures
        child_index(cs, name) == -1,
    decreases cs.len(),
{
    if cs.len() > 0 {
        assert(forall|a: int| 0 <= a < cs.skip(1).len() ==> #[trigger] cs.skip(1)[a] == cs[a + 1]);
        lemma_child_index_none(cs.skip(1), name);
    }
}

/// On a duplicate-free list, removing the first occurrence of `v` is
/// removing the one index holding it.
pub proof fn lemma_remove_first_at<A>(q: Seq<A>, v: A, pos: int)
    requires
        forall|k: int, l: int| 0 <= k < l < q.len() ==> q[k] != q[l],
        0 <= pos < q.len(),
        q[pos] == v,
    ensures
        seq_remove_first(q, v) == q.remove(pos),
    decreases q.len(),
{
    q.remove_ensures(pos);
    if pos == 0 {
        assert(seq_remove_first(q, v) == q.skip(1));
        assert(q.skip(1) =~= q.remove(0));
    } else {
        assert(q[0] != v);
        assert(forall|k: int, l: int|
            0 <= k < l < q.skip(1).len() ==> q.skip(1)[k] != q.skip(1)[l]) by {
            assert(forall|k: int| 0 <= k < q.skip(1).len() ==> #[trigger] q.skip(1)[k] == q[k + 1]);
        }
        assert(q.skip(1)[pos - 1] == v);
        lemma_remove_first_at(q.skip(1), v, pos - 1);
        q.skip(1).remove_ensures(pos - 1);
        assert(seq_remove_first(q, v) == seq![q[0]] + q.skip(1).remove(pos - 1));
        assert(seq![q[0]] + q.skip(1).remove(pos - 1) =~= q.remove(pos)) by {
            assert(forall|k: int| 0 <= k < q.skip(1).len() ==> #[trigger] q.skip(1)[k] == q[k + 1]);
        }
    }
}

/// A node found in a well-formed directory has a valid arena index.
pub proof fn lemma_lookup_valid(s: FsG, d: int, name: Seq<char>, n: NodeG)
    requires
        inv(s),
        0 <= d < s.dirs.len(),
        lookup(s.dirs[d].children, name) == Some(n),
    ensures
        n matches NodeG::Dir(c) ==> 0 <= c < s.dirs.len() && c != 0 && s.dirs[c].parent == Some(d),
        n matches NodeG::File(f) ==> 0 <= f < s.files.len(),
{
    lemma_lookup_some(s.dirs[d].children, name, n);
    let cs = s.dirs[d].children;
    let j = choose|j: int| 0 <= j < cs.len() && #[trigger] cs[j] == (name, n);
    assert(wf_children(s, d));
    assert(cs[j].1 == n);
}

/// What resolution walks through is alive and in bounds.
pub proof fn lemma_resolve_segs_alive(s: FsG, cur: NodeG, done: Seq<char>, rest: Seq<Seq<char>>)
    requires
        inv(s),
        cur matches NodeG::Dir(d) ==> alive_dir(s, d),
        cur matches NodeG::File(f) ==> 0 <= f < s.files.len(),
    ensures
        resolve_segs(s, cur, done, rest) matches Ok(NodeG::Dir(d)) ==> alive_dir(s, d),
        resolve_segs(s, cur, done, rest) matches Ok(NodeG::File(f)) ==> 0 <= f < s.files.len() && (
        cur is Dir ==> s.files[f].parents.len() > 0),
    decreases rest.len(),
{
    if rest.len() == 0 {
    } else {
        match cur {
            NodeG::Dir(d) => {
                if 0 <= d < s.dirs.len() {
                    match lookup(s.dirs[d].children, rest[0]) {
                        Some(n) => {
                            lemma_lookup_valid(s, d, rest[0], n);
                            match n {
                                NodeG::Dir(c) => {
                                    assert(alive_dir(s, c));
                                },
                                NodeG::File(f) => {
                                    lemma_lookup_some(s.dirs[d].children, rest[0], n);
                                    let j = choose|j: int|
                                        0 <= j < s.dirs[d].children.len()
                                            && #[trigger] s.dirs[d].children[j] == (rest[0], n);
                                    assert(s.files[f].parents.contains(d));
                                    assert(s.files[f].parents.len() > 0);
                                },
                            }
                            lemma_resolve_segs_alive(s, n, done + seq!['/'] + rest[0], rest.skip(1));
                        },
                        None => {},
                    }
                }
            },
            NodeG::File(_) => {},
        }
    }
}

/// A path resolving to a file means the file has at least one link.
pub proof fn lemma_resolve_file_linked(s: FsG, p: Seq<char>)
    requires
        inv(s),
    ensures
        resolve_file_g(s, p) matches Ok(f) ==> 0 <= f < s.files.len() && s.files[f].parents.len()
            > 0 && file_paths(s, f).len() > 0,
{
    if is_abs_path(p) {
        lemma_resolve_segs_alive(s, NodeG::Dir(0), Seq::empty(), segs(p));
        match resolve_file_g(s, p) {
            Ok(f) => {
                lemma_file_paths_nonempty(s, f);
            },
            Err(_) => {},
        }
    }
}

/// A file with a parent has at least one full path.
pub proof fn lemma_file_paths_nonempty(s: FsG, f: int)
    requires
        inv(s),
        0 <= f < s.files.len(),
        s.files[f].parents.len() > 0,
    ensures
        file_paths(s, f).len() > 0,
{
    let pseq = s.files[f].parents;
    let d = pseq[0];
    assert(file_linked_in(s, d, f));
    lemma_file_links_nonempty(s.dirs[d].children, f);
    assert(file_paths_from(s, pseq, f).len() >= file_links_in(s.dirs[d].children, f).map_values(
        |n: Seq<char>| path_join(path_of(s, d), n),
    ).len());
}

proof fn lemma_file_links_nonempty(cs: Seq<(Seq<char>, NodeG)>, f: int)
    requires
        exists|j: int| 0 <= j < cs.len() && (#[trigger] cs[j]).1 == NodeG::File(f),
    ensures
        file_links_in(cs, f).len() > 0,
    decreases cs.len(),
{
    let j = choose|j: int| 0 <= j < cs.len() && (#[trigger] cs[j]).1 == NodeG::File(f);
    if cs[0].1 == NodeG::File(f) {
    } else {
        assert(j >= 1);
        assert(cs.skip(1)[j - 1].1 == NodeG::File(f));
        lemma_file_links_nonempty(cs.skip(1), f);
    }
}

/// A path resolving to a node yields an alive directory or a linked file.
pub proof fn lemma_resolve_alive(s: FsG, p: Seq<char>)
    requires
        inv(s),
    ensures
        resolve_node_g(s, p) matches Ok(NodeG::Dir(d)) ==> alive_dir(s, d),
        resolve_node_g(s, p) matches Ok(NodeG::File(f)) ==> 0 <= f < s.files.len(),
{
    if is_abs_path(p) {
        lemma_resolve_segs_alive(s, NodeG::Dir(0), Seq::empty(), segs(p));
    }
}

/// `attach_new_file` keeps the invariant.
pub proof fn lemma_attach_new_file_inv(s: FsG, parent: int, name: Seq<char>, rec: OpG)
    requires
        inv(s),
        alive_dir(s, parent),
        is_seg(name),
        lookup(s.dirs[parent].children, name) is None,
    ensures
        inv(attach_new_file(s, parent, name, rec)),
{
    let t = attach_new_file(s, parent, name, rec);
    let idx = s.files.len() as int;
    let cs = s.dirs[parent].children;
    let cs2 = t.dirs[parent].children;
    lemma_lookup_none(cs, name);
    assert(cs2 =~= cs.push((name, NodeG::File(idx))));
    assert forall|d: int| 0 <= d < t.dirs.len() implies wf_children(t, d) by {
        assert(wf_children(s, d));
        if d == parent {
            assert(forall|i: int| 0 <= i < cs.len() ==> cs2[i] == #[trigger] cs[i]);
        } else {
            assert(t.dirs[d] == s.dirs[d]);
            assert(forall|i: int|
                0 <= i < t.dirs[d].children.len() ==> #[trigger] t.dirs[d].children[i]
                    == s.dirs[d].children[i]);
        }
    }
    assert forall|d: int| 1 <= d < t.dirs.len() implies ((#[trigger] t.dirs[d]).parent matches Some(
        p,
    ) ==> linked_in_parent(t, p, d)) by {
        match t.dirs[d].parent {
            Some(p) => {
                assert(linked_in_parent(s, p, d));
                let i = choose|i: int|
                    0 <= i < s.dirs[p].children.len() && (#[trigger] s.dirs[p].children[i]).1
                        == NodeG::Dir(d);
                assert(t.dirs[p].children[i].1 == NodeG::Dir(d));
            },
            None => {},
        }
    }
    assert(wf_dirs(t));
    assert forall|f: int, k: int|
        0 <= f < t.files.len() && 0 <= k < t.files[f].parents.len() implies alive_dir(
        t,
        #[trigger] t.files[f].parents[k],
    ) && file_linked_in(t, t.files[f].parents[k], f) by {
        lemma_same_parents_alive(s, t);
        if f < s.files.len() {
            assert(t.files[f] == s.files[f]);
            assert(alive_dir(s, s.files[f].parents[k]));
            let q = s.files[f].parents[k];
            let i = choose|i: int|
                0 <= i < s.dirs[q].children.len() && (#[trigger] s.dirs[q].children[i]).1
                    == NodeG::File(f);
            assert(t.dirs[q].children[i].1 == NodeG::File(f));
        } else {
            assert(t.files[f].parents == seq![parent]);
            assert(t.dirs[parent].children[cs.len() as int].1 == NodeG::File(idx));
        }
    }
    assert forall|d: int, i: int|
        0 <= d < t.dirs.len() && 0 <= i < t.dirs[d].children.len() implies ((
    #[trigger] t.dirs[d].children[i]).1 matches NodeG::File(f) ==> t.files[f].parents.contains(
        d,
    )) by {
        if d == parent && i == cs.len() {
            assert(t.files[idx].parents[0] == parent);
        } else {
            assert(t.dirs[d].children[i] == s.dirs[d].children[i]);
            match s.dirs[d].children[i].1 {
                NodeG::File(f) => {
                    assert(wf_children(s, d));
                    assert(0 <= f < s.files.len());
                    assert(s.files[f].parents.contains(d));
                    assert(t.files[f] == s.files[f]);
                },
                NodeG::Dir(_) => {},
            }
        }
    }
    assert(wf_files(t));
    assert(wf_descriptors(t));
}

/// `step_mkdir`'s successful effect keeps the invariant.
pub proof fn lemma_mkdir_inv(s: FsG, parent: int, name: Seq<char>, t: FsG)
    requires
        inv(s),
        alive_dir(s, parent),
        is_seg(name),
        lookup(s.dirs[parent].children, name) is None,
        t.dirs == s.dirs.update(
            parent,
            DirG {
                parent: s.dirs[parent].parent,
                children: s.dirs[parent].children.push((name, NodeG::Dir(s.dirs.len() as int))),
            },
        ).push(DirG { parent: Some(parent), children: Seq::empty() }),
        t.files == s.files,
        t.nodes_created == s.nodes_created + 1,
        t.next_descriptor == s.next_descriptor,
        t.recording.len() == s.recording.len() + 1,
    ensures
        inv(t),
{
    let idx = s.dirs.len() as int;
    let cs = s.dirs[parent].children;
    let cs2 = t.dirs[parent].children;
    lemma_lookup_none(cs, name);
    assert(cs2 =~= cs.push((name, NodeG::Dir(idx))));
    assert(t.dirs[idx].parent == Some(parent));
    assert forall|d: int| 0 <= d < t.dirs.len() implies wf_children(t, d) by {
        if d == idx {
            assert(t.dirs[d].children.len() == 0);
        } else {
            assert(wf_children(s, d));
            if d == parent {
                assert(forall|i: int| 0 <= i < cs.len() ==> cs2[i] == #[trigger] cs[i]);
                assert forall|i: int, j: int|
                    0 <= i < cs2.len() && 0 <= j < cs2.len() && (#[trigger] cs2[i]).1 == (
                    #[trigger] cs2[j]).1 && cs2[i].1 is Dir implies i == j by {
                    if i < cs.len() && j < cs.len() {
                    } else if i == cs.len() && j < cs.len() {
                        assert(cs[j].1 != NodeG::Dir(idx));
                    } else if j == cs.len() && i < cs.len() {
                        assert(cs[i].1 != NodeG::Dir(idx));
                    }
                }
            } else {
                assert(t.dirs[d] == s.dirs[d]);
                assert(forall|i: int|
                    0 <= i < t.dirs[d].children.len() ==> #[trigger] t.dirs[d].children[i]
                        == s.dirs[d].children[i]);
            }
        }
    }
    assert forall|d: int| 1 <= d < t.dirs.len() implies ((#[trigger] t.dirs[d]).parent matches Some(
        p,
    ) ==> linked_in_parent(t, p, d)) by {
        match t.dirs[d].parent {
            Some(p) => {
                if d == idx {
                    assert(t.dirs[parent].children[cs.len() as int].1 == NodeG::Dir(idx));
                } else {
                    assert(linked_in_parent(s, p, d));
                    let i = choose|i: int|
                        0 <= i < s.dirs[p].children.len() && (#[trigger] s.dirs[p].children[i]).1
                            == NodeG::Dir(d);
                    assert(t.dirs[p].children[i].1 == NodeG::Dir(d));
                }
            },
            None => {},
        }
    }
    assert(wf_dirs(t));
    lemma_same_parents_alive(s, t);
    assert forall|f: int, k: int|
        0 <= f < t.files.len() && 0 <= k < t.files[f].parents.len() implies alive_dir(
        t,
        #[trigger] t.files[f].parents[k],
    ) && file_linked_in(t, t.files[f].parents[k], f) by {
        let q = s.files[f].parents[k];
        assert(alive_dir(s, q));
        let i = choose|i: int|
            0 <= i < s.dirs[q].children.len() && (#[trigger] s.dirs[q].children[i]).1
                == NodeG::File(f);
        assert(t.dirs[q].children[i].1 == NodeG::File(f));
    }
    assert forall|d: int, i: int|
        0 <= d < t.dirs.len() && 0 <= i < t.dirs[d].children.len() implies ((
    #[trigger] t.dirs[d].children[i]).1 matches NodeG::File(f) ==> t.files[f].parents.contains(
        d,
    )) by {
        if d == idx {
        } else if d == parent && i == cs.len() {
        } else {
            assert(t.dirs[d].children[i] == s.dirs[d].children[i]);
        }
    }
    assert(wf_files(t));
    assert(wf_descriptors(t));
}

/// The greatest path is one of the paths, and bounds them all.
pub proof fn lemma_lex_max_props(q: Seq<Seq<char>>)
    requires
        q.len() > 0,
    ensures
        q.contains(lex_max(q)),
        forall|i: int| 0 <= i < q.len() ==> crate::text::lex_le(#[trigger] q[i], lex_max(q)),
    decreases q.len(),
{
    if q.len() == 1 {
        assert(q[0] == lex_max(q));
        crate::text::lemma_lex_le_total(q[0], q[0]);
        assert(q.contains(q[0]));
    } else {
        lemma_lex_max_props(q.skip(1));
        let m1 = lex_max(q.skip(1));
        crate::text::lemma_lex_le_total(m1, q[0]);
        if crate::text::lex_le(m1, q[0]) {
            assert(lex_max(q) == q[0]);
            assert(q.contains(q[0]));
            assert forall|i: int| 0 <= i < q.len() implies crate::text::lex_le(
                #[trigger] q[i],
                lex_max(q),
            ) by {
                crate::text::lemma_lex_le_total(q[0], q[0]);
                if i >= 1 {
                    assert(q[i] == q.skip(1)[i - 1]);
                    assert(crate::text::lex_le(q[i], m1));
                    crate::text::lemma_lex_le_trans(q[i], m1, q[0]);
                }
            }
        } else {
            assert(lex_max(q) == m1);
            let w = choose|w: int| 0 <= w < q.skip(1).len() && q.skip(1)[w] == m1;
            assert(q[w + 1] == m1);
            assert(q.contains(lex_max(q)));
            assert forall|i: int| 0 <= i < q.len() implies crate::text::lex_le(
                #[trigger] q[i],
                lex_max(q),
            ) by {
                if i >= 1 {
                    assert(q[i] == q.skip(1)[i - 1]);
                } else {
                    assert(crate::text::lex_le(q[0], m1));
                }
            }
        }
    }
}

/// A sorted rearrangement ends with the greatest element.
pub proof fn lemma_sorted_last_is_max(r: Seq<Seq<char>>, q: Seq<Seq<char>>)
    requires
        q.len() > 0,
        r.to_multiset() == q.to_multiset(),
        crate::text::lex_sorted(r),
    ensures
        r.len() == q.len(),
        r.len() > 0,
        r[r.len() - 1] == lex_max(q),
{
    r.to_multiset_ensures();
    q.to_multiset_ensures();
    assert(r.to_multiset().len() == q.to_multiset().len());
    assert(r.len() == q.len());
    lemma_lex_max_props(q);
    let m = lex_max(q);
    assert(q.to_multiset().count(m) > 0);
    assert(r.contains(m));
    let i = choose|i: int| 0 <= i < r.len() && r[i] == m;
    let last = r[r.len() - 1];
    assert(r.contains(last));
    assert(r.to_multiset().count(last) > 0);
    assert(q.to_multiset().count(last) > 0);
    assert(q.contains(last));
    if i < r.len() - 1 {
        assert(crate::text::lex_le(r[i], last));
    } else {
        crate::text::lemma_lex_le_total(m, m);
    }
    assert(crate::text::lex_le(m, last));
    assert(crate::text::lex_le(last, m));
    crate::text::lemma_lex_le_antisym(last, m);
}

/// Whether directory `k` is the removed directory `rd` or below it.
pub open spec fn in_subtree(s: FsG, k: int, rd: int) -> bool {
    k == rd || is_desc(s, k, rd)
}

/// An ancestor has a strictly smaller index.
pub proof fn lemma_desc_smaller(s: FsG, c: int, d: int)
    requires
        is_desc(s, c, d),
    ensures
        0 <= d < c,
        c < s.dirs.len(),
    decreases (if 0 <= c < s.dirs.len() {
        c
    } else {
        0
    }),
{
    match s.dirs[c].parent {
        Some(p) => {
            if p != d {
                lemma_desc_smaller(s, p, d);
            }
        },
        None => {},
    }
}

/// Removing the first occurrence from a duplicate-free list: length
/// drops by one, and membership loses exactly that value.
pub proof fn lemma_remove_first_props<A>(q: Seq<A>, v: A)
    requires
        forall|k: int, l: int| 0 <= k < l < q.len() ==> q[k] != q[l],
        q.contains(v),
    ensures
        seq_remove_first(q, v).len() == q.len() - 1,
        forall|x: A| seq_remove_first(q, v).contains(x) <==> (q.contains(x) && x != v),
        forall|k: int, l: int|
            0 <= k < l < seq_remove_first(q, v).len() ==> seq_remove_first(q, v)[k]
                != seq_remove_first(q, v)[l],
    decreases q.len(),
{
    let r = seq_remove_first(q, v);
    if q[0] == v {
        assert(r == q.skip(1));
        assert forall|x: A| r.contains(x) implies (q.contains(x) && x != v) by {
            let k = choose|k: int| 0 <= k < r.len() && r[k] == x;
            assert(q[k + 1] == x);
            assert(q[k + 1] != q[0]);
        }
        assert forall|x: A| q.contains(x) && x != v implies r.contains(x) by {
            let k = choose|k: int| 0 <= k < q.len() && q[k] == x;
            assert(k >= 1);
            assert(r[k - 1] == x);
        }
    } else {
        assert(q.skip(1).contains(v)) by {
            let k = choose|k: int| 0 <= k < q.len() && q[k] == v;
            assert(k >= 1);
            assert(q.skip(1)[k - 1] == v);
        }
        assert(forall|k: int, l: int|
            0 <= k < l < q.skip(1).len() ==> q.skip(1)[k] != q.skip(1)[l]) by {
            assert(forall|k: int| 0 <= k < q.skip(1).len() ==> #[trigger] q.skip(1)[k] == q[k + 1]);
        }
        lemma_remove_first_props(q.skip(1), v);
        let r1 = seq_remove_first(q.skip(1), v);
        assert(r == seq![q[0]] + r1);
        assert(forall|k: int| 0 <= k < r1.len() ==> #[trigger] r[k + 1] == r1[k]);
        assert forall|x: A| r.contains(x) implies (q.contains(x) && x != v) by {
            let k = choose|k: int| 0 <= k < r.len() && r[k] == x;
            if k == 0 {
                assert(q[0] == x);
                assert(q[0] != v);
            } else {
                assert(r1[k - 1] == x);
                assert(q.skip(1).contains(x));
                let w = choose|w: int| 0 <= w < q.skip(1).len() && q.skip(1)[w] == x;
                assert(q[w + 1] == x);
            }
        }
        assert forall|x: A| q.contains(x) && x != v implies r.contains(x) by {
            let k = choose|k: int| 0 <= k < q.len() && q[k] == x;
            if k == 0 {
                assert(r[0] == x);
            } else {
                assert(q.skip(1)[k - 1] == x);
                assert(q.skip(1).contains(x));
                assert(r1.contains(x));
                let w = choose|w: int| 0 <= w < r1.len() && r1[w] == x;
                assert(r[w + 1] == x);
            }
        }
        assert forall|k: int, l: int| 0 <= k < l < r.len() implies r[k] != r[l] by {
            if k == 0 {
                assert(r[l] == r1[l - 1]);
                assert(r1.contains(r1[l - 1]));
                if r[0] == r[l] {
                    assert(q.skip(1).contains(r[l]));
                    let u = choose|u: int| 0 <= u < q.skip(1).len() && q.skip(1)[u] == r[l];
                    assert(q[u + 1] == r[l]);
                    assert(q[0] == r[l]);
                    assert(q[0] != q[u + 1]);
                }
            } else {
                assert(r[k] == r1[k - 1] && r[l] == r1[l - 1]);
            }
        }
    }
}

/// Filtering: membership is membership under the predicate, and a
/// duplicate-free list stays duplicate-free.
pub proof fn lemma_filter_membership<A>(q: Seq<A>, pred: spec_fn(A) -> bool)
    ensures
        forall|x: A| #[trigger] q.filter(pred).contains(x) <==> (q.contains(x) && pred(x)),
        (forall|k: int, l: int| 0 <= k < l < q.len() ==> q[k] != q[l]) ==> (forall|k: int, l: int|
            0 <= k < l < q.filter(pred).len() ==> q.filter(pred)[k] != q.filter(pred)[l]),
    decreases q.len(),
{
    broadcast use vstd::seq_lib::group_filter_ensures;

    reveal(Seq::filter);
    let out = q.filter(pred);
    if q.len() == 0 {
        assert forall|x: A| #[trigger] out.contains(x) implies (q.contains(x) && pred(x)) by {}
    } else {
        let q0 = q.drop_last();
        lemma_filter_membership(q0, pred);
        assert forall|x: A| #[trigger] out.contains(x) implies (q.contains(x) && pred(x)) by {
            let k = choose|k: int| 0 <= k < out.len() && out[k] == x;
            if pred(q.last()) && k == out.len() - 1 {
                assert(q[q.len() - 1] == x);
            } else {
                assert(q0.filter(pred)[k] == x);
                assert(q0.filter(pred).contains(x));
                let w = choose|w: int| 0 <= w < q0.len() && q0[w] == x;
                assert(q[w] == x);
            }
        }
        assert forall|x: A| q.contains(x) && pred(x) implies #[trigger] out.contains(x) by {
            let k = choose|k: int| 0 <= k < q.len() && q[k] == x;
        }
        if forall|k: int, l: int| 0 <= k < l < q.len() ==> q[k] != q[l] {
            assert(forall|k: int, l: int| 0 <= k < l < q0.len() ==> q0[k] != q0[l]) by {
                assert(forall|k: int| 0 <= k < q0.len() ==> q0[k] == q[k]);
            }
            assert forall|k: int, l: int| 0 <= k < l < out.len() implies out[k] != out[l] by {
                if pred(q.last()) && l == out.len() - 1 {
                    assert(out[k] == q0.filter(pred)[k]);
                    assert(q0.filter(pred).contains(out[k]));
                    assert(q0.contains(out[k]));
                    let w = choose|w: int| 0 <= w < q0.len() && q0[w] == out[k];
                    assert(q[w] == out[k]);
                    assert(q[q.len() - 1] == out[l]);
                } else {
                    assert(out[k] == q0.filter(pred)[k]);
                    assert(out[l] == q0.filter(pred)[l]);
                }
            }
        }
    }
}

/// Directories outside the removed subtree stay alive after a removal
/// that keeps every parent pointer outside the subtree.
pub proof fn lemma_alive_outside_subtree(s: FsG, t: FsG, rd: int, q: int)
    requires
        t.dirs.len() == s.dirs.len(),
        forall|d: int|
            0 <= d < s.dirs.len() && !in_subtree(s, d, rd) ==> (#[trigger] t.dirs[d]).parent
                == s.dirs[d].parent,
        alive_dir(s, q),
        !in_subtree(s, q, rd),
    ensures
        alive_dir(t, q),
    decreases (if 0 <= q < s.dirs.len() {
        q
    } else {
        0
    }),
{
    if q != 0 {
        match s.dirs[q].parent {
            Some(p) => {
                assert(is_desc(s, q, 0));
                assert(!in_subtree(s, p, rd));
                if p != 0 {
                    assert(is_desc(s, p, 0));
                    assert(alive_dir(s, p)) by {
                        lemma_desc_smaller(s, q, 0);
                    }
                    lemma_alive_outside_subtree(s, t, rd, p);
                }
                assert(t.dirs[q].parent == Some(p));
                assert(is_desc(t, q, 0));
            },
            None => {},
        }
    }
}

/// `remove_effect` keeps the invariant.
pub proof fn lemma_remove_inv(s: FsG, parent: int, i: int, path: Seq<char>)
    requires
        inv(s),
        alive_dir(s, parent),
        0 <= i < s.dirs[parent].children.len(),
        s.dirs[parent].children[i].1 matches NodeG::Dir(rd) ==> rd != 0,
    ensures
        inv(remove_effect(s, parent, i, path)),
{
    let t = remove_effect(s, parent, i, path);
    let cs = s.dirs[parent].children;
    let cs2 = cs.remove(i);
    cs.remove_ensures(i);
    assert(wf_children(s, parent));
    match cs[i].1 {
        NodeG::File(f) => {
            lemma_remove_file_inv(s, parent, i, path, f);
        },
        NodeG::Dir(rd) => {
            lemma_remove_dir_inv(s, parent, i, path, rd);
        },
    }
}

proof fn lemma_remove_file_inv(s: FsG, parent: int, i: int, path: Seq<char>, f: int)
    requires
        inv(s),
        alive_dir(s, parent),
        0 <= i < s.dirs[parent].children.len(),
        s.dirs[parent].children[i].1 == NodeG::File(f),
    ensures
        inv(remove_effect(s, parent, i, path)),
{
    let t = remove_effect(s, parent, i, path);
    let cs = s.dirs[parent].children;
    let cs2 = cs.remove(i);
    cs.remove_ensures(i);
    assert(wf_children(s, parent));
    assert(0 <= f < s.files.len());
    assert(s.files[f].parents.contains(parent));
    let still = exists|j: int| 0 <= j < cs2.len() && (#[trigger] cs2[j]).1 == NodeG::File(f);
    assert forall|d: int| 0 <= d < t.dirs.len() implies wf_children(t, d) by {
        assert(wf_children(s, d));
        if d == parent {
            assert forall|a: int|
                0 <= a < cs2.len() implies is_seg((#[trigger] cs2[a]).0) && (match cs2[a].1 {
                NodeG::File(g) => 0 <= g < t.files.len(),
                NodeG::Dir(c) => 0 <= c < t.dirs.len() && c != 0 && t.dirs[c].parent == Some(d),
            }) by {
                let a0: int = if a < i {
                    a
                } else {
                    a + 1
                };
                assert(cs2[a] == cs[a0]);
                match cs[a0].1 {
                    NodeG::Dir(c) => {
                        assert(s.dirs[c].parent == Some(parent));
                        assert(c != parent);
                        assert(t.dirs[c] == s.dirs[c]);
                    },
                    NodeG::File(_) => {},
                }
            }
            assert forall|a: int, b: int|
                0 <= a < b < cs2.len() implies (#[trigger] cs2[a]).0 != (#[trigger] cs2[b]).0 by {
                let a0: int = if a < i {
                    a
                } else {
                    a + 1
                };
                let b0: int = if b < i {
                    b
                } else {
                    b + 1
                };
                assert(cs2[a] == cs[a0] && cs2[b] == cs[b0]);
            }
            assert forall|a: int, b: int|
                0 <= a < cs2.len() && 0 <= b < cs2.len() && (#[trigger] cs2[a]).1 == (
                #[trigger] cs2[b]).1 && cs2[a].1 is Dir implies a == b by {
                let a0: int = if a < i {
                    a
                } else {
                    a + 1
                };
                let b0: int = if b < i {
                    b
                } else {
                    b + 1
                };
                assert(cs2[a] == cs[a0] && cs2[b] == cs[b0]);
                assert(a0 == b0);
            }
        } else {
            assert(t.dirs[d] == s.dirs[d]);
            assert(t.files.len() == s.files.len());
            assert(forall|a: int|
                0 <= a < t.dirs[d].children.len() ==> #[trigger] t.dirs[d].children[a]
                    == s.dirs[d].children[a]);
            assert forall|a: int|
                0 <= a < t.dirs[d].children.len() implies (match (
            #[trigger] t.dirs[d].children[a]).1 {
                NodeG::File(g) => 0 <= g < t.files.len(),
                NodeG::Dir(c) => 0 <= c < t.dirs.len() && c != 0 && t.dirs[c].parent == Some(d),
            }) by {
                match s.dirs[d].children[a].1 {
                    NodeG::Dir(c) => {
                        assert(s.dirs[c].parent == Some(d));
                        if c == parent {
                            assert(t.dirs[c].parent == s.dirs[c].parent);
                        } else {
                            assert(t.dirs[c] == s.dirs[c]);
                        }
                    },
                    NodeG::File(_) => {},
                }
            }
        }
    }
    assert forall|d: int| 1 <= d < t.dirs.len() implies ((#[trigger] t.dirs[d]).parent matches Some(
        p,
    ) ==> linked_in_parent(t, p, d)) by {
        match t.dirs[d].parent {
            Some(p) => {
                assert(s.dirs[d].parent == Some(p));
                assert(linked_in_parent(s, p, d));
                let j = choose|j: int|
                    0 <= j < s.dirs[p].children.len() && (#[trigger] s.dirs[p].children[j]).1
                        == NodeG::Dir(d);
                if p == parent {
                    assert(j != i);
                    if j < i {
                        assert(cs2[j].1 == NodeG::Dir(d));
                    } else {
                        assert(cs2[j - 1].1 == NodeG::Dir(d));
                    }
                } else {
                    assert(t.dirs[p].children[j].1 == NodeG::Dir(d));
                }
            },
            None => {},
        }
    }
    assert(wf_dirs(t));
    lemma_same_parents_alive(s, t);
    if !still {
        lemma_remove_first_props(s.files[f].parents, parent);
    }
    assert forall|g: int, k: int|
        0 <= g < t.files.len() && 0 <= k < t.files[g].parents.len() implies alive_dir(
        t,
        #[trigger] t.files[g].parents[k],
    ) && file_linked_in(t, t.files[g].parents[k], g) by {
        let q = t.files[g].parents[k];
        assert(t.files[g].parents.contains(q));
        if g == f && !still {
            assert(s.files[f].parents.contains(q) && q != parent);
        } else {
            assert(q == s.files[g].parents[k]);
            assert(s.files[g].parents.contains(q));
        }
        assert(alive_dir(s, q));
        assert(file_linked_in(s, q, g));
        let j = choose|j: int|
            0 <= j < s.dirs[q].children.len() && (#[trigger] s.dirs[q].children[j]).1
                == NodeG::File(g);
        if q == parent {
            if g == f {
                assert(still);
            } else {
                assert(j != i);
                if j < i {
                    assert(cs2[j].1 == NodeG::File(g));
                } else {
                    assert(cs2[j - 1].1 == NodeG::File(g));
                }
            }
        } else {
            assert(t.dirs[q].children[j].1 == NodeG::File(g));
        }
    }
    assert forall|d: int, a: int|
        0 <= d < t.dirs.len() && 0 <= a < t.dirs[d].children.len() implies ((
    #[trigger] t.dirs[d].children[a]).1 matches NodeG::File(g) ==> t.files[g].parents.contains(
        d,
    )) by {
        let e = if d == parent {
            if a < i {
                cs[a]
            } else {
                cs[a + 1]
            }
        } else {
            s.dirs[d].children[a]
        };
        assert(t.dirs[d].children[a] == e);
        match e.1 {
            NodeG::File(g) => {
                assert(wf_children(s, d));
                assert(0 <= g < s.files.len());
                assert(s.files[g].parents.contains(d));
                if g == f && !still {
                    assert(d != parent) by {
                        if d == parent {
                            assert(cs2[a].1 == NodeG::File(f));
                        }
                    }
                } else {
                    assert(t.files[g].parents == s.files[g].parents);
                }
            },
            NodeG::Dir(_) => {},
        }
    }
    assert(wf_files(t));
    assert(wf_descriptors(t));
}

proof fn lemma_remove_dir_inv(s: FsG, parent: int, i: int, path: Seq<char>, rd: int)
    requires
        inv(s),
        alive_dir(s, parent),
        0 <= i < s.dirs[parent].children.len(),
        s.dirs[parent].children[i].1 == NodeG::Dir(rd),
        rd != 0,
    ensures
        inv(remove_effect(s, parent, i, path)),
{
    let t = remove_effect(s, parent, i, path);
    let cs = s.dirs[parent].children;
    let cs2 = cs.remove(i);
    cs.remove_ensures(i);
    assert(wf_children(s, parent));
    assert(s.dirs[rd].parent == Some(parent));
    assert(parent < rd);
    assert(!in_subtree(s, parent, rd)) by {
        if is_desc(s, parent, rd) {
            lemma_desc_smaller(s, parent, rd);
        }
    }
    assert(!in_subtree(s, 0, rd));
    assert(t.dirs.len() == s.dirs.len());
    assert forall|d: int|
        0 <= d < s.dirs.len() && !in_subtree(s, d, rd) implies (#[trigger] t.dirs[d]).parent
        == s.dirs[d].parent by {}
    assert forall|c: int, p: int|
        #![trigger s.dirs[c].parent, in_subtree(s, p, rd)]
        0 <= c < s.dirs.len() && s.dirs[c].parent == Some(p) && !in_subtree(s, c, rd) implies !in_subtree(
        s,
        p,
        rd,
    ) by {}
    assert forall|d: int| 0 <= d < t.dirs.len() implies wf_children(t, d) by {
        assert(wf_children(s, d));
        if in_subtree(s, d, rd) {
            assert(t.dirs[d].children.len() == 0);
        } else if d == parent {
            assert forall|a: int|
                0 <= a < cs2.len() implies is_seg((#[trigger] cs2[a]).0) && (match cs2[a].1 {
                NodeG::File(g) => 0 <= g < t.files.len(),
                NodeG::Dir(c) => 0 <= c < t.dirs.len() && c != 0 && t.dirs[c].parent == Some(d),
            }) by {
                let a0: int = if a < i {
                    a
                } else {
                    a + 1
                };
                assert(cs2[a] == cs[a0]);
                match cs[a0].1 {
                    NodeG::Dir(c) => {
                        assert(s.dirs[c].parent == Some(parent));
                        assert(c != rd) by {
                            if c == rd {
                                assert(a0 == i);
                            }
                        }
                        assert(!in_subtree(s, c, rd));
                        assert(t.dirs[c].parent == Some(parent));
                    },
                    NodeG::File(_) => {},
                }
            }
            assert(forall|a: int, b: int|
                0 <= a < b < cs2.len() ==> (#[trigger] cs2[a]).0 != (#[trigger] cs2[b]).0) by {
                assert(forall|a: int|
                    0 <= a < cs2.len() ==> #[trigger] cs2[a] == (if a < i {
                        cs[a]
                    } else {
                        cs[a + 1]
                    }));
            }
            assert forall|a: int, b: int|
                0 <= a < cs2.len() && 0 <= b < cs2.len() && (#[trigger] cs2[a]).1 == (
                #[trigger] cs2[b]).1 && cs2[a].1 is Dir implies a == b by {
                let a0: int = if a < i {
                    a
                } else {
                    a + 1
                };
                let b0: int = if b < i {
                    b
                } else {
                    b + 1
                };
                assert(cs2[a] == cs[a0] && cs2[b] == cs[b0]);
                assert(a0 == b0);
            }
        } else {
            assert(t.dirs[d].children == s.dirs[d].children);
            assert forall|a: int|
                0 <= a < t.dirs[d].children.len() implies (match (
            #[trigger] t.dirs[d].children[a]).1 {
                NodeG::File(g) => 0 <= g < t.files.len(),
                NodeG::Dir(c) => 0 <= c < t.dirs.len() && c != 0 && t.dirs[c].parent == Some(d),
            }) by {
                match s.dirs[d].children[a].1 {
                    NodeG::Dir(c) => {
                        assert(s.dirs[c].parent == Some(d));
                        assert(c != rd) by {
                            if c == rd {
                                assert(d == parent);
                            }
                        }
                        assert(!is_desc(s, c, rd)) by {
                            if is_desc(s, c, rd) {
                                assert(in_subtree(s, d, rd));
                            }
                        }
                        assert(t.dirs[c].parent == Some(d));
                    },
                    NodeG::File(_) => {},
                }
            }
        }
    }
    assert forall|d: int| 1 <= d < t.dirs.len() implies ((#[trigger] t.dirs[d]).parent matches Some(
        p,
    ) ==> linked_in_parent(t, p, d)) by {
        match t.dirs[d].parent {
            Some(p) => {
                assert(!in_subtree(s, d, rd));
                assert(s.dirs[d].parent == Some(p));
                assert(!in_subtree(s, p, rd));
                assert(linked_in_parent(s, p, d));
                let j = choose|j: int|
                    0 <= j < s.dirs[p].children.len() && (#[trigger] s.dirs[p].children[j]).1
                        == NodeG::Dir(d);
                if p == parent {
                    assert(j != i) by {
                        if j == i {
                            assert(d == rd);
                        }
                    }
                    if j < i {
                        assert(cs2[j].1 == NodeG::Dir(d));
                    } else {
                        assert(cs2[j - 1].1 == NodeG::Dir(d));
                    }
                } else {
                    assert(t.dirs[p].children[j].1 == NodeG::Dir(d));
                }
            },
            None => {},
        }
    }
    assert(wf_dirs(t));
    let pred = |q: int| !(q == rd || is_desc(s, q, rd));
    assert forall|g: int, k: int|
        0 <= g < t.files.len() && 0 <= k < t.files[g].parents.len() implies alive_dir(
        t,
        #[trigger] t.files[g].parents[k],
    ) && file_linked_in(t, t.files[g].parents[k], g) by {
        lemma_filter_membership(s.files[g].parents, pred);
        let q = t.files[g].parents[k];
        assert(t.files[g].parents == s.files[g].parents.filter(pred));
        assert(t.files[g].parents.contains(q));
        assert(s.files[g].parents.contains(q) && pred(q));
        assert(alive_dir(s, q));
        lemma_alive_outside_subtree(s, t, rd, q);
        assert(file_linked_in(s, q, g));
        let j = choose|j: int|
            0 <= j < s.dirs[q].children.len() && (#[trigger] s.dirs[q].children[j]).1
                == NodeG::File(g);
        if q == parent {
            assert(j != i);
            if j < i {
                assert(cs2[j].1 == NodeG::File(g));
            } else {
                assert(cs2[j - 1].1 == NodeG::File(g));
            }
        } else {
            assert(t.dirs[q].children[j].1 == NodeG::File(g));
        }
    }
    assert forall|g: int, k: int, l: int|
        0 <= g < t.files.len() && 0 <= k < l < t.files[g].parents.len() implies #[trigger] t.files[g].parents[k]
        != #[trigger] t.files[g].parents[l] by {
        lemma_filter_membership(s.files[g].parents, pred);
        assert(t.files[g].parents == s.files[g].parents.filter(pred));
    }
    assert forall|d: int, a: int|
        0 <= d < t.dirs.len() && 0 <= a < t.dirs[d].children.len() implies ((
    #[trigger] t.dirs[d].children[a]).1 matches NodeG::File(g) ==> t.files[g].parents.contains(
        d,
    )) by {
        assert(!in_subtree(s, d, rd));
        let e = if d == parent {
            if a < i {
                cs[a]
            } else {
                cs[a + 1]
            }
        } else {
            s.dirs[d].children[a]
        };
        assert(t.dirs[d].children[a] == e);
        match e.1 {
            NodeG::File(g) => {
                assert(wf_children(s, d));
                assert(0 <= g < s.files.len());
                assert(s.files[g].parents.contains(d));
                lemma_filter_membership(s.files[g].parents, pred);
                assert(pred(d));
                assert(t.files[g].parents.contains(d));
            },
            NodeG::Dir(_) => {},
        }
    }
    assert(wf_files(t));
    assert(wf_descriptors(t));
}

/// `step_hardlink`'s successful effect keeps the invariant.
pub proof fn lemma_hardlink_inv(s: FsG, f: int, parent: int, name: Seq<char>, t: FsG)
    requires
        inv(s),
        alive_dir(s, parent),
        0 <= f < s.files.len(),
        is_seg(name),
        lookup(s.dirs[parent].children, name) is None,
        t.dirs == s.dirs.update(
            parent,
            DirG {
                parent: s.dirs[parent].parent,
                children: s.dirs[parent].children.push((name, NodeG::File(f))),
            },
        ),
        t.files == (if s.files[f].parents.contains(parent) {
            s.files
        } else {
            s.files.update(
                f,
                FileG {
                    parents: s.files[f].parents.push(parent),
                    descriptor: s.files[f].descriptor,
                    content: s.files[f].content,
                },
            )
        }),
        t.next_descriptor == s.next_descriptor,
        0 <= t.nodes_created <= t.recording.len(),
        t.next_descriptor <= t.recording.len(),
    ensures
        inv(t),
{
    let cs = s.dirs[parent].children;
    let cs2 = t.dirs[parent].children;
    lemma_lookup_none(cs, name);
    assert(cs2 =~= cs.push((name, NodeG::File(f))));
    assert forall|d: int| 0 <= d < t.dirs.len() implies wf_children(t, d) by {
        assert(wf_children(s, d));
        if d == parent {
            assert(forall|i: int| 0 <= i < cs.len() ==> cs2[i] == #[trigger] cs[i]);
        } else {
            assert(t.dirs[d] == s.dirs[d]);
            assert(forall|i: int|
                0 <= i < t.dirs[d].children.len() ==> #[trigger] t.dirs[d].children[i]
                    == s.dirs[d].children[i]);
        }
    }
    assert forall|d: int| 1 <= d < t.dirs.len() implies ((#[trigger] t.dirs[d]).parent matches Some(
        p,
    ) ==> linked_in_parent(t, p, d)) by {
        match t.dirs[d].parent {
            Some(p) => {
                assert(linked_in_parent(s, p, d));
                let i = choose|i: int|
                    0 <= i < s.dirs[p].children.len() && (#[trigger] s.dirs[p].children[i]).1
                        == NodeG::Dir(d);
                assert(t.dirs[p].children[i].1 == NodeG::Dir(d));
            },
            None => {},
        }
    }
    assert(wf_dirs(t));
    lemma_same_parents_alive(s, t);
    let had = s.files[f].parents.contains(parent);
    assert forall|g: int, k: int, l: int|
        0 <= g < t.files.len() && 0 <= k < l < t.files[g].parents.len() implies #[trigger] t.files[g].parents[k]
        != #[trigger] t.files[g].parents[l] by {
        if g == f && !had {
            if l == s.files[f].parents.len() {
                assert(t.files[g].parents[k] == s.files[f].parents[k]);
                if t.files[g].parents[k] == parent {
                    assert(s.files[f].parents.contains(parent));
                }
            }
        }
    }
    assert forall|g: int, k: int|
        0 <= g < t.files.len() && 0 <= k < t.files[g].parents.len() implies alive_dir(
        t,
        #[trigger] t.files[g].parents[k],
    ) && file_linked_in(t, t.files[g].parents[k], g) by {
        let q = t.files[g].parents[k];
        if g == f && !had && k == s.files[f].parents.len() {
            assert(q == parent);
            assert(t.dirs[parent].children[cs.len() as int].1 == NodeG::File(f));
        } else {
            assert(q == s.files[g].parents[k]);
            assert(alive_dir(s, q));
            let i = choose|i: int|
                0 <= i < s.dirs[q].children.len() && (#[trigger] s.dirs[q].children[i]).1
                    == NodeG::File(g);
            assert(t.dirs[q].children[i].1 == NodeG::File(g));
        }
    }
    assert forall|d: int, i: int|
        0 <= d < t.dirs.len() && 0 <= i < t.dirs[d].children.len() implies ((
    #[trigger] t.dirs[d].children[i]).1 matches NodeG::File(g) ==> t.files[g].parents.contains(
        d,
    )) by {
        if d == parent && i == cs.len() {
            if had {
                assert(t.files[f].parents.contains(parent));
            } else {
                assert(t.files[f].parents[s.files[f].parents.len() as int] == parent);
            }
        } else {
            assert(t.dirs[d].children[i] == s.dirs[d].children[i]);
            match s.dirs[d].children[i].1 {
                NodeG::File(g) => {
                    assert(wf_children(s, d));
                    assert(0 <= g < s.files.len());
                    assert(s.files[g].parents.contains(d));
                    let w = choose|w: int|
                        0 <= w < s.files[g].parents.len() && s.files[g].parents[w] == d;
                    assert(t.files[g].parents[w] == d);
                },
                NodeG::Dir(_) => {},
            }
        }
    }
    assert(wf_files(t));
    assert(wf_descriptors(t));
}

/// `rename_effect` keeps the invariant: it is a file-link removal
/// followed by a hardlink-style attach.
pub proof fn lemma_rename_inv(
    s: FsG,
    f: int,
    oparent: int,
    i: int,
    nparent: int,
    nname: Seq<char>,
    old_path: Seq<char>,
)
    requires
        inv(s),
        alive_dir(s, oparent),
        alive_dir(s, nparent),
        0 <= i < s.dirs[oparent].children.len(),
        s.dirs[oparent].children[i].1 == NodeG::File(f),
        is_seg(nname),
        lookup(s.dirs[nparent].children, nname) is None,
    ensures
        inv(rename_effect(s, f, oparent, i, nparent, nname, old_path)),
{
    let t = rename_effect(s, f, oparent, i, nparent, nname, old_path);
    let m = remove_effect(s, oparent, i, old_path);
    assert(wf_children(s, oparent));
    assert(0 <= f < s.files.len());
    lemma_remove_file_inv(s, oparent, i, old_path, f);
    s.dirs[oparent].children.remove_ensures(i);
    lemma_same_parents_alive(s, m);
    lemma_lookup_none(s.dirs[nparent].children, nname);
    assert(lookup(m.dirs[nparent].children, nname) is None) by {
        if nparent == oparent {
            let cs2 = m.dirs[nparent].children;
            assert forall|a: int| 0 <= a < cs2.len() implies (#[trigger] cs2[a]).0 != nname by {
                if a < i {
                    assert(cs2[a] == s.dirs[oparent].children[a]);
                } else {
                    assert(cs2[a] == s.dirs[oparent].children[a + 1]);
                }
            }
            lemma_lookup_none_intro(cs2, nname);
        } else {
            assert(m.dirs[nparent].children == s.dirs[nparent].children);
        }
    }
    let parents1 = m.files[f].parents;
    if s.dirs[oparent].children[i].1 == NodeG::File(f) {
    }
    assert(t.files == (if parents1.contains(nparent) {
        m.files
    } else {
        m.files.update(
            f,
            FileG {
                parents: parents1.push(nparent),
                descriptor: m.files[f].descriptor,
                content: m.files[f].content,
            },
        )
    })) by {
        if parents1.contains(nparent) {
            assert(t.files =~~= m.files);
        } else {
            assert(t.files =~~= m.files.update(
                f,
                FileG {
                    parents: parents1.push(nparent),
                    descriptor: m.files[f].descriptor,
                    content: m.files[f].content,
                },
            ));
        }
    }
    lemma_hardlink_inv(m, f, nparent, nname, t);
}

/// A change that touches only descriptors, contents, counters and the
/// recording keeps the invariant, provided the descriptor table stays
/// well-formed.
pub proof fn lemma_nonstructural_inv(s: FsG, t: FsG)
    requires
        inv(s),
        t.dirs == s.dirs,
        t.files.len() == s.files.len(),
        forall|g: int| 0 <= g < s.files.len() ==> (#[trigger] t.files[g]).parents == s.files[g].parents,
        wf_descriptors(t),
        0 <= t.nodes_created <= t.recording.len(),
        0 <= t.next_descriptor <= t.recording.len(),
    ensures
        inv(t),
{
    lemma_same_parents_alive(s, t);
    assert forall|d: int| 0 <= d < t.dirs.len() implies wf_children(t, d) by {
        assert(wf_children(s, d));
    }
    assert(wf_dirs(t));
    assert forall|g: int, k: int|
        0 <= g < t.files.len() && 0 <= k < t.files[g].parents.len() implies alive_dir(
        t,
        #[trigger] t.files[g].parents[k],
    ) && file_linked_in(t, t.files[g].parents[k], g) by {
        let q = s.files[g].parents[k];
        assert(alive_dir(s, q));
        assert(file_linked_in(s, q, g));
    }
    assert forall|g: int, k: int, l: int|
        0 <= g < t.files.len() && 0 <= k < l < t.files[g].parents.len() implies #[trigger] t.files[g].parents[k]
        != #[trigger] t.files[g].parents[l] by {
        assert(s.files[g].parents[k] != s.files[g].parents[l]);
    }
    assert forall|d: int, a: int|
        0 <= d < t.dirs.len() && 0 <= a < t.dirs[d].children.len() implies ((
    #[trigger] t.dirs[d].children[a]).1 matches NodeG::File(g) ==> t.files[g].parents.contains(
        d,
    )) by {
        match s.dirs[d].children[a].1 {
            NodeG::File(g) => {
                assert(s.files[g].parents.contains(d));
                assert(wf_children(s, d));
                assert(0 <= g < s.files.len());
                assert(t.files[g].parents == s.files[g].parents);
            },
            NodeG::Dir(_) => {},
        }
    }
    assert(wf_files(t));
}

/// Directory structure equal means aliveness is equal.
pub proof fn lemma_same_parents_alive(s: FsG, t: FsG)
    requires
        t.dirs.len() >= s.dirs.len(),
        forall|d: int| 0 <= d < s.dirs.len() ==> (#[trigger] t.dirs[d]).parent == s.dirs[d].parent,
    ensures
        forall|c: int, d: int| 0 <= c < s.dirs.len() && is_desc(s, c, d) ==> is_desc(t, c, d),
        forall|d: int| alive_dir(s, d) ==> alive_dir(t, d),
{
    assert forall|c: int, d: int| 0 <= c < s.dirs.len() && is_desc(s, c, d) implies is_desc(
        t,
        c,
        d,
    ) by {
        lemma_desc_mono(s, t, c, d);
    }
}

proof fn lemma_desc_mono(s: FsG, t: FsG, c: int, d: int)
    requires
        t.dirs.len() >= s.dirs.len(),
        forall|q: int| 0 <= q < s.dirs.len() ==> (#[trigger] t.dirs[q]).parent == s.dirs[q].parent,
        0 <= c < s.dirs.len(),
        is_desc(s, c, d),
    ensures
        is_desc(t, c, d),
    decreases c,
{
    match s.dirs[c].parent {
        Some(p) => {
            if p != d {
                lemma_desc_mono(s, t, p, d);
            }
        },
        None => {},
    }
}

/// The fresh state is well-formed.
pub proof fn lemma_init_inv()
    ensures
        inv(fs_init()),
{
    let s = fs_init();
    assert(s.dirs.len() == 1);
    assert(s.dirs[0].parent is None);
    assert(s.dirs[0].children.len() == 0);
    assert(s.files.len() == 0);
}

} // verus!
