//! The abstract filesystem executor: an in-memory state machine over the
//! node graph, whose every mutator implements the model's `step` and
//! appends the canonical operation to its recording.

use vstd::prelude::*;
use vstd::multiset::Multiset;
use vstd::string::StrSliceExecFns;
use vstd::string::StringExecFns;
use crate::flags::Mode;
use crate::model::{
    alive_dir, dir_abs, file_abs, fs_init, inv, is_desc, lookup, node_abs, op_abs, resolve_node_g,
    resolve_segs, DirG, ErrG, FileG, FsG, NodeG,
};
use crate::node::{Dir, DirIndex, File, FileDescriptor, FileIndex, Node};
use crate::pathname::{segs, PathName};
use crate::workload::Workload;

verus! {

/// An error of the abstract state. Expected, precondition-violating
/// outcomes are returned as values, never raised.
#[derive(Debug, PartialEq)]
pub enum ExecutorError {
    /// The path does not name a file.
    NotAFile(PathName),
    /// A path component, or the path itself, is not a directory.
    NotADir(PathName),
    /// The target name is already taken in its directory.
    NameAlreadyExists(PathName),
    /// The root directory can never be removed.
    RootRemovalForbidden,
    /// A path component does not exist.
    NotFound(PathName),
    /// The path is not an absolute path.
    InvalidPath(PathName),
    /// The file already has an open descriptor.
    AlreadyOpen(PathName),
    /// No open descriptor has this index, or it is out of order.
    InvalidDescriptor(usize),
    /// The write range leaves the source buffer.
    InvalidRange(u64, u64),
}

/// The ghost mirror of an executor error.
pub open spec fn err_abs(e: ExecutorError) -> ErrG {
    match e {
        ExecutorError::NotAFile(p) => ErrG::NotAFile(p@),
        ExecutorError::NotADir(p) => ErrG::NotADir(p@),
        ExecutorError::NameAlreadyExists(p) => ErrG::NameAlreadyExists(p@),
        ExecutorError::RootRemovalForbidden => ErrG::RootRemovalForbidden,
        ExecutorError::NotFound(p) => ErrG::NotFound(p@),
        ExecutorError::InvalidPath(p) => ErrG::InvalidPath(p@),
        ExecutorError::AlreadyOpen(p) => ErrG::AlreadyOpen(p@),
        ExecutorError::InvalidDescriptor(d) => ErrG::InvalidDescriptor(d as int),
        ExecutorError::InvalidRange(o, l) => ErrG::InvalidRange(o as int, l as int),
    }
}

/// The text of each path in the list.
pub open spec fn path_views(v: Seq<PathName>) -> Seq<Seq<char>> {
    v.map_values(|p: PathName| p@)
}

/// Sorts paths lexicographically, keeping the multiset of entries.
fn sort_paths(v: Vec<PathName>) -> (r: Vec<PathName>)
    ensures
        crate::text::lex_sorted(path_views(r@)),
        path_views(r@).to_multiset() == path_views(v@).to_multiset(),
{
    let ghost orig = path_views(v@);
    let mut v = v;
    let mut r: Vec<PathName> = Vec::new();
    proof {
        path_views(r@).to_multiset_ensures();
        assert(path_views(r@) =~= Seq::<Seq<char>>::empty());
        assert(path_views(r@).to_multiset() =~= Multiset::<Seq<char>>::empty());
        assert(path_views(r@).to_multiset().add(orig.to_multiset()) =~= orig.to_multiset());
    }
    while v.len() > 0
        invariant
            path_views(r@).to_multiset().add(path_views(v@).to_multiset())
                == orig.to_multiset(),
            crate::text::lex_sorted(path_views(r@)),
            forall|i: int, j: int|
                0 <= i < r@.len() && 0 <= j < v@.len() ==> crate::text::lex_le(
                    #[trigger] path_views(r@)[i],
                    #[trigger] path_views(v@)[j],
                ),
        decreases v@.len(),
    {
        let mut m: usize = 0;
        let mut i: usize = 1;
        proof {
            crate::text::lemma_lex_le_total(path_views(v@)[0], path_views(v@)[0]);
        }
        while i < v.len()
            invariant
                0 <= m < i <= v@.len(),
                forall|j: int| 0 <= j < i ==> crate::text::lex_le(
                    path_views(v@)[m as int],
                    #[trigger] path_views(v@)[j],
                ),
            decreases v@.len() - i,
        {
            if !crate::text::str_le(v[m].as_str(), v[i].as_str()) {
                proof {
                    crate::text::lemma_lex_le_total(path_views(v@)[m as int], v@[i as int]@);
                    assert forall|j: int| 0 <= j <= i implies crate::text::lex_le(
                        path_views(v@)[i as int],
                        #[trigger] path_views(v@)[j],
                    ) by {
                        if j < i {
                            crate::text::lemma_lex_le_trans(
                                path_views(v@)[i as int],
                                path_views(v@)[m as int],
                                path_views(v@)[j],
                            );
                        } else {
                            crate::text::lemma_lex_le_total(
                                path_views(v@)[i as int],
                                path_views(v@)[i as int],
                            );
                        }
                    }
                }
                m = i;
            } else {
                proof {
                    crate::text::lemma_lex_le_total(
                        path_views(v@)[i as int],
                        path_views(v@)[i as int],
                    );
                }
            }
            i += 1;
        }
        let ghost v0 = v@;
        let x = v.remove(m);
        let ghost r0 = r@;
        r.push(x);
        proof {
            path_views(v0).to_multiset_ensures();
            path_views(r0).to_multiset_ensures();
            assert(path_views(v@) =~= path_views(v0).remove(m as int));
            assert(path_views(r@) =~= path_views(r0).push(x@));
            assert(path_views(v0)[m as int] == x@);
            assert(path_views(v@).to_multiset() == path_views(v0).to_multiset().remove(x@));
            assert(path_views(r@).to_multiset() == path_views(r0).to_multiset().insert(x@));
            assert(path_views(v0).to_multiset().count(x@) > 0) by {
                assert(path_views(v0).contains(path_views(v0)[m as int]));
            }
            assert(path_views(r@).to_multiset().add(path_views(v@).to_multiset())
                =~= path_views(r0).to_multiset().add(path_views(v0).to_multiset()));
            assert forall|i2: int, j2: int|
                0 <= i2 < j2 < r@.len() implies crate::text::lex_le(
                #[trigger] path_views(r@)[i2],
                #[trigger] path_views(r@)[j2],
            ) by {
                if j2 < r0.len() {
                    assert(path_views(r0)[i2] == path_views(r@)[i2]);
                    assert(path_views(r0)[j2] == path_views(r@)[j2]);
                } else {
                    assert(path_views(r@)[j2] == x@);
                    assert(crate::text::lex_le(path_views(r0)[i2], path_views(v0)[m as int]));
                }
            }
            assert forall|i2: int, j2: int|
                0 <= i2 < r@.len() && 0 <= j2 < v@.len() implies crate::text::lex_le(
                #[trigger] path_views(r@)[i2],
                #[trigger] path_views(v@)[j2],
            ) by {
                let jold: int = if j2 < m as int {
                    j2
                } else {
                    j2 + 1
                };
                assert(path_views(v@)[j2] == path_views(v0)[jold]);
                if i2 < r0.len() {
                    assert(path_views(r@)[i2] == path_views(r0)[i2]);
                    assert(crate::text::lex_le(path_views(r0)[i2], path_views(v0)[jold]));
                } else {
                    assert(path_views(r@)[i2] == x@);
                    assert(crate::text::lex_le(path_views(v0)[m as int], path_views(v0)[jold]));
                }
            }
        }
    }
    proof {
        assert(path_views(v@).to_multiset() =~= Multiset::<Seq<char>>::empty()) by {
            path_views(v@).to_multiset_ensures();
            assert(path_views(v@) =~= Seq::<Seq<char>>::empty());
        }
        assert(path_views(r@).to_multiset().add(Multiset::<Seq<char>>::empty())
            =~= path_views(r@).to_multiset());
    }
    r
}

/// How many entries of the list are true.
pub open spec fn num_true(s: Seq<bool>) -> int
    decreases s.len(),
{
    if s.len() == 0 {
        0
    } else {
        num_true(s.drop_last()) + (if s.last() {
            1int
        } else {
            0int
        })
    }
}

proof fn lemma_num_true_bound(s: Seq<bool>)
    ensures
        0 <= num_true(s) <= s.len(),
    decreases s.len(),
{
    if s.len() > 0 {
        lemma_num_true_bound(s.drop_last());
    }
}

proof fn lemma_num_true_set(s: Seq<bool>, i: int)
    requires
        0 <= i < s.len(),
        !s[i],
    ensures
        num_true(s.update(i, true)) == num_true(s) + 1,
    decreases s.len(),
{
    if i == s.len() - 1 {
        assert(s.update(i, true).drop_last() =~= s.drop_last());
    } else {
        lemma_num_true_set(s.drop_last(), i);
        assert(s.update(i, true).drop_last() =~= s.drop_last().update(i, true));
    }
}

/// How often a node occurs in the list.
pub open spec fn count_matches(q: Seq<Node>, n: Node) -> int
    decreases q.len(),
{
    if q.len() == 0 {
        0
    } else {
        count_matches(q.drop_last(), n) + (if q.last() == n {
            1int
        } else {
            0int
        })
    }
}

proof fn lemma_count_push(q: Seq<Node>, x: Node, n: Node)
    ensures
        count_matches(q.push(x), n) == count_matches(q, n) + (if x == n {
            1int
        } else {
            0int
        }),
{
    assert(q.push(x).drop_last() =~= q);
}

proof fn lemma_count_zero(q: Seq<Node>, n: Node)
    requires
        !q.contains(n),
    ensures
        count_matches(q, n) == 0,
    decreases q.len(),
{
    if q.len() > 0 {
        assert(!q.drop_last().contains(n)) by {
            if q.drop_last().contains(n) {
                let w = choose|w: int| 0 <= w < q.drop_last().len() && q.drop_last()[w] == n;
                assert(q[w] == n);
            }
        }
        lemma_count_zero(q.drop_last(), n);
        assert(q[q.len() - 1] != n);
    }
}

/// Every alive directory whose parents' links are closed under `seen`
/// is itself seen.
proof fn lemma_seen_complete(s: FsG, seen: Seq<bool>, d: int)
    requires
        inv(s),
        seen.len() == s.dirs.len(),
        seen[0],
        forall|c: int, j: int|
            0 <= c < s.dirs.len() && seen[c] && 0 <= j < s.dirs[c].children.len() ==> ((
            #[trigger] s.dirs[c].children[j]).1 matches NodeG::Dir(c2) ==> seen[c2]),
        alive_dir(s, d),
    ensures
        seen[d],
    decreases d,
{
    if d != 0 {
        match s.dirs[d].parent {
            Some(p) => {
                assert(is_desc(s, d, 0));
                assert(alive_dir(s, p));
                lemma_seen_complete(s, seen, p);
                assert(crate::model::linked_in_parent(s, p, d));
                let j = choose|j: int|
                    0 <= j < s.dirs[p].children.len() && (#[trigger] s.dirs[p].children[j]).1
                        == NodeG::Dir(d);
            },
            None => {},
        }
    }
}

/// The abstract filesystem state: arenas of directories and files, the
/// count of nodes made, the next descriptor index, and the recording.
pub struct AbstractExecutor {
    pub dirs: Vec<Dir>,
    pub files: Vec<File>,
    pub nodes_created: usize,
    pub next_descriptor: usize,
    pub recording: Workload,
}

impl AbstractExecutor {
    /// The ghost state this executor stands for.
    pub open spec fn abs(&self) -> FsG {
        FsG {
            dirs: self.dirs@.map_values(|d: Dir| dir_abs(d)),
            files: self.files@.map_values(|f: File| file_abs(f)),
            nodes_created: self.nodes_created as int,
            next_descriptor: self.next_descriptor as int,
            recording: self.recording.ops@.map_values(|op: crate::operation::Operation| op_abs(op)),
        }
    }

    /// Well-formedness: the ghost state satisfies the model invariant.
    pub open spec fn wf(&self) -> bool {
        inv(self.abs())
    }

    /// A fresh state: the lone root directory, nothing else.
    pub fn new() -> (r: AbstractExecutor)
        ensures
            r.abs() == fs_init(),
            r.wf(),
    {
        let mut dirs: Vec<Dir> = Vec::new();
        dirs.push(Dir { parent: None, children: Vec::new() });
        let r = AbstractExecutor {
            dirs,
            files: Vec::new(),
            nodes_created: 0,
            next_descriptor: 0,
            recording: Workload::new(),
        };
        proof {
            assert(r.abs().dirs =~~= fs_init().dirs);
            assert(r.abs().files =~~= fs_init().files);
            assert(r.abs().recording =~~= fs_init().recording);
            assert(r.abs() == fs_init());
            crate::model::lemma_init_inv();
        }
        r
    }

    /// The index of the root directory.
    pub fn root_index() -> (r: DirIndex)
        ensures
            r.0 == 0,
    {
        DirIndex(0)
    }

    /// The root directory.
    pub fn root(&self) -> (r: &Dir)
        requires
            self.wf(),
        ensures
            *r == self.dirs@[0],
    {
        &self.dirs[0]
    }

    /// The directory at `idx`.
    pub fn dir(&self, idx: &DirIndex) -> (r: &Dir)
        requires
            idx.0 < self.dirs@.len(),
        ensures
            *r == self.dirs@[idx.0 as int],
    {
        &self.dirs[idx.0]
    }

    /// The file at `idx`.
    pub fn file(&self, idx: &FileIndex) -> (r: &File)
        requires
            idx.0 < self.files@.len(),
        ensures
            *r == self.files@[idx.0 as int],
    {
        &self.files[idx.0]
    }

    /// The node `name` maps to in directory `idx`, if any.
    fn lookup_child(&self, idx: &DirIndex, name: &str) -> (r: Option<Node>)
        requires
            self.wf(),
            idx.0 < self.dirs@.len(),
        ensures
            match r {
                Some(n) => lookup(self.abs().dirs[idx.0 as int].children, name@) == Some(
                    node_abs(n),
                ),
                None => lookup(self.abs().dirs[idx.0 as int].children, name@) is None,
            },
    {
        let ghost cs = self.abs().dirs[idx.0 as int].children;
        let children = &self.dirs[idx.0].children;
        let mut i: usize = 0;
        proof {
            assert(cs =~= dir_abs(self.dirs@[idx.0 as int]).children);
            assert(cs.skip(0) =~= cs);
        }
        while i < children.len()
            invariant
                0 <= i <= children@.len(),
                idx.0 < self.dirs@.len(),
                children@ == self.dirs@[idx.0 as int].children@,
                cs == self.abs().dirs[idx.0 as int].children,
                cs.len() == children@.len(),
                forall|j: int| 0 <= j < cs.len() ==> #[trigger] cs[j] == (
                    children@[j].0@,
                    node_abs(children@[j].1),
                ),
                lookup(cs, name@) == lookup(cs.skip(i as int), name@),
            decreases children@.len() - i,
        {
            proof {
                assert(cs.skip(i as int)[0] == cs[i as int]);
                assert(cs.skip(i as int).skip(1) =~= cs.skip(i as int + 1));
            }
            if crate::text::str_eq(children[i].0.as_str(), name) {
                return Some(children[i].1);
            }
            i += 1;
        }
        proof {
            assert(cs.skip(cs.len() as int).len() == 0);
        }
        None
    }

    /// Resolves a path from the root: empty segments are ignored, a
    /// missing segment is `NotFound`, and crossing a non-directory
    /// mid-path is `NotADir`.
    pub fn resolve_node(&self, path: PathName) -> (r: Result<Node, ExecutorError>)
        requires
            self.wf(),
        ensures
            match r {
                Ok(n) => resolve_node_g(self.abs(), path@) == Ok::<NodeG, ErrG>(node_abs(n)),
                Err(e) => resolve_node_g(self.abs(), path@) == Err::<NodeG, ErrG>(err_abs(e)),
            },
            r matches Ok(Node::DIR(d)) ==> d.0 < self.dirs@.len(),
            r matches Ok(Node::FILE(f)) ==> f.0 < self.files@.len(),
    {
        let ghost s = self.abs();
        if !path.is_valid() {
            return Err(ExecutorError::InvalidPath(path));
        }
        let segments = path.segments();
        let ghost sq = segs(path@);
        let mut last: Node = Node::DIR(DirIndex(0));
        let mut done = String::new();
        let mut i: usize = 0;
        proof {
            assert(sq.skip(0) =~= sq);
            assert(sq.len() == segments@.len());
        }
        while i < segments.len()
            invariant
                0 <= i <= segments@.len(),
                self.wf(),
                s == self.abs(),
                crate::pathname::is_abs_path(path@),
                sq == segs(path@),
                segments@.map_values(|t: &str| t@) == sq,
                sq.len() == segments@.len(),
                resolve_segs(s, NodeG::Dir(0), Seq::<char>::empty(), sq) == resolve_segs(
                    s,
                    node_abs(last),
                    done@,
                    sq.skip(i as int),
                ),
                last matches Node::DIR(d) ==> d.0 < self.dirs@.len(),
                last matches Node::FILE(f) ==> f.0 < self.files@.len(),
            decreases segments@.len() - i,
        {
            let seg = segments[i];
            let ghost done0 = done@;
            done.append("/");
            done.append(seg);
            proof {
                reveal_strlit("/");
                assert("/"@ =~= seq!['/']);
                assert(seg@ == segments@.map_values(|t: &str| t@)[i as int]);
                assert(seg@ == sq[i as int]);
                assert(done@ =~= done0 + seq!['/'] + sq[i as int]);
                assert(sq.skip(i as int)[0] == sq[i as int]);
                assert(sq.skip(i as int).skip(1) =~= sq.skip(i as int + 1));
            }
            match last {
                Node::DIR(dir_index) => {
                    match self.lookup_child(&dir_index, seg) {
                        Some(n) => {
                            proof {
                                crate::model::lemma_lookup_valid(
                                    s,
                                    dir_index.0 as int,
                                    seg@,
                                    node_abs(n),
                                );
                            }
                            last = n;
                        },
                        None => {
                            return Err(ExecutorError::NotFound(PathName::from_string(done)));
                        },
                    }
                },
                Node::FILE(_) => {
                    return Err(ExecutorError::NotADir(PathName::from_string(done)));
                },
            }
            i += 1;
        }
        proof {
            assert(sq.skip(sq.len() as int).len() == 0);
        }
        Ok(last)
    }

    /// Resolves a path that must name a file.
    pub fn resolve_file(&self, path: PathName) -> (r: Result<FileIndex, ExecutorError>)
        requires
            self.wf(),
        ensures
            match r {
                Ok(f) => crate::model::resolve_file_g(self.abs(), path@) == Ok::<int, ErrG>(
                    f.0 as int,
                ) && f.0 < self.files@.len(),
                Err(e) => crate::model::resolve_file_g(self.abs(), path@) == Err::<int, ErrG>(
                    err_abs(e),
                ),
            },
    {
        let ghost p = path@;
        let path2 = path.clone_path();
        match self.resolve_node(path) {
            Ok(Node::FILE(idx)) => Ok(idx),
            Ok(Node::DIR(_)) => Err(ExecutorError::NotAFile(path2)),
            Err(e) => Err(e),
        }
    }

    /// Resolves a path that must name a directory.
    pub fn resolve_dir(&self, path: PathName) -> (r: Result<DirIndex, ExecutorError>)
        requires
            self.wf(),
        ensures
            match r {
                Ok(d) => crate::model::resolve_dir_g(self.abs(), path@) == Ok::<int, ErrG>(
                    d.0 as int,
                ) && d.0 < self.dirs@.len(),
                Err(e) => crate::model::resolve_dir_g(self.abs(), path@) == Err::<int, ErrG>(
                    err_abs(e),
                ),
            },
    {
        let ghost p = path@;
        let path2 = path.clone_path();
        match self.resolve_node(path) {
            Ok(Node::DIR(idx)) => Ok(idx),
            Ok(Node::FILE(_)) => Err(ExecutorError::NotADir(path2)),
            Err(e) => Err(e),
        }
    }

    /// The name under which directory `child` stands in directory `p`.
    fn dir_name(&self, p: &DirIndex, child: &DirIndex) -> (r: &String)
        requires
            self.wf(),
            p.0 < self.dirs@.len(),
            crate::model::linked_in_parent(self.abs(), p.0 as int, child.0 as int),
        ensures
            r@ == crate::model::dir_name_in_parent(self.abs(), p.0 as int, child.0 as int),
    {
        let ghost s = self.abs();
        let ghost cs = s.dirs[p.0 as int].children;
        let children = &self.dirs[p.0].children;
        proof {
            assert(cs =~= dir_abs(self.dirs@[p.0 as int]).children);
        }
        let mut i: usize = 0;
        while i < children.len()
            invariant
                0 <= i <= children@.len(),
                p.0 < self.dirs@.len(),
                self.wf(),
                s == self.abs(),
                children@ == self.dirs@[p.0 as int].children@,
                cs == s.dirs[p.0 as int].children,
                cs.len() == children@.len(),
                crate::model::linked_in_parent(s, p.0 as int, child.0 as int),
                forall|j: int| 0 <= j < cs.len() ==> #[trigger] cs[j] == (
                    children@[j].0@,
                    node_abs(children@[j].1),
                ),
                forall|j: int| 0 <= j < i ==> (#[trigger] cs[j]).1 != NodeG::Dir(child.0 as int),
            decreases children@.len() - i,
        {
            match children[i].1 {
                Node::DIR(c) => {
                    if c.0 == child.0 {
                        proof {
                            assert(cs[i as int].1 == NodeG::Dir(child.0 as int));
                            assert(crate::model::wf_children(s, p.0 as int));
                            let w = choose|w: int|
                                0 <= w < cs.len() && cs[w].1 == NodeG::Dir(child.0 as int);
                            assert(cs[w].1 == cs[i as int].1);
                            assert(w == i as int);
                        }
                        return &children[i].0;
                    }
                },
                Node::FILE(_) => {},
            }
            i += 1;
        }
        proof {
            let w = choose|w: int|
                0 <= w < cs.len() && (#[trigger] cs[w]).1 == NodeG::Dir(child.0 as int);
            assert(false);
        }
        vstd::pervasive::unreached()
    }

    /// The unique canonical path of an alive directory.
    pub fn resolve_dir_path(&self, dir_idx: &DirIndex) -> (r: PathName)
        requires
            self.wf(),
            alive_dir(self.abs(), dir_idx.0 as int),
        ensures
            r@ == crate::model::path_of(self.abs(), dir_idx.0 as int),
        decreases dir_idx.0,
    {
        let ghost s = self.abs();
        if dir_idx.0 == 0 {
            let r = PathName::from_str("/");
            proof {
                reveal_strlit("/");
                assert(r@ =~= seq!['/']);
            }
            return r;
        }
        match self.dirs[dir_idx.0].parent {
            Some(p) => {
                proof {
                    assert(dir_abs(self.dirs@[dir_idx.0 as int]).parent == Some(p.0 as int));
                    assert(s.dirs[dir_idx.0 as int].parent == Some(p.0 as int));
                    assert(is_desc(s, dir_idx.0 as int, 0));
                    assert(alive_dir(s, p.0 as int));
                    assert(crate::model::linked_in_parent(s, p.0 as int, dir_idx.0 as int));
                }
                let name = self.dir_name(&p, dir_idx).clone();
                let parent_path = self.resolve_dir_path(&p);
                parent_path.join(name)
            },
            None => {
                proof {
                    assert(s.dirs[dir_idx.0 as int].parent is Some);
                    assert(false);
                }
                vstd::pervasive::unreached()
            },
        }
    }

    /// The path of the node `name` would have under directory `parent`.
    pub fn make_path(&self, parent: &DirIndex, name: &crate::pathname::Name) -> (r: PathName)
        requires
            self.wf(),
            alive_dir(self.abs(), parent.0 as int),
        ensures
            r@ == crate::pathname::path_join(
                crate::model::path_of(self.abs(), parent.0 as int),
                name@,
            ),
    {
        let parent_path = self.resolve_dir_path(parent);
        parent_path.join(name.clone())
    }

    /// Creates a file at `path`. The parent must exist and the final name
    /// must be free; the canonical path is recorded.
    pub fn create(&mut self, path: PathName, mode: Mode) -> (r: Result<FileIndex, ExecutorError>)
        requires
            old(self).wf(),
        ensures
            final(self).wf(),
            match r {
                Ok(idx) => idx.0 == old(self).files@.len() && crate::model::step_create(
                    old(self).abs(),
                    path@,
                    mode@,
                ) == Ok::<FsG, ErrG>(final(self).abs()),
                Err(e) => crate::model::step_create(old(self).abs(), path@, mode@) == Err::<
                    FsG,
                    ErrG,
                >(err_abs(e)) && final(self).abs() == old(self).abs(),
            },
    {
        let ghost s0 = self.abs();
        if !path.is_valid() {
            return Err(ExecutorError::InvalidPath(path));
        }
        let (parent_path, name) = path.split();
        if name.as_str().unicode_len() == 0 {
            return Err(ExecutorError::InvalidPath(path));
        }
        proof {
            crate::pathname::lemma_split_shape(path@);
        }
        let parent = match self.resolve_dir(parent_path) {
            Ok(p) => p,
            Err(e) => {
                return Err(e);
            },
        };
        proof {
            crate::model::lemma_resolve_alive(s0, crate::pathname::split_parent(path@));
        }
        if self.name_exists(&parent, name.as_str()) {
            let cp = self.make_path(&parent, &name);
            return Err(ExecutorError::NameAlreadyExists(cp));
        }
        let cp = self.make_path(&parent, &name);
        let file_idx = FileIndex(self.files.len());
        let mut parents: Vec<DirIndex> = Vec::new();
        parents.push(parent);
        self.files.push(
            File { parents, descriptor: None, content: crate::node::Content::new() },
        );
        let ghost name_view = name@;
        self.dirs[parent.0].children.push((name, Node::FILE(file_idx)));
        self.recording.push(crate::operation::Operation::Create { path: cp, mode });
        let reclen = self.recording.len();
        proof {
            assert(self.nodes_created < reclen);
        }
        self.nodes_created = self.nodes_created + 1;
        proof {
            let t = crate::model::attach_new_file(
                s0,
                parent.0 as int,
                name_view,
                crate::model::OpG::Create {
                    path: crate::pathname::path_join(
                        crate::model::path_of(s0, parent.0 as int),
                        name_view,
                    ),
                    mode: mode@,
                },
            );
            assert(self.abs().dirs =~~= t.dirs);
            assert(self.abs().files =~~= t.files);
            assert(self.abs().recording =~~= t.recording);
            assert(self.abs() =~~= t);
            crate::model::lemma_attach_new_file_inv(
                s0,
                parent.0 as int,
                name_view,
                crate::model::OpG::Create {
                    path: crate::pathname::path_join(
                        crate::model::path_of(s0, parent.0 as int),
                        name_view,
                    ),
                    mode: mode@,
                },
            );
        }
        Ok(file_idx)
    }

    /// Creates a directory at `path`. The parent must exist and the final
    /// name must be free; the canonical path is recorded.
    pub fn mkdir(&mut self, path: PathName, mode: Mode) -> (r: Result<DirIndex, ExecutorError>)
        requires
            old(self).wf(),
        ensures
            final(self).wf(),
            match r {
                Ok(idx) => idx.0 == old(self).dirs@.len() && crate::model::step_mkdir(
                    old(self).abs(),
                    path@,
                    mode@,
                ) == Ok::<FsG, ErrG>(final(self).abs()),
                Err(e) => crate::model::step_mkdir(old(self).abs(), path@, mode@) == Err::<
                    FsG,
                    ErrG,
                >(err_abs(e)) && final(self).abs() == old(self).abs(),
            },
    {
        let ghost s0 = self.abs();
        if !path.is_valid() {
            return Err(ExecutorError::InvalidPath(path));
        }
        let (parent_path, name) = path.split();
        if name.as_str().unicode_len() == 0 {
            return Err(ExecutorError::InvalidPath(path));
        }
        proof {
            crate::pathname::lemma_split_shape(path@);
        }
        let parent = match self.resolve_dir(parent_path) {
            Ok(p) => p,
            Err(e) => {
                return Err(e);
            },
        };
        proof {
            crate::model::lemma_resolve_alive(s0, crate::pathname::split_parent(path@));
        }
        if self.name_exists(&parent, name.as_str()) {
            let cp = self.make_path(&parent, &name);
            return Err(ExecutorError::NameAlreadyExists(cp));
        }
        let cp = self.make_path(&parent, &name);
        let dir_idx = DirIndex(self.dirs.len());
        self.dirs.push(Dir { parent: Some(parent), children: Vec::new() });
        let ghost name_view = name@;
        self.dirs[parent.0].children.push((name, Node::DIR(dir_idx)));
        self.recording.push(crate::operation::Operation::MkDir { path: cp, mode });
        let reclen = self.recording.len();
        proof {
            assert(self.nodes_created < reclen);
        }
        self.nodes_created = self.nodes_created + 1;
        proof {
            let t = match crate::model::step_mkdir(s0, path@, mode@) {
                Ok(t) => t,
                Err(_) => s0,
            };
            assert(self.abs().dirs =~~= t.dirs);
            assert(self.abs().files =~~= t.files);
            assert(self.abs().recording =~~= t.recording);
            assert(self.abs() =~~= t);
            crate::model::lemma_mkdir_inv(s0, parent.0 as int, name_view, self.abs());
        }
        Ok(dir_idx)
    }

    /// Places a symbolic link at `linkpath`. The target is free text and
    /// is not resolved or validated; the link occupies a fresh leaf node.
    pub fn symlink(&mut self, target: PathName, linkpath: PathName) -> (r: Result<
        FileIndex,
        ExecutorError,
    >)
        requires
            old(self).wf(),
        ensures
            final(self).wf(),
            match r {
                Ok(idx) => idx.0 == old(self).files@.len() && crate::model::step_symlink(
                    old(self).abs(),
                    target@,
                    linkpath@,
                ) == Ok::<FsG, ErrG>(final(self).abs()),
                Err(e) => crate::model::step_symlink(old(self).abs(), target@, linkpath@) == Err::<
                    FsG,
                    ErrG,
                >(err_abs(e)) && final(self).abs() == old(self).abs(),
            },
    {
        let ghost s0 = self.abs();
        if !linkpath.is_valid() {
            return Err(ExecutorError::InvalidPath(linkpath));
        }
        let (parent_path, name) = linkpath.split();
        if name.as_str().unicode_len() == 0 {
            return Err(ExecutorError::InvalidPath(linkpath));
        }
        proof {
            crate::pathname::lemma_split_shape(linkpath@);
        }
        let parent = match self.resolve_dir(parent_path) {
            Ok(p) => p,
            Err(e) => {
                return Err(e);
            },
        };
        proof {
            crate::model::lemma_resolve_alive(s0, crate::pathname::split_parent(linkpath@));
        }
        if self.name_exists(&parent, name.as_str()) {
            let cp = self.make_path(&parent, &name);
            return Err(ExecutorError::NameAlreadyExists(cp));
        }
        let cp = self.make_path(&parent, &name);
        let file_idx = FileIndex(self.files.len());
        let mut parents: Vec<DirIndex> = Vec::new();
        parents.push(parent);
        self.files.push(
            File { parents, descriptor: None, content: crate::node::Content::new() },
        );
        let ghost name_view = name@;
        let ghost target_view = target@;
        self.dirs[parent.0].children.push((name, Node::FILE(file_idx)));
        self.recording.push(
            crate::operation::Operation::Symlink { target, linkpath: cp },
        );
        let reclen = self.recording.len();
        proof {
            assert(self.nodes_created < reclen);
        }
        self.nodes_created = self.nodes_created + 1;
        proof {
            let rec = crate::model::OpG::Symlink {
                target: target_view,
                linkpath: crate::pathname::path_join(
                    crate::model::path_of(s0, parent.0 as int),
                    name_view,
                ),
            };
            let t = crate::model::attach_new_file(s0, parent.0 as int, name_view, rec);
            assert(self.abs().dirs =~~= t.dirs);
            assert(self.abs().files =~~= t.files);
            assert(self.abs().recording =~~= t.recording);
            assert(self.abs() =~~= t);
            crate::model::lemma_attach_new_file_inv(s0, parent.0 as int, name_view, rec);
        }
        Ok(file_idx)
    }

    /// Marks the removed directory and every directory below it.
    fn mark_subtree(&self, rd: &DirIndex) -> (marks: Vec<bool>)
        requires
            self.wf(),
            rd.0 < self.dirs@.len(),
        ensures
            marks@.len() == self.dirs@.len(),
            forall|k: int|
                0 <= k < marks@.len() ==> marks@[k] == crate::model::in_subtree(
                    self.abs(),
                    k,
                    rd.0 as int,
                ),
    {
        let ghost s = self.abs();
        let mut marks: Vec<bool> = Vec::new();
        let mut k: usize = 0;
        while k < self.dirs.len()
            invariant
                0 <= k <= self.dirs@.len(),
                self.wf(),
                s == self.abs(),
                rd.0 < self.dirs@.len(),
                marks@.len() == k,
                forall|a: int|
                    0 <= a < k ==> marks@[a] == crate::model::in_subtree(s, a, rd.0 as int),
            decreases self.dirs@.len() - k,
        {
            let mut j: usize = k;
            let mut hit = false;
            let mut done = false;
            while !done
                invariant
                    self.wf(),
                    s == self.abs(),
                    rd.0 < self.dirs@.len(),
                    j < self.dirs@.len(),
                    k < self.dirs@.len(),
                    !done ==> !hit && crate::model::in_subtree(s, k as int, rd.0 as int)
                        == crate::model::in_subtree(s, j as int, rd.0 as int),
                    done ==> hit == crate::model::in_subtree(s, k as int, rd.0 as int),
                decreases (if done {
                    0int
                } else {
                    1 + j
                }),
            {
                if j == rd.0 {
                    hit = true;
                    done = true;
                } else {
                    proof {
                        assert(s.dirs[j as int] == dir_abs(self.dirs@[j as int]));
                        assert(!crate::model::in_subtree(s, j as int, rd.0 as int)
                            == !crate::model::is_desc(s, j as int, rd.0 as int));
                    }
                    match self.dirs[j].parent {
                        Some(p) => {
                            proof {
                                assert(s.dirs[j as int].parent == Some(p.0 as int));
                                if j > 0 {
                                    assert(0 <= (p.0 as int) && (p.0 as int) < (j as int));
                                } else {
                                    assert(s.dirs[0].parent is None);
                                }
                                assert(crate::model::is_desc(s, j as int, rd.0 as int) == (p.0
                                    as int == rd.0 as int || crate::model::is_desc(
                                    s,
                                    p.0 as int,
                                    rd.0 as int,
                                )));
                            }
                            j = p.0;
                        },
                        None => {
                            proof {
                                assert(s.dirs[j as int].parent is None);
                                assert(!crate::model::is_desc(s, j as int, rd.0 as int));
                            }
                            done = true;
                        },
                    }
                }
            }
            marks.push(hit);
            k += 1;
        }
        marks
    }

    /// Removes the node at `path`: a file loses that one link, a
    /// directory is detached together with its whole subtree, and the
    /// detached directories leave every file's parents. The root cannot
    /// be removed.
    pub fn remove(&mut self, path: PathName) -> (r: Result<(), ExecutorError>)
        requires
            old(self).wf(),
        ensures
            final(self).wf(),
            match r {
                Ok(()) => crate::model::step_remove(old(self).abs(), path@) == Ok::<FsG, ErrG>(
                    final(self).abs(),
                ),
                Err(e) => crate::model::step_remove(old(self).abs(), path@) == Err::<FsG, ErrG>(
                    err_abs(e),
                ) && final(self).abs() == old(self).abs(),
            },
    {
        let ghost s0 = self.abs();
        let ghost pv = path@;
        let path2 = path.clone_path();
        let node = match self.resolve_node(path) {
            Ok(n) => n,
            Err(e) => {
                return Err(e);
            },
        };
        match node {
            Node::DIR(d) => {
                if d.0 == 0 {
                    return Err(ExecutorError::RootRemovalForbidden);
                }
            },
            Node::FILE(_) => {},
        }
        proof {
            assert(crate::pathname::is_abs_path(pv));
        }
        let (parent_path, name) = path2.split();
        let parent = match self.resolve_dir(parent_path) {
            Ok(p) => p,
            Err(e) => {
                return Err(e);
            },
        };
        proof {
            crate::model::lemma_resolve_alive(s0, crate::pathname::split_parent(pv));
        }
        let ghost cs = s0.dirs[parent.0 as int].children;
        proof {
            assert(cs =~= dir_abs(self.dirs@[parent.0 as int]).children);
            assert(crate::model::wf_children(s0, parent.0 as int));
        }
        let children_len = self.dirs[parent.0].children.len();
        let mut j: usize = 0;
        let mut found = false;
        while j < children_len && !found
            invariant
                0 <= j <= children_len,
                self.wf(),
                s0 == self.abs(),
                parent.0 < self.dirs@.len(),
                children_len == self.dirs@[parent.0 as int].children@.len(),
                cs == s0.dirs[parent.0 as int].children,
                cs.len() == children_len,
                forall|a: int| 0 <= a < cs.len() ==> #[trigger] cs[a] == (
                    self.dirs@[parent.0 as int].children@[a].0@,
                    node_abs(self.dirs@[parent.0 as int].children@[a].1),
                ),
                !found ==> forall|a: int| 0 <= a < j ==> (#[trigger] cs[a]).0 != name@,
                found ==> j < cs.len() && cs[j as int].0 == name@,
            decreases children_len - j + (if found {
                0int
            } else {
                1int
            }),
        {
            if crate::text::str_eq(self.dirs[parent.0].children[j].0.as_str(), name.as_str()) {
                found = true;
            } else {
                j += 1;
            }
        }
        if found == false {
            proof {
                crate::model::lemma_child_index_none(cs, name@);
            }
            return Err(ExecutorError::NotFound(path2));
        }
        proof {
            crate::model::lemma_child_index_found(cs, name@, j as int);
        }
        let entry_node = self.dirs[parent.0].children[j].1;
        let ghost t = crate::model::remove_effect(s0, parent.0 as int, j as int, pv);
        let ghost cs2 = cs.remove(j as int);
        proof {
            cs.remove_ensures(j as int);
        }
        match entry_node {
            Node::FILE(f) => {
                let ghost ch0 = self.dirs@[parent.0 as int].children@;
                let _ = self.dirs[parent.0].children.remove(j);
                proof {
                    ch0.remove_ensures(j as int);
                    assert(dir_abs(self.dirs@[parent.0 as int]).children =~= cs2);
                }
                let mut still = false;
                let mut a: usize = 0;
                let cl2 = self.dirs[parent.0].children.len();
                proof {
                    assert(self.dirs@[parent.0 as int].children@.len() == cs2.len());
                }
                while a < cl2
                    invariant
                        0 <= a <= cl2,
                        parent.0 < self.dirs@.len(),
                        f.0 < self.files@.len(),
                        cl2 == self.dirs@[parent.0 as int].children@.len(),
                        cs2.len() == cl2,
                        cs2 == dir_abs(self.dirs@[parent.0 as int]).children,
                        still == exists|b: int|
                            0 <= b < a && (#[trigger] cs2[b]).1 == NodeG::File(f.0 as int),
                    decreases cl2 - a,
                {
                    let c = self.dirs[parent.0].children[a].1;
                    match c {
                        Node::FILE(g) => {
                            if g.0 == f.0 {
                                proof {
                                    assert(cs2[a as int].1 == NodeG::File(f.0 as int));
                                }
                                still = true;
                            } else {
                                proof {
                                    assert(cs2[a as int].1 != NodeG::File(f.0 as int));
                                }
                            }
                        },
                        Node::DIR(_) => {
                            proof {
                                assert(cs2[a as int].1 != NodeG::File(f.0 as int));
                            }
                        },
                    }
                    a += 1;
                }
                let ghost gstill = exists|b: int|
                    0 <= b < cs2.len() && (#[trigger] cs2[b]).1 == NodeG::File(f.0 as int);
                proof {
                    assert(still == gstill);
                }
                if still == false {
                    let ghost pseq = s0.files[f.0 as int].parents;
                    proof {
                        assert(pseq =~= file_abs(self.files@[f.0 as int]).parents);
                        assert(s0.files[f.0 as int].parents.contains(parent.0 as int)) by {
                            assert(cs[j as int].1 == NodeG::File(f.0 as int));
                        }
                    }
                    let fplen = self.files[f.0].parents.len();
                    let mut w: usize = 0;
                    let mut foundw = false;
                    while w < fplen && !foundw
                        invariant
                            0 <= w <= fplen,
                            f.0 < self.files@.len(),
                            fplen == self.files@[f.0 as int].parents@.len(),
                            pseq.len() == fplen,
                            forall|b: int| 0 <= b < pseq.len() ==> #[trigger] pseq[b]
                                == self.files@[f.0 as int].parents@[b].0 as int,
                            !foundw ==> forall|b: int|
                                0 <= b < w ==> #[trigger] pseq[b] != parent.0 as int,
                            foundw ==> w < pseq.len() && pseq[w as int] == parent.0 as int,
                            pseq.contains(parent.0 as int),
                        decreases fplen - w + (if foundw {
                            0int
                        } else {
                            1int
                        }),
                    {
                        if self.files[f.0].parents[w].0 == parent.0 {
                            foundw = true;
                        } else {
                            w += 1;
                        }
                    }
                    proof {
                        if foundw == false {
                            let u = choose|u: int|
                                0 <= u < pseq.len() && pseq[u] == parent.0 as int;
                            assert(false);
                        }
                        crate::model::lemma_remove_first_at(pseq, parent.0 as int, w as int);
                        pseq.remove_ensures(w as int);
                    }
                    let ghost fpar0 = self.files@[f.0 as int].parents@;
                    let _ = self.files[f.0].parents.remove(w);
                    proof {
                        fpar0.remove_ensures(w as int);
                        assert(file_abs(self.files@[f.0 as int]).parents
                            =~= crate::model::seq_remove_first(pseq, parent.0 as int));
                    }
                }
                self.recording.push(crate::operation::Operation::Remove { path: path2 });
                proof {
                    assert(self.abs().dirs =~~= t.dirs);
                    assert(self.abs().files =~~= t.files);
                    assert(self.abs().recording =~~= t.recording);
                    assert(self.abs() =~~= t);
                    crate::model::lemma_remove_inv(s0, parent.0 as int, j as int, pv);
                }
                Ok(())
            },
            Node::DIR(rd) => {
                proof {
                    assert(cs[j as int].1 == NodeG::Dir(rd.0 as int));
                    assert(rd.0 as int != 0);
                    assert(rd.0 < self.dirs@.len());
                }
                let marks = self.mark_subtree(&rd);
                let ghost ch0 = self.dirs@[parent.0 as int].children@;
                let _ = self.dirs[parent.0].children.remove(j);
                proof {
                    ch0.remove_ensures(j as int);
                    assert(dir_abs(self.dirs@[parent.0 as int]).children =~= cs2);
                    assert(!crate::model::in_subtree(s0, parent.0 as int, rd.0 as int)) by {
                        if crate::model::is_desc(s0, parent.0 as int, rd.0 as int) {
                            crate::model::lemma_desc_smaller(s0, parent.0 as int, rd.0 as int);
                        }
                        assert(s0.dirs[rd.0 as int].parent == Some(parent.0 as int));
                        assert((parent.0 as int) < (rd.0 as int));
                    }
                    assert(dir_abs(self.dirs@[parent.0 as int]) =~~= t.dirs[parent.0 as int]);
                    assert forall|b: int|
                        0 <= b < s0.dirs.len() && b != parent.0 as int implies dir_abs(
                        #[trigger] self.dirs@[b],
                    ) == s0.dirs[b] by {}
                }
                let dlen = self.dirs.len();
                let mut k: usize = 0;
                while k < dlen
                    invariant
                        0 <= k <= dlen,
                        dlen == self.dirs@.len(),
                        self.dirs@.len() == s0.dirs.len(),
                        parent.0 < s0.dirs.len(),
                        rd.0 < s0.dirs.len(),
                        marks@.len() == s0.dirs.len(),
                        t == crate::model::remove_effect(s0, parent.0 as int, j as int, pv),
                        t.dirs.len() == s0.dirs.len(),
                        0 <= (j as int) < cs.len(),
                        cs == s0.dirs[parent.0 as int].children,
                        cs[j as int].1 == NodeG::Dir(rd.0 as int),
                        forall|b: int|
                            0 <= b < marks@.len() ==> marks@[b] == crate::model::in_subtree(
                                s0,
                                b,
                                rd.0 as int,
                            ),
                        forall|b: int|
                            0 <= b < s0.dirs.len() ==> t.dirs[b] == (
                            if crate::model::in_subtree(s0, b, rd.0 as int) {
                                DirG { parent: None, children: Seq::<(Seq<char>, NodeG)>::empty() }
                            } else if b == parent.0 as int {
                                DirG { parent: s0.dirs[parent.0 as int].parent, children: cs.remove(j as int) }
                            } else {
                                s0.dirs[b]
                            }),
                        forall|b: int| 0 <= b < k ==> dir_abs(#[trigger] self.dirs@[b])
                            == t.dirs[b],
                        forall|b: int|
                            k as int <= b < dlen ==> dir_abs(#[trigger] self.dirs@[b]) == (
                            if b == parent.0 as int {
                                t.dirs[parent.0 as int]
                            } else {
                                s0.dirs[b]
                            }),
                        !crate::model::in_subtree(s0, parent.0 as int, rd.0 as int),
                        self.files@.len() == s0.files.len(),
                        forall|g: int|
                            0 <= g < self.files@.len() ==> file_abs(#[trigger] self.files@[g])
                                == s0.files[g],
                        self.recording.ops@.map_values(
                            |op: crate::operation::Operation| op_abs(op),
                        ) == s0.recording,
                        self.nodes_created as int == s0.nodes_created,
                        self.next_descriptor as int == s0.next_descriptor,
                    decreases dlen - k,
                {
                    if marks[k] {
                        self.dirs[k] = Dir { parent: None, children: Vec::new() };
                        proof {
                            assert(dir_abs(self.dirs@[k as int]) =~~= (DirG {
                                parent: None,
                                children: Seq::<(Seq<char>, NodeG)>::empty(),
                            }));
                            assert(k as int != parent.0 as int);
                        }
                    } else {
                        proof {
                            assert(dir_abs(self.dirs@[k as int]) == t.dirs[k as int]);
                        }
                    }
                    k += 1;
                }
                let flen = self.files.len();
                let mut fi: usize = 0;
                proof {
                    assert(self.files@.len() == s0.files.len());
                }
                while fi < flen
                    invariant
                        0 <= fi <= flen,
                        flen == self.files@.len(),
                        self.files@.len() == s0.files.len(),
                        rd.0 < s0.dirs.len(),
                        marks@.len() == s0.dirs.len(),
                        crate::model::inv(s0),
                        t == crate::model::remove_effect(s0, parent.0 as int, j as int, pv),
                        parent.0 < s0.dirs.len(),
                        0 <= (j as int) < s0.dirs[parent.0 as int].children.len(),
                        s0.dirs[parent.0 as int].children[j as int].1 == NodeG::Dir(rd.0 as int),
                        t.files.len() == s0.files.len(),
                        forall|b: int|
                            0 <= b < marks@.len() ==> marks@[b] == crate::model::in_subtree(
                                s0,
                                b,
                                rd.0 as int,
                            ),
                        forall|g: int|
                            0 <= g < s0.files.len() ==> t.files[g] == (FileG {
                                parents: s0.files[g].parents.filter(
                                    |q: int| !(q == rd.0 as int || crate::model::is_desc(
                                        s0,
                                        q,
                                        rd.0 as int,
                                    )),
                                ),
                                descriptor: s0.files[g].descriptor,
                                content: s0.files[g].content,
                            }),
                        forall|g: int| 0 <= g < fi ==> file_abs(#[trigger] self.files@[g])
                            == t.files[g],
                        forall|g: int| fi as int <= g < flen ==> file_abs(
                            #[trigger] self.files@[g],
                        ) == s0.files[g],
                        self.dirs@.len() == s0.dirs.len(),
                        forall|b: int|
                            0 <= b < self.dirs@.len() ==> dir_abs(#[trigger] self.dirs@[b])
                                == t.dirs[b],
                        self.recording.ops@.map_values(
                            |op: crate::operation::Operation| op_abs(op),
                        ) == s0.recording,
                        self.nodes_created as int == s0.nodes_created,
                        self.next_descriptor as int == s0.next_descriptor,
                    decreases flen - fi,
                {
                    let ghost pred = |q: int| !(q == rd.0 as int || crate::model::is_desc(
                        s0,
                        q,
                        rd.0 as int,
                    ));
                    let ghost pseq = s0.files[fi as int].parents;
                    let mut np: Vec<DirIndex> = Vec::new();
                    let fplen = self.files[fi].parents.len();
                    proof {
                        assert(pseq =~= file_abs(self.files@[fi as int]).parents);
                        reveal(Seq::filter);
                        assert(pseq.take(0) =~= Seq::<int>::empty());
                        assert(np@.map_values(|d: DirIndex| d.0 as int) =~= Seq::<int>::empty());
                        assert(Seq::<int>::empty().filter(pred) =~= Seq::<int>::empty());
                    }
                    let mut w: usize = 0;
                    while w < fplen
                        invariant
                            0 <= w <= fplen,
                            fi < self.files@.len(),
                            rd.0 < s0.dirs.len(),
                            marks@.len() == s0.dirs.len(),
                            crate::model::inv(s0),
                            (fi as int) < s0.files.len(),
                            fplen == self.files@[fi as int].parents@.len(),
                            pseq == s0.files[fi as int].parents,
                            pseq.len() == fplen,
                            pred == (|q: int| !(q == rd.0 as int || crate::model::is_desc(
                                s0,
                                q,
                                rd.0 as int,
                            ))),
                            forall|b: int|
                                0 <= b < marks@.len() ==> marks@[b] == crate::model::in_subtree(
                                    s0,
                                    b,
                                    rd.0 as int,
                                ),
                            forall|b: int| 0 <= b < pseq.len() ==> #[trigger] pseq[b]
                                == self.files@[fi as int].parents@[b].0 as int,
                            np@.map_values(|d: DirIndex| d.0 as int) == pseq.take(w as int).filter(
                                pred,
                            ),
                        decreases fplen - w,
                    {
                        let q = self.files[fi].parents[w];
                        proof {
                            assert(pseq[w as int] == q.0 as int);
                            assert(crate::model::alive_dir(s0, pseq[w as int]));
                            assert(q.0 < marks@.len());
                            reveal(Seq::filter);
                            assert(pseq.take(w as int + 1).drop_last() =~= pseq.take(w as int));
                            assert(pseq.take(w as int + 1).last() == pseq[w as int]);
                        }
                        if !marks[q.0] {
                            np.push(q);
                            proof {
                                assert(np@.map_values(|d: DirIndex| d.0 as int) =~= pseq.take(
                                    w as int,
                                ).filter(pred).push(q.0 as int));
                            }
                        }
                        w += 1;
                    }
                    proof {
                        assert(pseq.take(pseq.len() as int) =~= pseq);
                    }
                    self.files[fi].parents = np;
                    proof {
                        assert(file_abs(self.files@[fi as int]) =~~= t.files[fi as int]);
                    }
                    fi += 1;
                }
                self.recording.push(crate::operation::Operation::Remove { path: path2 });
                proof {
                    assert(self.abs().dirs =~~= t.dirs);
                    assert(self.abs().files =~~= t.files);
                    assert(self.abs().recording =~~= t.recording);
                    assert(self.abs() =~~= t);
                    crate::model::lemma_remove_inv(s0, parent.0 as int, j as int, pv);
                }
                Ok(())
            },
        }
    }

    /// Adds a hardlink at `new_path` to the file at `old_path`. The new
    /// name must be free; the recording keeps the file's greatest
    /// existing path together with the canonical new path.
    pub fn hardlink(&mut self, old_path: PathName, new_path: PathName) -> (r: Result<
        FileIndex,
        ExecutorError,
    >)
        requires
            old(self).wf(),
        ensures
            final(self).wf(),
            match r {
                Ok(idx) => crate::model::step_hardlink(old(self).abs(), old_path@, new_path@)
                    == Ok::<FsG, ErrG>(final(self).abs()) && crate::model::resolve_file_g(
                    old(self).abs(),
                    old_path@,
                ) == Ok::<int, ErrG>(idx.0 as int),
                Err(e) => crate::model::step_hardlink(old(self).abs(), old_path@, new_path@)
                    == Err::<FsG, ErrG>(err_abs(e)) && final(self).abs() == old(self).abs(),
            },
    {
        let ghost s0 = self.abs();
        let ghost opv = old_path@;
        let old_file = match self.resolve_file(old_path) {
            Ok(f) => f,
            Err(e) => {
                return Err(e);
            },
        };
        proof {
            crate::model::lemma_resolve_file_linked(s0, opv);
        }
        if !new_path.is_valid() {
            return Err(ExecutorError::InvalidPath(new_path));
        }
        let (parent_path, name) = new_path.split();
        if name.as_str().unicode_len() == 0 {
            return Err(ExecutorError::InvalidPath(new_path));
        }
        proof {
            crate::pathname::lemma_split_shape(new_path@);
        }
        let parent = match self.resolve_dir(parent_path) {
            Ok(p) => p,
            Err(e) => {
                return Err(e);
            },
        };
        proof {
            crate::model::lemma_resolve_alive(s0, crate::pathname::split_parent(new_path@));
        }
        if self.name_exists(&parent, name.as_str()) {
            let cp = self.make_path(&parent, &name);
            return Err(ExecutorError::NameAlreadyExists(cp));
        }
        let old_paths = self.resolve_file_path(&old_file);
        let old_rec = old_paths[old_paths.len() - 1].clone_path();
        proof {
            crate::model::lemma_sorted_last_is_max(
                path_views(old_paths@),
                crate::model::file_paths(s0, old_file.0 as int),
            );
            assert(path_views(old_paths@)[old_paths@.len() - 1] == old_rec@);
        }
        let cp = self.make_path(&parent, &name);
        let ghost pseq = s0.files[old_file.0 as int].parents;
        let file_parents = &self.files[old_file.0].parents;
        let mut has = false;
        let mut k: usize = 0;
        proof {
            assert(pseq =~= file_abs(self.files@[old_file.0 as int]).parents);
        }
        while k < file_parents.len()
            invariant
                0 <= k <= file_parents@.len(),
                file_parents@ == self.files@[old_file.0 as int].parents@,
                old_file.0 < self.files@.len(),
                pseq.len() == file_parents@.len(),
                forall|j: int| 0 <= j < pseq.len() ==> #[trigger] pseq[j] == file_parents@[j].0 as int,
                has == exists|j: int| 0 <= j < k && #[trigger] pseq[j] == parent.0 as int,
            decreases file_parents@.len() - k,
        {
            if file_parents[k].0 == parent.0 {
                proof {
                    assert(pseq[k as int] == parent.0 as int);
                }
                has = true;
            }
            k += 1;
        }
        proof {
            if has {
                assert(pseq.contains(parent.0 as int));
            } else {
                assert(!pseq.contains(parent.0 as int)) by {
                    if pseq.contains(parent.0 as int) {
                        let j = choose|j: int| 0 <= j < pseq.len() && pseq[j] == parent.0 as int;
                        assert(false);
                    }
                }
            }
        }
        if has == false {
            self.files[old_file.0].parents.push(parent);
        }
        let ghost name_view = name@;
        self.dirs[parent.0].children.push((name, Node::FILE(old_file)));
        self.recording.push(
            crate::operation::Operation::Hardlink { old_path: old_rec, new_path: cp },
        );
        let reclen = self.recording.len();
        proof {
            assert(self.nodes_created < reclen);
        }
        self.nodes_created = self.nodes_created + 1;
        proof {
            let t = match crate::model::step_hardlink(s0, opv, new_path@) {
                Ok(t) => t,
                Err(_) => s0,
            };
            assert(self.abs().dirs =~~= t.dirs);
            assert(self.abs().files =~~= t.files);
            assert(self.abs().recording =~~= t.recording);
            assert(self.abs() =~~= t);
            crate::model::lemma_hardlink_inv(
                s0,
                old_file.0 as int,
                parent.0 as int,
                name_view,
                self.abs(),
            );
        }
        Ok(old_file)
    }

    /// All absolute paths under which file `file_idx` is reachable, one
    /// per hardlink, in lexicographic order.
    pub fn resolve_file_path(&self, file_idx: &FileIndex) -> (r: Vec<PathName>)
        requires
            self.wf(),
            file_idx.0 < self.files@.len(),
        ensures
            crate::text::lex_sorted(path_views(r@)),
            path_views(r@).to_multiset() == crate::model::file_paths(
                self.abs(),
                file_idx.0 as int,
            ).to_multiset(),
            r@.len() == crate::model::file_paths(self.abs(), file_idx.0 as int).len(),
            forall|k: int, l: int|
                0 <= k < l < r@.len() ==> #[trigger] path_views(r@)[k] != #[trigger] path_views(
                    r@,
                )[l],
    {
        let ghost s = self.abs();
        let ghost fidx = file_idx.0 as int;
        let ghost pseq = s.files[fidx].parents;
        let ghost goal = crate::model::file_paths(s, fidx);
        let mut paths: Vec<PathName> = Vec::new();
        let parents = &self.files[file_idx.0].parents;
        proof {
            assert(s.files[fidx] =~~= file_abs(self.files@[fidx]));
            assert(pseq.skip(0) =~= pseq);
            assert(path_views(paths@) =~= Seq::<Seq<char>>::empty());
            assert(Seq::<Seq<char>>::empty() + crate::model::file_paths_from(s, pseq, fidx)
                =~= crate::model::file_paths_from(s, pseq, fidx));
        }
        let mut k: usize = 0;
        while k < parents.len()
            invariant
                0 <= k <= parents@.len(),
                self.wf(),
                s == self.abs(),
                file_idx.0 < self.files@.len(),
                fidx == file_idx.0 as int,
                parents@ == self.files@[fidx].parents@,
                pseq == s.files[fidx].parents,
                goal == crate::model::file_paths(s, fidx),
                pseq.len() == parents@.len(),
                forall|j: int| 0 <= j < pseq.len() ==> #[trigger] pseq[j] == parents@[j].0 as int,
                path_views(paths@) + crate::model::file_paths_from(s, pseq.skip(k as int), fidx)
                    == goal,
            decreases parents@.len() - k,
        {
            let p = parents[k];
            proof {
                assert(pseq[k as int] == p.0 as int);
                assert(crate::model::inv(s));
                assert(alive_dir(s, pseq[k as int]));
                assert(pseq.skip(k as int)[0] == pseq[k as int]);
                assert(pseq.skip(k as int).skip(1) =~= pseq.skip(k as int + 1));
            }
            let ghost cs = s.dirs[p.0 as int].children;
            let children = &self.dirs[p.0].children;
            proof {
                assert(cs =~= dir_abs(self.dirs@[p.0 as int]).children);
                assert(cs.skip(0) =~= cs);
                assert(crate::model::file_links_in(cs, fidx).map_values(
                    |n: Seq<char>| crate::pathname::path_join(
                        crate::model::path_of(s, p.0 as int),
                        n,
                    ),
                ) + crate::model::file_paths_from(s, pseq.skip(k as int + 1), fidx)
                    =~= crate::model::file_paths_from(s, pseq.skip(k as int), fidx));
            }
            let mut i: usize = 0;
            while i < children.len()
                invariant
                    0 <= i <= children@.len(),
                    self.wf(),
                    s == self.abs(),
                    p.0 < self.dirs@.len(),
                    alive_dir(s, p.0 as int),
                    fidx == file_idx.0 as int,
                    goal == crate::model::file_paths(s, fidx),
                    children@ == self.dirs@[p.0 as int].children@,
                    cs == s.dirs[p.0 as int].children,
                    cs.len() == children@.len(),
                    forall|j: int| 0 <= j < cs.len() ==> #[trigger] cs[j] == (
                        children@[j].0@,
                        node_abs(children@[j].1),
                    ),
                    path_views(paths@) + (crate::model::file_links_in(
                        cs.skip(i as int),
                        fidx,
                    ).map_values(
                        |n: Seq<char>| crate::pathname::path_join(
                            crate::model::path_of(s, p.0 as int),
                            n,
                        ),
                    ) + crate::model::file_paths_from(s, pseq.skip(k as int + 1), fidx)) == goal,
                decreases children@.len() - i,
            {
                let ghost g = |n: Seq<char>| crate::pathname::path_join(
                    crate::model::path_of(s, p.0 as int),
                    n,
                );
                proof {
                    assert(cs.skip(i as int)[0] == cs[i as int]);
                    assert(cs.skip(i as int).skip(1) =~= cs.skip(i as int + 1));
                }
                let c = children[i].1;
                let is_link = match c {
                    Node::FILE(f2) => f2.0 == file_idx.0,
                    Node::DIR(_) => false,
                };
                proof {
                    assert(c == children@[i as int].1);
                    assert(cs[i as int].1 == node_abs(children@[i as int].1));
                }
                if is_link {
                    let pp = self.make_path(&p, &children[i].0);
                    proof {
                        assert(cs[i as int].1 == NodeG::File(fidx));
                        let links = crate::model::file_links_in(cs.skip(i as int), fidx);
                        assert(links == seq![cs[i as int].0] + crate::model::file_links_in(
                            cs.skip(i as int + 1),
                            fidx,
                        ));
                        assert(links.map_values(g) =~= seq![g(cs[i as int].0)]
                            + crate::model::file_links_in(cs.skip(i as int + 1), fidx).map_values(
                            g,
                        ));
                        assert(pp@ == g(cs[i as int].0));
                        assert(path_views(paths@.push(pp)) =~= path_views(paths@).push(pp@));
                        assert(path_views(paths@).push(pp@) + (crate::model::file_links_in(
                            cs.skip(i as int + 1),
                            fidx,
                        ).map_values(g) + crate::model::file_paths_from(
                            s,
                            pseq.skip(k as int + 1),
                            fidx,
                        )) =~= path_views(paths@) + (links.map_values(g)
                            + crate::model::file_paths_from(s, pseq.skip(k as int + 1), fidx)));
                    }
                    paths.push(pp);
                } else {
                    proof {
                        assert(cs[i as int].1 != NodeG::File(fidx));
                        assert(crate::model::file_links_in(cs.skip(i as int), fidx)
                            == crate::model::file_links_in(cs.skip(i as int + 1), fidx));
                    }
                }
                i += 1;
            }
            proof {
                assert(cs.skip(cs.len() as int).len() == 0);
                assert(crate::model::file_links_in(cs.skip(cs.len() as int), fidx).map_values(
                    |n: Seq<char>| crate::pathname::path_join(
                        crate::model::path_of(s, p.0 as int),
                        n,
                    ),
                ) =~= Seq::<Seq<char>>::empty());
                assert(path_views(paths@) + (Seq::<Seq<char>>::empty()
                    + crate::model::file_paths_from(s, pseq.skip(k as int + 1), fidx))
                    =~= path_views(paths@) + crate::model::file_paths_from(
                    s,
                    pseq.skip(k as int + 1),
                    fidx,
                ));
            }
            k += 1;
        }
        proof {
            assert(pseq.skip(pseq.len() as int).len() == 0);
            assert(path_views(paths@) + crate::model::file_paths_from(
                s,
                pseq.skip(pseq.len() as int),
                fidx,
            ) =~= path_views(paths@));
        }
        let r = sort_paths(paths);
        proof {
            path_views(r@).to_multiset_ensures();
            goal.to_multiset_ensures();
            crate::laws::lemma_file_paths_distinct_from(s, pseq, fidx);
            assert forall|k: int, l: int|
                0 <= k < l < r@.len() implies #[trigger] path_views(r@)[k]
                != #[trigger] path_views(r@)[l] by {
                if path_views(r@)[k] == path_views(r@)[l] {
                    crate::laws::lemma_pair_count(path_views(r@), k, l);
                    crate::laws::lemma_distinct_count(goal, path_views(r@)[k]);
                }
            }
        }
        r
    }

    /// The file currently holding the open descriptor `des`, if any.
    fn find_descriptor(&self, des: usize) -> (r: Option<FileIndex>)
        requires
            self.wf(),
        ensures
            match r {
                Some(f) => f.0 < self.files@.len() && self.abs().files[f.0 as int].descriptor
                    == Some(des as int) && crate::model::some_file_has_descriptor(
                    self.abs(),
                    des as int,
                ) && crate::model::file_with_descriptor(self.abs(), des as int) == f.0 as int,
                None => !crate::model::some_file_has_descriptor(self.abs(), des as int),
            },
    {
        let ghost s = self.abs();
        let mut i: usize = 0;
        while i < self.files.len()
            invariant
                0 <= i <= self.files@.len(),
                self.wf(),
                s == self.abs(),
                forall|g: int| 0 <= g < i ==> (#[trigger] s.files[g]).descriptor != Some(
                    des as int,
                ),
            decreases self.files@.len() - i,
        {
            let matched = match self.files[i].descriptor {
                Some(d) => d.0 == des,
                None => false,
            };
            proof {
                assert(s.files[i as int] == file_abs(self.files@[i as int]));
            }
            if matched {
                proof {
                    assert(s.files[i as int].descriptor == Some(des as int));
                    let w = crate::model::file_with_descriptor(s, des as int);
                    assert(s.files[w].descriptor == Some(des as int));
                    if w != i as int {
                        assert(crate::model::wf_descriptors(s));
                        assert(false);
                    }
                }
                return Some(FileIndex(i));
            }
            i += 1;
        }
        proof {
            if crate::model::some_file_has_descriptor(s, des as int) {
                let w = choose|w: int|
                    0 <= w < s.files.len() && (#[trigger] s.files[w]).descriptor == Some(
                        des as int,
                    );
                assert(false);
            }
        }
        None
    }

    /// Opens the file at `path`, assigning the next descriptor index.
    /// A file holds at most one open descriptor at a time.
    pub fn open(&mut self, path: PathName) -> (r: Result<FileDescriptor, ExecutorError>)
        requires
            old(self).wf(),
        ensures
            final(self).wf(),
            match r {
                Ok(fd) => fd.0 == old(self).next_descriptor && crate::model::step_open(
                    old(self).abs(),
                    path@,
                    fd.0 as int,
                ) == Ok::<FsG, ErrG>(final(self).abs()),
                Err(e) => crate::model::step_open(
                    old(self).abs(),
                    path@,
                    old(self).next_descriptor as int,
                ) == Err::<FsG, ErrG>(err_abs(e)) && final(self).abs() == old(self).abs(),
            },
    {
        let ghost s0 = self.abs();
        let ghost pvv = path@;
        let p2 = path.clone_path();
        let f = match self.resolve_file(path) {
            Ok(f) => f,
            Err(e) => {
                return Err(e);
            },
        };
        let already = match self.files[f.0].descriptor {
            Some(_) => true,
            None => false,
        };
        proof {
            assert(s0.files[f.0 as int] == file_abs(self.files@[f.0 as int]));
        }
        if already {
            return Err(ExecutorError::AlreadyOpen(p2));
        }
        let fd = FileDescriptor(self.next_descriptor);
        self.files[f.0].descriptor = Some(fd);
        self.recording.push(crate::operation::Operation::Open { path: p2, des: fd });
        let reclen = self.recording.len();
        proof {
            assert(self.next_descriptor < reclen);
        }
        self.next_descriptor = self.next_descriptor + 1;
        proof {
            let t = match crate::model::step_open(s0, pvv, fd.0 as int) {
                Ok(t) => t,
                Err(_) => s0,
            };
            assert(self.abs().files =~~= t.files);
            assert(self.abs().dirs =~~= t.dirs);
            assert(self.abs().recording =~~= t.recording);
            assert(self.abs() =~~= t);
            assert(crate::model::wf_descriptors(self.abs())) by {
                assert forall|a: int, b: int|
                    0 <= a < self.abs().files.len() && 0 <= b < self.abs().files.len() && a != b
                        && (#[trigger] self.abs().files[a]).descriptor is Some && (
                    #[trigger] self.abs().files[b]).descriptor is Some implies self.abs().files[a].descriptor
                    != self.abs().files[b].descriptor by {
                    if a != f.0 as int && b != f.0 as int {
                        assert(s0.files[a].descriptor == self.abs().files[a].descriptor);
                        assert(s0.files[b].descriptor == self.abs().files[b].descriptor);
                    }
                }
            }
            crate::model::lemma_nonstructural_inv(s0, self.abs());
        }
        Ok(fd)
    }

    /// Closes the open descriptor `des`; its index is never reused.
    pub fn close(&mut self, des: FileDescriptor) -> (r: Result<(), ExecutorError>)
        requires
            old(self).wf(),
        ensures
            final(self).wf(),
            match r {
                Ok(()) => crate::model::step_close(old(self).abs(), des.0 as int) == Ok::<
                    FsG,
                    ErrG,
                >(final(self).abs()),
                Err(e) => crate::model::step_close(old(self).abs(), des.0 as int) == Err::<
                    FsG,
                    ErrG,
                >(err_abs(e)) && final(self).abs() == old(self).abs(),
            },
    {
        let ghost s0 = self.abs();
        let f = match self.find_descriptor(des.0) {
            Some(f) => f,
            None => {
                return Err(ExecutorError::InvalidDescriptor(des.0));
            },
        };
        self.files[f.0].descriptor = None;
        self.recording.push(crate::operation::Operation::Close { des });
        proof {
            let t = match crate::model::step_close(s0, des.0 as int) {
                Ok(t) => t,
                Err(_) => s0,
            };
            assert(self.abs().files =~~= t.files);
            assert(self.abs().dirs =~~= t.dirs);
            assert(self.abs().recording =~~= t.recording);
            assert(self.abs() =~~= t);
            assert(crate::model::wf_descriptors(self.abs())) by {
                assert forall|a: int, b: int|
                    0 <= a < self.abs().files.len() && 0 <= b < self.abs().files.len() && a != b
                        && (#[trigger] self.abs().files[a]).descriptor is Some && (
                    #[trigger] self.abs().files[b]).descriptor is Some implies self.abs().files[a].descriptor
                    != self.abs().files[b].descriptor by {
                    assert(s0.files[a].descriptor == self.abs().files[a].descriptor);
                    assert(s0.files[b].descriptor == self.abs().files[b].descriptor);
                }
            }
            crate::model::lemma_nonstructural_inv(s0, self.abs());
        }
        Ok(())
    }

    /// Records a read of `size` bytes through the open descriptor `des`.
    pub fn read(&mut self, des: FileDescriptor, size: u64) -> (r: Result<(), ExecutorError>)
        requires
            old(self).wf(),
        ensures
            final(self).wf(),
            match r {
                Ok(()) => crate::model::step_read(old(self).abs(), des.0 as int, size as int)
                    == Ok::<FsG, ErrG>(final(self).abs()),
                Err(e) => crate::model::step_read(old(self).abs(), des.0 as int, size as int)
                    == Err::<FsG, ErrG>(err_abs(e)) && final(self).abs() == old(self).abs(),
            },
    {
        let ghost s0 = self.abs();
        match self.find_descriptor(des.0) {
            Some(_) => {},
            None => {
                return Err(ExecutorError::InvalidDescriptor(des.0));
            },
        }
        self.recording.push(crate::operation::Operation::Read { des, size });
        proof {
            let t = match crate::model::step_read(s0, des.0 as int, size as int) {
                Ok(t) => t,
                Err(_) => s0,
            };
            assert(self.abs().recording =~~= t.recording);
            assert(self.abs() =~~= t);
            crate::model::lemma_nonstructural_inv(s0, self.abs());
        }
        Ok(())
    }

    /// Records a write through the open descriptor `des`: `size` bytes
    /// taken from the source buffer at `src_offset`.
    pub fn write(&mut self, des: FileDescriptor, src_offset: u64, size: u64) -> (r: Result<
        (),
        ExecutorError,
    >)
        requires
            old(self).wf(),
        ensures
            final(self).wf(),
            match r {
                Ok(()) => crate::model::step_write(
                    old(self).abs(),
                    des.0 as int,
                    src_offset as int,
                    size as int,
                ) == Ok::<FsG, ErrG>(final(self).abs()),
                Err(e) => crate::model::step_write(
                    old(self).abs(),
                    des.0 as int,
                    src_offset as int,
                    size as int,
                ) == Err::<FsG, ErrG>(err_abs(e)) && final(self).abs() == old(self).abs(),
            },
    {
        let ghost s0 = self.abs();
        let f = match self.find_descriptor(des.0) {
            Some(f) => f,
            None => {
                return Err(ExecutorError::InvalidDescriptor(des.0));
            },
        };
        if src_offset > u64::MAX - size {
            return Err(ExecutorError::InvalidRange(src_offset, size));
        }
        self.files[f.0].content.write(src_offset, size);
        self.recording.push(
            crate::operation::Operation::Write { des, src_offset, size },
        );
        proof {
            let t = match crate::model::step_write(s0, des.0 as int, src_offset as int, size as int) {
                Ok(t) => t,
                Err(_) => s0,
            };
            assert(self.abs().files =~~= t.files);
            assert(self.abs().dirs =~~= t.dirs);
            assert(self.abs().recording =~~= t.recording);
            assert(self.abs() =~~= t);
            assert(crate::model::wf_descriptors(self.abs())) by {
                assert(forall|a: int|
                    0 <= a < self.abs().files.len() ==> (#[trigger] self.abs().files[a]).descriptor
                        == s0.files[a].descriptor);
            }
            crate::model::lemma_nonstructural_inv(s0, self.abs());
        }
        Ok(())
    }

    /// Records an fsync of the open descriptor `des`.
    pub fn fsync(&mut self, des: FileDescriptor) -> (r: Result<(), ExecutorError>)
        requires
            old(self).wf(),
        ensures
            final(self).wf(),
            match r {
                Ok(()) => crate::model::step_fsync(old(self).abs(), des.0 as int) == Ok::<
                    FsG,
                    ErrG,
                >(final(self).abs()),
                Err(e) => crate::model::step_fsync(old(self).abs(), des.0 as int) == Err::<
                    FsG,
                    ErrG,
                >(err_abs(e)) && final(self).abs() == old(self).abs(),
            },
    {
        let ghost s0 = self.abs();
        match self.find_descriptor(des.0) {
            Some(_) => {},
            None => {
                return Err(ExecutorError::InvalidDescriptor(des.0));
            },
        }
        self.recording.push(crate::operation::Operation::FSync { des });
        proof {
            let t = match crate::model::step_fsync(s0, des.0 as int) {
                Ok(t) => t,
                Err(_) => s0,
            };
            assert(self.abs().recording =~~= t.recording);
            assert(self.abs() =~~= t);
            crate::model::lemma_nonstructural_inv(s0, self.abs());
        }
        Ok(())
    }

    /// Moves the file link at `old_path` to `new_path`. The new name
    /// must be free; an open descriptor follows the file. Directories
    /// are not renamed by the model.
    pub fn rename(&mut self, old_path: PathName, new_path: PathName) -> (r: Result<
        (),
        ExecutorError,
    >)
        requires
            old(self).wf(),
        ensures
            final(self).wf(),
            match r {
                Ok(()) => crate::model::step_rename(old(self).abs(), old_path@, new_path@) == Ok::<
                    FsG,
                    ErrG,
                >(final(self).abs()),
                Err(e) => crate::model::step_rename(old(self).abs(), old_path@, new_path@)
                    == Err::<FsG, ErrG>(err_abs(e)) && final(self).abs() == old(self).abs(),
            },
    {
        let ghost s0 = self.abs();
        let ghost opv = old_path@;
        let ghost npv = new_path@;
        let old2 = old_path.clone_path();
        let f = match self.resolve_file(old_path) {
            Ok(f) => f,
            Err(e) => {
                return Err(e);
            },
        };
        let (oparent_path, oname) = old2.split();
        let oparent = match self.resolve_dir(oparent_path) {
            Ok(p) => p,
            Err(e) => {
                return Err(e);
            },
        };
        proof {
            crate::model::lemma_resolve_alive(s0, crate::pathname::split_parent(opv));
        }
        if !new_path.is_valid() {
            return Err(ExecutorError::InvalidPath(new_path));
        }
        let (nparent_path, nname) = new_path.split();
        if nname.as_str().unicode_len() == 0 {
            return Err(ExecutorError::InvalidPath(new_path));
        }
        proof {
            crate::pathname::lemma_split_shape(npv);
        }
        let nparent = match self.resolve_dir(nparent_path) {
            Ok(p) => p,
            Err(e) => {
                return Err(e);
            },
        };
        proof {
            crate::model::lemma_resolve_alive(s0, crate::pathname::split_parent(npv));
        }
        if self.name_exists(&nparent, nname.as_str()) {
            let cp = self.make_path(&nparent, &nname);
            return Err(ExecutorError::NameAlreadyExists(cp));
        }
        let ghost cs = s0.dirs[oparent.0 as int].children;
        proof {
            assert(cs =~= dir_abs(self.dirs@[oparent.0 as int]).children);
            assert(crate::model::wf_children(s0, oparent.0 as int));
        }
        let children_len = self.dirs[oparent.0].children.len();
        let mut j: usize = 0;
        let mut found = false;
        while j < children_len && !found
            invariant
                0 <= j <= children_len,
                self.wf(),
                s0 == self.abs(),
                oparent.0 < self.dirs@.len(),
                children_len == self.dirs@[oparent.0 as int].children@.len(),
                cs == s0.dirs[oparent.0 as int].children,
                cs.len() == children_len,
                forall|a: int| 0 <= a < cs.len() ==> #[trigger] cs[a] == (
                    self.dirs@[oparent.0 as int].children@[a].0@,
                    node_abs(self.dirs@[oparent.0 as int].children@[a].1),
                ),
                !found ==> forall|a: int| 0 <= a < j ==> (#[trigger] cs[a]).0 != oname@,
                found ==> j < cs.len() && cs[j as int].0 == oname@,
            decreases children_len - j + (if found {
                0int
            } else {
                1int
            }),
        {
            if crate::text::str_eq(self.dirs[oparent.0].children[j].0.as_str(), oname.as_str()) {
                found = true;
            } else {
                j += 1;
            }
        }
        let entry_matches = if found {
            match self.dirs[oparent.0].children[j].1 {
                Node::FILE(g) => g.0 == f.0,
                Node::DIR(_) => false,
            }
        } else {
            false
        };
        if entry_matches == false {
            proof {
                if !found {
                    crate::model::lemma_child_index_none(cs, oname@);
                } else {
                    crate::model::lemma_child_index_found(cs, oname@, j as int);
                }
            }
            return Err(ExecutorError::NotFound(old2));
        }
        proof {
            crate::model::lemma_child_index_found(cs, oname@, j as int);
            assert(cs[j as int].1 == NodeG::File(f.0 as int));
        }
        let cp = self.make_path(&nparent, &nname);
        let ghost t = crate::model::rename_effect(
            s0,
            f.0 as int,
            oparent.0 as int,
            j as int,
            nparent.0 as int,
            nname@,
            opv,
        );
        let ghost cs2 = cs.remove(j as int);
        proof {
            cs.remove_ensures(j as int);
        }
        let ghost ch0 = self.dirs@[oparent.0 as int].children@;
        let _ = self.dirs[oparent.0].children.remove(j);
        proof {
            ch0.remove_ensures(j as int);
            assert(dir_abs(self.dirs@[oparent.0 as int]).children =~= cs2);
        }
        let mut still = false;
        let mut a: usize = 0;
        let cl2 = self.dirs[oparent.0].children.len();
        while a < cl2
            invariant
                0 <= a <= cl2,
                oparent.0 < self.dirs@.len(),
                f.0 < self.files@.len(),
                cl2 == self.dirs@[oparent.0 as int].children@.len(),
                cs2.len() == cl2,
                cs2 == dir_abs(self.dirs@[oparent.0 as int]).children,
                still == exists|b: int|
                    0 <= b < a && (#[trigger] cs2[b]).1 == NodeG::File(f.0 as int),
            decreases cl2 - a,
        {
            let c = self.dirs[oparent.0].children[a].1;
            match c {
                Node::FILE(g) => {
                    if g.0 == f.0 {
                        proof {
                            assert(cs2[a as int].1 == NodeG::File(f.0 as int));
                        }
                        still = true;
                    } else {
                        proof {
                            assert(cs2[a as int].1 != NodeG::File(f.0 as int));
                        }
                    }
                },
                Node::DIR(_) => {
                    proof {
                        assert(cs2[a as int].1 != NodeG::File(f.0 as int));
                    }
                },
            }
            a += 1;
        }
        let ghost gstill = exists|b: int|
            0 <= b < cs2.len() && (#[trigger] cs2[b]).1 == NodeG::File(f.0 as int);
        proof {
            assert(still == gstill);
        }
        if still == false {
            let ghost pseq = s0.files[f.0 as int].parents;
            proof {
                assert(pseq =~= file_abs(self.files@[f.0 as int]).parents);
                assert(s0.files[f.0 as int].parents.contains(oparent.0 as int)) by {
                    assert(cs[j as int].1 == NodeG::File(f.0 as int));
                }
            }
            let fplen = self.files[f.0].parents.len();
            let mut w: usize = 0;
            let mut foundw = false;
            while w < fplen && !foundw
                invariant
                    0 <= w <= fplen,
                    f.0 < self.files@.len(),
                    fplen == self.files@[f.0 as int].parents@.len(),
                    pseq.len() == fplen,
                    forall|b: int| 0 <= b < pseq.len() ==> #[trigger] pseq[b]
                        == self.files@[f.0 as int].parents@[b].0 as int,
                    !foundw ==> forall|b: int| 0 <= b < w ==> #[trigger] pseq[b] != oparent.0 as int,
                    foundw ==> w < pseq.len() && pseq[w as int] == oparent.0 as int,
                    pseq.contains(oparent.0 as int),
                decreases fplen - w + (if foundw {
                    0int
                } else {
                    1int
                }),
            {
                if self.files[f.0].parents[w].0 == oparent.0 {
                    foundw = true;
                } else {
                    w += 1;
                }
            }
            proof {
                if foundw == false {
                    let u = choose|u: int| 0 <= u < pseq.len() && pseq[u] == oparent.0 as int;
                    assert(false);
                }
                crate::model::lemma_remove_first_at(pseq, oparent.0 as int, w as int);
                pseq.remove_ensures(w as int);
            }
            let ghost fpar0 = self.files@[f.0 as int].parents@;
            let _ = self.files[f.0].parents.remove(w);
            proof {
                fpar0.remove_ensures(w as int);
                assert(file_abs(self.files@[f.0 as int]).parents
                    =~= crate::model::seq_remove_first(pseq, oparent.0 as int));
            }
        }
        let ghost parents1 = file_abs(self.files@[f.0 as int]).parents;
        let fplen2 = self.files[f.0].parents.len();
        let mut has = false;
        let mut k: usize = 0;
        while k < fplen2
            invariant
                0 <= k <= fplen2,
                f.0 < self.files@.len(),
                fplen2 == self.files@[f.0 as int].parents@.len(),
                parents1 == file_abs(self.files@[f.0 as int]).parents,
                parents1.len() == fplen2,
                forall|b: int| 0 <= b < parents1.len() ==> #[trigger] parents1[b]
                    == self.files@[f.0 as int].parents@[b].0 as int,
                has == exists|b: int| 0 <= b < k && #[trigger] parents1[b] == nparent.0 as int,
            decreases fplen2 - k,
        {
            if self.files[f.0].parents[k].0 == nparent.0 {
                proof {
                    assert(parents1[k as int] == nparent.0 as int);
                }
                has = true;
            }
            k += 1;
        }
        proof {
            if has {
                assert(parents1.contains(nparent.0 as int));
            } else {
                if parents1.contains(nparent.0 as int) {
                    let u = choose|u: int|
                        0 <= u < parents1.len() && parents1[u] == nparent.0 as int;
                    assert(false);
                }
            }
        }
        if has == false {
            self.files[f.0].parents.push(nparent);
        }
        let ghost nname_view = nname@;
        self.dirs[nparent.0].children.push((nname, Node::FILE(f)));
        self.recording.push(
            crate::operation::Operation::Rename { old_path: old2, new_path: cp },
        );
        proof {
            assert(self.abs().dirs =~~= t.dirs);
            assert(self.abs().files =~~= t.files);
            assert(self.abs().recording =~~= t.recording);
            assert(self.abs() =~~= t);
            crate::model::lemma_rename_inv(
                s0,
                f.0 as int,
                oparent.0 as int,
                j as int,
                nparent.0 as int,
                nname_view,
                opv,
            );
        }
        Ok(())
    }

    /// Replays a workload, operation by operation, stopping at the first
    /// operation the state rejects: on failure the operations before the
    /// failing one remain applied.
    pub fn replay(&mut self, workload: &Workload) -> (r: Result<(), ExecutorError>)
        requires
            old(self).wf(),
        ensures
            final(self).wf(),
            match r {
                Ok(()) => crate::model::run_ops(
                    old(self).abs(),
                    workload.ops@.map_values(|op: crate::operation::Operation| op_abs(op)),
                ) == Ok::<FsG, ErrG>(final(self).abs()),
                Err(e) => {
                    let opsg = workload.ops@.map_values(
                        |op: crate::operation::Operation| op_abs(op),
                    );
                    &&& crate::model::run_ops(old(self).abs(), opsg) == Err::<FsG, ErrG>(
                        err_abs(e),
                    )
                    &&& exists|k: int|
                        0 <= k < opsg.len() && crate::model::run_ops(
                            old(self).abs(),
                            #[trigger] opsg.take(k),
                        ) == Ok::<FsG, ErrG>(final(self).abs()) && crate::model::step(
                            final(self).abs(),
                            opsg[k],
                        ) == Err::<FsG, ErrG>(err_abs(e))
                },
            },
    {
        let ghost s0 = self.abs();
        let ghost opsg = workload.ops@.map_values(|op: crate::operation::Operation| op_abs(op));
        let mut i: usize = 0;
        proof {
            assert(opsg.skip(0) =~= opsg);
            assert(opsg.take(0).len() == 0);
        }
        while i < workload.ops.len()
            invariant
                0 <= i <= workload.ops@.len(),
                self.wf(),
                s0 == old(self).abs(),
                opsg == workload.ops@.map_values(|op: crate::operation::Operation| op_abs(op)),
                opsg.len() == workload.ops@.len(),
                crate::model::run_ops(s0, opsg) == crate::model::run_ops(
                    self.abs(),
                    opsg.skip(i as int),
                ),
                crate::model::run_ops(s0, opsg.take(i as int)) == Ok::<FsG, ErrG>(self.abs()),
            decreases workload.ops@.len() - i,
        {
            proof {
                assert(opsg.skip(i as int)[0] == opsg[i as int]);
                assert(opsg[i as int] == op_abs(workload.ops@[i as int]));
                assert(opsg.skip(i as int).skip(1) =~= opsg.skip(i as int + 1));
            }
            let step_result: Result<(), ExecutorError> = match &workload.ops[i] {
                crate::operation::Operation::Create { path, mode } => {
                    match self.create(path.clone_path(), crate::flags::clone_mode(mode)) {
                        Ok(_) => Ok(()),
                        Err(e) => Err(e),
                    }
                },
                crate::operation::Operation::MkDir { path, mode } => {
                    match self.mkdir(path.clone_path(), crate::flags::clone_mode(mode)) {
                        Ok(_) => Ok(()),
                        Err(e) => Err(e),
                    }
                },
                crate::operation::Operation::Remove { path } => {
                    self.remove(path.clone_path())
                },
                crate::operation::Operation::Hardlink { old_path, new_path } => {
                    match self.hardlink(old_path.clone_path(), new_path.clone_path()) {
                        Ok(_) => Ok(()),
                        Err(e) => Err(e),
                    }
                },
                crate::operation::Operation::Rename { old_path, new_path } => {
                    self.rename(old_path.clone_path(), new_path.clone_path())
                },
                crate::operation::Operation::Open { path, des } => {
                    if des.0 != self.next_descriptor {
                        Err(ExecutorError::InvalidDescriptor(des.0))
                    } else {
                        match self.open(path.clone_path()) {
                            Ok(_) => Ok(()),
                            Err(e) => Err(e),
                        }
                    }
                },
                crate::operation::Operation::Close { des } => self.close(*des),
                crate::operation::Operation::Read { des, size } => self.read(*des, *size),
                crate::operation::Operation::Write { des, src_offset, size } => {
                    self.write(*des, *src_offset, *size)
                },
                crate::operation::Operation::FSync { des } => self.fsync(*des),
                crate::operation::Operation::Symlink { target, linkpath } => {
                    match self.symlink(target.clone_path(), linkpath.clone_path()) {
                        Ok(_) => Ok(()),
                        Err(e) => Err(e),
                    }
                },
            };
            match step_result {
                Ok(()) => {
                    proof {
                        crate::laws::lemma_run_snoc(s0, opsg.take(i as int), opsg[i as int]);
                        assert(opsg.take(i as int).push(opsg[i as int]) =~= opsg.take(
                            i as int + 1,
                        ));
                    }
                },
                Err(e) => {
                    proof {
                        assert(crate::model::run_ops(s0, opsg.take(i as int)) == Ok::<FsG, ErrG>(
                            self.abs(),
                        ));
                        assert(crate::model::step(self.abs(), opsg[i as int]) == Err::<FsG, ErrG>(
                            err_abs(e),
                        ));
                    }
                    return Err(e);
                },
            }
            i += 1;
        }
        proof {
            assert(opsg.skip(opsg.len() as int).len() == 0);
        }
        Ok(())
    }

    /// All paths of a node: every hardlink path for a file, the single
    /// canonical path for an alive directory.
    pub fn resolve_path(&self, node: &Node) -> (r: Vec<PathName>)
        requires
            self.wf(),
            node matches Node::FILE(f) ==> f.0 < self.files@.len(),
            node matches Node::DIR(d) ==> alive_dir(self.abs(), d.0 as int),
        ensures
            node matches Node::FILE(f) ==> crate::text::lex_sorted(path_views(r@))
                && path_views(r@).to_multiset() == crate::model::file_paths(
                self.abs(),
                f.0 as int,
            ).to_multiset(),
            node matches Node::DIR(d) ==> r@.len() == 1 && r@[0]@ == crate::model::path_of(
                self.abs(),
                d.0 as int,
            ),
    {
        match node {
            Node::FILE(f) => self.resolve_file_path(f),
            Node::DIR(d) => {
                let mut r: Vec<PathName> = Vec::new();
                r.push(self.resolve_dir_path(d));
                r
            },
        }
    }

    /// Every node reachable from the root: the root first, then each
    /// directory once and each file once per link, discovered breadth
    /// first.
    pub fn alive(&self) -> (r: Vec<Node>)
        requires
            self.wf(),
        ensures
            r@.len() > 0 && r@[0] == Node::DIR(DirIndex(0)),
            forall|d: DirIndex| #[trigger] r@.contains(Node::DIR(d)) <==> alive_dir(
                self.abs(),
                d.0 as int,
            ),
            forall|f: FileIndex| #[trigger] r@.contains(Node::FILE(f)) <==> (f.0
                < self.files@.len() && self.abs().files[f.0 as int].parents.len() > 0),
            forall|d: DirIndex| #[trigger] count_matches(r@, Node::DIR(d)) <= 1,
    {
        let ghost s = self.abs();
        let mut visited: Vec<Node> = Vec::new();
        let mut queue: Vec<DirIndex> = Vec::new();
        let mut seen: Vec<bool> = Vec::new();
        let dlen = self.dirs.len();
        let mut z: usize = 0;
        while z < dlen
            invariant
                0 <= z <= dlen,
                seen@.len() == z,
                num_true(seen@) == 0,
                forall|b: int| 0 <= b < z ==> !(#[trigger] seen@[b]),
            decreases dlen - z,
        {
            let ghost sb = seen@;
            seen.push(false);
            proof {
                assert(seen@.drop_last() =~= sb);
            }
            z += 1;
        }
        proof {
            assert(s.dirs.len() >= 1);
        }
        queue.push(AbstractExecutor::root_index());
        visited.push(Node::DIR(AbstractExecutor::root_index()));
        let ghost seen0 = seen@;
        seen[0] = true;
        proof {
            lemma_num_true_bound(seen0);
            lemma_num_true_set(seen0, 0);
            assert(queue@[0] == DirIndex(0));
            assert(visited@[0] == Node::DIR(DirIndex(0)));
            assert forall|c: int| 0 <= c < s.dirs.len() && #[trigger] seen@[c] implies alive_dir(
                s,
                c,
            ) && (exists|b: int| 0 <= b < queue@.len() && (#[trigger] queue@[b]).0 == c) by {
                if c != 0 {
                    assert(seen@[c] == seen0[c]);
                } else {
                    assert(queue@[0].0 == 0);
                }
            }
            assert forall|dd: DirIndex| #[trigger] visited@.contains(Node::DIR(dd)) implies (dd.0
                < s.dirs.len() && seen@[dd.0 as int]) by {
                let w = choose|w: int| 0 <= w < visited@.len() && visited@[w] == Node::DIR(dd);
                assert(w == 0);
            }
            assert forall|dd: DirIndex| dd.0 < s.dirs.len() && seen@[dd.0 as int] implies
            #[trigger] visited@.contains(Node::DIR(dd)) by {
                assert(dd.0 == 0 ==> visited@[0] == Node::DIR(dd));
            }
            assert forall|f: FileIndex| #[trigger] visited@.contains(Node::FILE(f)) implies (f.0
                < s.files.len() && s.files[f.0 as int].parents.len() > 0) by {
                let w = choose|w: int| 0 <= w < visited@.len() && visited@[w] == Node::FILE(f);
            }
            assert forall|dd: int| 0 <= dd < s.dirs.len() implies count_matches(
                visited@,
                Node::DIR(DirIndex(dd as usize)),
            ) == (if seen@[dd] {
                1int
            } else {
                0int
            }) by {
                assert(visited@.drop_last() =~= Seq::<Node>::empty());
                assert(count_matches(visited@.drop_last(), Node::DIR(DirIndex(dd as usize)))
                    == 0);
                assert(visited@.last() == Node::DIR(DirIndex(0)));
                if dd != 0 {
                    assert(seen@[dd] == seen0[dd]);
                    assert(Node::DIR(DirIndex(dd as usize)) != Node::DIR(DirIndex(0)));
                }
            }
        }
        let mut qh: usize = 0;
        while qh < queue.len()
            invariant
                self.wf(),
                s == self.abs(),
                dlen == s.dirs.len(),
                seen@.len() == s.dirs.len(),
                0 <= qh <= queue@.len(),
                num_true(seen@) <= s.dirs.len(),
                queue@.len() - qh + s.dirs.len() - num_true(seen@) >= 0,
                seen@[0],
                queue@[0].0 == 0,
                forall|b: int| 0 <= b < queue@.len() ==> (#[trigger] queue@[b]).0
                    < s.dirs.len() && seen@[queue@[b].0 as int] && alive_dir(
                    s,
                    queue@[b].0 as int,
                ),
                forall|c: int| 0 <= c < s.dirs.len() && #[trigger] seen@[c] ==> alive_dir(s, c)
                    && (exists|b: int| 0 <= b < queue@.len() && (#[trigger] queue@[b]).0 == c),
                forall|c: int, j: int|
                    0 <= c < s.dirs.len() && 0 <= j < s.dirs[c].children.len() && (exists|b: int|
                        0 <= b < qh && (#[trigger] queue@[b]).0 == c) ==> ((
                    #[trigger] s.dirs[c].children[j]).1 matches NodeG::Dir(c2) ==> seen@[c2]),
                forall|c: int, j: int|
                    0 <= c < s.dirs.len() && 0 <= j < s.dirs[c].children.len() && (exists|b: int|
                        0 <= b < qh && (#[trigger] queue@[b]).0 == c) ==> ((
                    #[trigger] s.dirs[c].children[j]).1 matches NodeG::File(f2)
                        ==> visited@.contains(Node::FILE(FileIndex(f2 as usize)))),
                visited@.len() > 0 && visited@[0] == Node::DIR(DirIndex(0)),
                forall|d: DirIndex| #[trigger] visited@.contains(Node::DIR(d)) <==> (d.0
                    < s.dirs.len() && seen@[d.0 as int]),
                forall|f: FileIndex| #[trigger] visited@.contains(Node::FILE(f)) ==> (f.0
                    < s.files.len() && s.files[f.0 as int].parents.len() > 0),
                forall|dd: int| 0 <= dd < s.dirs.len() ==> count_matches(
                    visited@,
                    Node::DIR(DirIndex(dd as usize)),
                ) == (if seen@[dd] {
                    1int
                } else {
                    0int
                }),
            decreases queue@.len() - qh + s.dirs.len() - num_true(seen@),
        {
            let d = queue[qh];
            qh += 1;
            let clen = self.dirs[d.0].children.len();
            let ghost cs = s.dirs[d.0 as int].children;
            let ghost qbal = queue@.len() - num_true(seen@);
            proof {
                assert(cs =~= dir_abs(self.dirs@[d.0 as int]).children);
            }
            let mut j: usize = 0;
            while j < clen
                invariant
                    0 <= j <= clen,
                    self.wf(),
                    s == self.abs(),
                    dlen == s.dirs.len(),
                    seen@.len() == s.dirs.len(),
                    0 < qh <= queue@.len(),
                    d.0 < s.dirs.len(),
                    alive_dir(s, d.0 as int),
                    queue@[qh - 1].0 == d.0 as int,
                    clen == s.dirs[d.0 as int].children.len(),
                    cs == s.dirs[d.0 as int].children,
                    cs.len() == clen,
                    forall|a: int| 0 <= a < cs.len() ==> #[trigger] cs[a] == (
                        self.dirs@[d.0 as int].children@[a].0@,
                        node_abs(self.dirs@[d.0 as int].children@[a].1),
                    ),
                    num_true(seen@) <= s.dirs.len(),
                    seen@[0],
                    queue@[0].0 == 0,
                    forall|b: int| 0 <= b < queue@.len() ==> (#[trigger] queue@[b]).0
                        < s.dirs.len() && seen@[queue@[b].0 as int] && alive_dir(
                        s,
                        queue@[b].0 as int,
                    ),
                    forall|c: int| 0 <= c < s.dirs.len() && #[trigger] seen@[c] ==> alive_dir(s, c)
                        && (exists|b: int| 0 <= b < queue@.len() && (#[trigger] queue@[b]).0 == c),
                    forall|c: int, j2: int|
                        0 <= c < s.dirs.len() && 0 <= j2 < s.dirs[c].children.len() && (exists|
                            b: int,
                        |
                            0 <= b < qh - 1 && (#[trigger] queue@[b]).0 == c) ==> ((
                        #[trigger] s.dirs[c].children[j2]).1 matches NodeG::Dir(c2)
                            ==> seen@[c2]),
                    forall|c: int, j2: int|
                        0 <= c < s.dirs.len() && 0 <= j2 < s.dirs[c].children.len() && (exists|
                            b: int,
                        |
                            0 <= b < qh - 1 && (#[trigger] queue@[b]).0 == c) ==> ((
                        #[trigger] s.dirs[c].children[j2]).1 matches NodeG::File(f2)
                            ==> visited@.contains(Node::FILE(FileIndex(f2 as usize)))),
                    forall|j2: int| 0 <= j2 < j ==> ((#[trigger] cs[j2]).1 matches NodeG::Dir(c2)
                        ==> seen@[c2]),
                    forall|j2: int| 0 <= j2 < j ==> ((#[trigger] cs[j2]).1 matches NodeG::File(f2)
                        ==> visited@.contains(Node::FILE(FileIndex(f2 as usize)))),
                    visited@.len() > 0 && visited@[0] == Node::DIR(DirIndex(0)),
                    forall|dd: DirIndex| #[trigger] visited@.contains(Node::DIR(dd)) <==> (dd.0
                        < s.dirs.len() && seen@[dd.0 as int]),
                    forall|f: FileIndex| #[trigger] visited@.contains(Node::FILE(f)) ==> (f.0
                        < s.files.len() && s.files[f.0 as int].parents.len() > 0),
                    forall|dd: int| 0 <= dd < s.dirs.len() ==> count_matches(
                        visited@,
                        Node::DIR(DirIndex(dd as usize)),
                    ) == (if seen@[dd] {
                        1int
                    } else {
                        0int
                    }),
                    queue@.len() - qh + s.dirs.len() - num_true(seen@) >= 0,
                    queue@.len() - num_true(seen@) == qbal,
                decreases clen - j,
            {
                let child = self.dirs[d.0].children[j].1;
                proof {
                    assert(cs[j as int].1 == node_abs(child));
                    assert(crate::model::wf_children(s, d.0 as int));
                }
                match child {
                    Node::DIR(c) => {
                        proof {
                            assert(cs[j as int].1 == NodeG::Dir(c.0 as int));
                            assert(s.dirs[c.0 as int].parent == Some(d.0 as int));
                            assert(alive_dir(s, c.0 as int));
                        }
                        let ghost visited0 = visited@;
                        let ghost seenb = seen@;
                        let ghost seenb_queue = queue@;
                        let ghost seenb_qlen = queue@.len();
                        if !seen[c.0] {
                            seen[c.0] = true;
                            queue.push(c);
                            visited.push(Node::DIR(c));
                            proof {
                                lemma_num_true_set(seenb, c.0 as int);
                                lemma_num_true_bound(seen@);
                            assert(seen@[c.0 as int]);
                            assert forall|dd: int| 0 <= dd < s.dirs.len() implies count_matches(
                                visited@,
                                Node::DIR(DirIndex(dd as usize)),
                            ) == (if seen@[dd] {
                                1int
                            } else {
                                0int
                            }) by {
                                lemma_count_push(
                                    visited0,
                                    Node::DIR(c),
                                    Node::DIR(DirIndex(dd as usize)),
                                );
                            }
                            assert forall|c2: int|
                                0 <= c2 < s.dirs.len() && #[trigger] seen@[c2] implies alive_dir(
                                s,
                                c2,
                            ) && (exists|b: int|
                                0 <= b < queue@.len() && (#[trigger] queue@[b]).0 == c2) by {
                                if seenb[c2] {
                                    let b = choose|b: int|
                                        0 <= b < seenb_qlen && (#[trigger] seenb_queue[b]).0 == c2;
                                    assert(queue@[b].0 == c2);
                                } else {
                                    assert(c2 == c.0 as int);
                                    assert(queue@[queue@.len() - 1].0 == c2);
                                }
                            }
                            assert forall|c2: int, j2: int|
                                0 <= c2 < s.dirs.len() && 0 <= j2 < s.dirs[c2].children.len() && (
                                exists|b: int|
                                    0 <= b < qh - 1 && (#[trigger] queue@[b]).0 == c2) implies ((
                            #[trigger] s.dirs[c2].children[j2]).1 matches NodeG::Dir(cc)
                                ==> seen@[cc]) by {
                                let b = choose|b: int|
                                    0 <= b < qh - 1 && (#[trigger] queue@[b]).0 == c2;
                                assert(queue@[b] == seenb_queue[b]);
                                assert(seenb_queue[b].0 == c2);
                                assert(exists|b2: int|
                                    0 <= b2 < qh - 1 && (#[trigger] seenb_queue[b2]).0 == c2);
                                assert(crate::model::wf_children(s, c2));
                                match s.dirs[c2].children[j2].1 {
                                    NodeG::Dir(cc) => {
                                        assert(0 <= cc < s.dirs.len());
                                        assert(seenb[cc]);
                                        assert(cc == c.0 as int || seen@[cc] == seenb[cc]);
                                        assert(seen@[cc]);
                                    },
                                    NodeG::File(_) => {},
                                }
                            }
                            assert forall|dd: DirIndex| #[trigger] visited@.contains(
                                Node::DIR(dd),
                            ) implies (dd.0 < s.dirs.len() && seen@[dd.0 as int]) by {
                                if visited0.contains(Node::DIR(dd)) {
                                } else {
                                    let w = choose|w: int|
                                        0 <= w < visited@.len() && visited@[w] == Node::DIR(dd);
                                    assert(w == visited@.len() - 1);
                                    assert(dd == c);
                                }
                            }
                            assert forall|dd: DirIndex|
                                dd.0 < s.dirs.len() && seen@[dd.0 as int] implies
                            #[trigger] visited@.contains(Node::DIR(dd)) by {
                                if seenb[dd.0 as int] {
                                    assert(visited0.contains(Node::DIR(dd)));
                                    let w = choose|w: int|
                                        0 <= w < visited0.len() && visited0[w] == Node::DIR(dd);
                                    assert(visited@[w] == Node::DIR(dd));
                                } else {
                                    assert(dd.0 == c.0);
                                    assert(visited@[visited@.len() - 1] == Node::DIR(c));
                                }
                            }
                            assert forall|f: FileIndex| #[trigger] visited@.contains(
                                Node::FILE(f),
                            ) implies (f.0 < s.files.len() && s.files[f.0 as int].parents.len()
                                > 0) by {
                                let w = choose|w: int|
                                    0 <= w < visited@.len() && visited@[w] == Node::FILE(f);
                                assert(w < visited0.len());
                                assert(visited0.contains(Node::FILE(f)));
                            }
                            assert forall|c2: int, j2: int|
                                0 <= c2 < s.dirs.len() && 0 <= j2 < s.dirs[c2].children.len() && (
                                exists|b: int|
                                    0 <= b < qh - 1 && (#[trigger] queue@[b]).0 == c2) implies ((
                            #[trigger] s.dirs[c2].children[j2]).1 matches NodeG::File(f2)
                                ==> visited@.contains(Node::FILE(FileIndex(f2 as usize)))) by {
                                match s.dirs[c2].children[j2].1 {
                                    NodeG::File(f2) => {
                                        if visited0.contains(Node::FILE(FileIndex(f2 as usize))) {
                                            let w = choose|w: int|
                                                0 <= w < visited0.len() && visited0[w]
                                                    == Node::FILE(FileIndex(f2 as usize));
                                            assert(visited@[w] == Node::FILE(
                                                FileIndex(f2 as usize),
                                            ));
                                        }
                                    },
                                    NodeG::Dir(_) => {},
                                }
                            }
                            assert forall|j2: int|
                                0 <= j2 < j implies ((#[trigger] cs[j2]).1 matches NodeG::File(f2)
                                ==> visited@.contains(Node::FILE(FileIndex(f2 as usize)))) by {
                                match cs[j2].1 {
                                    NodeG::File(f2) => {
                                        assert(visited0.contains(
                                            Node::FILE(FileIndex(f2 as usize)),
                                        ));
                                        let w = choose|w: int|
                                            0 <= w < visited0.len() && visited0[w] == Node::FILE(
                                                FileIndex(f2 as usize),
                                            );
                                        assert(visited@[w] == Node::FILE(FileIndex(f2 as usize)));
                                    },
                                    NodeG::Dir(_) => {},
                                }
                            }
                            }
                        } else {
                            proof {
                                assert(visited@.contains(Node::DIR(c)));
                            }
                        }
                    },
                    Node::FILE(f) => {
                        proof {
                            assert(cs[j as int].1 == NodeG::File(f.0 as int));
                            assert(0 <= (f.0 as int) < s.files.len());
                            assert(s.files[f.0 as int].parents.contains(d.0 as int));
                        }
                        let ghost visited0 = visited@;
                        visited.push(Node::FILE(f));
                        proof {
                            assert forall|dd: int| 0 <= dd < s.dirs.len() implies count_matches(
                                visited@,
                                Node::DIR(DirIndex(dd as usize)),
                            ) == (if seen@[dd] {
                                1int
                            } else {
                                0int
                            }) by {
                                lemma_count_push(
                                    visited0,
                                    Node::FILE(f),
                                    Node::DIR(DirIndex(dd as usize)),
                                );
                            }
                            assert forall|dd: DirIndex| #[trigger] visited@.contains(
                                Node::DIR(dd),
                            ) implies (dd.0 < s.dirs.len() && seen@[dd.0 as int]) by {
                                let w = choose|w: int|
                                    0 <= w < visited@.len() && visited@[w] == Node::DIR(dd);
                                assert(w < visited0.len());
                                assert(visited0.contains(Node::DIR(dd)));
                            }
                            assert forall|dd: DirIndex|
                                dd.0 < s.dirs.len() && seen@[dd.0 as int] implies
                            #[trigger] visited@.contains(Node::DIR(dd)) by {
                                assert(visited0.contains(Node::DIR(dd)));
                                let w = choose|w: int|
                                    0 <= w < visited0.len() && visited0[w] == Node::DIR(dd);
                                assert(visited@[w] == Node::DIR(dd));
                            }
                            assert forall|f2: FileIndex| #[trigger] visited@.contains(
                                Node::FILE(f2),
                            ) implies (f2.0 < s.files.len() && s.files[f2.0 as int].parents.len()
                                > 0) by {
                                if visited0.contains(Node::FILE(f2)) {
                                } else {
                                    let w = choose|w: int|
                                        0 <= w < visited@.len() && visited@[w] == Node::FILE(f2);
                                    assert(w == visited@.len() - 1);
                                    assert(f2 == f);
                                }
                            }
                            assert forall|c2: int, j2: int|
                                0 <= c2 < s.dirs.len() && 0 <= j2 < s.dirs[c2].children.len() && (
                                exists|b: int|
                                    0 <= b < qh - 1 && (#[trigger] queue@[b]).0 == c2) implies ((
                            #[trigger] s.dirs[c2].children[j2]).1 matches NodeG::File(f2)
                                ==> visited@.contains(Node::FILE(FileIndex(f2 as usize)))) by {
                                match s.dirs[c2].children[j2].1 {
                                    NodeG::File(f2) => {
                                        if visited0.contains(Node::FILE(FileIndex(f2 as usize))) {
                                            let w = choose|w: int|
                                                0 <= w < visited0.len() && visited0[w]
                                                    == Node::FILE(FileIndex(f2 as usize));
                                            assert(visited@[w] == Node::FILE(
                                                FileIndex(f2 as usize),
                                            ));
                                        }
                                    },
                                    NodeG::Dir(_) => {},
                                }
                            }
                            assert forall|j2: int|
                                0 <= j2 < j + 1 implies ((#[trigger] cs[j2]).1 matches NodeG::File(
                                f2,
                            ) ==> visited@.contains(Node::FILE(FileIndex(f2 as usize)))) by {
                                match cs[j2].1 {
                                    NodeG::File(f2) => {
                                        if j2 < j {
                                            assert(visited0.contains(
                                                Node::FILE(FileIndex(f2 as usize)),
                                            ));
                                            let w = choose|w: int|
                                                0 <= w < visited0.len() && visited0[w]
                                                    == Node::FILE(FileIndex(f2 as usize));
                                            assert(visited@[w] == Node::FILE(
                                                FileIndex(f2 as usize),
                                            ));
                                        } else {
                                            assert(f2 == f.0 as int);
                                            assert(visited@[visited@.len() - 1] == Node::FILE(f));
                                        }
                                    },
                                    NodeG::Dir(_) => {},
                                }
                            }
                        }
                    },
                }
                j += 1;
            }
            proof {
                assert forall|c: int, j2: int|
                    0 <= c < s.dirs.len() && 0 <= j2 < s.dirs[c].children.len() && (exists|b: int|
                        0 <= b < qh && (#[trigger] queue@[b]).0 == c) implies ((
                #[trigger] s.dirs[c].children[j2]).1 matches NodeG::Dir(c2) ==> seen@[c2]) by {
                    let b = choose|b: int| 0 <= b < qh && (#[trigger] queue@[b]).0 == c;
                    if b < qh - 1 {
                    } else {
                        assert(c == d.0 as int);
                        assert(cs[j2].1 == s.dirs[c].children[j2].1);
                    }
                }
                assert forall|c: int, j2: int|
                    0 <= c < s.dirs.len() && 0 <= j2 < s.dirs[c].children.len() && (exists|b: int|
                        0 <= b < qh && (#[trigger] queue@[b]).0 == c) implies ((
                #[trigger] s.dirs[c].children[j2]).1 matches NodeG::File(f2)
                    ==> visited@.contains(Node::FILE(FileIndex(f2 as usize)))) by {
                    let b = choose|b: int| 0 <= b < qh && (#[trigger] queue@[b]).0 == c;
                    if b < qh - 1 {
                    } else {
                        assert(c == d.0 as int);
                        assert(cs[j2].1 == s.dirs[c].children[j2].1);
                    }
                }
            }
        }
        proof {
            assert forall|dd: DirIndex| #[trigger] visited@.contains(Node::DIR(dd)) <==> alive_dir(
                s,
                dd.0 as int,
            ) by {
                if dd.0 < s.dirs.len() && alive_dir(s, dd.0 as int) {
                    lemma_seen_complete(s, seen@, dd.0 as int);
                }
            }
            assert forall|f: FileIndex|
                f.0 < s.files.len() && s.files[f.0 as int].parents.len() > 0 implies
            #[trigger] visited@.contains(Node::FILE(f)) by {
                let q = s.files[f.0 as int].parents[0];
                assert(alive_dir(s, q));
                assert(crate::model::file_linked_in(s, q, f.0 as int));
                lemma_seen_complete(s, seen@, q);
                let b = choose|b: int| 0 <= b < queue@.len() && (#[trigger] queue@[b]).0 == q;
                let j2 = choose|j2: int|
                    0 <= j2 < s.dirs[q].children.len() && (#[trigger] s.dirs[q].children[j2]).1
                        == NodeG::File(f.0 as int);
                assert(visited@.contains(Node::FILE(FileIndex((f.0 as int) as usize))));
                assert(FileIndex((f.0 as int) as usize) == f);
            }
            assert forall|dd: DirIndex| #[trigger] count_matches(visited@, Node::DIR(dd)) <= 1 by {
                if dd.0 < s.dirs.len() {
                    let ddi = dd.0 as int;
                    assert(0 <= ddi < s.dirs.len());
                    assert(count_matches(visited@, Node::DIR(DirIndex(ddi as usize))) == (
                    if seen@[ddi] {
                        1int
                    } else {
                        0int
                    }));
                    assert(DirIndex(ddi as usize) == dd);
                } else {
                    assert(!visited@.contains(Node::DIR(dd)));
                    lemma_count_zero(visited@, Node::DIR(dd));
                }
            }
        }
        visited
    }

    /// Whether `name` is taken in directory `idx`.
    pub fn name_exists(&self, idx: &DirIndex, name: &str) -> (r: bool)
        requires
            self.wf(),
            idx.0 < self.dirs@.len(),
        ensures
            r == (lookup(self.abs().dirs[idx.0 as int].children, name@) is Some),
    {
        let ghost cs = self.abs().dirs[idx.0 as int].children;
        let children = &self.dirs[idx.0].children;
        let mut i: usize = 0;
        proof {
            assert(cs =~= dir_abs(self.dirs@[idx.0 as int]).children);
            assert(cs.skip(0) =~= cs);
        }
        while i < children.len()
            invariant
                0 <= i <= children@.len(),
                children@ == self.dirs@[idx.0 as int].children@,
                idx.0 < self.dirs@.len(),
                cs == self.abs().dirs[idx.0 as int].children,
                cs.len() == children@.len(),
                forall|j: int| 0 <= j < cs.len() ==> #[trigger] cs[j] == (
                    children@[j].0@,
                    node_abs(children@[j].1),
                ),
                lookup(cs, name@) == lookup(cs.skip(i as int), name@),
            decreases children@.len() - i,
        {
            proof {
                assert(cs.skip(i as int)[0] == cs[i as int]);
                assert(cs.skip(i as int).skip(1) =~= cs.skip(i as int + 1));
            }
            if crate::text::str_eq(children[i].0.as_str(), name) {
                return true;
            }
            i += 1;
        }
        proof {
            assert(cs.skip(cs.len() as int).len() == 0);
        }
        false
    }
}

} // verus!
