//! The laws of the abstract machine: canonical paths resolve to their
//! nodes, every path of a file resolves to that file, and replaying a
//! recording reproduces it exactly, prefix by prefix.

use vstd::prelude::*;
use crate::model::{
    alive_dir, dir_name_in_parent, file_links_in, file_paths, file_paths_from, fs_init, inv,
    is_desc, lemma_desc_smaller, lemma_lex_max_props, lemma_lookup_found, lemma_resolve_alive,
    lemma_resolve_file_linked, lex_max, linked_in_parent, lookup, path_of, resolve_dir_g,
    resolve_file_g, resolve_node_g, resolve_segs, run_ops, step, valid_ops, ErrG, FsG, NodeG, OpG,
};
use crate::pathname::{
    first_slash, is_abs_path, is_canonical_path, is_seg, last_slash, lemma_first_slash,
    lemma_last_slash, path_join, segs, split_name, split_parent,
};

verus! {

/// A lone segment is its own segment list.
pub proof fn lemma_segs_single(n: Seq<char>)
    requires
        is_seg(n),
    ensures
        segs(n) == seq![n],
{
    lemma_first_slash(n);
    assert(n[0] != '/');
    if first_slash(n) < n.len() {
        assert(n[first_slash(n)] != '/');
    }
    assert(first_slash(n) == n.len());
    assert(n.take(n.len() as int) =~= n);
    assert(n.skip(n.len() as int).len() == 0);
    assert(segs(n.skip(n.len() as int)) =~= Seq::<Seq<char>>::empty());
    assert(segs(n) == seq![n.take(first_slash(n))] + segs(n.skip(first_slash(n))));
    assert(segs(n) =~= seq![n]);
}

/// Splitting at a separator splits the segment list.
pub proof fn lemma_segs_cat(a: Seq<char>, b: Seq<char>)
    ensures
        segs(a + seq!['/'] + b) == segs(a) + segs(b),
    decreases a.len(),
{
    let s = a + seq!['/'] + b;
    if a.len() == 0 {
        assert(s[0] == '/');
        assert(s.skip(1) =~= b);
        assert(segs(a) =~= Seq::<Seq<char>>::empty());
        assert(segs(s) =~= segs(a) + segs(b));
    } else if a[0] == '/' {
        lemma_segs_cat(a.skip(1), b);
        assert(s.skip(1) =~= a.skip(1) + seq!['/'] + b);
        assert(segs(s) == segs(a.skip(1) + seq!['/'] + b));
    } else {
        lemma_first_slash(a);
        lemma_first_slash(s);
        let k = first_slash(a);
        assert(forall|i: int| 0 <= i < k ==> s[i] == a[i]);
        if k < a.len() {
            assert(s[k] == a[k]);
            assert(s[k] == '/');
            if first_slash(s) < k {
                assert(s[first_slash(s)] == a[first_slash(s)]);
                assert(a[first_slash(s)] != '/');
            }
            if first_slash(s) > k {
                assert(s[k] != '/');
            }
            assert(first_slash(s) == k);
        } else {
            assert(s[a.len() as int] == '/');
            if first_slash(s) < k {
                assert(s[first_slash(s)] == a[first_slash(s)]);
            }
            if first_slash(s) > k {
                assert(s[k] != '/');
            }
            assert(first_slash(s) == k);
        }
        assert(s.take(k) =~= a.take(k));
        lemma_segs_cat(a.skip(k), b);
        assert(s.skip(k) =~= a.skip(k) + seq!['/'] + b);
        assert(segs(s) == seq![s.take(k)] + segs(a.skip(k) + seq!['/'] + b));
        assert(segs(a) == seq![a.take(k)] + segs(a.skip(k)));
        assert(segs(s) =~= segs(a) + segs(b));
    }
}

/// Joining a name appends one segment.
pub proof fn lemma_segs_join(p: Seq<char>, n: Seq<char>)
    requires
        is_canonical_path(p),
        is_seg(n),
    ensures
        segs(path_join(p, n)) == segs(p).push(n),
{
    lemma_segs_single(n);
    if p == seq!['/'] {
        let s = path_join(p, n);
        assert(s == p + n);
        assert(s[0] == '/');
        assert(s.skip(1) =~= n);
        assert(p[0] == '/');
        assert(p.skip(1).len() == 0);
        assert(segs(p) == segs(p.skip(1)));
        assert(segs(p) =~= Seq::<Seq<char>>::empty());
        assert(segs(s) == segs(n));
        assert(segs(s) =~= segs(p).push(n));
    } else {
        lemma_segs_cat(p, n);
        assert(segs(p) + segs(n) =~= segs(p).push(n));
    }
}

/// Splitting undoes joining.
pub proof fn lemma_split_join(p: Seq<char>, n: Seq<char>)
    requires
        is_canonical_path(p),
        is_seg(n),
    ensures
        is_abs_path(path_join(p, n)),
        is_canonical_path(path_join(p, n)),
        split_parent(path_join(p, n)) == p,
        split_name(path_join(p, n)) == n,
{
    let s = path_join(p, n);
    lemma_last_slash(s);
    if p == seq!['/'] {
        assert(s == p + n);
        assert(s[0] == '/');
        assert(forall|i: int| 1 <= i < s.len() ==> s[i] == n[i - 1]);
        assert(forall|i: int| 0 < i < s.len() ==> s[i] != '/');
        if last_slash(s) > 0 {
            assert(s[last_slash(s)] == '/');
        }
        assert(last_slash(s) == 0);
        assert(split_parent(s) == seq!['/']);
        assert(split_name(s) =~= n);
        assert(is_abs_path(s));
        assert(is_canonical_path(s));
    } else {
        assert(s == p + seq!['/'] + n);
        assert(s[0] == p[0]);
        assert(s.len() == p.len() + 1 + n.len());
        assert(forall|i: int| 0 <= i < p.len() ==> s[i] == p[i]);
        assert(s[p.len() as int] == '/');
        assert(forall|i: int| p.len() + 1 <= i < s.len() ==> s[i] == n[i - p.len() - 1]);
        assert(forall|i: int| p.len() < i < s.len() ==> s[i] != '/');
        if last_slash(s) > p.len() as int {
            assert(s[last_slash(s)] == '/');
        }
        assert(p.len() > 1) by {
            if p.len() == 1 {
                assert(p =~= seq!['/']);
            }
        }
        assert(p[p.len() - 1] != '/');
        if last_slash(s) < p.len() as int {
            assert(s[p.len() as int] != '/');
        }
        assert(last_slash(s) == p.len());
        assert(last_slash(s) > 0);
        assert(split_parent(s) =~= p);
        assert(split_name(s) =~= n);
        assert(s[s.len() - 1] == n[n.len() - 1]);
        assert(is_abs_path(s));
        assert forall|i: int| 0 < i < s.len() implies !(s[i - 1] == '/' && #[trigger] s[i]
            == '/') by {
            if i < p.len() {
                assert(s[i] == p[i] && s[i - 1] == p[i - 1]);
            } else if i == p.len() {
                assert(s[i - 1] == p[p.len() - 1]);
                assert(p[p.len() - 1] != '/');
            } else {
                assert(s[i] != '/');
            }
        }
    }
}

/// The canonical path of an alive directory is canonical.
pub proof fn lemma_path_of_canonical(s: FsG, d: int)
    requires
        inv(s),
        alive_dir(s, d),
    ensures
        is_canonical_path(path_of(s, d)),
    decreases d,
{
    if d == 0 {
        assert(is_canonical_path(seq!['/']));
    } else {
        let p = s.dirs[d].parent->0;
        assert(alive_dir(s, p));
        lemma_path_of_canonical(s, p);
        assert(linked_in_parent(s, p, d));
        let name = dir_name_in_parent(s, p, d);
        assert(crate::model::wf_children(s, p));
        let w = choose|w: int|
            0 <= w < s.dirs[p].children.len() && s.dirs[p].children[w].1 == NodeG::Dir(d);
        assert(is_seg(s.dirs[p].children[w].0));
        assert(name == s.dirs[p].children[w].0);
        lemma_split_join(path_of(s, p), name);
    }
}

/// Appending one resolvable segment extends a successful resolution.
proof fn lemma_resolve_segs_snoc(
    s: FsG,
    cur: NodeG,
    done: Seq<char>,
    rest: Seq<Seq<char>>,
    x: Seq<char>,
    d: int,
    n: NodeG,
)
    requires
        resolve_segs(s, cur, done, rest) == Ok::<NodeG, ErrG>(NodeG::Dir(d)),
        0 <= d < s.dirs.len(),
        lookup(s.dirs[d].children, x) == Some(n),
    ensures
        resolve_segs(s, cur, done, rest.push(x)) == Ok::<NodeG, ErrG>(n),
    decreases rest.len(),
{
    if rest.len() == 0 {
        assert(cur == NodeG::Dir(d));
        assert(rest.push(x)[0] == x);
        assert(rest.push(x).skip(1) =~= Seq::<Seq<char>>::empty());
        assert(resolve_segs(s, n, done + seq!['/'] + x, rest.push(x).skip(1)) == Ok::<
            NodeG,
            ErrG,
        >(n));
    } else {
        match cur {
            NodeG::Dir(c) => {
                assert(0 <= c < s.dirs.len());
                match lookup(s.dirs[c].children, rest[0]) {
                    Some(m) => {
                        lemma_resolve_segs_snoc(
                            s,
                            m,
                            done + seq!['/'] + rest[0],
                            rest.skip(1),
                            x,
                            d,
                            n,
                        );
                        assert(rest.push(x)[0] == rest[0]);
                        assert(rest.push(x).skip(1) =~= rest.skip(1).push(x));
                    },
                    None => {},
                }
            },
            NodeG::File(_) => {},
        }
    }
}

/// The canonical path of an alive directory resolves to it.
pub proof fn lemma_resolve_path_of(s: FsG, d: int)
    requires
        inv(s),
        alive_dir(s, d),
    ensures
        resolve_node_g(s, path_of(s, d)) == Ok::<NodeG, ErrG>(NodeG::Dir(d)),
        resolve_dir_g(s, path_of(s, d)) == Ok::<int, ErrG>(d),
    decreases d,
{
    lemma_path_of_canonical(s, d);
    if d == 0 {
        assert(segs(seq!['/']) =~= Seq::<Seq<char>>::empty()) by {
            assert(seq!['/'][0] == '/');
            assert(seq!['/'].skip(1).len() == 0);
            assert(segs(seq!['/']) == segs(seq!['/'].skip(1)));
        }
        assert(is_abs_path(path_of(s, 0)));
    } else {
        let p = s.dirs[d].parent->0;
        assert(alive_dir(s, p));
        lemma_resolve_path_of(s, p);
        lemma_path_of_canonical(s, p);
        let name = dir_name_in_parent(s, p, d);
        assert(crate::model::wf_children(s, p));
        assert(linked_in_parent(s, p, d));
        let w = choose|w: int|
            0 <= w < s.dirs[p].children.len() && s.dirs[p].children[w].1 == NodeG::Dir(d);
        assert(is_seg(s.dirs[p].children[w].0));
        assert(name == s.dirs[p].children[w].0);
        lemma_lookup_found(s.dirs[p].children, name, w);
        assert(s.dirs[p].children[w].1 == NodeG::Dir(d)) by {
            let u = choose|u: int|
                0 <= u < s.dirs[p].children.len() && s.dirs[p].children[u].1 == NodeG::Dir(d);
            assert(u == w);
        }
        assert(lookup(s.dirs[p].children, name) == Some(NodeG::Dir(d)));
        lemma_segs_join(path_of(s, p), name);
        lemma_split_join(path_of(s, p), name);
        lemma_resolve_segs_snoc(
            s,
            NodeG::Dir(0),
            Seq::empty(),
            segs(path_of(s, p)),
            name,
            p,
            NodeG::Dir(d),
        );
    }
}

/// Membership in a file's path list names a parent and a link.
proof fn lemma_file_paths_member(s: FsG, parents: Seq<int>, f: int, q: Seq<char>)
    requires
        file_paths_from(s, parents, f).contains(q),
    ensures
        exists|k: int, name: Seq<char>|
            0 <= k < parents.len() && file_links_in(s.dirs[parents[k]].children, f).contains(name)
                && q == #[trigger] path_join(path_of(s, parents[k]), name),
    decreases parents.len(),
{
    let chunk = file_links_in(s.dirs[parents[0]].children, f).map_values(
        |n: Seq<char>| path_join(path_of(s, parents[0]), n),
    );
    let w = choose|w: int|
        0 <= w < file_paths_from(s, parents, f).len() && file_paths_from(s, parents, f)[w] == q;
    if w < chunk.len() {
        let name = file_links_in(s.dirs[parents[0]].children, f)[w];
        assert(file_links_in(s.dirs[parents[0]].children, f).contains(name));
        assert(q == path_join(path_of(s, parents[0]), name));
        assert(parents[0] == parents[0]);
    } else {
        assert(file_paths_from(s, parents.skip(1), f)[w - chunk.len()] == q);
        assert(file_paths_from(s, parents.skip(1), f).contains(q));
        lemma_file_paths_member(s, parents.skip(1), f, q);
        let (k, name) = choose|k: int, name: Seq<char>|
            0 <= k < parents.skip(1).len() && file_links_in(
                s.dirs[parents.skip(1)[k]].children,
                f,
            ).contains(name) && q == #[trigger] path_join(path_of(s, parents.skip(1)[k]), name);
        assert(parents[k + 1] == parents.skip(1)[k]);
    }
}

/// A name listed among a directory's links to `f` maps to `f`.
proof fn lemma_file_links_member(cs: Seq<(Seq<char>, NodeG)>, f: int, name: Seq<char>)
    requires
        file_links_in(cs, f).contains(name),
    ensures
        exists|i: int| 0 <= i < cs.len() && #[trigger] cs[i] == (name, NodeG::File(f)),
    decreases cs.len(),
{
    if cs.len() == 0 {
    } else if cs[0].1 == NodeG::File(f) {
        if cs[0].0 == name {
            assert(cs[0] == (name, NodeG::File(f)));
        } else {
            let links = file_links_in(cs, f);
            let w = choose|w: int| 0 <= w < links.len() && links[w] == name;
            assert(w >= 1);
            assert(file_links_in(cs.skip(1), f)[w - 1] == name);
            assert(file_links_in(cs.skip(1), f).contains(name));
            lemma_file_links_member(cs.skip(1), f, name);
            let i = choose|i: int|
                0 <= i < cs.skip(1).len() && #[trigger] cs.skip(1)[i] == (name, NodeG::File(f));
            assert(cs[i + 1] == (name, NodeG::File(f)));
        }
    } else {
        lemma_file_links_member(cs.skip(1), f, name);
        let i = choose|i: int|
            0 <= i < cs.skip(1).len() && #[trigger] cs.skip(1)[i] == (name, NodeG::File(f));
        assert(cs[i + 1] == (name, NodeG::File(f)));
    }
}

/// Every listed path of a file resolves to that file.
pub proof fn lemma_file_path_resolves(s: FsG, f: int, q: Seq<char>)
    requires
        inv(s),
        0 <= f < s.files.len(),
        file_paths(s, f).contains(q),
    ensures
        resolve_node_g(s, q) == Ok::<NodeG, ErrG>(NodeG::File(f)),
        resolve_file_g(s, q) == Ok::<int, ErrG>(f),
{
    lemma_file_paths_member(s, s.files[f].parents, f, q);
    let (k, name) = choose|k: int, name: Seq<char>|
        0 <= k < s.files[f].parents.len() && file_links_in(
            s.dirs[s.files[f].parents[k]].children,
            f,
        ).contains(name) && q == #[trigger] path_join(path_of(s, s.files[f].parents[k]), name);
    let p = s.files[f].parents[k];
    assert(alive_dir(s, p));
    lemma_file_links_member(s.dirs[p].children, f, name);
    let i = choose|i: int|
        0 <= i < s.dirs[p].children.len() && #[trigger] s.dirs[p].children[i] == (
            name,
            NodeG::File(f),
        );
    assert(crate::model::wf_children(s, p));
    assert(is_seg(name));
    lemma_lookup_found(s.dirs[p].children, name, i);
    lemma_resolve_path_of(s, p);
    lemma_path_of_canonical(s, p);
    lemma_segs_join(path_of(s, p), name);
    lemma_split_join(path_of(s, p), name);
    lemma_resolve_segs_snoc(
        s,
        NodeG::Dir(0),
        Seq::empty(),
        segs(path_of(s, p)),
        name,
        p,
        NodeG::File(f),
    );
}

/// `child_index` either fails or names a matching entry.
pub proof fn lemma_child_index_props(cs: Seq<(Seq<char>, NodeG)>, name: Seq<char>)
    ensures
        crate::model::child_index(cs, name) == -1 || (0 <= crate::model::child_index(cs, name)
            < cs.len() && cs[crate::model::child_index(cs, name)].0 == name),
    decreases cs.len(),
{
    if cs.len() > 0 && cs[0].0 != name {
        lemma_child_index_props(cs.skip(1), name);
    }
}

/// Creating a fresh name under an alive directory always succeeds.
pub proof fn lemma_fresh_create_ok(s: FsG, parent: int, name: Seq<char>, mode: Seq<crate::flags::ModeFlag>)
    requires
        inv(s),
        alive_dir(s, parent),
        is_seg(name),
        lookup(s.dirs[parent].children, name) is None,
    ensures
        crate::model::step_create(s, path_join(path_of(s, parent), name), mode) is Ok,
        split_name(path_join(path_of(s, parent), name)) == name,
{
    lemma_path_of_canonical(s, parent);
    lemma_split_join(path_of(s, parent), name);
    lemma_resolve_path_of(s, parent);
}

/// Making a directory under a fresh name always succeeds.
pub proof fn lemma_fresh_mkdir_ok(s: FsG, parent: int, name: Seq<char>, mode: Seq<crate::flags::ModeFlag>)
    requires
        inv(s),
        alive_dir(s, parent),
        is_seg(name),
        lookup(s.dirs[parent].children, name) is None,
    ensures
        crate::model::step_mkdir(s, path_join(path_of(s, parent), name), mode) is Ok,
        split_name(path_join(path_of(s, parent), name)) == name,
{
    lemma_path_of_canonical(s, parent);
    lemma_split_join(path_of(s, parent), name);
    lemma_resolve_path_of(s, parent);
}

/// Removing an alive non-root directory by its canonical path always
/// succeeds.
pub proof fn lemma_dir_remove_ok(s: FsG, d: int)
    requires
        inv(s),
        alive_dir(s, d),
        d != 0,
    ensures
        crate::model::step_remove(s, path_of(s, d)) is Ok,
{
    lemma_resolve_path_of(s, d);
    let p = s.dirs[d].parent->0;
    assert(alive_dir(s, p));
    lemma_path_of_canonical(s, p);
    assert(linked_in_parent(s, p, d));
    let name = dir_name_in_parent(s, p, d);
    assert(crate::model::wf_children(s, p));
    let w = choose|w: int|
        0 <= w < s.dirs[p].children.len() && s.dirs[p].children[w].1 == NodeG::Dir(d);
    assert(is_seg(s.dirs[p].children[w].0));
    assert(name == s.dirs[p].children[w].0);
    assert(path_of(s, d) == path_join(path_of(s, p), name));
    lemma_split_join(path_of(s, p), name);
    lemma_resolve_path_of(s, p);
    crate::model::lemma_child_index_found(s.dirs[p].children, name, w);
    lemma_child_index_props(s.dirs[p].children, name);
}

/// Removing a file by any of its listed paths always succeeds.
pub proof fn lemma_file_remove_ok(s: FsG, f: int, q: Seq<char>)
    requires
        inv(s),
        0 <= f < s.files.len(),
        file_paths(s, f).contains(q),
    ensures
        crate::model::step_remove(s, q) is Ok,
{
    lemma_file_path_resolves(s, f, q);
    lemma_file_paths_member(s, s.files[f].parents, f, q);
    let (k, nm) = choose|k: int, nm: Seq<char>|
        0 <= k < s.files[f].parents.len() && file_links_in(
            s.dirs[s.files[f].parents[k]].children,
            f,
        ).contains(nm) && q == #[trigger] path_join(path_of(s, s.files[f].parents[k]), nm);
    let p = s.files[f].parents[k];
    assert(alive_dir(s, p));
    lemma_file_links_member(s.dirs[p].children, f, nm);
    let i = choose|i: int|
        0 <= i < s.dirs[p].children.len() && #[trigger] s.dirs[p].children[i] == (
            nm,
            NodeG::File(f),
        );
    assert(crate::model::wf_children(s, p));
    assert(is_seg(nm));
    lemma_path_of_canonical(s, p);
    lemma_split_join(path_of(s, p), nm);
    lemma_resolve_path_of(s, p);
    crate::model::lemma_child_index_found(s.dirs[p].children, nm, i);
    lemma_child_index_props(s.dirs[p].children, nm);
}

/// Hardlinking a file's listed path to a fresh name under an alive
/// directory always succeeds.
pub proof fn lemma_fresh_hardlink_ok(s: FsG, f: int, q: Seq<char>, parent: int, name: Seq<char>)
    requires
        inv(s),
        0 <= f < s.files.len(),
        file_paths(s, f).contains(q),
        alive_dir(s, parent),
        is_seg(name),
        lookup(s.dirs[parent].children, name) is None,
    ensures
        crate::model::step_hardlink(s, q, path_join(path_of(s, parent), name)) is Ok,
        split_name(path_join(path_of(s, parent), name)) == name,
{
    lemma_file_path_resolves(s, f, q);
    lemma_path_of_canonical(s, parent);
    lemma_split_join(path_of(s, parent), name);
    lemma_resolve_path_of(s, parent);
}

/// Every successful step preserves the invariant.
pub proof fn lemma_step_inv(s: FsG, op: OpG)
    requires
        inv(s),
    ensures
        step(s, op) matches Ok(t) ==> inv(t),
{
    match step(s, op) {
        Err(_) => {},
        Ok(t) => {
            match op {
                OpG::Create { path, mode } => {
                    crate::pathname::lemma_split_shape(path);
                    lemma_resolve_alive(s, split_parent(path));
                    let parent = resolve_dir_g(s, split_parent(path))->Ok_0;
                    crate::model::lemma_attach_new_file_inv(
                        s,
                        parent,
                        split_name(path),
                        OpG::Create {
                            path: path_join(path_of(s, parent), split_name(path)),
                            mode,
                        },
                    );
                },
                OpG::Symlink { target, linkpath } => {
                    crate::pathname::lemma_split_shape(linkpath);
                    lemma_resolve_alive(s, split_parent(linkpath));
                    let parent = resolve_dir_g(s, split_parent(linkpath))->Ok_0;
                    crate::model::lemma_attach_new_file_inv(
                        s,
                        parent,
                        split_name(linkpath),
                        OpG::Symlink {
                            target,
                            linkpath: path_join(path_of(s, parent), split_name(linkpath)),
                        },
                    );
                },
                OpG::MkDir { path, mode } => {
                    crate::pathname::lemma_split_shape(path);
                    lemma_resolve_alive(s, split_parent(path));
                    let parent = resolve_dir_g(s, split_parent(path))->Ok_0;
                    crate::model::lemma_mkdir_inv(s, parent, split_name(path), t);
                },
                OpG::Remove { path } => {
                    lemma_resolve_alive(s, split_parent(path));
                    let parent = resolve_dir_g(s, split_parent(path))->Ok_0;
                    lemma_child_index_props(s.dirs[parent].children, split_name(path));
                    let i = crate::model::child_index(s.dirs[parent].children, split_name(path));
                    assert(crate::model::wf_children(s, parent));
                    crate::model::lemma_remove_inv(s, parent, i, path);
                },
                OpG::Hardlink { old_path, new_path } => {
                    lemma_resolve_file_linked(s, old_path);
                    let f = resolve_file_g(s, old_path)->Ok_0;
                    crate::pathname::lemma_split_shape(new_path);
                    lemma_resolve_alive(s, split_parent(new_path));
                    let parent = resolve_dir_g(s, split_parent(new_path))->Ok_0;
                    crate::model::lemma_hardlink_inv(s, f, parent, split_name(new_path), t);
                },
                OpG::Rename { old_path, new_path } => {
                    lemma_resolve_file_linked(s, old_path);
                    let f = resolve_file_g(s, old_path)->Ok_0;
                    lemma_resolve_alive(s, split_parent(old_path));
                    let oparent = resolve_dir_g(s, split_parent(old_path))->Ok_0;
                    crate::pathname::lemma_split_shape(new_path);
                    lemma_resolve_alive(s, split_parent(new_path));
                    let nparent = resolve_dir_g(s, split_parent(new_path))->Ok_0;
                    let i = crate::model::child_index(
                        s.dirs[oparent].children,
                        split_name(old_path),
                    );
                    lemma_child_index_props(s.dirs[oparent].children, split_name(old_path));
                    crate::model::lemma_rename_inv(
                        s,
                        f,
                        oparent,
                        i,
                        nparent,
                        split_name(new_path),
                        old_path,
                    );
                },
                OpG::Open { path, des } => {
                    lemma_resolve_file_linked(s, path);
                    let f = resolve_file_g(s, path)->Ok_0;
                    assert(crate::model::wf_descriptors(t)) by {
                        assert forall|a: int, b: int|
                            0 <= a < t.files.len() && 0 <= b < t.files.len() && a != b && (
                            #[trigger] t.files[a]).descriptor is Some && (
                            #[trigger] t.files[b]).descriptor is Some implies t.files[a].descriptor
                            != t.files[b].descriptor by {
                            if a != f && b != f {
                                assert(t.files[a] == s.files[a]);
                                assert(t.files[b] == s.files[b]);
                            }
                        }
                    }
                    crate::model::lemma_nonstructural_inv(s, t);
                },
                OpG::Close { des } => {
                    assert(crate::model::wf_descriptors(t)) by {
                        let f = crate::model::file_with_descriptor(s, des);
                        assert forall|a: int, b: int|
                            0 <= a < t.files.len() && 0 <= b < t.files.len() && a != b && (
                            #[trigger] t.files[a]).descriptor is Some && (
                            #[trigger] t.files[b]).descriptor is Some implies t.files[a].descriptor
                            != t.files[b].descriptor by {
                            assert(t.files[a].descriptor == s.files[a].descriptor);
                            assert(t.files[b].descriptor == s.files[b].descriptor);
                        }
                    }
                    crate::model::lemma_nonstructural_inv(s, t);
                },
                OpG::Read { des, size } => {
                    crate::model::lemma_nonstructural_inv(s, t);
                },
                OpG::Write { des, src_offset, size } => {
                    assert(crate::model::wf_descriptors(t)) by {
                        assert(forall|a: int|
                            0 <= a < t.files.len() ==> (#[trigger] t.files[a]).descriptor
                                == s.files[a].descriptor);
                    }
                    crate::model::lemma_nonstructural_inv(s, t);
                },
                OpG::FSync { des } => {
                    crate::model::lemma_nonstructural_inv(s, t);
                },
            }
        },
    }
}

/// A successful step appends one operation to the recording, and that
/// recorded, canonicalised operation has exactly the same effect.
pub proof fn lemma_step_canonical(s: FsG, op: OpG)
    requires
        inv(s),
    ensures
        step(s, op) matches Ok(t) ==> t.recording.len() == s.recording.len() + 1
            && t.recording.take(s.recording.len() as int) == s.recording && step(
            s,
            t.recording.last(),
        ) == Ok::<FsG, ErrG>(t),
{
    match step(s, op) {
        Err(_) => {},
        Ok(t) => {
            assert(t.recording.take(s.recording.len() as int) =~= s.recording) by {
                lemma_step_appends(s, op);
            }
            match op {
                OpG::Create { path, mode } => {
                    crate::pathname::lemma_split_shape(path);
                    lemma_resolve_alive(s, split_parent(path));
                    let parent = resolve_dir_g(s, split_parent(path))->Ok_0;
                    let name = split_name(path);
                    lemma_path_of_canonical(s, parent);
                    lemma_resolve_path_of(s, parent);
                    lemma_split_join(path_of(s, parent), name);
                    let cp = path_join(path_of(s, parent), name);
                    assert(t.recording.last() == OpG::Create { path: cp, mode });
                    assert(step(s, OpG::Create { path: cp, mode }) == Ok::<FsG, ErrG>(t));
                },
                OpG::MkDir { path, mode } => {
                    crate::pathname::lemma_split_shape(path);
                    lemma_resolve_alive(s, split_parent(path));
                    let parent = resolve_dir_g(s, split_parent(path))->Ok_0;
                    let name = split_name(path);
                    lemma_path_of_canonical(s, parent);
                    lemma_resolve_path_of(s, parent);
                    lemma_split_join(path_of(s, parent), name);
                    let cp = path_join(path_of(s, parent), name);
                    assert(t.recording.last() == OpG::MkDir { path: cp, mode });
                    assert(step(s, OpG::MkDir { path: cp, mode }) == Ok::<FsG, ErrG>(t));
                },
                OpG::Symlink { target, linkpath } => {
                    crate::pathname::lemma_split_shape(linkpath);
                    lemma_resolve_alive(s, split_parent(linkpath));
                    let parent = resolve_dir_g(s, split_parent(linkpath))->Ok_0;
                    let name = split_name(linkpath);
                    lemma_path_of_canonical(s, parent);
                    lemma_resolve_path_of(s, parent);
                    lemma_split_join(path_of(s, parent), name);
                    let cp = path_join(path_of(s, parent), name);
                    assert(t.recording.last() == OpG::Symlink { target, linkpath: cp });
                    assert(step(s, OpG::Symlink { target, linkpath: cp }) == Ok::<FsG, ErrG>(t));
                },
                OpG::Remove { path } => {
                    assert(t.recording.last() == OpG::Remove { path });
                },
                OpG::Hardlink { old_path, new_path } => {
                    lemma_resolve_file_linked(s, old_path);
                    let f = resolve_file_g(s, old_path)->Ok_0;
                    crate::pathname::lemma_split_shape(new_path);
                    lemma_resolve_alive(s, split_parent(new_path));
                    let parent = resolve_dir_g(s, split_parent(new_path))->Ok_0;
                    let name = split_name(new_path);
                    lemma_path_of_canonical(s, parent);
                    lemma_resolve_path_of(s, parent);
                    lemma_split_join(path_of(s, parent), name);
                    let cp = path_join(path_of(s, parent), name);
                    let old_rec = lex_max(file_paths(s, f));
                    lemma_lex_max_props(file_paths(s, f));
                    lemma_file_path_resolves(s, f, old_rec);
                    assert(t.recording.last() == OpG::Hardlink {
                        old_path: old_rec,
                        new_path: cp,
                    });
                    assert(step(s, OpG::Hardlink { old_path: old_rec, new_path: cp }) == Ok::<
                        FsG,
                        ErrG,
                    >(t));
                },
                OpG::Rename { old_path, new_path } => {
                    lemma_resolve_file_linked(s, old_path);
                    let f = resolve_file_g(s, old_path)->Ok_0;
                    lemma_resolve_alive(s, split_parent(old_path));
                    crate::pathname::lemma_split_shape(new_path);
                    lemma_resolve_alive(s, split_parent(new_path));
                    let nparent = resolve_dir_g(s, split_parent(new_path))->Ok_0;
                    let nname = split_name(new_path);
                    lemma_path_of_canonical(s, nparent);
                    lemma_resolve_path_of(s, nparent);
                    lemma_split_join(path_of(s, nparent), nname);
                    let cp = path_join(path_of(s, nparent), nname);
                    assert(t.recording.last() == OpG::Rename { old_path, new_path: cp });
                    assert(step(s, OpG::Rename { old_path, new_path: cp }) == Ok::<FsG, ErrG>(t));
                },
                OpG::Open { path, des } => {
                    assert(t.recording.last() == OpG::Open { path, des });
                },
                OpG::Close { des } => {
                    assert(t.recording.last() == OpG::Close { des });
                },
                OpG::Read { des, size } => {
                    assert(t.recording.last() == OpG::Read { des, size });
                },
                OpG::Write { des, src_offset, size } => {
                    assert(t.recording.last() == OpG::Write { des, src_offset, size });
                },
                OpG::FSync { des } => {
                    assert(t.recording.last() == OpG::FSync { des });
                },
            }
        },
    }
}

/// A successful step appends exactly one recorded operation.
pub proof fn lemma_step_appends(s: FsG, op: OpG)
    ensures
        step(s, op) matches Ok(t) ==> t.recording.len() == s.recording.len() + 1
            && t.recording.take(s.recording.len() as int) =~= s.recording,
{
    match step(s, op) {
        Err(_) => {},
        Ok(t) => {
            assert(t.recording.take(s.recording.len() as int) =~= s.recording);
        },
    }
}

/// A successful run only appends to the recording.
pub proof fn lemma_run_extends(s: FsG, ops: Seq<OpG>)
    ensures
        run_ops(s, ops) matches Ok(t) ==> t.recording.len() >= s.recording.len()
            && t.recording.take(s.recording.len() as int) == s.recording,
    decreases ops.len(),
{
    if ops.len() == 0 {
        match run_ops(s, ops) {
            Ok(t) => {
                assert(t.recording.take(s.recording.len() as int) =~= s.recording);
            },
            Err(_) => {},
        }
    } else {
        match step(s, ops[0]) {
            Ok(s1) => {
                lemma_step_appends(s, ops[0]);
                lemma_run_extends(s1, ops.skip(1));
                match run_ops(s1, ops.skip(1)) {
                    Ok(t) => {
                        assert(t.recording.take(s.recording.len() as int) =~= s.recording) by {
                            assert(t.recording.take(s1.recording.len() as int) == s1.recording);
                            assert(forall|i: int|
                                0 <= i < s.recording.len() ==> #[trigger] t.recording[i]
                                    == s1.recording[i]);
                        }
                    },
                    Err(_) => {},
                }
            },
            Err(_) => {},
        }
    }
}

/// Every prefix of a runnable sequence runs.
pub proof fn lemma_run_prefix(s: FsG, ops: Seq<OpG>, k: int)
    requires
        run_ops(s, ops) is Ok,
        0 <= k <= ops.len(),
    ensures
        run_ops(s, ops.take(k)) is Ok,
    decreases k,
{
    if k > 0 {
        match step(s, ops[0]) {
            Ok(s1) => {
                assert(ops.take(k)[0] == ops[0]);
                lemma_run_prefix(s1, ops.skip(1), k - 1);
                assert(ops.take(k).skip(1) =~= ops.skip(1).take(k - 1));
            },
            Err(_) => {},
        }
    } else {
        assert(ops.take(0).len() == 0);
    }
}

/// Replaying what a run recorded reproduces the run's end state.
pub proof fn lemma_replay_recording(s: FsG, ops: Seq<OpG>)
    requires
        inv(s),
        run_ops(s, ops) is Ok,
    ensures
        run_ops(s, ops) matches Ok(t) ==> run_ops(
            s,
            t.recording.skip(s.recording.len() as int),
        ) == Ok::<FsG, ErrG>(t),
    decreases ops.len(),
{
    match run_ops(s, ops) {
        Err(_) => {},
        Ok(t) => {
            if ops.len() == 0 {
                assert(t == s);
                assert(t.recording.skip(s.recording.len() as int).len() == 0);
            } else {
                match step(s, ops[0]) {
                    Ok(s1) => {
                        lemma_step_canonical(s, ops[0]);
                        lemma_step_inv(s, ops[0]);
                        let rec0 = s1.recording.last();
                        lemma_replay_recording(s1, ops.skip(1));
                        lemma_run_extends(s1, ops.skip(1));
                        let delta = t.recording.skip(s.recording.len() as int);
                        let delta1 = t.recording.skip(s1.recording.len() as int);
                        assert(delta.len() >= 1) by {
                            assert(t.recording.len() >= s1.recording.len());
                        }
                        assert(delta[0] == rec0) by {
                            assert(t.recording.take(s1.recording.len() as int) == s1.recording);
                            assert(t.recording[s.recording.len() as int]
                                == s1.recording[s.recording.len() as int]);
                        }
                        assert(delta.skip(1) =~= delta1);
                        assert(step(s, delta[0]) == Ok::<FsG, ErrG>(s1));
                        assert(run_ops(s1, delta1) == Ok::<FsG, ErrG>(t));
                    },
                    Err(_) => {},
                }
            }
        },
    }
}

/// The end state a valid workload reaches from a fresh state.
pub open spec fn end_state(ops: Seq<OpG>) -> FsG
    recommends
        valid_ops(ops),
{
    run_ops(fs_init(), ops)->Ok_0
}

/// The canonical recording of a valid workload.
pub open spec fn recording_of(ops: Seq<OpG>) -> Seq<OpG>
    recommends
        valid_ops(ops),
{
    end_state(ops).recording
}

/// Replaying any prefix of a recording on a fresh state succeeds and
/// reproduces exactly that prefix as the new recording.
pub proof fn lemma_recording_roundtrip(ops: Seq<OpG>, k: int)
    requires
        valid_ops(ops),
        0 <= k <= recording_of(ops).len(),
    ensures
        run_ops(fs_init(), recording_of(ops).take(k)) is Ok,
        (run_ops(fs_init(), recording_of(ops).take(k))->Ok_0).recording == recording_of(
            ops,
        ).take(k),
{
    let rec = recording_of(ops);
    crate::model::lemma_init_inv();
    lemma_replay_recording(fs_init(), ops);
    assert(fs_init().recording.len() == 0);
    assert(rec.skip(0) =~= rec);
    assert(run_ops(fs_init(), rec) == Ok::<FsG, ErrG>(end_state(ops)));
    lemma_run_prefix(fs_init(), rec, k);
    lemma_canonical_run_prefix(fs_init(), rec, k);
}

/// Running a prefix of a self-reproducing recording records that prefix.
proof fn lemma_canonical_run_prefix(s: FsG, rec: Seq<OpG>, k: int)
    requires
        inv(s),
        0 <= k <= rec.len(),
        run_ops(s, rec) matches Ok(t) && t.recording == s.recording + rec,
    ensures
        run_ops(s, rec.take(k)) matches Ok(tk) && tk.recording == s.recording + rec.take(k),
    decreases k,
{
    if k == 0 {
        assert(rec.take(0).len() == 0);
        assert(s.recording + rec.take(0) =~= s.recording);
    } else {
        match step(s, rec[0]) {
            Ok(s1) => {
                lemma_step_inv(s, rec[0]);
                lemma_step_appends(s, rec[0]);
                lemma_run_extends(s1, rec.skip(1));
                let t = run_ops(s, rec)->Ok_0;
                assert(run_ops(s1, rec.skip(1)) == Ok::<FsG, ErrG>(t));
                assert(s1.recording == t.recording.take(s1.recording.len() as int));
                assert(s1.recording =~= s.recording.push(rec[0])) by {
                    assert(t.recording == s.recording + rec);
                    assert(s1.recording.len() == s.recording.len() + 1);
                    assert(forall|i: int|
                        0 <= i < s1.recording.len() ==> #[trigger] s1.recording[i]
                            == t.recording[i]);
                    assert(t.recording[s.recording.len() as int] == rec[0]);
                }
                assert(t.recording == s1.recording + rec.skip(1)) by {
                    assert(t.recording =~= s.recording.push(rec[0]) + rec.skip(1));
                }
                lemma_canonical_run_prefix(s1, rec.skip(1), k - 1);
                let tk1 = run_ops(s1, rec.skip(1).take(k - 1))->Ok_0;
                assert(rec.take(k)[0] == rec[0]);
                assert(rec.take(k).skip(1) =~= rec.skip(1).take(k - 1));
                assert(run_ops(s, rec.take(k)) == Ok::<FsG, ErrG>(tk1));
                assert(tk1.recording =~= s.recording + rec.take(k)) by {
                    assert(tk1.recording == s1.recording + rec.skip(1).take(k - 1));
                }
            },
            Err(_) => {},
        }
    }
}

/// The end state of a valid workload is well-formed, and its recording
/// is itself a valid workload.
pub proof fn lemma_valid_recording_valid(ops: Seq<OpG>)
    requires
        valid_ops(ops),
    ensures
        inv(end_state(ops)),
        valid_ops(recording_of(ops)),
{
    crate::model::lemma_init_inv();
    lemma_run_inv(fs_init(), ops);
    lemma_replay_recording(fs_init(), ops);
    assert(recording_of(ops).skip(0) =~= recording_of(ops));
}

/// A missing final segment fails a resolution with `NotFound`.
proof fn lemma_resolve_segs_snoc_none(
    s: FsG,
    cur: NodeG,
    done: Seq<char>,
    rest: Seq<Seq<char>>,
    x: Seq<char>,
    d: int,
)
    requires
        resolve_segs(s, cur, done, rest) == Ok::<NodeG, ErrG>(NodeG::Dir(d)),
        0 <= d < s.dirs.len(),
        lookup(s.dirs[d].children, x) is None,
    ensures
        resolve_segs(s, cur, done, rest.push(x)) matches Err(e) && e is NotFound,
    decreases rest.len(),
{
    if rest.len() == 0 {
        assert(cur == NodeG::Dir(d));
        assert(rest.push(x)[0] == x);
    } else {
        match cur {
            NodeG::Dir(c) => {
                assert(0 <= c < s.dirs.len());
                match lookup(s.dirs[c].children, rest[0]) {
                    Some(m) => {
                        lemma_resolve_segs_snoc_none(
                            s,
                            m,
                            done + seq!['/'] + rest[0],
                            rest.skip(1),
                            x,
                            d,
                        );
                        assert(rest.push(x)[0] == rest[0]);
                        assert(rest.push(x).skip(1) =~= rest.skip(1).push(x));
                    },
                    None => {},
                }
            },
            NodeG::File(_) => {},
        }
    }
}

/// A failed resolution fails the same way on any longer segment list.
proof fn lemma_resolve_segs_extend_err(
    s: FsG,
    cur: NodeG,
    done: Seq<char>,
    pre: Seq<Seq<char>>,
    suf: Seq<Seq<char>>,
    e: ErrG,
)
    requires
        resolve_segs(s, cur, done, pre) == Err::<NodeG, ErrG>(e),
    ensures
        resolve_segs(s, cur, done, pre + suf) == Err::<NodeG, ErrG>(e),
    decreases pre.len(),
{
    assert(pre.len() > 0);
    assert((pre + suf)[0] == pre[0]);
    assert((pre + suf).len() > 0);
    match cur {
        NodeG::Dir(c) => {
            if 0 <= c < s.dirs.len() {
                match lookup(s.dirs[c].children, pre[0]) {
                    Some(m) => {
                        lemma_resolve_segs_extend_err(
                            s,
                            m,
                            done + seq!['/'] + pre[0],
                            pre.skip(1),
                            suf,
                            e,
                        );
                        assert((pre + suf).skip(1) =~= pre.skip(1) + suf);
                    },
                    None => {},
                }
            }
        },
        NodeG::File(_) => {},
    }
}

/// After a removal, the canonical path of the removed entry no longer
/// resolves, and neither does any path strictly below it; both fail
/// with `NotFound`.
pub proof fn lemma_remove_not_found(s: FsG, path: Seq<char>)
    requires
        inv(s),
        step(s, OpG::Remove { path }) is Ok,
    ensures
        ({
            let t = step(s, OpG::Remove { path })->Ok_0;
            let parent = resolve_dir_g(s, split_parent(path))->Ok_0;
            let cp = path_join(path_of(t, parent), split_name(path));
            &&& resolve_node_g(t, cp) matches Err(e) && e is NotFound
            &&& forall|q: Seq<char>|
                is_abs_path(q) && segs(cp).is_prefix_of(#[trigger] segs(q)) && segs(q).len()
                    > segs(cp).len() ==> (resolve_node_g(t, q) matches Err(e2) && e2 is NotFound)
        }),
{
    let t = step(s, OpG::Remove { path })->Ok_0;
    let parent = resolve_dir_g(s, split_parent(path))->Ok_0;
    let name = split_name(path);
    lemma_resolve_alive(s, split_parent(path));
    assert(alive_dir(s, parent));
    lemma_child_index_props(s.dirs[parent].children, name);
    let i = crate::model::child_index(s.dirs[parent].children, name);
    assert(crate::model::wf_children(s, parent));
    lemma_step_inv(s, OpG::Remove { path });
    assert(inv(t));
    s.dirs[parent].children.remove_ensures(i);
    let cs = s.dirs[parent].children;
    let cs2 = cs.remove(i);
    assert(t.dirs[parent].children == cs2) by {
        match cs[i].1 {
            NodeG::File(_) => {},
            NodeG::Dir(rd) => {
                assert(!crate::model::in_subtree(s, parent, rd)) by {
                    if is_desc(s, parent, rd) {
                        lemma_desc_smaller(s, parent, rd);
                    }
                    assert(s.dirs[rd].parent == Some(parent));
                }
            },
        }
    }
    assert(alive_dir(t, parent)) by {
        match cs[i].1 {
            NodeG::File(_) => {
                crate::model::lemma_same_parents_alive(s, t);
            },
            NodeG::Dir(rd) => {
                assert(!crate::model::in_subtree(s, parent, rd)) by {
                    if is_desc(s, parent, rd) {
                        lemma_desc_smaller(s, parent, rd);
                    }
                }
                crate::model::lemma_alive_outside_subtree(s, t, rd, parent);
            },
        }
    }
    assert(lookup(t.dirs[parent].children, name) is None) by {
        assert forall|a: int| 0 <= a < cs2.len() implies (#[trigger] cs2[a]).0 != name by {
            if a < i {
                assert(cs2[a] == cs[a]);
                assert(cs[i].0 == name);
            } else {
                assert(cs2[a] == cs[a + 1]);
                assert(cs[i].0 == name);
            }
        }
        crate::model::lemma_lookup_none_intro(cs2, name);
    }
    lemma_resolve_path_of(t, parent);
    lemma_path_of_canonical(t, parent);
    assert(is_seg(name)) by {
        crate::pathname::lemma_split_shape(path);
        assert(is_abs_path(path));
    }
    let cp = path_join(path_of(t, parent), name);
    lemma_segs_join(path_of(t, parent), name);
    lemma_split_join(path_of(t, parent), name);
    lemma_resolve_segs_snoc_none(
        t,
        NodeG::Dir(0),
        Seq::empty(),
        segs(path_of(t, parent)),
        name,
        parent,
    );
    let e = resolve_segs(t, NodeG::Dir(0), Seq::empty(), segs(cp))->Err_0;
    assert forall|q: Seq<char>|
        is_abs_path(q) && segs(cp).is_prefix_of(#[trigger] segs(q)) && segs(q).len() > segs(
            cp,
        ).len() implies (resolve_node_g(t, q) matches Err(e2) && e2 is NotFound) by {
        assert(segs(q) =~= segs(cp) + segs(q).skip(segs(cp).len() as int));
        lemma_resolve_segs_extend_err(
            t,
            NodeG::Dir(0),
            Seq::empty(),
            segs(cp),
            segs(q).skip(segs(cp).len() as int),
            e,
        );
    }
}

/// Running one more operation is running then stepping.
pub proof fn lemma_run_snoc(s: FsG, ops: Seq<OpG>, x: OpG)
    ensures
        run_ops(s, ops.push(x)) == (match run_ops(s, ops) {
            Ok(u) => step(u, x),
            Err(e) => Err(e),
        }),
    decreases ops.len(),
{
    if ops.len() == 0 {
        assert(ops.push(x)[0] == x);
        assert(ops.push(x).skip(1).len() == 0);
        assert(run_ops(s, ops) == Ok::<FsG, ErrG>(s));
        match step(s, x) {
            Ok(u) => {
                assert(run_ops(u, ops.push(x).skip(1)) == Ok::<FsG, ErrG>(u));
                assert(run_ops(s, ops.push(x)) == Ok::<FsG, ErrG>(u));
            },
            Err(e) => {
                assert(run_ops(s, ops.push(x)) == Err::<FsG, ErrG>(e));
            },
        }
    } else {
        assert(ops.push(x)[0] == ops[0]);
        assert(ops.push(x).skip(1) =~= ops.skip(1).push(x));
        match step(s, ops[0]) {
            Ok(s1) => {
                lemma_run_snoc(s1, ops.skip(1), x);
            },
            Err(_) => {},
        }
    }
}

/// A state whose recording replays to itself.
pub open spec fn reproducible(s: FsG) -> bool {
    &&& inv(s)
    &&& run_ops(fs_init(), s.recording) == Ok::<FsG, ErrG>(s)
}

/// The fresh state is reproducible.
pub proof fn lemma_init_reproducible()
    ensures
        reproducible(fs_init()),
{
    crate::model::lemma_init_inv();
}

/// Stepping from a reproducible state reaches a reproducible state.
pub proof fn lemma_reproducible_step(s: FsG, op: OpG)
    requires
        reproducible(s),
    ensures
        step(s, op) matches Ok(t) ==> reproducible(t),
{
    match step(s, op) {
        Err(_) => {},
        Ok(t) => {
            lemma_step_inv(s, op);
            lemma_step_canonical(s, op);
            let rec0 = t.recording.last();
            assert(t.recording =~= s.recording.push(rec0)) by {
                assert(t.recording.take(s.recording.len() as int) == s.recording);
            }
            lemma_run_snoc(fs_init(), s.recording, rec0);
        },
    }
}

/// Running from a reproducible state reaches a reproducible state.
pub proof fn lemma_reproducible_run(s: FsG, ops: Seq<OpG>)
    requires
        reproducible(s),
    ensures
        run_ops(s, ops) matches Ok(t) ==> reproducible(t),
    decreases ops.len(),
{
    if ops.len() > 0 {
        match step(s, ops[0]) {
            Ok(s1) => {
                lemma_reproducible_step(s, ops[0]);
                lemma_reproducible_run(s1, ops.skip(1));
            },
            Err(_) => {},
        }
    }
}

/// A reproducible state's recording is a valid workload.
pub proof fn lemma_reproducible_valid(s: FsG)
    requires
        reproducible(s),
    ensures
        valid_ops(s.recording),
{
}

/// With exactly one link per listed parent, a file has exactly one path
/// per parent.
pub proof fn lemma_file_paths_len(s: FsG, parents: Seq<int>, f: int)
    requires
        forall|k: int|
            0 <= k < parents.len() ==> file_links_in(
                s.dirs[#[trigger] parents[k]].children,
                f,
            ).len() == 1,
    ensures
        file_paths_from(s, parents, f).len() == parents.len(),
    decreases parents.len(),
{
    if parents.len() > 0 {
        assert(file_links_in(s.dirs[parents[0]].children, f).len() == 1);
        assert(forall|k: int|
            0 <= k < parents.skip(1).len() ==> #[trigger] parents.skip(1)[k] == parents[k + 1]);
        lemma_file_paths_len(s, parents.skip(1), f);
    }
}

/// The names of a file's links within one directory are distinct.
proof fn lemma_links_distinct(cs: Seq<(Seq<char>, NodeG)>, f: int)
    requires
        forall|a: int, b: int| 0 <= a < b < cs.len() ==> (#[trigger] cs[a]).0 != (#[trigger] cs[b]).0,
    ensures
        forall|k: int, l: int|
            0 <= k < l < file_links_in(cs, f).len() ==> #[trigger] file_links_in(cs, f)[k]
                != #[trigger] file_links_in(cs, f)[l],
    decreases cs.len(),
{
    if cs.len() > 0 {
        assert(forall|a: int, b: int|
            0 <= a < b < cs.skip(1).len() ==> (#[trigger] cs.skip(1)[a]).0 != (
            #[trigger] cs.skip(1)[b]).0) by {
            assert(forall|a: int| 0 <= a < cs.skip(1).len() ==> #[trigger] cs.skip(1)[a] == cs[a + 1]);
        }
        lemma_links_distinct(cs.skip(1), f);
        let links = file_links_in(cs, f);
        let rest = file_links_in(cs.skip(1), f);
        if cs[0].1 == NodeG::File(f) {
            assert forall|k: int, l: int|
                0 <= k < l < links.len() implies #[trigger] links[k] != #[trigger] links[l] by {
                if k == 0 {
                    assert(links[l] == rest[l - 1]);
                    assert(rest.contains(rest[l - 1]));
                    lemma_file_links_member(cs.skip(1), f, rest[l - 1]);
                    let i = choose|i: int|
                        0 <= i < cs.skip(1).len() && #[trigger] cs.skip(1)[i] == (
                            rest[l - 1],
                            NodeG::File(f),
                        );
                    assert(cs[i + 1].0 == rest[l - 1]);
                    assert(cs[0].0 != cs[i + 1].0);
                } else {
                    assert(links[k] == rest[k - 1] && links[l] == rest[l - 1]);
                }
            }
        }
    }
}

/// Every path of a file resolves to that file, and when every parent
/// holds exactly one link, the file has exactly one path per parent.
pub proof fn lemma_file_paths_law(s: FsG, f: int)
    requires
        inv(s),
        0 <= f < s.files.len(),
    ensures
        forall|q: Seq<char>| #[trigger] file_paths(s, f).contains(q) ==> resolve_node_g(s, q)
            == Ok::<NodeG, ErrG>(NodeG::File(f)),
        forall|k: int, l: int|
            0 <= k < l < file_paths(s, f).len() ==> #[trigger] file_paths(s, f)[k]
                != #[trigger] file_paths(s, f)[l],
        (forall|k: int|
            0 <= k < s.files[f].parents.len() ==> file_links_in(
                s.dirs[#[trigger] s.files[f].parents[k]].children,
                f,
            ).len() == 1) ==> file_paths(s, f).len() == s.files[f].parents.len(),
{
    lemma_file_paths_distinct_from(s, s.files[f].parents, f);
    assert forall|q: Seq<char>| #[trigger] file_paths(s, f).contains(q) implies resolve_node_g(
        s,
        q,
    ) == Ok::<NodeG, ErrG>(NodeG::File(f)) by {
        lemma_file_path_resolves(s, f, q);
    }
    if forall|k: int|
        0 <= k < s.files[f].parents.len() ==> file_links_in(
            s.dirs[#[trigger] s.files[f].parents[k]].children,
            f,
        ).len() == 1 {
        lemma_file_paths_len(s, s.files[f].parents, f);
    }
}

/// A successful run's recording grows by exactly one entry per
/// operation run.
pub proof fn lemma_run_recording_len(s: FsG, ops: Seq<OpG>)
    ensures
        run_ops(s, ops) matches Ok(t) ==> t.recording.len() == s.recording.len() + ops.len(),
    decreases ops.len(),
{
    if ops.len() > 0 {
        match step(s, ops[0]) {
            Ok(s1) => {
                lemma_step_appends(s, ops[0]);
                lemma_run_recording_len(s1, ops.skip(1));
            },
            Err(_) => {},
        }
    }
}

/// A file's listed paths are pairwise distinct: names within one
/// directory differ, and distinct directories have distinct canonical
/// paths.
pub proof fn lemma_file_paths_distinct_from(s: FsG, parents: Seq<int>, f: int)
    requires
        inv(s),
        0 <= f < s.files.len(),
        forall|k: int| 0 <= k < parents.len() ==> alive_dir(s, #[trigger] parents[k]),
        forall|k: int, l: int| 0 <= k < l < parents.len() ==> parents[k] != parents[l],
    ensures
        forall|k: int, l: int|
            0 <= k < l < file_paths_from(s, parents, f).len() ==> #[trigger] file_paths_from(
                s,
                parents,
                f,
            )[k] != #[trigger] file_paths_from(s, parents, f)[l],
    decreases parents.len(),
{
    if parents.len() == 0 {
    } else {
        let p0 = parents[0];
        let g0 = |n: Seq<char>| path_join(path_of(s, p0), n);
        let links = file_links_in(s.dirs[p0].children, f);
        let chunk = links.map_values(g0);
        let tail = file_paths_from(s, parents.skip(1), f);
        let whole = file_paths_from(s, parents, f);
        assert(whole == chunk + tail);
        assert(crate::model::wf_children(s, p0));
        lemma_links_distinct(s.dirs[p0].children, f);
        lemma_path_of_canonical(s, p0);
        lemma_resolve_path_of(s, p0);
        assert forall|k: int| 0 <= k < links.len() implies is_seg(#[trigger] links[k]) by {
            assert(links.contains(links[k]));
            lemma_file_links_member(s.dirs[p0].children, f, links[k]);
            let i = choose|i: int|
                0 <= i < s.dirs[p0].children.len() && #[trigger] s.dirs[p0].children[i] == (
                    links[k],
                    NodeG::File(f),
                );
        }
        assert(forall|k: int| 0 <= k < parents.skip(1).len() ==> #[trigger] parents.skip(1)[k]
            == parents[k + 1]);
        lemma_file_paths_distinct_from(s, parents.skip(1), f);
        assert forall|k: int, l: int| 0 <= k < l < whole.len() implies #[trigger] whole[k]
            != #[trigger] whole[l] by {
            if l < chunk.len() {
                assert(whole[k] == chunk[k] && whole[l] == chunk[l]);
                if chunk[k] == chunk[l] {
                    lemma_split_join(path_of(s, p0), links[k]);
                    lemma_split_join(path_of(s, p0), links[l]);
                    assert(links[k] == links[l]);
                }
            } else if k >= chunk.len() {
                assert(whole[k] == tail[k - chunk.len()] && whole[l] == tail[l - chunk.len()]);
            } else {
                assert(whole[k] == chunk[k] && whole[l] == tail[l - chunk.len()]);
                if whole[k] == whole[l] {
                    assert(tail.contains(tail[l - chunk.len()]));
                    lemma_file_paths_member(s, parents.skip(1), f, tail[l - chunk.len()]);
                    let (w, m) = choose|w: int, m: Seq<char>|
                        0 <= w < parents.skip(1).len() && file_links_in(
                            s.dirs[parents.skip(1)[w]].children,
                            f,
                        ).contains(m) && tail[l - chunk.len()] == #[trigger] path_join(
                            path_of(s, parents.skip(1)[w]),
                            m,
                        );
                    let q = parents.skip(1)[w];
                    assert(q == parents[w + 1]);
                    assert(q != p0);
                    assert(alive_dir(s, q));
                    assert(crate::model::wf_children(s, q));
                    lemma_file_links_member(s.dirs[q].children, f, m);
                    let i2 = choose|i2: int|
                        0 <= i2 < s.dirs[q].children.len() && #[trigger] s.dirs[q].children[i2]
                            == (m, NodeG::File(f));
                    assert(is_seg(m));
                    lemma_path_of_canonical(s, q);
                    lemma_split_join(path_of(s, p0), links[k]);
                    lemma_split_join(path_of(s, q), m);
                    assert(path_of(s, p0) == path_of(s, q));
                    lemma_resolve_path_of(s, q);
                    assert(resolve_node_g(s, path_of(s, p0)) == Ok::<NodeG, ErrG>(NodeG::Dir(p0)));
                    assert(resolve_node_g(s, path_of(s, q)) == Ok::<NodeG, ErrG>(NodeG::Dir(q)));
                    assert(false);
                }
            }
        }
    }
}

/// A duplicate-free list of texts counts each text at most once.
pub proof fn lemma_distinct_count(q: Seq<Seq<char>>, x: Seq<char>)
    requires
        forall|k: int, l: int| 0 <= k < l < q.len() ==> q[k] != q[l],
    ensures
        q.to_multiset().count(x) <= 1,
{
    q.to_multiset_ensures();
    if q.contains(x) {
        let k = choose|k: int| 0 <= k < q.len() && q[k] == x;
        q.remove(k).to_multiset_ensures();
        q.remove_ensures(k);
        assert(!q.remove(k).contains(x)) by {
            if q.remove(k).contains(x) {
                let w = choose|w: int| 0 <= w < q.remove(k).len() && q.remove(k)[w] == x;
                if w < k {
                    assert(q[w] == x);
                } else {
                    assert(q[w + 1] == x);
                }
            }
        }
        assert(q.remove(k).to_multiset().count(x) == 0);
        assert(q.remove(k).to_multiset() =~= q.to_multiset().remove(q[k]));
    } else {
        assert(q.to_multiset().count(x) == 0);
    }
}

/// Two positions holding the same text count it at least twice.
pub proof fn lemma_pair_count(q: Seq<Seq<char>>, k: int, l: int)
    requires
        0 <= k < l < q.len(),
        q[k] == q[l],
    ensures
        q.to_multiset().count(q[k]) >= 2,
{
    q.to_multiset_ensures();
    q.remove(k).to_multiset_ensures();
    q.remove_ensures(k);
    assert(q.remove(k)[l - 1] == q[l]);
    assert(q.remove(k).contains(q[k]));
    assert(q.remove(k).to_multiset().count(q[k]) >= 1);
    assert(q.remove(k).to_multiset() =~= q.to_multiset().remove(q[k]));
    assert(q.contains(q[k]));
    assert(q.to_multiset().count(q[k]) >= 1);
}

/// Running preserves the invariant.
pub proof fn lemma_run_inv(s: FsG, ops: Seq<OpG>)
    requires
        inv(s),
    ensures
        run_ops(s, ops) matches Ok(t) ==> inv(t),
    decreases ops.len(),
{
    if ops.len() > 0 {
        match step(s, ops[0]) {
            Ok(s1) => {
                lemma_step_inv(s, ops[0]);
                lemma_run_inv(s1, ops.skip(1));
            },
            Err(_) => {},
        }
    }
}

} // verus!
