//! State-driven sampling: given the current abstract state and a weight
//! table, draw a legal next operation and apply it. Names are fresh
//! decimals, so every draw that the weights allow is accepted, and every
//! state reached replays from its own recording.

use vstd::prelude::*;
use crate::executor::AbstractExecutor;
use crate::flags::{Mode, ModeFlag};
use crate::laws::{
    lemma_init_reproducible, lemma_reproducible_step, lemma_reproducible_valid, reproducible,
};
use crate::model::{
    attach_new_file, op_abs, resolve_dir_g, step, valid_ops, ErrG, FsG, OpG,
};
use crate::node::{DirIndex, FileIndex, Node};
use crate::operation::{spec_weight_of, OperationKind, OperationWeights};
use crate::pathname::{path_join, split_name, split_parent};
use crate::text::{dec_digits, decimal_string};
use crate::workload::Workload;

verus! {

#[verifier::external_type_specification]
#[verifier::external_body]
pub struct ExStdRng(rand::rngs::StdRng);

/// Relies on rand's `Rng::gen_range` over `0..n`: the drawn value lies
/// in the given non-empty range.
#[verifier::external_body]
fn rand_below(rng: &mut rand::rngs::StdRng, n: u64) -> (r: u64)
    requires
        n > 0,
    ensures
        r < n,
{
    rand::Rng::gen_range(rng, 0..n)
}

/// A uniformly drawn index below `len`.
fn pick_index(rng: &mut rand::rngs::StdRng, len: usize) -> (r: usize)
    requires
        len > 0,
    ensures
        r < len,
{
    rand_below(rng, len as u64) as usize
}

/// Relies on rand's `SeedableRng::seed_from_u64` to build a generator
/// from a seed.
#[verifier::external_body]
pub fn rng_from_seed(seed: u64) -> rand::rngs::StdRng {
    rand::SeedableRng::seed_from_u64(seed)
}

/// The mode newly generated nodes are given.
fn generated_mode() -> (r: Mode)
    ensures
        r@.len() == 4,
{
    let mut mode: Mode = Vec::new();
    mode.push(ModeFlag::S_IRWXU);
    mode.push(ModeFlag::S_IRWXG);
    mode.push(ModeFlag::S_IROTH);
    mode.push(ModeFlag::S_IXOTH);
    mode
}

/// The generator's naming discipline: every child name in the state is
/// the decimal numeral of a number below `idx`, so the numeral of `idx`
/// is free in every directory.
pub open spec fn name_is_below(nm: Seq<char>, idx: int) -> bool {
    exists|j: int| 0 <= j < idx && nm == #[trigger] dec_digits(j)
}

pub open spec fn names_below(s: FsG, idx: int) -> bool {
    forall|d: int, i: int|
        0 <= d < s.dirs.len() && 0 <= i < s.dirs[d].children.len() ==> name_is_below(
            (#[trigger] s.dirs[d].children[i]).0,
            idx,
        )
}

/// The operation is one of the four structural kinds the generator
/// draws.
pub open spec fn structural_op(op: OpG) -> bool {
    ||| op is Create
    ||| op is MkDir
    ||| op is Remove
    ||| op is Hardlink
}

/// The four structural kinds all carry positive weight.
pub open spec fn weights_positive(ws: Seq<(OperationKind, u32)>) -> bool {
    &&& spec_weight_of(ws, OperationKind::Create) > 0
    &&& spec_weight_of(ws, OperationKind::MkDir) > 0
    &&& spec_weight_of(ws, OperationKind::Remove) > 0
    &&& spec_weight_of(ws, OperationKind::Hardlink) > 0
}

/// A freshness bound only widens.
proof fn lemma_below_widen(s: FsG, a: int, b: int)
    requires
        names_below(s, a),
        a <= b,
    ensures
        names_below(s, b),
{
    assert forall|d: int, i: int|
        0 <= d < s.dirs.len() && 0 <= i < s.dirs[d].children.len() implies name_is_below(
        (#[trigger] s.dirs[d].children[i]).0,
        b,
    ) by {
        assert(name_is_below(s.dirs[d].children[i].0, a));
        let j = choose|j: int| 0 <= j < a && s.dirs[d].children[i].0 == dec_digits(j);
        assert(0 <= j < b && s.dirs[d].children[i].0 == dec_digits(j));
    }
}

/// Under the discipline, the numeral of `idx` is free in directory `d`.
proof fn lemma_fresh_lookup(s: FsG, idx: int, d: int)
    requires
        names_below(s, idx),
        idx >= 0,
        0 <= d < s.dirs.len(),
    ensures
        crate::model::lookup(s.dirs[d].children, dec_digits(idx)) is None,
{
    let cs = s.dirs[d].children;
    assert forall|i: int| 0 <= i < cs.len() implies (#[trigger] cs[i]).0 != dec_digits(idx) by {
        assert(name_is_below(cs[i].0, idx));
        let j = choose|j: int| 0 <= j < idx && cs[i].0 == dec_digits(j);
        if cs[i].0 == dec_digits(idx) {
            crate::text::lemma_dec_digits_injective(j, idx);
        }
    }
    crate::model::lemma_lookup_none_intro(cs, dec_digits(idx));
}

/// Creating a file under a name by `idx` keeps the discipline.
proof fn lemma_below_create(s: FsG, path: Seq<char>, mode: Seq<ModeFlag>, idx: int)
    requires
        crate::model::inv(s),
        names_below(s, idx),
        idx >= 0,
        split_name(path) == dec_digits(idx),
        crate::model::step_create(s, path, mode) is Ok,
    ensures
        names_below(crate::model::step_create(s, path, mode)->Ok_0, idx + 1),
{
    let t = crate::model::step_create(s, path, mode)->Ok_0;
    let parent = resolve_dir_g(s, split_parent(path))->Ok_0;
    crate::model::lemma_resolve_alive(s, split_parent(path));
    assert(0 <= parent < s.dirs.len());
    assert(t == attach_new_file(
        s,
        parent,
        dec_digits(idx),
        OpG::Create {
            path: path_join(crate::model::path_of(s, parent), dec_digits(idx)),
            mode,
        },
    ));
    assert forall|d: int, i: int|
        0 <= d < t.dirs.len() && 0 <= i < t.dirs[d].children.len() implies name_is_below(
        (#[trigger] t.dirs[d].children[i]).0,
        idx + 1,
    ) by {
        if d == parent && i == s.dirs[parent].children.len() {
            assert(t.dirs[d].children[i].0 == dec_digits(idx));
            assert(0 <= idx < idx + 1 && t.dirs[d].children[i].0 == dec_digits(idx));
        } else {
            assert(t.dirs[d].children[i] == s.dirs[d].children[i]);
            assert(name_is_below(s.dirs[d].children[i].0, idx));
            let j = choose|j: int| 0 <= j < idx && s.dirs[d].children[i].0 == dec_digits(j);
            assert(0 <= j < idx + 1 && t.dirs[d].children[i].0 == dec_digits(j));
        }
    }
}

/// Making a directory under a name by `idx` keeps the discipline.
proof fn lemma_below_mkdir(s: FsG, path: Seq<char>, mode: Seq<ModeFlag>, idx: int)
    requires
        crate::model::inv(s),
        names_below(s, idx),
        idx >= 0,
        split_name(path) == dec_digits(idx),
        crate::model::step_mkdir(s, path, mode) is Ok,
    ensures
        names_below(crate::model::step_mkdir(s, path, mode)->Ok_0, idx + 1),
{
    let t = crate::model::step_mkdir(s, path, mode)->Ok_0;
    let parent = resolve_dir_g(s, split_parent(path))->Ok_0;
    crate::model::lemma_resolve_alive(s, split_parent(path));
    assert(0 <= parent < s.dirs.len());
    assert(t.dirs == s.dirs.update(
        parent,
        crate::model::DirG {
            parent: s.dirs[parent].parent,
            children: s.dirs[parent].children.push(
                (dec_digits(idx), crate::model::NodeG::Dir(s.dirs.len() as int)),
            ),
        },
    ).push(crate::model::DirG { parent: Some(parent), children: Seq::empty() }));
    assert forall|d: int, i: int|
        0 <= d < t.dirs.len() && 0 <= i < t.dirs[d].children.len() implies name_is_below(
        (#[trigger] t.dirs[d].children[i]).0,
        idx + 1,
    ) by {
        if d == s.dirs.len() {
            assert(t.dirs[d].children.len() == 0);
        } else if d == parent && i == s.dirs[parent].children.len() {
            assert(t.dirs[d].children[i].0 == dec_digits(idx));
            assert(0 <= idx < idx + 1 && t.dirs[d].children[i].0 == dec_digits(idx));
        } else {
            assert(t.dirs[d].children[i] == s.dirs[d].children[i]);
            assert(name_is_below(s.dirs[d].children[i].0, idx));
            let j = choose|j: int| 0 <= j < idx && s.dirs[d].children[i].0 == dec_digits(j);
            assert(0 <= j < idx + 1 && t.dirs[d].children[i].0 == dec_digits(j));
        }
    }
}

/// Removal adds no names, so it keeps the discipline.
proof fn lemma_below_remove(s: FsG, path: Seq<char>, idx: int)
    requires
        crate::model::inv(s),
        names_below(s, idx),
        crate::model::step_remove(s, path) is Ok,
    ensures
        names_below(crate::model::step_remove(s, path)->Ok_0, idx),
{
    let t = crate::model::step_remove(s, path)->Ok_0;
    let parent = resolve_dir_g(s, split_parent(path))->Ok_0;
    crate::model::lemma_resolve_alive(s, split_parent(path));
    assert(0 <= parent < s.dirs.len());
    let w = crate::model::child_index(s.dirs[parent].children, split_name(path));
    crate::laws::lemma_child_index_props(s.dirs[parent].children, split_name(path));
    let cs = s.dirs[parent].children;
    cs.remove_ensures(w);
    assert(0 <= w < cs.len());
    assert(t == crate::model::remove_effect(s, parent, w, path));
    assert forall|d: int, i: int|
        0 <= d < t.dirs.len() && 0 <= i < t.dirs[d].children.len() implies name_is_below(
        (#[trigger] t.dirs[d].children[i]).0,
        idx,
    ) by {
        let e = t.dirs[d].children[i];
        assert(exists|i0: int|
            0 <= i0 < s.dirs[d].children.len() && #[trigger] s.dirs[d].children[i0] == e) by {
            match cs[w].1 {
                crate::model::NodeG::File(_) => {
                    if d == parent {
                        if i < w {
                            assert(s.dirs[d].children[i] == e);
                        } else {
                            assert(s.dirs[d].children[i + 1] == e);
                        }
                    } else {
                        assert(s.dirs[d].children[i] == e);
                    }
                },
                crate::model::NodeG::Dir(rd) => {
                    if d == rd || crate::model::is_desc(s, d, rd) {
                        assert(t.dirs[d].children.len() == 0);
                    } else if d == parent {
                        if i < w {
                            assert(s.dirs[d].children[i] == e);
                        } else {
                            assert(s.dirs[d].children[i + 1] == e);
                        }
                    } else {
                        assert(s.dirs[d].children[i] == e);
                    }
                },
            }
        }
        let i0 = choose|i0: int|
            0 <= i0 < s.dirs[d].children.len() && #[trigger] s.dirs[d].children[i0] == e;
        assert(name_is_below(s.dirs[d].children[i0].0, idx));
        let j = choose|j: int| 0 <= j < idx && s.dirs[d].children[i0].0 == dec_digits(j);
        assert(0 <= j < idx && e.0 == dec_digits(j));
    }
}

/// A hardlink under a name by `idx` keeps the discipline.
proof fn lemma_below_hardlink(s: FsG, old_path: Seq<char>, new_path: Seq<char>, idx: int)
    requires
        crate::model::inv(s),
        names_below(s, idx),
        idx >= 0,
        split_name(new_path) == dec_digits(idx),
        crate::model::step_hardlink(s, old_path, new_path) is Ok,
    ensures
        names_below(crate::model::step_hardlink(s, old_path, new_path)->Ok_0, idx + 1),
{
    let t = crate::model::step_hardlink(s, old_path, new_path)->Ok_0;
    let parent = resolve_dir_g(s, split_parent(new_path))->Ok_0;
    crate::model::lemma_resolve_alive(s, split_parent(new_path));
    assert(0 <= parent < s.dirs.len());
    assert(t.dirs == s.dirs.update(
        parent,
        crate::model::DirG {
            parent: s.dirs[parent].parent,
            children: s.dirs[parent].children.push(
                (dec_digits(idx), crate::model::NodeG::File(
                    crate::model::resolve_file_g(s, old_path)->Ok_0,
                )),
            ),
        },
    ));
    assert forall|d: int, i: int|
        0 <= d < t.dirs.len() && 0 <= i < t.dirs[d].children.len() implies name_is_below(
        (#[trigger] t.dirs[d].children[i]).0,
        idx + 1,
    ) by {
        if d == parent && i == s.dirs[parent].children.len() {
            assert(t.dirs[d].children[i].0 == dec_digits(idx));
            assert(0 <= idx < idx + 1 && t.dirs[d].children[i].0 == dec_digits(idx));
        } else {
            assert(t.dirs[d].children[i] == s.dirs[d].children[i]);
            assert(name_is_below(s.dirs[d].children[i].0, idx));
            let j = choose|j: int| 0 <= j < idx && s.dirs[d].children[i].0 == dec_digits(j);
            assert(0 <= j < idx + 1 && t.dirs[d].children[i].0 == dec_digits(j));
        }
    }
}


/// Creates a file named by `idx` under an alive directory: accepted
/// whenever the state keeps the naming discipline below `idx`.
#[verifier::rlimit(60)]
fn apply_create(
    exec: &mut AbstractExecutor,
    parent: DirIndex,
    name: crate::pathname::Name,
    Ghost(idx): Ghost<int>,
) -> (r: bool)
    requires
        reproducible(old(exec).abs()),
        crate::model::alive_dir(old(exec).abs(), parent.0 as int),
        name@ == dec_digits(idx),
        idx >= 0,
    ensures
        reproducible(final(exec).abs()),
        !r ==> final(exec).abs() == old(exec).abs(),
        r ==> exists|op: OpG| step(old(exec).abs(), op) == Ok::<FsG, ErrG>(final(exec).abs()),
        names_below(old(exec).abs(), idx) ==> (r && names_below(final(exec).abs(), idx + 1)),
        r ==> final(exec).abs().recording.len() >= 1 && structural_op(
            final(exec).abs().recording.last(),
        ),
{
    let ghost s0 = exec.abs();
    let ghost nv = name@;
    let path = exec.resolve_dir_path(&parent).join(name);
    let mode = generated_mode();
    let ghost pv = path@;
    let ghost mv = mode@;
    let res = exec.create(path, mode);
    proof {
        if names_below(s0, idx) {
            crate::text::lemma_dec_digits_is_seg(idx);
            lemma_fresh_lookup(s0, idx, parent.0 as int);
            crate::laws::lemma_fresh_create_ok(s0, parent.0 as int, nv, mv);
            match &res {
                Err(e) => {
                    assert(crate::model::step_create(s0, pv, mv) == Err::<FsG, ErrG>(
                        crate::executor::err_abs(*e),
                    ));
                },
                Ok(_) => {},
            }
            assert(res is Ok);
            lemma_below_create(s0, pv, mv, idx);
        }
        if res is Ok {
            assert(step(s0, OpG::Create { path: pv, mode: mv }) == Ok::<FsG, ErrG>(exec.abs()));
            let op = choose|op: OpG| step(s0, op) == Ok::<FsG, ErrG>(exec.abs());
            lemma_reproducible_step(s0, op);
        }
    }
    res.is_ok()
}

/// Makes a directory named by `idx` under an alive directory: accepted
/// whenever the state keeps the naming discipline below `idx`.
#[verifier::rlimit(60)]
fn apply_mkdir(
    exec: &mut AbstractExecutor,
    parent: DirIndex,
    name: crate::pathname::Name,
    Ghost(idx): Ghost<int>,
) -> (r: bool)
    requires
        reproducible(old(exec).abs()),
        crate::model::alive_dir(old(exec).abs(), parent.0 as int),
        name@ == dec_digits(idx),
        idx >= 0,
    ensures
        reproducible(final(exec).abs()),
        !r ==> final(exec).abs() == old(exec).abs(),
        r ==> exists|op: OpG| step(old(exec).abs(), op) == Ok::<FsG, ErrG>(final(exec).abs()),
        names_below(old(exec).abs(), idx) ==> (r && names_below(final(exec).abs(), idx + 1)),
        r ==> final(exec).abs().recording.len() >= 1 && structural_op(
            final(exec).abs().recording.last(),
        ),
{
    let ghost s0 = exec.abs();
    let ghost nv = name@;
    let path = exec.resolve_dir_path(&parent).join(name);
    let mode = generated_mode();
    let ghost pv = path@;
    let ghost mv = mode@;
    let res = exec.mkdir(path, mode);
    proof {
        if names_below(s0, idx) {
            crate::text::lemma_dec_digits_is_seg(idx);
            lemma_fresh_lookup(s0, idx, parent.0 as int);
            crate::laws::lemma_fresh_mkdir_ok(s0, parent.0 as int, nv, mv);
            match &res {
                Err(e) => {
                    assert(crate::model::step_mkdir(s0, pv, mv) == Err::<FsG, ErrG>(
                        crate::executor::err_abs(*e),
                    ));
                },
                Ok(_) => {},
            }
            assert(res is Ok);
            lemma_below_mkdir(s0, pv, mv, idx);
        }
        if res is Ok {
            assert(step(s0, OpG::MkDir { path: pv, mode: mv }) == Ok::<FsG, ErrG>(exec.abs()));
            let op = choose|op: OpG| step(s0, op) == Ok::<FsG, ErrG>(exec.abs());
            lemma_reproducible_step(s0, op);
        }
    }
    res.is_ok()
}

/// Removes an alive non-root node by its first listed path: always
/// accepted.
#[verifier::rlimit(60)]
fn apply_remove(exec: &mut AbstractExecutor, node: Node) -> (r: bool)
    requires
        reproducible(old(exec).abs()),
        node matches Node::DIR(d) ==> crate::model::alive_dir(old(exec).abs(), d.0 as int) && d.0
            != 0,
        node matches Node::FILE(f) ==> f.0 < old(exec).files@.len() && old(exec).abs().files[f.0 as int].parents.len()
            > 0,
    ensures
        reproducible(final(exec).abs()),
        r,
        exists|op: OpG| step(old(exec).abs(), op) == Ok::<FsG, ErrG>(final(exec).abs()),
        final(exec).abs().recording.len() >= 1 && structural_op(
            final(exec).abs().recording.last(),
        ),
        forall|idx: int| names_below(old(exec).abs(), idx) ==> names_below(
            final(exec).abs(),
            idx,
        ),
{
    let ghost s0 = exec.abs();
    let paths = exec.resolve_path(&node);
    proof {
        match node {
            Node::DIR(dd) => {
                assert(paths@.len() == 1);
            },
            Node::FILE(ff) => {
                crate::model::lemma_file_paths_nonempty(s0, ff.0 as int);
                crate::executor::path_views(paths@).to_multiset_ensures();
                crate::model::file_paths(s0, ff.0 as int).to_multiset_ensures();
                assert(crate::executor::path_views(paths@).to_multiset().len()
                    == crate::model::file_paths(s0, ff.0 as int).to_multiset().len());
                assert(paths@.len() == crate::executor::path_views(paths@).len());
                assert(paths@.len() > 0);
            },
        }
    }
    let path = paths[0].clone_path();
    let ghost pv = path@;
    let res = exec.remove(path);
    proof {
        match node {
            Node::DIR(dd) => {
                assert(pv == crate::model::path_of(s0, dd.0 as int));
                crate::laws::lemma_dir_remove_ok(s0, dd.0 as int);
            },
            Node::FILE(ff) => {
                crate::executor::path_views(paths@).to_multiset_ensures();
                crate::model::file_paths(s0, ff.0 as int).to_multiset_ensures();
                assert(crate::executor::path_views(paths@).contains(pv)) by {
                    assert(crate::executor::path_views(paths@)[0] == pv);
                }
                assert(crate::executor::path_views(paths@).to_multiset().count(pv) > 0);
                assert(crate::model::file_paths(s0, ff.0 as int).to_multiset().count(pv) > 0);
                assert(crate::model::file_paths(s0, ff.0 as int).contains(pv));
                crate::laws::lemma_file_remove_ok(s0, ff.0 as int, pv);
            },
        }
        match &res {
            Err(e) => {
                assert(crate::model::step_remove(s0, pv) == Err::<FsG, ErrG>(
                    crate::executor::err_abs(*e),
                ));
            },
            Ok(_) => {},
        }
        assert(res is Ok);
        assert(step(s0, OpG::Remove { path: pv }) == Ok::<FsG, ErrG>(exec.abs()));
        let op = choose|op: OpG| step(s0, op) == Ok::<FsG, ErrG>(exec.abs());
        lemma_reproducible_step(s0, op);
        assert forall|idx: int| names_below(s0, idx) implies names_below(exec.abs(), idx) by {
            lemma_below_remove(s0, pv, idx);
        }
    }
    res.is_ok()
}

/// Hardlinks a file's first listed path to a name by `idx` under an
/// alive directory: accepted whenever the state keeps the discipline.
#[verifier::rlimit(60)]
fn apply_hardlink(
    exec: &mut AbstractExecutor,
    file: FileIndex,
    parent: DirIndex,
    name: crate::pathname::Name,
    Ghost(idx): Ghost<int>,
) -> (r: bool)
    requires
        reproducible(old(exec).abs()),
        file.0 < old(exec).files@.len(),
        old(exec).abs().files[file.0 as int].parents.len() > 0,
        crate::model::alive_dir(old(exec).abs(), parent.0 as int),
        name@ == dec_digits(idx),
        idx >= 0,
    ensures
        reproducible(final(exec).abs()),
        !r ==> final(exec).abs() == old(exec).abs(),
        r ==> exists|op: OpG| step(old(exec).abs(), op) == Ok::<FsG, ErrG>(final(exec).abs()),
        names_below(old(exec).abs(), idx) ==> (r && names_below(final(exec).abs(), idx + 1)),
        r ==> final(exec).abs().recording.len() >= 1 && structural_op(
            final(exec).abs().recording.last(),
        ),
{
    let ghost s0 = exec.abs();
    let ghost nv = name@;
    let paths = exec.resolve_file_path(&file);
    proof {
        crate::model::lemma_file_paths_nonempty(s0, file.0 as int);
        assert(paths@.len() > 0);
    }
    let old_path = paths[0].clone_path();
    let new_path = exec.resolve_dir_path(&parent).join(name);
    let ghost ov = old_path@;
    let ghost npv = new_path@;
    let res = exec.hardlink(old_path, new_path);
    proof {
        crate::executor::path_views(paths@).to_multiset_ensures();
        crate::model::file_paths(s0, file.0 as int).to_multiset_ensures();
        assert(crate::executor::path_views(paths@).contains(ov)) by {
            assert(crate::executor::path_views(paths@)[0] == ov);
        }
        assert(crate::executor::path_views(paths@).to_multiset().count(ov) > 0);
        assert(crate::model::file_paths(s0, file.0 as int).to_multiset().count(ov) > 0);
        assert(crate::model::file_paths(s0, file.0 as int).contains(ov));
        if names_below(s0, idx) {
            crate::text::lemma_dec_digits_is_seg(idx);
            lemma_fresh_lookup(s0, idx, parent.0 as int);
            crate::laws::lemma_fresh_hardlink_ok(s0, file.0 as int, ov, parent.0 as int, nv);
            match &res {
                Err(e) => {
                    assert(crate::model::step_hardlink(s0, ov, npv) == Err::<FsG, ErrG>(
                        crate::executor::err_abs(*e),
                    ));
                },
                Ok(_) => {},
            }
            assert(res is Ok);
            lemma_below_hardlink(s0, ov, npv, idx);
        }
        if res is Ok {
            assert(step(s0, OpG::Hardlink { old_path: ov, new_path: npv }) == Ok::<FsG, ErrG>(
                exec.abs(),
            ));
            let op = choose|op: OpG| step(s0, op) == Ok::<FsG, ErrG>(exec.abs());
            lemma_reproducible_step(s0, op);
        }
    }
    res.is_ok()
}

/// Draws one operation kind among those with a legal instance, weighted
/// by `pick_from`, and applies it; the new node, if any, is named by
/// `name_idx`. Returns whether the sampled operation was accepted: when
/// the state's names keep the decimal discipline below `name_idx` and
/// the weights are positive, the draw is always accepted.
#[verifier::rlimit(100)]
pub fn append_one(
    rng: &mut rand::rngs::StdRng,
    exec: &mut AbstractExecutor,
    pick_from: &OperationWeights,
    name_idx: u64,
) -> (r: bool)
    requires
        reproducible(old(exec).abs()),
    ensures
        reproducible(final(exec).abs()),
        valid_ops(final(exec).abs().recording),
        !r ==> final(exec).abs() == old(exec).abs(),
        r ==> exists|op: OpG| step(old(exec).abs(), op) == Ok::<FsG, ErrG>(final(exec).abs()),
        r ==> final(exec).abs().recording.len() == old(exec).abs().recording.len() + 1
            && final(exec).abs().recording.take(old(exec).abs().recording.len() as int) == old(
            exec,
        ).abs().recording,
        (names_below(old(exec).abs(), name_idx as int) && weights_positive(pick_from.weights@))
            ==> r,
        names_below(old(exec).abs(), name_idx as int) ==> names_below(
            final(exec).abs(),
            name_idx as int + 1,
        ),
        r ==> final(exec).abs().recording.len() >= 1 && structural_op(
            final(exec).abs().recording.last(),
        ),
{
    let ghost s0 = exec.abs();
    let alive = exec.alive();
    proof {
        assert forall|k: int| 0 <= k < alive@.len() implies (((#[trigger] alive@[k])
            matches Node::DIR(d) ==> crate::model::alive_dir(s0, d.0 as int)) && ((alive@[k])
            matches Node::FILE(f) ==> f.0 < exec.files@.len() && s0.files[f.0 as int].parents.len()
            > 0)) by {
            match alive@[k] {
                Node::DIR(d) => {
                    assert(alive@.contains(Node::DIR(d)));
                },
                Node::FILE(f) => {
                    assert(alive@.contains(Node::FILE(f)));
                },
            }
        }
    }
    let mut alive_dirs: Vec<DirIndex> = Vec::new();
    let mut removable: Vec<Node> = Vec::new();
    let mut alive_files: Vec<FileIndex> = Vec::new();
    let mut i: usize = 0;
    while i < alive.len()
        invariant
            exec.wf(),
            s0 == exec.abs(),
            alive@.len() >= 1,
            alive@[0] == Node::DIR(DirIndex(0)),
            i >= 1 ==> alive_dirs@.len() >= 1,
            forall|k: int| 0 <= k < alive_dirs@.len() ==> crate::model::alive_dir(
                s0,
                (#[trigger] alive_dirs@[k]).0 as int,
            ),
            forall|k: int| 0 <= k < alive_files@.len() ==> ((#[trigger] alive_files@[k]).0
                < exec.files@.len() && s0.files[alive_files@[k].0 as int].parents.len() > 0),
            forall|k: int| 0 <= k < removable@.len() ==> ((#[trigger] removable@[k])
                matches Node::DIR(d) ==> crate::model::alive_dir(s0, d.0 as int) && d.0 != 0),
            forall|k: int| 0 <= k < removable@.len() ==> ((#[trigger] removable@[k])
                matches Node::FILE(f) ==> f.0 < exec.files@.len() && s0.files[f.0 as int].parents.len()
                > 0),
            0 <= i <= alive@.len(),
            forall|k: int| 0 <= k < alive@.len() ==> ((#[trigger] alive@[k]) matches Node::DIR(d)
                ==> crate::model::alive_dir(s0, d.0 as int)),
            forall|k: int| 0 <= k < alive@.len() ==> ((#[trigger] alive@[k]) matches Node::FILE(f)
                ==> f.0 < exec.files@.len() && s0.files[f.0 as int].parents.len() > 0),
        decreases alive@.len() - i,
    {
        match alive[i] {
            Node::DIR(d) => {
                alive_dirs.push(d);
                if d.0 != 0 {
                    removable.push(Node::DIR(d));
                }
            },
            Node::FILE(f) => {
                alive_files.push(f);
                removable.push(Node::FILE(f));
            },
        }
        i += 1;
    }
    let mut kinds: Vec<OperationKind> = Vec::new();
    kinds.push(OperationKind::Create);
    kinds.push(OperationKind::MkDir);
    if removable.len() > 0 {
        kinds.push(OperationKind::Remove);
    }
    if alive_files.len() > 0 {
        kinds.push(OperationKind::Hardlink);
    }
    proof {
        if removable@.len() == 0 && alive_files@.len() == 0 {
            assert(kinds@ =~= seq![OperationKind::Create, OperationKind::MkDir]);
        } else if removable@.len() == 0 {
            assert(kinds@ =~= seq![
                OperationKind::Create,
                OperationKind::MkDir,
                OperationKind::Hardlink,
            ]);
        } else if alive_files@.len() == 0 {
            assert(kinds@ =~= seq![
                OperationKind::Create,
                OperationKind::MkDir,
                OperationKind::Remove,
            ]);
        } else {
            assert(kinds@ =~= seq![
                OperationKind::Create,
                OperationKind::MkDir,
                OperationKind::Remove,
                OperationKind::Hardlink,
            ]);
        }
    }
    let ghost kindsg = kinds@;
    let mut total: u64 = 0;
    let mut k: usize = 0;
    while k < kinds.len()
        invariant
            total <= k * (u32::MAX as u64),
            k <= kinds@.len(),
            kinds@ == kindsg,
            kinds@.len() <= 4,
            kinds@[0] == OperationKind::Create,
            k >= 1 ==> total >= spec_weight_of(pick_from.weights@, OperationKind::Create) as u64,
        decreases kinds@.len() - k,
    {
        total = total + pick_from.weight_of(kinds[k]) as u64;
        k += 1;
    }
    if total == 0 {
        proof {
            if names_below(s0, name_idx as int) {
                lemma_below_widen(s0, name_idx as int, name_idx as int + 1);
            }
        }
        return false;
    }
    let mut draw = rand_below(rng, total);
    let mut chosen = kinds[0];
    let mut k2: usize = 0;
    let mut picked = false;
    while k2 < kinds.len()
        invariant
            k2 <= kinds@.len(),
            kinds@ == kindsg,
            kinds@.len() >= 1,
            kinds@.contains(chosen),
        decreases kinds@.len() - k2,
    {
        let w = pick_from.weight_of(kinds[k2]) as u64;
        if !picked && draw < w {
            chosen = kinds[k2];
            proof {
                assert(kinds@[k2 as int] == chosen);
            }
            picked = true;
        }
        if !picked && draw >= w {
            draw = draw - w;
        }
        k2 += 1;
    }
    let name = decimal_string(name_idx);
    let accepted: bool;
    match chosen {
        OperationKind::Create => {
            let parent = alive_dirs[pick_index(rng, alive_dirs.len())];
            accepted = apply_create(exec, parent, name, Ghost(name_idx as int));
        },
        OperationKind::MkDir => {
            let parent = alive_dirs[pick_index(rng, alive_dirs.len())];
            accepted = apply_mkdir(exec, parent, name, Ghost(name_idx as int));
        },
        OperationKind::Remove => {
            proof {
                assert(removable@.len() > 0) by {
                    assert(kindsg.contains(OperationKind::Remove));
                }
            }
            let node = removable[pick_index(rng, removable.len())];
            accepted = apply_remove(exec, node);
        },
        OperationKind::Hardlink => {
            proof {
                assert(alive_files@.len() > 0) by {
                    assert(kindsg.contains(OperationKind::Hardlink));
                }
            }
            let file = alive_files[pick_index(rng, alive_files.len())];
            let parent = alive_dirs[pick_index(rng, alive_dirs.len())];
            accepted = apply_hardlink(exec, file, parent, name, Ghost(name_idx as int));
        },
        _ => {
            proof {
                assert(kindsg.contains(chosen));
                let w = choose|w: int| 0 <= w < kindsg.len() && kindsg[w] == chosen;
                assert(false);
            }
            accepted = false;
        },
    }
    proof {
        if accepted {
            let op = choose|op: OpG| step(s0, op) == Ok::<FsG, ErrG>(exec.abs());
            crate::laws::lemma_step_appends(s0, op);
            lemma_reproducible_step(s0, op);
        } else {
            if names_below(s0, name_idx as int) {
                lemma_below_widen(s0, name_idx as int, name_idx as int + 1);
            }
        }
        if names_below(s0, name_idx as int) && names_below(exec.abs(), name_idx as int) {
            lemma_below_widen(exec.abs(), name_idx as int, name_idx as int + 1);
        }
        lemma_reproducible_valid(exec.abs());
    }
    accepted
}

/// Builds a workload of exactly `size` sampled operations: names are
/// fresh decimals, so the state accepts every sample, and the result
/// replays on a fresh state.
pub fn generate_new(rng: &mut rand::rngs::StdRng, size: usize) -> (r: Workload)
    requires
        (size as int) < (u64::MAX as int),
    ensures
        r.ops@.len() == size,
        valid_ops(r.ops@.map_values(|op: crate::operation::Operation| op_abs(op))),
        forall|i: int| 0 <= i < r.ops@.len() ==> structural_op(op_abs(#[trigger] r.ops@[i])),
{
    let mut exec = AbstractExecutor::new();
    proof {
        lemma_init_reproducible();
        assert(names_below(exec.abs(), 1)) by {
            assert(exec.abs().dirs.len() == 1);
            assert(exec.abs().dirs[0].children.len() == 0);
        }
    }
    let weights = OperationWeights::uniform();
    proof {
        let ws = weights.weights@;
        assert(ws.skip(1)[0] == ws[1]);
        assert(ws.skip(1).skip(1) =~= ws.skip(2));
        assert(ws.skip(2)[0] == ws[2]);
        assert(ws.skip(2).skip(1) =~= ws.skip(3));
        assert(ws.skip(3)[0] == ws[3]);
        assert(spec_weight_of(ws, OperationKind::Create) == 100);
        assert(spec_weight_of(ws, OperationKind::MkDir) == spec_weight_of(
            ws.skip(1),
            OperationKind::MkDir,
        ));
        assert(spec_weight_of(ws, OperationKind::MkDir) == 100);
        assert(spec_weight_of(ws, OperationKind::Remove) == spec_weight_of(
            ws.skip(1),
            OperationKind::Remove,
        ));
        assert(spec_weight_of(ws.skip(1), OperationKind::Remove) == spec_weight_of(
            ws.skip(2),
            OperationKind::Remove,
        ));
        assert(spec_weight_of(ws, OperationKind::Remove) == 100);
        assert(spec_weight_of(ws, OperationKind::Hardlink) == spec_weight_of(
            ws.skip(1),
            OperationKind::Hardlink,
        ));
        assert(spec_weight_of(ws.skip(1), OperationKind::Hardlink) == spec_weight_of(
            ws.skip(2),
            OperationKind::Hardlink,
        ));
        assert(spec_weight_of(ws.skip(2), OperationKind::Hardlink) == spec_weight_of(
            ws.skip(3),
            OperationKind::Hardlink,
        ));
        assert(spec_weight_of(ws, OperationKind::Hardlink) == 100);
        assert(weights_positive(ws));
    }
    let mut n: usize = 0;
    let mut name_idx: u64 = 1;
    while n < size
        invariant
            reproducible(exec.abs()),
            weights_positive(weights.weights@),
            names_below(exec.abs(), name_idx as int),
            0 <= n <= size,
            (size as int) < (u64::MAX as int),
            name_idx as int == n + 1,
            exec.abs().recording.len() == n,
            forall|i: int| 0 <= i < exec.abs().recording.len() ==> structural_op(
                #[trigger] exec.abs().recording[i],
            ),
        decreases size - n,
    {
        let ghost rec0 = exec.abs().recording;
        let accepted = append_one(rng, &mut exec, &weights, name_idx);
        proof {
            assert(accepted);
            assert forall|i: int| 0 <= i < exec.abs().recording.len() implies structural_op(
                #[trigger] exec.abs().recording[i],
            ) by {
                if i < rec0.len() {
                    assert(exec.abs().recording[i] == exec.abs().recording.take(
                        rec0.len() as int,
                    )[i]);
                    assert(exec.abs().recording[i] == rec0[i]);
                } else {
                    assert(exec.abs().recording[i] == exec.abs().recording.last());
                }
            }
        }
        name_idx = name_idx + 1;
        n += 1;
    }
    proof {
        lemma_reproducible_valid(exec.abs());
        assert forall|i: int| 0 <= i < exec.recording.ops@.len() implies structural_op(
            op_abs(#[trigger] exec.recording.ops@[i]),
        ) by {
            assert(exec.abs().recording[i] == op_abs(exec.recording.ops@[i]));
        }
    }
    let r = exec.recording;
    r
}

} // verus!
