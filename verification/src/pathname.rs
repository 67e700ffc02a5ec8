//! Absolute paths and the segment algebra they obey.
//!
//! A `PathName` is an absolute path: non-empty, beginning with `/`, and
//! either exactly `/` or not ending with `/`. Its meaning is the sequence
//! of `/`-separated segments; empty segments are ignored.

use vstd::prelude::*;
use vstd::string::StrSliceExecFns;
use vstd::string::StringExecFns;

verus! {

broadcast use vstd::string::group_string_axioms;

/// A file or directory name: a single path segment.
pub type Name = String;

/// Index of the first `/` in `s`, or `s.len()` if there is none.
pub open spec fn first_slash(s: Seq<char>) -> int
    decreases s.len(),
{
    if s.len() == 0 {
        0
    } else if s[0] == '/' {
        0
    } else {
        1 + first_slash(s.skip(1))
    }
}

pub proof fn lemma_first_slash(s: Seq<char>)
    ensures
        0 <= first_slash(s) <= s.len(),
        forall|i: int| 0 <= i < first_slash(s) ==> s[i] != '/',
        first_slash(s) < s.len() ==> s[first_slash(s)] == '/',
    decreases s.len(),
{
    if s.len() == 0 {
    } else if s[0] == '/' {
    } else {
        lemma_first_slash(s.skip(1));
        assert forall|i: int| 0 <= i < first_slash(s) implies s[i] != '/' by {
            if i > 0 {
                assert(s.skip(1)[i - 1] == s[i]);
            }
        }
        if first_slash(s) < s.len() {
            assert(s.skip(1)[first_slash(s) - 1] == s[first_slash(s)]);
        }
    }
}

/// The `/`-separated segments of `s`, with empty segments dropped.
pub open spec fn segs(s: Seq<char>) -> Seq<Seq<char>>
    decreases s.len(),
{
    if s.len() == 0 {
        Seq::empty()
    } else if s[0] == '/' {
        segs(s.skip(1))
    } else {
        proof {
            lemma_first_slash(s);
        }
        seq![s.take(first_slash(s))] + segs(s.skip(first_slash(s)))
    }
}

/// A segment is what may stand between two slashes: non-empty, no `/`.
pub open spec fn is_seg(n: Seq<char>) -> bool {
    n.len() > 0 && forall|i: int| 0 <= i < n.len() ==> n[i] != '/'
}

/// `s` is an absolute path: starts with `/`, and is `/` itself or has no
/// trailing `/`.
pub open spec fn is_abs_path(s: Seq<char>) -> bool {
    s.len() > 0 && s[0] == '/' && (s.len() == 1 || s[s.len() - 1] != '/')
}

/// `s` is a canonical absolute path: `/`, or `/`-joined non-empty segments.
pub open spec fn is_canonical_path(s: Seq<char>) -> bool {
    &&& is_abs_path(s)
    &&& forall|i: int| 0 < i < s.len() ==> !(s[i - 1] == '/' && #[trigger] s[i] == '/')
}

/// Joining a name onto a canonical directory path.
pub open spec fn path_join(p: Seq<char>, n: Seq<char>) -> Seq<char> {
    if p == seq!['/'] {
        p + n
    } else {
        p + seq!['/'] + n
    }
}

/// Index of the last `/` in `s`, or `-1` if there is none.
pub open spec fn last_slash(s: Seq<char>) -> int
    decreases s.len(),
{
    if s.len() == 0 {
        -1
    } else if s[s.len() - 1] == '/' {
        s.len() - 1
    } else {
        last_slash(s.drop_last())
    }
}

pub proof fn lemma_last_slash(s: Seq<char>)
    ensures
        -1 <= last_slash(s) < s.len(),
        last_slash(s) >= 0 ==> s[last_slash(s)] == '/',
        forall|i: int| last_slash(s) < i < s.len() ==> s[i] != '/',
        (exists|i: int| 0 <= i < s.len() && s[i] == '/') ==> last_slash(s) >= 0,
    decreases s.len(),
{
    if s.len() == 0 {
    } else if s[s.len() - 1] == '/' {
    } else {
        lemma_last_slash(s.drop_last());
        assert forall|i: int| last_slash(s) < i < s.len() implies s[i] != '/' by {
            if i < s.len() - 1 {
                assert(s.drop_last()[i] == s[i]);
            }
        }
        if exists|i: int| 0 <= i < s.len() && s[i] == '/' {
            let i = choose|i: int| 0 <= i < s.len() && s[i] == '/';
            assert(s.drop_last()[i] == s[i]);
        }
    }
}

/// An absolute filesystem path.
#[derive(Debug, Clone, Hash)]
pub struct PathName(String);

impl View for PathName {
    type V = Seq<char>;

    closed spec fn view(&self) -> Seq<char> {
        self.0@
    }
}

impl PartialEq for PathName {
    fn eq(&self, other: &PathName) -> (r: bool) {
        self.0 == other.0
    }
}

impl vstd::std_specs::cmp::PartialEqSpecImpl for PathName {
    open spec fn obeys_eq_spec() -> bool {
        true
    }

    open spec fn eq_spec(&self, other: &PathName) -> bool {
        self@ == other@
    }
}

impl PathName {
    /// Builds a path from a borrowed string.
    pub fn from_str(s: &str) -> (r: PathName)
        ensures
            r@ == s@,
    {
        PathName(String::from_str(s))
    }

    /// The path as a borrowed string.
    pub fn as_str(&self) -> (r: &str)
        ensures
            r@ == self@,
    {
        self.0.as_str()
    }

    /// Builds a path from an owned string.
    pub fn from_string(s: String) -> (r: PathName)
        ensures
            r@ == s@,
    {
        PathName(s)
    }

    /// A copy of the path.
    pub fn clone_path(&self) -> (r: PathName)
        ensures
            r@ == self@,
    {
        PathName(self.0.clone())
    }

    /// A fresh copy of the path as an owned string.
    pub fn to_string(&self) -> (r: String)
        ensures
            r@ == self@,
    {
        self.0.clone()
    }

    pub fn char_len(&self) -> (r: usize)
        ensures
            r == self@.len(),
    {
        self.0.as_str().unicode_len()
    }

    /// Whether the path is exactly the root `/`.
    pub fn is_root(&self) -> (r: bool)
        ensures
            r == (self@ == seq!['/']),
    {
        let s = self.0.as_str();
        let r = s.unicode_len() == 1 && s.get_char(0) == '/';
        proof {
            if r {
                assert(self@ =~= seq!['/']);
            }
        }
        r
    }

    /// Whether the path is well-formed: non-empty, absolute, and without a
    /// trailing `/` unless it is the root.
    pub fn is_valid(&self) -> (r: bool)
        ensures
            r == is_abs_path(self@),
    {
        let s = self.0.as_str();
        let n = s.unicode_len();
        if n == 0 {
            return false;
        }
        if s.get_char(0) != '/' {
            return false;
        }
        n == 1 || s.get_char(n - 1) != '/'
    }

    /// The parent path and the final name of the path.
    pub fn split(&self) -> (r: (PathName, Name))
        requires
            is_abs_path(self@),
        ensures
            r.0@ == split_parent(self@),
            r.1@ == split_name(self@),
    {
        let s = self.0.as_str();
        let n = s.unicode_len();
        let mut i: usize = n - 1;
        while s.get_char(i) != '/'
            invariant
                0 <= i < n,
                n == self@.len(),
                is_abs_path(self@),
                s@ == self@,
                forall|j: int| i < j < n ==> self@[j] != '/',
            decreases i,
        {
            assert(i > 0) by {
                assert(self@[0] == '/');
            }
            i -= 1;
        }
        proof {
            lemma_last_slash(self@);
            let ls = last_slash(self@);
            if ls < i as int {
                assert(self@[i as int] == '/');
            }
            if ls > i as int {
                assert(self@[ls] != '/');
            }
            assert(ls == i as int);
        }
        let name = String::from_str(s.substring_char(i + 1, n));
        let parent = if i == 0 {
            proof {
                reveal_strlit("/");
                assert("/"@ =~= seq!['/']);
            }
            PathName(String::from_str("/"))
        } else {
            PathName(String::from_str(s.substring_char(0, i)))
        };
        (parent, name)
    }

    /// The path extended by one more name.
    pub fn join(&self, name: Name) -> (r: PathName)
        ensures
            r@ == path_join(self@, name@),
    {
        if self.is_root() {
            let mut s = self.0.clone();
            s.append(name.as_str());
            PathName(s)
        } else {
            let mut s = self.0.clone();
            s.append("/");
            s.append(name.as_str());
            proof {
                reveal_strlit("/");
                assert("/"@ =~= seq!['/']);
                assert(s@ =~= self@ + seq!['/'] + name@);
            }
            PathName(s)
        }
    }

    /// The `/`-separated segments of the path, in order, empty ones dropped.
    pub fn segments(&self) -> (r: Vec<&str>)
        ensures
            r@.map_values(|t: &str| t@) == segs(self@),
    {
        let s = self.0.as_str();
        let n = s.unicode_len();
        let mut r: Vec<&str> = Vec::new();
        let mut i: usize = 0;
        proof {
            assert(self@.skip(0) =~= self@);
            assert(r@.map_values(|t: &str| t@) =~= Seq::<Seq<char>>::empty());
            assert(Seq::<Seq<char>>::empty() + segs(self@) =~= segs(self@));
        }
        while i < n
            invariant
                0 <= i <= n,
                n == self@.len(),
                s@ == self@,
                segs(self@) == r@.map_values(|t: &str| t@) + segs(self@.skip(i as int)),
            decreases n - i,
        {
            if s.get_char(i) == '/' {
                proof {
                    assert(self@.skip(i as int).skip(1) =~= self@.skip(i as int + 1));
                }
                i += 1;
            } else {
                let start = i;
                while i < n && s.get_char(i) != '/'
                    invariant
                        start <= i <= n,
                        n == self@.len(),
                        s@ == self@,
                        forall|j: int| start <= j < i ==> self@[j] != '/',
                    decreases n - i,
                {
                    i += 1;
                }
                let seg = s.substring_char(start, i);
                proof {
                    let t = self@.skip(start as int);
                    lemma_first_slash(t);
                    let k = i - start;
                    assert(forall|j: int| 0 <= j < k ==> t[j] != '/');
                    if first_slash(t) < k {
                        assert(t[first_slash(t)] != '/');
                    }
                    if first_slash(t) > k {
                        assert(k < t.len());
                        assert(t[k as int] == self@[i as int]);
                        assert(t[k as int] == '/');
                    }
                    assert(first_slash(t) == k);
                    assert(t.take(k as int) =~= seg@);
                    assert(t.skip(k as int) =~= self@.skip(i as int));
                    assert(segs(t) == seq![seg@] + segs(self@.skip(i as int)));
                    assert(r@.push(seg).map_values(|t2: &str| t2@) =~= r@.map_values(
                        |t2: &str| t2@,
                    ).push(seg@));
                    assert(r@.map_values(|t2: &str| t2@).push(seg@) + segs(self@.skip(i as int))
                        =~= r@.map_values(|t2: &str| t2@) + (seq![seg@] + segs(
                        self@.skip(i as int),
                    )));
                }
                r.push(seg);
            }
        }
        proof {
            assert(self@.skip(n as int) =~= Seq::<char>::empty());
            assert(segs(self@) =~= r@.map_values(|t: &str| t@));
        }
        r
    }

    /// Whether every segment of `self` stands, in order, at the front of
    /// `other`'s segments.
    pub fn is_prefix_of(&self, other: &PathName) -> (r: bool)
        ensures
            r == segs(self@).is_prefix_of(segs(other@)),
    {
        let a = self.segments();
        let b = other.segments();
        let ghost sa = segs(self@);
        let ghost sb = segs(other@);
        proof {
            assert(sa.len() == a@.len());
            assert(sb.len() == b@.len());
        }
        if b.len() < a.len() {
            return false;
        }
        let mut i: usize = 0;
        while i < a.len()
            invariant
                0 <= i <= a@.len(),
                a@.len() <= b@.len(),
                sa == segs(self@),
                sb == segs(other@),
                a@.map_values(|t: &str| t@) == sa,
                b@.map_values(|t: &str| t@) == sb,
                forall|j: int| 0 <= j < i ==> sa[j] == sb[j],
            decreases a@.len() - i,
        {
            if !crate::text::str_eq(a[i], b[i]) {
                proof {
                    assert(sa[i as int] == a@.map_values(|t: &str| t@)[i as int]);
                    assert(sb[i as int] == b@.map_values(|t: &str| t@)[i as int]);
                    assert(sa[i as int] != sb[i as int]);
                    if sa.is_prefix_of(sb) {
                        assert(sb.subrange(0, sa.len() as int)[i as int] == sb[i as int]);
                        assert(sa[i as int] == sb[i as int]);
                    }
                    assert(!sa.is_prefix_of(sb));
                    assert(!segs(self@).is_prefix_of(segs(other@)));
                }
                return false;
            }
            i += 1;
        }
        proof {
            assert(sa =~= sb.subrange(0, sa.len() as int));
        }
        true
    }
}

/// The parent part of `split`: everything before the last `/`, or `/`
/// itself when the last `/` is the leading one.
pub open spec fn split_parent(s: Seq<char>) -> Seq<char> {
    if last_slash(s) == 0 {
        seq!['/']
    } else {
        s.take(last_slash(s))
    }
}

/// The name part of `split`: everything after the last `/`.
pub open spec fn split_name(s: Seq<char>) -> Seq<char> {
    s.skip(last_slash(s) + 1)
}

/// A non-empty split name is a proper segment, and the split parent is
/// itself an absolute path.
pub proof fn lemma_split_shape(s: Seq<char>)
    requires
        is_abs_path(s),
    ensures
        0 <= last_slash(s) < s.len(),
        split_name(s).len() > 0 ==> is_seg(split_name(s)),
        is_abs_path(split_parent(s)) || !(forall|i: int|
            0 < i < s.len() ==> !(s[i - 1] == '/' && #[trigger] s[i] == '/')),
{
    lemma_last_slash(s);
    assert(s[0] == '/');
    let ls = last_slash(s);
    assert(ls >= 0);
    let name = split_name(s);
    if name.len() > 0 {
        assert forall|i: int| 0 <= i < name.len() implies name[i] != '/' by {
            assert(name[i] == s[ls + 1 + i]);
        }
    }
    let p = split_parent(s);
    if ls == 0 {
    } else {
        if forall|i: int| 0 < i < s.len() ==> !(s[i - 1] == '/' && #[trigger] s[i] == '/') {
            assert(p[0] == s[0]);
            assert(p.len() == ls);
            if p[p.len() - 1] == '/' && p.len() > 1 {
                assert(s[ls - 1] == '/' && s[ls] == '/');
            }
        }
    }
}

} // verus!
