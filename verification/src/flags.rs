//! POSIX mode bits, as the set of standard flag names.

use vstd::prelude::*;

verus! {

/// One of the twelve standard POSIX mode flags plus the three id/sticky
/// bits. The empty set of flags renders as `0`.
#[allow(nonstandard_style)]
#[derive(Debug, Clone, Copy, PartialEq, Eq, Hash, Structural)]
pub enum ModeFlag {
    S_IRWXU,
    S_IRUSR,
    S_IWUSR,
    S_IXUSR,
    S_IRWXG,
    S_IRGRP,
    S_IWGRP,
    S_IXGRP,
    S_IRWXO,
    S_IROTH,
    S_IWOTH,
    S_IXOTH,
    S_ISUID,
    S_ISGID,
    S_ISVTX,
}

/// A mode: the flags given, in declaration order of the caller.
pub type Mode = Vec<ModeFlag>;

/// The text of one flag.
pub open spec fn flag_chars(f: ModeFlag) -> Seq<char> {
    match f {
        ModeFlag::S_IRWXU => "S_IRWXU"@,
        ModeFlag::S_IRUSR => "S_IRUSR"@,
        ModeFlag::S_IWUSR => "S_IWUSR"@,
        ModeFlag::S_IXUSR => "S_IXUSR"@,
        ModeFlag::S_IRWXG => "S_IRWXG"@,
        ModeFlag::S_IRGRP => "S_IRGRP"@,
        ModeFlag::S_IWGRP => "S_IWGRP"@,
        ModeFlag::S_IXGRP => "S_IXGRP"@,
        ModeFlag::S_IRWXO => "S_IRWXO"@,
        ModeFlag::S_IROTH => "S_IROTH"@,
        ModeFlag::S_IWOTH => "S_IWOTH"@,
        ModeFlag::S_IXOTH => "S_IXOTH"@,
        ModeFlag::S_ISUID => "S_ISUID"@,
        ModeFlag::S_ISGID => "S_ISGID"@,
        ModeFlag::S_ISVTX => "S_ISVTX"@,
    }
}

/// The name of one flag, exactly as it stands in C.
pub fn flag_name(f: ModeFlag) -> (r: &'static str)
    ensures
        r@ == flag_chars(f),
{
    match f {
        ModeFlag::S_IRWXU => "S_IRWXU",
        ModeFlag::S_IRUSR => "S_IRUSR",
        ModeFlag::S_IWUSR => "S_IWUSR",
        ModeFlag::S_IXUSR => "S_IXUSR",
        ModeFlag::S_IRWXG => "S_IRWXG",
        ModeFlag::S_IRGRP => "S_IRGRP",
        ModeFlag::S_IWGRP => "S_IWGRP",
        ModeFlag::S_IXGRP => "S_IXGRP",
        ModeFlag::S_IRWXO => "S_IRWXO",
        ModeFlag::S_IROTH => "S_IROTH",
        ModeFlag::S_IWOTH => "S_IWOTH",
        ModeFlag::S_IXOTH => "S_IXOTH",
        ModeFlag::S_ISUID => "S_ISUID",
        ModeFlag::S_ISGID => "S_ISGID",
        ModeFlag::S_ISVTX => "S_ISVTX",
    }
}

/// A copy of a mode.
pub fn clone_mode(m: &Mode) -> (r: Mode)
    ensures
        r@ == m@,
{
    let mut r: Mode = Vec::new();
    let mut i: usize = 0;
    while i < m.len()
        invariant
            0 <= i <= m@.len(),
            r@ == m@.take(i as int),
        decreases m@.len() - i,
    {
        r.push(m[i]);
        proof {
            assert(m@.take(i as int).push(m@[i as int]) =~= m@.take(i as int + 1));
        }
        i += 1;
    }
    proof {
        assert(m@.take(m@.len() as int) =~= m@);
    }
    r
}

} // verus!
