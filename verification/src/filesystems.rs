//! The table of filesystems the runner can mount, by name.

use vstd::prelude::*;
use vstd::string::StringExecFns;

verus! {

/// The lower-case names of the filesystems available to the runner.
pub fn filesystems_available() -> (r: Vec<String>)
    ensures
        r@.len() == 6,
        r@[0]@ == "ext4"@,
        r@[1]@ == "btrfs"@,
        r@[2]@ == "f2fs"@,
        r@[3]@ == "xfs"@,
        r@[4]@ == "littlefs"@,
        r@[5]@ == "bcachefs"@,
{
    let mut r: Vec<String> = Vec::new();
    r.push(String::from_str("ext4"));
    r.push(String::from_str("btrfs"));
    r.push(String::from_str("f2fs"));
    r.push(String::from_str("xfs"));
    r.push(String::from_str("littlefs"));
    r.push(String::from_str("bcachefs"));
    r
}

/// Whether `name` names an available filesystem.
pub fn filesystem_known(name: &str) -> (r: bool)
    ensures
        r == (name@ == "ext4"@ || name@ == "btrfs"@ || name@ == "f2fs"@ || name@ == "xfs"@
            || name@ == "littlefs"@ || name@ == "bcachefs"@),
{
    crate::text::str_eq(name, "ext4") || crate::text::str_eq(name, "btrfs") || crate::text::str_eq(
        name,
        "f2fs",
    ) || crate::text::str_eq(name, "xfs") || crate::text::str_eq(name, "littlefs")
        || crate::text::str_eq(name, "bcachefs")
}

} // verus!
