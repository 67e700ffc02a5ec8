use diffuzzer::flags::ModeFlag;
use diffuzzer::node::FileDescriptor;
use diffuzzer::operation::Operation;
use diffuzzer::pathname::PathName;
use diffuzzer::workload::Workload;

#[test]
fn test_encode_c_empty() {
    let expected = r#"
#include "executor.h"

// no descriptors

void test_workload()
{
}
"#
    .trim();
    let actual = Workload { ops: vec![] }.encode_c();
    assert_eq!(expected, actual);
}

#[test]
fn test_encode_c() {
    let expected = r#"
#include "executor.h"

int fd_0, fd_1;

void test_workload()
{
do_mkdir("/foo", 0);
do_create("/foo/bar", S_IRWXU | S_IRWXG | S_IROTH | S_IXOTH);
fd_0 = do_open("/foo/bar");
do_write(fd_0, 999, 1024);
do_close(fd_0);
do_hardlink("/foo/bar", "/baz");
fd_1 = do_open("/baz");
do_read(fd_1, 1024);
do_fsync(fd_1);
do_close(fd_1);
do_rename("/baz", "/gaz");
do_symlink("/foo", "/moo");
do_remove("/foo");
}
"#
    .trim();
    let mode = vec![
        ModeFlag::S_IRWXU,
        ModeFlag::S_IRWXG,
        ModeFlag::S_IROTH,
        ModeFlag::S_IXOTH,
    ];
    let actual = Workload {
        ops: vec![
            Operation::MkDir { path: PathName::from_str("/foo"), mode: vec![] },
            Operation::Create { path: PathName::from_str("/foo/bar"), mode: mode.clone() },
            Operation::Open { path: PathName::from_str("/foo/bar"), des: FileDescriptor(0) },
            Operation::Write { des: FileDescriptor(0), src_offset: 999, size: 1024 },
            Operation::Close { des: FileDescriptor(0) },
            Operation::Hardlink {
                old_path: PathName::from_str("/foo/bar"),
                new_path: PathName::from_str("/baz"),
            },
            Operation::Open { path: PathName::from_str("/baz"), des: FileDescriptor(1) },
            Operation::Read { des: FileDescriptor(1), size: 1024 },
            Operation::FSync { des: FileDescriptor(1) },
            Operation::Close { des: FileDescriptor(1) },
            Operation::Rename {
                old_path: PathName::from_str("/baz"),
                new_path: PathName::from_str("/gaz"),
            },
            Operation::Symlink {
                target: PathName::from_str("/foo"),
                linkpath: PathName::from_str("/moo"),
            },
            Operation::Remove { path: PathName::from_str("/foo") },
        ],
    }
    .encode_c();
    assert_eq!(expected, actual);
}

#[test]
fn encode_descriptor_var() {
    assert_eq!(diffuzzer::encode::descriptor_to_var(&FileDescriptor(0)), "fd_0".to_owned());
    assert_eq!(diffuzzer::encode::descriptor_to_var(&FileDescriptor(17)), "fd_17".to_owned());
}

#[test]
fn encode_mode_rendering() {
    assert_eq!(diffuzzer::encode::encode_mode(&vec![]), "0".to_owned());
    assert_eq!(diffuzzer::encode::encode_mode(&vec![ModeFlag::S_ISVTX]), "S_ISVTX".to_owned());
    assert_eq!(
        diffuzzer::encode::encode_mode(&vec![ModeFlag::S_IRUSR, ModeFlag::S_IWUSR]),
        "S_IRUSR | S_IWUSR".to_owned()
    );
}
