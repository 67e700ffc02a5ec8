use diffuzzer::executor::{AbstractExecutor, ExecutorError};
use diffuzzer::node::{DirIndex, Node};
use diffuzzer::operation::Operation;
use diffuzzer::pathname::PathName;
use diffuzzer::workload::Workload;

fn check_replay(workload: Workload) {
    let mut exec = AbstractExecutor::new();
    exec.replay(&workload).unwrap();
    assert_eq!(workload, exec.recording);
}

#[test]
fn executor_test_init_root() {
    let exec = AbstractExecutor::new();
    assert_eq!(vec![Node::DIR(AbstractExecutor::root_index())], exec.alive())
}

#[test]
fn executor_test_remove_root() {
    let mut exec = AbstractExecutor::new();
    assert_eq!(
        Err(ExecutorError::RootRemovalForbidden),
        exec.remove(PathName::from_str("/"))
    );
}

#[test]
fn executor_test_mkdir() {
    let mut exec = AbstractExecutor::new();
    let foo = exec.mkdir(PathName::from_str("/foobar"), vec![]).unwrap();
    assert_eq!(Some(Node::DIR(foo)), exec.root().child("foobar"));
    assert_eq!(
        Workload {
            ops: vec![Operation::MkDir { path: PathName::from_str("/foobar"), mode: vec![] }],
        },
        exec.recording
    );
    assert_eq!(
        vec![Node::DIR(AbstractExecutor::root_index()), Node::DIR(foo)],
        exec.alive()
    );
    assert_eq!(1, exec.nodes_created);
    check_replay(exec.recording);
}

#[test]
fn test_mkdir_name_exists() {
    let mut exec = AbstractExecutor::new();
    exec.mkdir(PathName::from_str("/foobar"), vec![]).unwrap();
    assert_eq!(
        Err(ExecutorError::NameAlreadyExists(PathName::from_str("/foobar"))),
        exec.mkdir(PathName::from_str("/foobar"), vec![])
    );
}

#[test]
fn executor_test_create() {
    let mut exec = AbstractExecutor::new();
    let foo = exec.create(PathName::from_str("/foobar"), vec![]).unwrap();
    assert_eq!(Some(Node::FILE(foo)), exec.root().child("foobar"));
    assert_eq!(
        vec![Node::DIR(AbstractExecutor::root_index()), Node::FILE(foo)],
        exec.alive()
    );
    assert_eq!(
        Workload {
            ops: vec![Operation::Create { path: PathName::from_str("/foobar"), mode: vec![] }],
        },
        exec.recording
    );
    assert_eq!(1, exec.nodes_created);
    check_replay(exec.recording);
}

#[test]
fn test_create_name_exists() {
    let mut exec = AbstractExecutor::new();
    exec.create(PathName::from_str("/foobar"), vec![]).unwrap();
    assert_eq!(
        Err(ExecutorError::NameAlreadyExists(PathName::from_str("/foobar"))),
        exec.create(PathName::from_str("/foobar"), vec![])
    );
}

#[test]
fn executor_test_remove_file() {
    let mut exec = AbstractExecutor::new();
    let foo = exec.create(PathName::from_str("/foobar"), vec![]).unwrap();
    let boo = exec.create(PathName::from_str("/boo"), vec![]).unwrap();
    let mut expected = vec![
        Node::DIR(AbstractExecutor::root_index()),
        Node::FILE(foo),
        Node::FILE(boo),
    ];
    let mut actual = exec.alive();
    expected.sort();
    actual.sort();
    assert_eq!(expected, actual);

    exec.remove(PathName::from_str("/foobar")).unwrap();

    assert_eq!(1, exec.root().children_len());
    assert_eq!(Some(Node::FILE(boo)), exec.root().child("boo"));

    let mut expected = vec![Node::DIR(AbstractExecutor::root_index()), Node::FILE(boo)];
    let mut actual = exec.alive();
    expected.sort();
    actual.sort();
    assert_eq!(expected, actual);
    assert_eq!(
        Workload {
            ops: vec![
                Operation::Create { path: PathName::from_str("/foobar"), mode: vec![] },
                Operation::Create { path: PathName::from_str("/boo"), mode: vec![] },
                Operation::Remove { path: PathName::from_str("/foobar") },
            ],
        },
        exec.recording
    );
    assert_eq!(2, exec.nodes_created);
    check_replay(exec.recording);
}

#[test]
fn test_hardlink() {
    let mut exec = AbstractExecutor::new();
    let foo = exec.create(PathName::from_str("/foo"), vec![]).unwrap();
    let bar = exec.mkdir(PathName::from_str("/bar"), vec![]).unwrap();
    let boo = exec
        .hardlink(PathName::from_str("/foo"), PathName::from_str("/bar/boo"))
        .unwrap();

    assert_eq!(foo, boo);
    let mut expected = vec![
        Node::DIR(AbstractExecutor::root_index()),
        Node::DIR(bar),
        Node::FILE(foo),
        Node::FILE(boo),
    ];
    let mut actual = exec.alive();
    expected.sort();
    actual.sort();
    assert_eq!(expected, actual);

    assert_eq!(2, exec.root().children_len());
    assert_eq!(1, exec.dir(&bar).children_len());
    assert_eq!(exec.root().child("foo"), exec.dir(&bar).child("boo"));

    let mut parents = vec![AbstractExecutor::root_index(), bar];
    parents.sort();
    let mut actual_parents = exec.file(&foo).parents.clone();
    actual_parents.sort();
    assert_eq!(parents, actual_parents);

    assert_eq!(
        Workload {
            ops: vec![
                Operation::Create { path: PathName::from_str("/foo"), mode: vec![] },
                Operation::MkDir { path: PathName::from_str("/bar"), mode: vec![] },
                Operation::Hardlink {
                    old_path: PathName::from_str("/foo"),
                    new_path: PathName::from_str("/bar/boo"),
                },
            ],
        },
        exec.recording
    );
    assert_eq!(3, exec.nodes_created);
    check_replay(exec.recording);
}

#[test]
fn test_remove_hardlink() {
    let mut exec = AbstractExecutor::new();
    let foo = exec.create(PathName::from_str("/foo"), vec![]).unwrap();
    exec.hardlink(PathName::from_str("/foo"), PathName::from_str("/bar"))
        .unwrap();
    exec.remove(PathName::from_str("/bar")).unwrap();

    let mut expected = vec![Node::DIR(AbstractExecutor::root_index()), Node::FILE(foo)];
    let mut actual = exec.alive();
    expected.sort();
    actual.sort();
    assert_eq!(expected, actual);

    assert_eq!(1, exec.root().children_len());

    assert_eq!(vec![AbstractExecutor::root_index()], exec.file(&foo).parents);

    assert_eq!(
        Workload {
            ops: vec![
                Operation::Create { path: PathName::from_str("/foo"), mode: vec![] },
                Operation::Hardlink {
                    old_path: PathName::from_str("/foo"),
                    new_path: PathName::from_str("/bar"),
                },
                Operation::Remove { path: PathName::from_str("/bar") },
            ],
        },
        exec.recording
    );
    assert_eq!(2, exec.nodes_created);
    check_replay(exec.recording);
}

#[test]
fn test_remove_hardlink_dir() {
    let mut exec = AbstractExecutor::new();
    let zero = exec.create(PathName::from_str("/0"), vec![]).unwrap();
    exec.mkdir(PathName::from_str("/1"), vec![]).unwrap();
    exec.mkdir(PathName::from_str("/1/2"), vec![]).unwrap();
    exec.hardlink(PathName::from_str("/0"), PathName::from_str("/1/2/3"))
        .unwrap();
    exec.remove(PathName::from_str("/1")).unwrap();
    assert_eq!(vec![PathName::from_str("/0")], exec.resolve_file_path(&zero));
}

#[test]
fn test_hardlink_name_exists() {
    let mut exec = AbstractExecutor::new();
    exec.create(PathName::from_str("/foo"), vec![]).unwrap();
    let bar = exec.create(PathName::from_str("/bar"), vec![]).unwrap();
    assert_eq!(
        Err(ExecutorError::NameAlreadyExists(PathName::from_str("/foo"))),
        exec.hardlink(PathName::from_str("/bar"), PathName::from_str("/foo"))
    );
    let _ = bar;
}

#[test]
fn test_remove_dir() {
    let mut exec = AbstractExecutor::new();
    let foo = exec.mkdir(PathName::from_str("/foobar"), vec![]).unwrap();
    let boo = exec.mkdir(PathName::from_str("/boo"), vec![]).unwrap();
    let mut expected = vec![
        Node::DIR(AbstractExecutor::root_index()),
        Node::DIR(foo),
        Node::DIR(boo),
    ];
    let mut actual = exec.alive();
    expected.sort();
    actual.sort();
    assert_eq!(expected, actual);

    exec.remove(PathName::from_str("/foobar")).unwrap();

    assert_eq!(1, exec.root().children_len());
    assert_eq!(Some(Node::DIR(boo)), exec.root().child("boo"));

    let mut expected = vec![Node::DIR(AbstractExecutor::root_index()), Node::DIR(boo)];
    let mut actual = exec.alive();
    expected.sort();
    actual.sort();
    assert_eq!(expected, actual);
    assert_eq!(
        Workload {
            ops: vec![
                Operation::MkDir { path: PathName::from_str("/foobar"), mode: vec![] },
                Operation::MkDir { path: PathName::from_str("/boo"), mode: vec![] },
                Operation::Remove { path: PathName::from_str("/foobar") },
            ],
        },
        exec.recording
    );
    assert_eq!(2, exec.nodes_created);
    check_replay(exec.recording);
}

#[test]
fn test_resolve_path() {
    let mut exec = AbstractExecutor::new();
    let foo = exec.mkdir(PathName::from_str("/foo"), vec![]).unwrap();
    let bar = exec.mkdir(PathName::from_str("/foo/bar"), vec![]).unwrap();
    let boo = exec.create(PathName::from_str("/foo/bar/boo"), vec![]).unwrap();
    exec.hardlink(PathName::from_str("/foo/bar/boo"), PathName::from_str("/zoo"))
        .unwrap();
    exec.hardlink(
        PathName::from_str("/foo/bar/boo"),
        PathName::from_str("/foo/bar/moo"),
    )
    .unwrap();
    assert_eq!(vec![PathName::from_str("/foo")], exec.resolve_path(&Node::DIR(foo)));
    assert_eq!(vec![PathName::from_str("/foo/bar")], exec.resolve_path(&Node::DIR(bar)));
    let expected = vec![
        PathName::from_str("/foo/bar/boo"),
        PathName::from_str("/foo/bar/moo"),
        PathName::from_str("/zoo"),
    ];
    let actual = exec.resolve_path(&Node::FILE(boo));
    assert_eq!(expected, actual);
    assert_eq!(5, exec.nodes_created);
    check_replay(exec.recording);
}

#[test]
fn test_resolve_node() {
    let mut exec = AbstractExecutor::new();
    assert_eq!(
        Node::DIR(AbstractExecutor::root_index()),
        exec.resolve_node(PathName::from_str("/")).unwrap()
    );
    let foo = exec.mkdir(PathName::from_str("/foo"), vec![]).unwrap();
    let bar = exec.mkdir(PathName::from_str("/foo/bar"), vec![]).unwrap();
    let boo = exec.create(PathName::from_str("/foo/bar/boo"), vec![]).unwrap();
    assert_eq!(
        Err(ExecutorError::InvalidPath(PathName::from_str(""))),
        exec.resolve_node(PathName::from_str(""))
    );
    assert_eq!(
        Err(ExecutorError::InvalidPath(PathName::from_str("foo"))),
        exec.resolve_node(PathName::from_str("foo"))
    );
    assert_eq!(
        Err(ExecutorError::InvalidPath(PathName::from_str("/foo/"))),
        exec.resolve_node(PathName::from_str("/foo/"))
    );
    assert_eq!(Node::DIR(foo), exec.resolve_node(PathName::from_str("/foo")).unwrap());
    assert_eq!(Node::DIR(bar), exec.resolve_node(PathName::from_str("/foo/bar")).unwrap());
    assert_eq!(
        Node::FILE(boo),
        exec.resolve_node(PathName::from_str("/foo/bar/boo")).unwrap()
    );
    assert_eq!(3, exec.nodes_created);
    check_replay(exec.recording);
}

#[test]
fn scenario_hardlink_parents() {
    let mut exec = AbstractExecutor::new();
    let foo = exec.create(PathName::from_str("/foo"), vec![]).unwrap();
    exec.mkdir(PathName::from_str("/bar"), vec![]).unwrap();
    let linked = exec
        .hardlink(PathName::from_str("/foo"), PathName::from_str("/bar/boo"))
        .unwrap();
    assert_eq!(foo, linked);
    assert_eq!(
        vec![PathName::from_str("/bar/boo"), PathName::from_str("/foo")],
        exec.resolve_file_path(&foo)
    );
}

#[test]
fn descriptor_lifecycle() {
    let mut exec = AbstractExecutor::new();
    exec.create(PathName::from_str("/f"), vec![]).unwrap();
    let fd = exec.open(PathName::from_str("/f")).unwrap();
    assert_eq!(0, fd.0);
    assert_eq!(
        Err(ExecutorError::AlreadyOpen(PathName::from_str("/f"))),
        exec.open(PathName::from_str("/f"))
    );
    exec.write(fd, 999, 1024).unwrap();
    exec.read(fd, 64).unwrap();
    exec.fsync(fd).unwrap();
    exec.close(fd).unwrap();
    assert_eq!(
        Err(ExecutorError::InvalidDescriptor(0)),
        exec.close(fd)
    );
    let fd2 = exec.open(PathName::from_str("/f")).unwrap();
    assert_eq!(1, fd2.0);
    check_replay(exec.recording);
}

#[test]
fn write_range_rejected() {
    let mut exec = AbstractExecutor::new();
    exec.create(PathName::from_str("/f"), vec![]).unwrap();
    let fd = exec.open(PathName::from_str("/f")).unwrap();
    assert_eq!(
        Err(ExecutorError::InvalidRange(u64::MAX, 2)),
        exec.write(fd, u64::MAX, 2)
    );
}

#[test]
fn rename_moves_file() {
    let mut exec = AbstractExecutor::new();
    let f = exec.create(PathName::from_str("/a"), vec![]).unwrap();
    exec.mkdir(PathName::from_str("/d"), vec![]).unwrap();
    exec.rename(PathName::from_str("/a"), PathName::from_str("/d/b")).unwrap();
    assert_eq!(vec![PathName::from_str("/d/b")], exec.resolve_file_path(&f));
    assert_eq!(
        Err(ExecutorError::NotFound(PathName::from_str("/a"))),
        exec.resolve_node(PathName::from_str("/a"))
    );
    check_replay(exec.recording);
}

#[test]
fn resolve_errors() {
    let mut exec = AbstractExecutor::new();
    exec.create(PathName::from_str("/f"), vec![]).unwrap();
    assert_eq!(
        Err(ExecutorError::NotADir(PathName::from_str("/f/x"))),
        exec.resolve_node(PathName::from_str("/f/x"))
    );
    assert_eq!(
        Err(ExecutorError::NotAFile(PathName::from_str("/"))),
        exec.resolve_file(PathName::from_str("/"))
    );
    assert_eq!(
        Err(ExecutorError::NotADir(PathName::from_str("/f"))),
        exec.resolve_dir(PathName::from_str("/f"))
    );
    assert_eq!(
        Err(ExecutorError::NotFound(PathName::from_str("/g"))),
        exec.resolve_node(PathName::from_str("/g"))
    );
}

#[test]
fn scenario_full_vocabulary_roundtrip() {
    let mode = vec![
        diffuzzer::flags::ModeFlag::S_IRWXU,
        diffuzzer::flags::ModeFlag::S_IRWXG,
        diffuzzer::flags::ModeFlag::S_IROTH,
        diffuzzer::flags::ModeFlag::S_IXOTH,
    ];
    let w = Workload {
        ops: vec![
            Operation::MkDir { path: PathName::from_str("/foo"), mode: vec![] },
            Operation::Create { path: PathName::from_str("/foo/bar"), mode: mode.clone() },
            Operation::Open {
                path: PathName::from_str("/foo/bar"),
                des: diffuzzer::node::FileDescriptor(0),
            },
            Operation::Write {
                des: diffuzzer::node::FileDescriptor(0),
                src_offset: 999,
                size: 1024,
            },
            Operation::Close { des: diffuzzer::node::FileDescriptor(0) },
            Operation::Hardlink {
                old_path: PathName::from_str("/foo/bar"),
                new_path: PathName::from_str("/baz"),
            },
            Operation::Open {
                path: PathName::from_str("/baz"),
                des: diffuzzer::node::FileDescriptor(1),
            },
            Operation::Read { des: diffuzzer::node::FileDescriptor(1), size: 1024 },
            Operation::FSync { des: diffuzzer::node::FileDescriptor(1) },
            Operation::Close { des: diffuzzer::node::FileDescriptor(1) },
            Operation::Rename {
                old_path: PathName::from_str("/baz"),
                new_path: PathName::from_str("/gaz"),
            },
            Operation::Symlink {
                target: PathName::from_str("/foo"),
                linkpath: PathName::from_str("/moo"),
            },
            Operation::Remove { path: PathName::from_str("/foo") },
        ],
    };
    check_replay(w);
}

#[test]
fn subtree_remove_resolves_not_found() {
    let mut exec = AbstractExecutor::new();
    exec.mkdir(PathName::from_str("/1"), vec![]).unwrap();
    exec.mkdir(PathName::from_str("/1/2"), vec![]).unwrap();
    exec.create(PathName::from_str("/1/2/3"), vec![]).unwrap();
    exec.remove(PathName::from_str("/1")).unwrap();
    assert!(matches!(
        exec.resolve_node(PathName::from_str("/1")),
        Err(ExecutorError::NotFound(_))
    ));
    assert!(matches!(
        exec.resolve_node(PathName::from_str("/1/2")),
        Err(ExecutorError::NotFound(_))
    ));
    assert!(matches!(
        exec.resolve_node(PathName::from_str("/1/2/3")),
        Err(ExecutorError::NotFound(_))
    ));
}

#[test]
fn abstract_fs_test_init_root() {
    let exec = AbstractExecutor::new();
    assert_eq!(0, exec.root().children_len());
}

#[test]
fn abstract_fs_test_mkdir() {
    let mut exec = AbstractExecutor::new();
    let made = exec.mkdir(PathName::from_str("/foobar"), vec![]).unwrap();
    match exec.root().child("foobar") {
        Some(Node::DIR(idx)) => assert_eq!(made, idx),
        _ => panic!("not a dir"),
    }
}

#[test]
fn abstract_fs_test_create() {
    let mut exec = AbstractExecutor::new();
    let made = exec.create(PathName::from_str("/foobar"), vec![]).unwrap();
    match exec.root().child("foobar") {
        Some(Node::FILE(idx)) => assert_eq!(made, idx),
        _ => panic!("not a file"),
    }
}

#[test]
fn abstract_fs_test_remove_file() {
    let mut exec = AbstractExecutor::new();
    exec.create(PathName::from_str("/foobar"), vec![]).unwrap();
    let boo = exec.create(PathName::from_str("/boo"), vec![]).unwrap();
    exec.remove(PathName::from_str("/foobar")).unwrap();
    assert_eq!(1, exec.root().children_len());
    match exec.root().child("boo") {
        Some(Node::FILE(idx)) => assert_eq!(boo, idx),
        _ => panic!("not a file"),
    }
}
