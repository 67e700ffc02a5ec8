use diffuzzer::pathname::PathName;

#[test]
fn test_is_prefix_of() {
    assert!(PathName::from_str("/1/2").is_prefix_of(&PathName::from_str("/1/2/3")));
    assert!(!PathName::from_str("/1/2").is_prefix_of(&PathName::from_str("/1/20/3")));
    assert!(!PathName::from_str("/1/2").is_prefix_of(&PathName::from_str("/1")));
    assert!(PathName::from_str("/").is_prefix_of(&PathName::from_str("/1")));
    assert!(PathName::from_str("/1").is_prefix_of(&PathName::from_str("/1")));
}

#[test]
fn path_prefix_segmentwise() {
    assert!(!PathName::from_str("/a/b").is_prefix_of(&PathName::from_str("/a/bc")));
}

#[test]
fn path_split_and_join() {
    let p = PathName::from_str("/a/b");
    let (parent, name) = p.split();
    assert_eq!(parent, PathName::from_str("/a"));
    assert_eq!(name, "b".to_owned());
    let (root_parent, top) = PathName::from_str("/a").split();
    assert_eq!(root_parent, PathName::from_str("/"));
    assert_eq!(top, "a".to_owned());
    assert_eq!(PathName::from_str("/").join("x".to_owned()), PathName::from_str("/x"));
    assert_eq!(PathName::from_str("/a").join("x".to_owned()), PathName::from_str("/a/x"));
}

#[test]
fn path_validity() {
    assert!(PathName::from_str("/").is_valid());
    assert!(PathName::from_str("/a").is_valid());
    assert!(!PathName::from_str("").is_valid());
    assert!(!PathName::from_str("a").is_valid());
    assert!(!PathName::from_str("/a/").is_valid());
    assert!(PathName::from_str("/").is_root());
    assert!(!PathName::from_str("/a").is_root());
}

#[test]
fn path_segments() {
    let p = PathName::from_str("/a/b/c");
    let segs = p.segments();
    assert_eq!(segs, vec!["a", "b", "c"]);
    let none: Vec<&str> = Vec::new();
    assert_eq!(PathName::from_str("/").segments(), none);
}
