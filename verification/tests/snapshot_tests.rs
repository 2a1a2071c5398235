use file_tree::name_order::{name_cmp, NameOrdering};
use file_tree::snapshot::{build, RawEntry, RawNode};
use file_tree::tree::FileTree;

fn raw_file(name: &[u8]) -> RawEntry {
    RawEntry { name: name.to_vec(), node: RawNode::File }
}

fn raw_dir(name: &[u8], children: Vec<RawEntry>) -> RawEntry {
    RawEntry { name: name.to_vec(), node: RawNode::Directory(children) }
}

#[test]
fn builds_concrete_layout() {
    // root { a (file), b { c (file) } }, enumerated with b before a.
    let raw = RawNode::Directory(vec![raw_dir(b"b", vec![raw_file(b"c")]), raw_file(b"a")]);
    let tree = build(&raw).unwrap();
    match &tree {
        FileTree::Directory(es) => {
            assert_eq!(es.len(), 2);
            assert_eq!(es[0].name, b"a".to_vec());
            assert!(matches!(es[0].tree, FileTree::File));
            assert_eq!(es[1].name, b"b".to_vec());
            match &es[1].tree {
                FileTree::Directory(inner) => {
                    assert_eq!(inner.len(), 1);
                    assert_eq!(inner[0].name, b"c".to_vec());
                    assert!(matches!(inner[0].tree, FileTree::File));
                }
                FileTree::File => panic!("b must be a directory"),
            }
        }
        FileTree::File => panic!("root must be a directory"),
    }
}

#[test]
fn build_of_plain_file() {
    let tree = build(&RawNode::File).unwrap();
    assert!(matches!(tree, FileTree::File));
}

#[test]
fn build_is_order_independent() {
    let first = RawNode::Directory(vec![
        raw_dir(b"sub", vec![raw_file(b"x"), raw_file(b"y")]),
        raw_file(b"top"),
    ]);
    let second = RawNode::Directory(vec![
        raw_file(b"top"),
        raw_dir(b"sub", vec![raw_file(b"y"), raw_file(b"x")]),
    ]);
    let t1 = build(&first).unwrap();
    let t2 = build(&second).unwrap();
    assert!(t1.tree_eq(&t2));
    assert!(t2.tree_eq(&t1));
}

#[test]
fn different_contents_compare_unequal() {
    let t1 = build(&RawNode::Directory(vec![raw_file(b"a")])).unwrap();
    let t2 = build(&RawNode::Directory(vec![raw_file(b"b")])).unwrap();
    let t3 = build(&RawNode::Directory(vec![raw_dir(b"a", vec![])])).unwrap();
    assert!(!t1.tree_eq(&t2));
    assert!(!t1.tree_eq(&t3));
    assert!(!t1.tree_eq(&FileTree::File));
}

#[test]
fn unclassifiable_root_is_rejected() {
    let err = build(&RawNode::Other).unwrap_err();
    assert_eq!(err.path.len(), 0);
}

#[test]
fn unclassifiable_child_is_rejected_with_its_path() {
    let raw = RawNode::Directory(vec![
        raw_file(b"ok"),
        raw_dir(b"sub", vec![RawEntry { name: b"weird".to_vec(), node: RawNode::Other }]),
    ]);
    let err = build(&raw).unwrap_err();
    assert_eq!(err.path, vec![b"sub".to_vec(), b"weird".to_vec()]);
}

#[test]
fn later_duplicate_name_wins() {
    // A degenerate capture with two entries of one name keeps the later.
    let raw = RawNode::Directory(vec![raw_dir(b"n", vec![]), raw_file(b"n")]);
    let tree = build(&raw).unwrap();
    match &tree {
        FileTree::Directory(es) => {
            assert_eq!(es.len(), 1);
            assert_eq!(es[0].name, b"n".to_vec());
            assert!(matches!(es[0].tree, FileTree::File));
        }
        FileTree::File => panic!("root must be a directory"),
    }
}

#[test]
fn names_order_bytewise() {
    assert!(matches!(name_cmp(&b"a".to_vec(), &b"b".to_vec()), NameOrdering::Less));
    assert!(matches!(name_cmp(&b"b".to_vec(), &b"a".to_vec()), NameOrdering::Greater));
    assert!(matches!(name_cmp(&b"ab".to_vec(), &b"ab".to_vec()), NameOrdering::Equal));
    // A strict prefix comes first.
    assert!(matches!(name_cmp(&b"ab".to_vec(), &b"abc".to_vec()), NameOrdering::Less));
    assert!(matches!(name_cmp(&b"".to_vec(), &b"a".to_vec()), NameOrdering::Less));
    // Arbitrary non-text bytes are ordered by value.
    assert!(matches!(name_cmp(&vec![0xff, 0x00], &vec![0xff, 0x01]), NameOrdering::Less));
}

#[test]
fn empty_directory_round_trips_through_build() {
    let tree = build(&RawNode::Directory(vec![])).unwrap();
    match &tree {
        FileTree::Directory(es) => assert_eq!(es.len(), 0),
        FileTree::File => panic!("root must be a directory"),
    }
}
