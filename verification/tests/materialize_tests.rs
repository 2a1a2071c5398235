use file_tree::materialize::{materialize_step, plan, CreateAction, CreateOp};
use file_tree::snapshot::{build, RawEntry, RawNode};
use file_tree::tree::{Entry, FileTree};

fn raw_file(name: &[u8]) -> RawEntry {
    RawEntry { name: name.to_vec(), node: RawNode::File }
}

fn raw_dir(name: &[u8], children: Vec<RawEntry>) -> RawEntry {
    RawEntry { name: name.to_vec(), node: RawNode::Directory(children) }
}

fn op_path(op: &CreateOp) -> Vec<Vec<u8>> {
    op.path.clone()
}

#[test]
fn plan_lists_parents_before_children_in_name_order() {
    // root { a (file), b { c (file) } }, enumerated with b before a.
    let raw = RawNode::Directory(vec![raw_dir(b"b", vec![raw_file(b"c")]), raw_file(b"a")]);
    let tree = build(&raw).unwrap();
    let ops = plan(&tree);
    assert_eq!(ops.len(), 4);
    assert_eq!(op_path(&ops[0]), Vec::<Vec<u8>>::new());
    assert!(ops[0].is_dir);
    assert_eq!(op_path(&ops[1]), vec![b"a".to_vec()]);
    assert!(!ops[1].is_dir);
    assert_eq!(op_path(&ops[2]), vec![b"b".to_vec()]);
    assert!(ops[2].is_dir);
    assert_eq!(op_path(&ops[3]), vec![b"b".to_vec(), b"c".to_vec()]);
    assert!(!ops[3].is_dir);
}

#[test]
fn plan_for_single_file() {
    let ops = plan(&FileTree::File);
    assert_eq!(ops.len(), 1);
    assert_eq!(op_path(&ops[0]), Vec::<Vec<u8>>::new());
    assert!(!ops[0].is_dir);
    match materialize_step(&ops[0], false) {
        Ok(CreateAction::MakeEmptyFile) => {}
        other => panic!("expected an empty file, got {:?}", other),
    }
}

#[test]
fn existing_destination_is_never_overwritten() {
    let tree = FileTree::Directory(vec![Entry { name: b"a".to_vec(), tree: FileTree::File }]);
    let ops = plan(&tree);
    // Whatever the step would create, an existing destination is refused.
    for op in &ops {
        let err = materialize_step(op, true).unwrap_err();
        assert_eq!(err.path, op.path);
    }
    // A fresh destination is created with the step's own kind.
    match materialize_step(&ops[0], false) {
        Ok(CreateAction::MakeDirectory) => {}
        other => panic!("expected a directory, got {:?}", other),
    }
}

#[test]
fn second_materialization_fails_on_existing_root() {
    let raw = RawNode::Directory(vec![raw_dir(b"b", vec![raw_file(b"c")]), raw_file(b"a")]);
    let tree = build(&raw).unwrap();
    let ops = plan(&tree);
    // After a first run every destination exists; the second run fails on
    // the very first step and touches nothing.
    let err = materialize_step(&ops[0], true).unwrap_err();
    assert_eq!(err.path, ops[0].path);
}

#[test]
fn failure_partway_keeps_earlier_steps() {
    // Three nested directories; creating the second level is made to fail.
    let tree = FileTree::Directory(vec![Entry {
        name: b"level1".to_vec(),
        tree: FileTree::Directory(vec![Entry {
            name: b"level2".to_vec(),
            tree: FileTree::Directory(vec![]),
        }]),
    }]);
    let ops = plan(&tree);
    assert_eq!(ops.len(), 3);
    let failing = vec![b"level1".to_vec(), b"level2".to_vec()];
    let mut created: Vec<Vec<Vec<u8>>> = Vec::new();
    let mut failure: Option<String> = None;
    for op in &ops {
        let exists = created.contains(&op.path);
        match materialize_step(op, exists) {
            Ok(_) => {
                if op.path == failing {
                    // The platform refuses this creation (say, permission
                    // denied); the walk stops, nothing is undone.
                    failure = Some(String::from("permission denied"));
                    break;
                }
                created.push(op.path.clone());
            }
            Err(_) => panic!("no destination existed beforehand"),
        }
    }
    assert_eq!(failure.as_deref(), Some("permission denied"));
    // The first-level directory is still there, and the failed level is not.
    assert!(created.contains(&Vec::<Vec<u8>>::new()));
    assert!(created.contains(&vec![b"level1".to_vec()]));
    assert!(!created.contains(&failing));
    assert_eq!(created.len(), 2);
}

#[test]
fn round_trip_restores_the_same_layout() {
    // Build from a capture, materialize into a simulated filesystem, then
    // capture the simulation and build again: the snapshots agree.
    let raw = RawNode::Directory(vec![
        raw_dir(b"b", vec![raw_file(b"c"), raw_dir(b"d", vec![])]),
        raw_file(b"a"),
    ]);
    let tree = build(&raw).unwrap();
    let ops = plan(&tree);
    let mut replayed = RawNode::Directory(vec![]);
    for op in &ops[1..] {
        insert_simulated(&mut replayed, &op.path, op.is_dir);
    }
    let rebuilt = build(&replayed).unwrap();
    assert!(tree.tree_eq(&rebuilt));
}

fn insert_simulated(node: &mut RawNode, path: &[Vec<u8>], is_dir: bool) {
    match node {
        RawNode::Directory(entries) => {
            if path.len() == 1 {
                entries.push(RawEntry {
                    name: path[0].clone(),
                    node: if is_dir { RawNode::Directory(vec![]) } else { RawNode::File },
                });
            } else {
                let entry = entries
                    .iter_mut()
                    .find(|e| e.name == path[0])
                    .expect("parent was created first");
                insert_simulated(&mut entry.node, &path[1..], is_dir);
            }
        }
        _ => panic!("parent is not a directory"),
    }
}
