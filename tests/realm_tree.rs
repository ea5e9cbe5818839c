use tobira_api::realm::{RealmRow, Tree, TreeError};

fn row(id: u64, parent: Option<u64>, segment: &str, order_index: i32) -> RealmRow {
    RealmRow {
        id,
        parent,
        name: format!("Realm {}", id),
        path_segment: segment.to_string(),
        order_index,
    }
}

fn segments(path: &[&str]) -> Vec<String> {
    path.iter().map(|s| s.to_string()).collect()
}

fn sample() -> Vec<RealmRow> {
    vec![
        row(1, None, "", 0),
        row(2, Some(1), "lectures", 1),
        row(3, Some(1), "events", 0),
        row(4, Some(2), "math", 0),
        row(5, Some(4), "algebra", 0),
    ]
}

#[test]
fn sibling_ordering_by_order_index() {
    let rows = vec![
        row(1, None, "", 0),
        row(10, Some(1), "c", 2),
        row(11, Some(1), "a", 0),
        row(12, Some(1), "b", 1),
    ];
    let tree = Tree::build(&rows).unwrap();
    let root = tree.root();
    let kids: Vec<i32> = tree.children(root).iter().map(|&c| tree.order_index(c)).collect();
    assert_eq!(kids, vec![0, 1, 2]);
    let ids: Vec<u64> = tree.children(root).iter().map(|&c| tree.id(c)).collect();
    assert_eq!(ids, vec![11, 12, 10]);
}

#[test]
fn sibling_ties_broken_by_id() {
    let rows = vec![
        row(1, None, "", 0),
        row(30, Some(1), "x", 5),
        row(20, Some(1), "y", 5),
        row(25, Some(1), "z", 1),
    ];
    let tree = Tree::build(&rows).unwrap();
    let ids: Vec<u64> = tree.children(tree.root()).iter().map(|&c| tree.id(c)).collect();
    assert_eq!(ids, vec![25, 20, 30]);
}

#[test]
fn cycle_is_structural_violation() {
    let rows = vec![row(1, None, "", 0), row(2, Some(3), "a", 0), row(3, Some(2), "b", 0)];
    assert_eq!(Tree::build(&rows).err(), Some(TreeError::Cycle));
}

#[test]
fn no_root_is_rejected() {
    let rows = vec![row(2, Some(3), "a", 0), row(3, Some(2), "b", 0)];
    assert_eq!(Tree::build(&rows).err(), Some(TreeError::NoRoot));
    assert_eq!(Tree::build(&Vec::new()).err(), Some(TreeError::NoRoot));
}

#[test]
fn multiple_roots_are_rejected() {
    let rows = vec![row(1, None, "", 0), row(2, None, "", 0), row(3, Some(1), "a", 0)];
    assert_eq!(Tree::build(&rows).err(), Some(TreeError::MultipleRoots));
}

#[test]
fn missing_parent_is_rejected() {
    let rows = vec![row(1, None, "", 0), row(2, Some(99), "a", 0)];
    assert_eq!(Tree::build(&rows).err(), Some(TreeError::MissingParent));
}

#[test]
fn duplicate_id_is_rejected() {
    let rows = vec![row(1, None, "", 0), row(2, Some(1), "a", 0), row(2, Some(1), "b", 1)];
    assert_eq!(Tree::build(&rows).err(), Some(TreeError::DuplicateId));
}

#[test]
fn single_node_tree() {
    let rows = vec![row(7, None, "", 0)];
    let tree = Tree::build(&rows).unwrap();
    assert_eq!(tree.len(), 1);
    assert_eq!(tree.root(), 0);
    assert_eq!(tree.parent(0), None);
    assert!(tree.children(0).is_empty());
    assert_eq!(tree.ancestors(0), vec![0]);
    assert_eq!(tree.find_by_path(&Vec::new()), Some(0));
}

#[test]
fn lookup_by_id() {
    let tree = Tree::build(&sample()).unwrap();
    let i = tree.find_by_id(4).unwrap();
    assert_eq!(tree.id(i), 4);
    assert_eq!(tree.name(i), "Realm 4");
    assert_eq!(tree.path_segment(i), "math");
    assert_eq!(tree.find_by_id(99), None);
}

#[test]
fn lookup_by_path() {
    let tree = Tree::build(&sample()).unwrap();
    let i = tree.find_by_path(&segments(&["lectures", "math", "algebra"])).unwrap();
    assert_eq!(tree.id(i), 5);
    let j = tree.find_by_path(&segments(&["events"])).unwrap();
    assert_eq!(tree.id(j), 3);
    assert_eq!(tree.find_by_path(&segments(&["lectures", "physics"])), None);
    assert_eq!(tree.find_by_path(&segments(&["nope", "math"])), None);
    assert_eq!(tree.find_by_path(&Vec::new()), Some(tree.root()));
}

#[test]
fn ancestors_walk_to_root() {
    let rows = sample();
    let tree = Tree::build(&rows).unwrap();
    for i in 0..tree.len() {
        let chain = tree.ancestors(i);
        assert_eq!(chain[0], i);
        assert_eq!(*chain.last().unwrap(), tree.root());
        assert!(chain.len() - 1 <= tree.len());
    }
    let leaf = tree.find_by_id(5).unwrap();
    let ids: Vec<u64> = tree.ancestors(leaf).iter().map(|&a| tree.id(a)).collect();
    assert_eq!(ids, vec![5, 4, 2, 1]);
}

#[test]
fn parents_and_children_agree() {
    let tree = Tree::build(&sample()).unwrap();
    for p in 0..tree.len() {
        for &c in tree.children(p) {
            assert_eq!(tree.parent(c), Some(p));
        }
    }
    let root = tree.root();
    let ids: Vec<u64> = tree.children(root).iter().map(|&c| tree.id(c)).collect();
    assert_eq!(ids, vec![3, 2]);
}

#[test]
fn duplicate_sibling_segment_is_rejected() {
    let rows = vec![row(1, None, "", 0), row(2, Some(1), "same", 0), row(3, Some(1), "same", 1)];
    assert_eq!(Tree::build(&rows).err(), Some(TreeError::DuplicatePathSegment));
}

#[test]
fn same_segment_under_different_parents() {
    let rows = vec![
        row(1, None, "", 0),
        row(2, Some(1), "a", 0),
        row(3, Some(1), "b", 1),
        row(4, Some(2), "x", 0),
        row(5, Some(3), "x", 0),
    ];
    let tree = Tree::build(&rows).unwrap();
    let i = tree.find_by_path(&segments(&["b", "x"])).unwrap();
    assert_eq!(tree.id(i), 5);
    let j = tree.find_by_path(&segments(&["a", "x"])).unwrap();
    assert_eq!(tree.id(j), 4);
}

#[test]
fn structural_errors_take_precedence_in_order() {
    // Duplicate ids are reported before the missing root.
    let rows = vec![row(2, Some(3), "a", 0), row(2, Some(3), "b", 0)];
    assert_eq!(Tree::build(&rows).err(), Some(TreeError::DuplicateId));
    // A missing parent is reported before a cycle.
    let rows = vec![row(1, None, "", 0), row(2, Some(3), "a", 0), row(3, Some(2), "b", 0), row(4, Some(9), "c", 0)];
    assert_eq!(Tree::build(&rows).err(), Some(TreeError::MissingParent));
}

#[test]
fn deep_chain_walks_every_level() {
    let mut rows = vec![row(0, None, "", 0)];
    for id in 1..60u64 {
        rows.push(row(id, Some(id - 1), "level", 0));
    }
    let tree = Tree::build(&rows).unwrap();
    let leaf = tree.find_by_id(59).unwrap();
    let chain = tree.ancestors(leaf);
    assert_eq!(chain.len(), 60);
    assert_eq!(*chain.last().unwrap(), tree.root());
    let path: Vec<String> = (1..60).map(|_| "level".to_string()).collect();
    assert_eq!(tree.find_by_path(&path), Some(leaf));
}
