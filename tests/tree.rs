use parent_tree::seq_util::WalkError;
use parent_tree::tree::Tree;

#[test]
fn test_insert() {
    let mut t = Tree::new();
    let r = t.insert(0, "root");
    assert_eq!(r, 0);
    let child1 = t.insert(r, "child1");
    assert_eq!(child1, 1);
    let child2 = t.insert(r, "child2");
    assert_eq!(child2, 2);

    // Test the parent of the inserted nodes
    assert_eq!(t.parent(child1), r);
    assert_eq!(t.parent(child2), r);

    // Test the content of the nodes
    assert_eq!(*t.value(child1), "child1");
    assert_eq!(*t.value(child2), "child2");

    // Insert a child to one of the new nodes and test
    let grandchild = t.insert(child1, "grandchild");
    assert_eq!(grandchild, 3);
    assert_eq!(t.parent(grandchild), child1);
    assert_eq!(*t.value(grandchild), "grandchild");
}

#[test]
fn test_leaves() {
    let mut t = Tree::new();
    let r = t.insert(0, "root");
    let child1 = t.insert(r, "child1");
    let grandchild1 = t.insert(child1, "grandchild1"); // index 2
    let child2 = t.insert(r, "child2");
    let grandchild2 = t.insert(child2, "grandchild2"); // index 4

    let leaves = t.leaves();
    println!("Leaves: {:?}", leaves);

    assert_eq!(leaves.len(), 2);
    assert!(leaves.contains(&grandchild1), "Leaves does not contain grandchild1");
    assert!(leaves.contains(&grandchild2), "Leaves does not contain grandchild2");
    assert_eq!(leaves, vec![2, 4]);
}

#[test]
fn test_path() {
    let mut t = Tree::new();
    let r = t.insert(0, "root");
    let child1 = t.insert(r, "child1");
    let grandchild1 = t.insert(child1, "grandchild1");

    let path_to_grandchild1 = t.path(grandchild1);
    assert_eq!(path_to_grandchild1, vec![child1, r]);

    let path_to_root = t.path(r);
    assert!(path_to_root.is_empty());
}

#[test]
fn path_out_of_bounds_is_reported() {
    let mut t = Tree::new();
    let r = t.insert(0, "root");
    let child1 = t.insert(r, "child1");
    let _grandchild1 = t.insert(child1, "grandchild1");
    assert_eq!(t.try_path(999), Err(WalkError::OutOfBounds(999)));
    assert_eq!(t.try_parent(999), Err(WalkError::OutOfBounds(999)));
    assert_eq!(t.try_parent(3), Err(WalkError::OutOfBounds(3)));
    assert_eq!(t.len(), 3);
    assert_eq!(t.try_parent(2), Ok(1));
    assert_eq!(t.try_path(2), Ok(vec![1, 0]));
}

#[test]
fn dangling_parent_is_reported_by_path() {
    let mut t = Tree::new();
    let r = t.insert(0, 'r');
    let a = t.insert(r, 'a');
    let b = t.insert(40, 'b');
    let c = t.insert(b, 'c');
    assert_eq!(t.try_path(a), Ok(vec![0]));
    assert_eq!(t.try_path(c), Err(WalkError::OutOfBounds(40)));
}

#[test]
fn cycle_of_parents_is_reported_by_path() {
    let mut t = Tree::new();
    let r = t.insert(0, 10);
    let a = t.insert(r, 11);
    let b = t.insert(a, 12);
    assert_eq!(t.adopt(b, a), a);
    assert_eq!(t.try_path(b), Err(WalkError::Cycle));
    assert_eq!(t.try_path(r), Ok(vec![]));
}

#[test]
fn inserts_return_dense_ids() {
    let mut t = Tree::new();
    for k in 0..20usize {
        assert_eq!(t.insert(0, k * 3), k);
    }
    assert_eq!(t.len(), 20);
    assert_eq!(*t.value(7), 21);
}

#[test]
fn adopt_changes_parent() {
    let mut t = Tree::new();
    let r = t.insert(0, "root");
    let c = t.insert(r, "c");
    let d = t.insert(r, "d");
    assert_eq!(t.parent(d), r);
    assert_eq!(t.adopt(c, d), d);
    assert_eq!(t.parent(d), c);
    assert_eq!(t.path(d), vec![c, r]);
    assert_eq!(t.leaves(), vec![d]);
    assert_eq!(*t.value(d), "d");
}

#[test]
fn queries_are_repeatable() {
    let mut t = Tree::new();
    let r = t.insert(0, 1u8);
    let a = t.insert(r, 2);
    let b = t.insert(a, 3);
    let _c = t.insert(r, 4);
    assert_eq!(t.leaves(), t.leaves());
    assert_eq!(t.path(b), t.path(b));
    assert_eq!(t.path(b), vec![a, r]);
}

#[test]
fn empty_tree_has_no_leaves() {
    let t: Tree<u8> = Tree::new();
    assert_eq!(t.len(), 0);
    assert_eq!(t.leaves(), Vec::<usize>::new());
    assert_eq!(t.try_path(0), Err(WalkError::OutOfBounds(0)));
}

#[test]
fn single_root_is_not_a_leaf() {
    let mut t = Tree::new();
    let r = t.insert(0, "only");
    assert_eq!(t.leaves(), Vec::<usize>::new());
    assert_eq!(t.path(r), Vec::<usize>::new());
}
