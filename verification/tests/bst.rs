use algorithms::bst::{BinarySearchTree, TreeNode};

#[test]
fn test_insert_and_search() {
    let mut bst = BinarySearchTree::new();

    assert_eq!(bst.search(1), false);

    bst.insert(5);
    bst.insert(3);
    bst.insert(7);
    bst.insert(2);
    bst.insert(4);

    assert_eq!(bst.search(5), true);
    assert_eq!(bst.search(3), true);
    assert_eq!(bst.search(7), true);
    assert_eq!(bst.search(2), true);
    assert_eq!(bst.search(4), true);

    assert_eq!(bst.search(1), false);
    assert_eq!(bst.search(6), false);
}

#[test]
fn test_insert_duplicate() {
    let mut bst = BinarySearchTree::new();

    bst.insert(1);
    bst.insert(1);

    assert_eq!(bst.search(1), true);

    match bst.root {
        Some(ref node) => {
            assert!(node.left.is_none());
            assert!(node.right.is_none());
        }
        None => panic!("Root should not be None after insertion"),
    }
}

#[test]
fn new_tree_has_no_root() {
    let bst = BinarySearchTree::<i32>::new();
    assert!(bst.root.is_none());
    assert_eq!(bst.search(0), false);
}

#[test]
fn new_node_has_no_subtrees() {
    let node = TreeNode::new(4);
    assert_eq!(node.value, 4);
    assert!(node.left.is_none());
    assert!(node.right.is_none());
}

#[test]
fn first_value_becomes_the_root() {
    let mut bst = BinarySearchTree::new();
    bst.insert(10);
    assert_eq!(bst.root.as_ref().unwrap().value, 10);
}

#[test]
fn smaller_goes_left_and_greater_goes_right() {
    let mut bst = BinarySearchTree::new();
    bst.insert(5);
    bst.insert(3);
    bst.insert(7);
    bst.insert(4);
    let root = bst.root.as_ref().unwrap();
    assert_eq!(root.value, 5);
    let left = root.left.as_ref().unwrap();
    let right = root.right.as_ref().unwrap();
    assert_eq!(left.value, 3);
    assert_eq!(right.value, 7);
    assert!(left.left.is_none());
    assert_eq!(left.right.as_ref().unwrap().value, 4);
    assert!(right.left.is_none());
    assert!(right.right.is_none());
}

#[test]
fn rising_values_make_a_chain_to_the_right() {
    let mut bst = BinarySearchTree::new();
    for value in 1..=4 {
        bst.insert(value);
    }
    let mut node = bst.root.as_ref().unwrap();
    for value in 1..4 {
        assert_eq!(node.value, value);
        assert!(node.left.is_none());
        node = node.right.as_ref().unwrap();
    }
    assert_eq!(node.value, 4);
    assert!(node.right.is_none());
}

#[test]
fn duplicate_below_the_root_changes_nothing() {
    let mut bst = BinarySearchTree::new();
    bst.insert(5);
    bst.insert(3);
    bst.insert(3);
    bst.insert(5);
    let root = bst.root.as_ref().unwrap();
    assert!(root.right.is_none());
    let left = root.left.as_ref().unwrap();
    assert_eq!(left.value, 3);
    assert!(left.left.is_none());
    assert!(left.right.is_none());
}

#[test]
fn search_finds_exactly_what_was_inserted() {
    let mut bst = BinarySearchTree::new();
    let inserted = [50, 20, 80, 10, 30, 70, 90, 20, 80];
    for value in inserted {
        bst.insert(value);
    }
    for value in 0..100 {
        assert_eq!(bst.search(value), inserted.contains(&value));
    }
}

#[test]
fn node_insert_places_a_value_below_the_node() {
    let mut node = TreeNode::new(5);
    node.insert(8);
    node.insert(1);
    node.insert(5);
    assert_eq!(node.value, 5);
    assert_eq!(node.left.as_ref().unwrap().value, 1);
    assert_eq!(node.right.as_ref().unwrap().value, 8);
}

#[test]
fn three_values_make_a_root_with_two_leaves() {
    let mut bst = BinarySearchTree::new();
    bst.insert(5);
    bst.insert(3);
    bst.insert(7);
    let root = bst.root.as_ref().unwrap();
    assert_eq!(root.value, 5);
    let left = root.left.as_ref().unwrap();
    let right = root.right.as_ref().unwrap();
    assert_eq!(left.value, 3);
    assert!(left.left.is_none() && left.right.is_none());
    assert_eq!(right.value, 7);
    assert!(right.left.is_none() && right.right.is_none());
}
