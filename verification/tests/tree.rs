use containers::tree::{BinaryTree, Node};

#[test]
fn test_empty_tree() {
    let tree = BinaryTree::new();
    assert_eq!(tree.root.is_none(), true);
}

#[test]
fn test_append() {
    let mut tree = BinaryTree::new();
    tree.append(6);
    tree.append(3);
    tree.append(9);

    tree.append(1);
    tree.append(5);

    tree.append(7);
    tree.append(11);

    let root: &Box<Node> = tree.root.as_ref().unwrap();
    let left_subtree: &Box<Node> = root.left.as_ref().unwrap();
    let right_subtree: &Box<Node> = root.right.as_ref().unwrap();
    // Checking leaves.
    assert_eq!(left_subtree.left.as_ref().unwrap().left.is_none(), true);
    assert_eq!(left_subtree.left.as_ref().unwrap().right.is_none(), true);
    assert_eq!(left_subtree.left.as_ref().unwrap().value, 1);

    assert_eq!(left_subtree.right.as_ref().unwrap().left.is_none(), true);
    assert_eq!(left_subtree.right.as_ref().unwrap().right.is_none(), true);
    assert_eq!(left_subtree.right.as_ref().unwrap().value, 5);

    assert_eq!(right_subtree.left.as_ref().unwrap().left.is_none(), true);
    assert_eq!(right_subtree.left.as_ref().unwrap().right.is_none(), true);
    assert_eq!(right_subtree.left.as_ref().unwrap().value, 7);

    assert_eq!(right_subtree.right.as_ref().unwrap().left.is_none(), true);
    assert_eq!(right_subtree.right.as_ref().unwrap().right.is_none(), true);
    assert_eq!(right_subtree.right.as_ref().unwrap().value, 11);

    // Checking non-leaf node values.
    assert_eq!(left_subtree.value, 3);
    assert_eq!(right_subtree.value, 9);
    assert_eq!(root.value, 6);
}

#[test]
fn test_reverse() {
    let mut tree = BinaryTree::new();
    tree.append(6);
    tree.append(3);
    tree.append(9);

    tree.append(1);
    tree.append(5);

    tree.append(7);
    tree.append(11);

    tree.reverse();

    let root: &Box<Node> = tree.root.as_ref().unwrap();
    let left_subtree: &Box<Node> = root.left.as_ref().unwrap();
    let right_subtree: &Box<Node> = root.right.as_ref().unwrap();
    // Checking leaves.
    assert_eq!(left_subtree.left.as_ref().unwrap().left.is_none(), true);
    assert_eq!(left_subtree.left.as_ref().unwrap().right.is_none(), true);
    assert_eq!(left_subtree.left.as_ref().unwrap().value, 11);

    assert_eq!(left_subtree.right.as_ref().unwrap().left.is_none(), true);
    assert_eq!(left_subtree.right.as_ref().unwrap().right.is_none(), true);
    assert_eq!(left_subtree.right.as_ref().unwrap().value, 7);

    assert_eq!(right_subtree.left.as_ref().unwrap().left.is_none(), true);
    assert_eq!(right_subtree.left.as_ref().unwrap().right.is_none(), true);
    assert_eq!(right_subtree.left.as_ref().unwrap().value, 5);

    assert_eq!(right_subtree.right.as_ref().unwrap().left.is_none(), true);
    assert_eq!(right_subtree.right.as_ref().unwrap().right.is_none(), true);
    assert_eq!(right_subtree.right.as_ref().unwrap().value, 1);

    // Checking non-leaf node values.
    assert_eq!(left_subtree.value, 9);
    assert_eq!(right_subtree.value, 3);
    assert_eq!(root.value, 6);
}

#[test]
fn test_append_duplicates_go_right() {
    let mut tree = BinaryTree::new();
    tree.append(5);
    tree.append(5);
    tree.append(3);

    let root: &Box<Node> = tree.root.as_ref().unwrap();
    assert_eq!(root.value, 5);
    assert_eq!(root.left.as_ref().unwrap().value, 3);
    // The equal value was forced into the right subtree.
    assert_eq!(root.right.as_ref().unwrap().value, 5);
    assert_eq!(root.right.as_ref().unwrap().left.is_none(), true);
    assert_eq!(root.right.as_ref().unwrap().right.is_none(), true);
}

#[test]
fn test_reverse_empty_tree() {
    let mut tree = BinaryTree::new();
    tree.reverse();
    assert_eq!(tree.root.is_none(), true);
}

#[test]
fn test_reverse_twice_restores_tree() {
    let mut tree = BinaryTree::new();
    tree.append(6);
    tree.append(3);
    tree.append(9);
    tree.append(1);
    tree.append(5);
    tree.append(7);
    tree.append(11);

    tree.reverse();
    tree.reverse();

    let root: &Box<Node> = tree.root.as_ref().unwrap();
    let left_subtree: &Box<Node> = root.left.as_ref().unwrap();
    let right_subtree: &Box<Node> = root.right.as_ref().unwrap();
    assert_eq!(root.value, 6);
    assert_eq!(left_subtree.value, 3);
    assert_eq!(right_subtree.value, 9);
    assert_eq!(left_subtree.left.as_ref().unwrap().value, 1);
    assert_eq!(left_subtree.right.as_ref().unwrap().value, 5);
    assert_eq!(right_subtree.left.as_ref().unwrap().value, 7);
    assert_eq!(right_subtree.right.as_ref().unwrap().value, 11);
}
