use rustds::bst::BinarySearchTree;

#[test]
fn bst_empty() {
    let tree = BinarySearchTree::<i32>::new();

    assert!(tree.root().is_none());
}

#[test]
fn bst_only_root_node() {
    let mut tree = BinarySearchTree::<i32>::new();
    tree.insert(5);

    assert!(tree.root().is_some());

    if let Some(root) = tree.root() {
        assert_eq!(*root.value(), 5);
        assert!(root.left().is_none());
        assert!(root.right().is_none());
    }
}

#[test]
fn bst_insert() {
    let mut tree = BinarySearchTree::<i32>::new();
    tree.insert(5);
    tree.insert(3);
    tree.insert(6);

    assert!(tree.root().is_some());

    if let Some(root) = tree.root() {
        assert_eq!(*root.value(), 5);

        assert!(root.left().is_some());

        if let Some(left) = root.left() {
            assert_eq!(*left.value(), 3);
            assert!(left.left().is_none());
            assert!(left.right().is_none());
        }

        assert!(root.right().is_some());

        if let Some(right) = root.right() {
            assert_eq!(*right.value(), 6);
            assert!(right.left().is_none());
            assert!(right.right().is_none());
        }
    }
}

#[test]
fn strict_tree_decreasing_keys_chain_left() {
    let mut tree = BinarySearchTree::<i32>::new();
    tree.insert(3);
    tree.insert(2);
    tree.insert(1);

    let root = tree.root().unwrap();
    assert_eq!(*root.value(), 3);
    assert!(root.right().is_none());
    let mid = root.left().unwrap();
    assert_eq!(*mid.value(), 2);
    assert!(mid.right().is_none());
    let low = mid.left().unwrap();
    assert_eq!(*low.value(), 1);
    assert!(low.left().is_none());
    assert!(low.right().is_none());
}

#[test]
fn strict_tree_greater_keys_go_right() {
    let mut tree = BinarySearchTree::<i32>::new();
    tree.insert(1);
    tree.insert(2);
    tree.insert(3);

    let root = tree.root().unwrap();
    assert!(root.left().is_none());
    let mid = root.right().unwrap();
    assert_eq!(*mid.value(), 2);
    assert_eq!(*mid.right().unwrap().value(), 3);
}
