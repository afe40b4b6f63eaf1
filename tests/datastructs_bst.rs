use rustds::datastructs::BinarySearchTree;
use std::cmp::Ordering;

#[test]
fn empty() {
    let tree: BinarySearchTree<i32> = BinarySearchTree::new();

    assert!(tree.root().is_none());
}

#[test]
fn only_root_node() {
    let mut tree: BinarySearchTree<i32> = BinarySearchTree::new();
    tree.insert(5);

    assert!(tree.root().is_some());

    let root = tree.root().unwrap();

    assert_eq!(*root.value(), 5);
    assert!(root.left().is_none());
    assert!(root.right().is_none());
}

#[test]
fn insert() {
    let mut tree: BinarySearchTree<i32> = BinarySearchTree::new();
    tree.insert(5);
    tree.insert(3);
    tree.insert(6);

    assert!(tree.root().is_some());

    let root = tree.root().unwrap();

    assert_eq!(*root.value(), 5);
    assert!(root.left().is_some());

    let left = root.left().unwrap();

    assert_eq!(*left.value(), 3);
    assert!(left.left().is_none());
    assert!(left.right().is_none());

    assert!(root.right().is_some());

    let right = root.right().unwrap();

    assert_eq!(*right.value(), 6);
    assert!(right.left().is_none());
    assert!(right.right().is_none());
}

#[derive(Debug)]
struct Test(i32, i32);

impl PartialEq for Test {
    fn eq(&self, other: &Test) -> bool {
        self.0 == other.0
    }
}

impl PartialOrd for Test {
    fn partial_cmp(&self, other: &Test) -> Option<Ordering> {
        Some(self.cmp(other))
    }
}

impl Ord for Test {
    fn cmp(&self, other: &Test) -> Ordering {
        self.0.cmp(&other.0)
    }
}

impl Eq for Test {}

#[test]
fn bst_insert_duplicate() {
    let mut tree: BinarySearchTree<Test> = BinarySearchTree::new();
    tree.insert(Test(4, 0));

    {
        assert!(tree.root().is_some());

        let root = tree.root().unwrap();

        assert_eq!(root.value().0, 4);
        assert_eq!(root.value().1, 0);

        assert!(root.left().is_none());
        assert!(root.right().is_none());
    }

    tree.insert(Test(4, 1));

    {
        assert!(tree.root().is_some());

        let root = tree.root().unwrap();

        assert_eq!(root.value().0, 4);
        assert_eq!(root.value().1, 1);

        assert!(root.left().is_none());
        assert!(root.right().is_none());
    }
}

#[test]
fn bst_find() {
    let mut tree: BinarySearchTree<i32> = BinarySearchTree::new();
    tree.insert(3);
    tree.insert(2);
    tree.insert(1);

    assert!(tree.find(&3).is_some());
    assert_eq!(tree.find(&3).unwrap(), &3);

    assert!(tree.find(&2).is_some());
    assert_eq!(tree.find(&2).unwrap(), &2);

    assert!(tree.find(&1).is_some());
    assert_eq!(tree.find(&1).unwrap(), &1);

    assert!(tree.find(&11).is_none());

    tree.insert(11);

    assert!(tree.find(&11).is_some());
    assert_eq!(tree.find(&11).unwrap(), &11);
}

#[test]
fn insert_reports_replacement() {
    let mut tree: BinarySearchTree<i32> = BinarySearchTree::new();
    assert!(!tree.insert(5));
    assert!(!tree.insert(3));
    assert!(tree.insert(5));
    assert!(tree.insert(3));
    assert!(!tree.insert(4));
}

#[test]
fn find_returns_stored_key_with_latest_payload() {
    let mut tree: BinarySearchTree<Test> = BinarySearchTree::new();
    tree.insert(Test(4, 0));
    tree.insert(Test(2, 7));
    assert!(tree.insert(Test(4, 1)));

    let found = tree.find(&Test(4, 99)).unwrap();
    assert_eq!(found.1, 1);
    assert_eq!(tree.find(&Test(2, 0)).unwrap().1, 7);
    assert!(tree.find(&Test(3, 0)).is_none());
}

#[test]
fn equal_key_keeps_shape() {
    let mut tree: BinarySearchTree<Test> = BinarySearchTree::new();
    tree.insert(Test(5, 0));
    tree.insert(Test(3, 0));
    tree.insert(Test(6, 0));
    assert!(tree.insert(Test(3, 1)));

    let root = tree.root().unwrap();
    assert_eq!(root.value().0, 5);
    let left = root.left().unwrap();
    assert_eq!(left.value().0, 3);
    assert_eq!(left.value().1, 1);
    assert!(left.left().is_none());
    assert!(left.right().is_none());
    let right = root.right().unwrap();
    assert_eq!(right.value().0, 6);
    assert!(right.left().is_none());
    assert!(right.right().is_none());
}

#[test]
fn insert_twice_same_as_once() {
    let mut tree: BinarySearchTree<i32> = BinarySearchTree::new();
    tree.insert(8);
    assert!(!tree.insert(4));
    assert!(tree.insert(4));

    let root = tree.root().unwrap();
    assert_eq!(*root.value(), 8);
    assert!(root.right().is_none());
    let left = root.left().unwrap();
    assert_eq!(*left.value(), 4);
    assert!(left.left().is_none());
    assert!(left.right().is_none());
}

#[test]
fn find_in_empty_tree() {
    let tree: BinarySearchTree<i32> = BinarySearchTree::new();
    assert!(tree.find(&0).is_none());
    assert!(!tree.contains(&0));
}

#[test]
fn scenario_five_three_six() {
    let mut tree: BinarySearchTree<i32> = BinarySearchTree::new();
    tree.insert(5);
    tree.insert(3);
    tree.insert(6);

    assert_eq!(tree.find(&3), Some(&3));
    assert_eq!(tree.find(&6), Some(&6));
    assert_eq!(tree.find(&99), None);
    assert!(tree.contains(&5));
    assert!(!tree.contains(&4));
}

#[test]
fn every_inserted_key_found_in_order() {
    let keys = [50, 20, 80, 10, 30, 70, 90, 25, 35, 20, 85, -5, 0, 100];
    let mut tree: BinarySearchTree<i32> = BinarySearchTree::new();
    for k in keys.iter() {
        tree.insert(*k);
    }
    for k in keys.iter() {
        assert_eq!(tree.find(k), Some(k));
    }
    assert!(tree.find(&21).is_none());
}

#[test]
fn decreasing_keys_chain_left() {
    let mut tree = BinarySearchTree::<i32>::new();
    tree.insert(3);
    tree.insert(2);
    tree.insert(1);

    let root = tree.root().unwrap();
    assert_eq!(*root.value(), 3);
    assert!(root.right().is_none());
    let mid = root.left().unwrap();
    assert_eq!(*mid.value(), 2);
    assert!(mid.right().is_none());
    let low = mid.left().unwrap();
    assert_eq!(*low.value(), 1);
    assert!(low.left().is_none());
    assert!(low.right().is_none());
    assert_eq!(tree.find(&1), Some(&1));
}
