use rustds::datastructs::LinkedList;

#[test]
fn linkedlist_empty() {
    let list: LinkedList<i32> = LinkedList::new();

    assert!(list.front().is_none());
}

#[test]
fn push_front() {
    let mut list: LinkedList<i32> = LinkedList::new();
    list.push_front(1);
    list.push_front(2);
    list.push_front(3);

    let mut iter = list.iter();
    assert_eq!(iter.next(), Some(&3));
    assert_eq!(iter.next(), Some(&2));
    assert_eq!(iter.next(), Some(&1));
}

#[test]
fn push_back() {
    let mut list: LinkedList<i32> = LinkedList::new();
    list.push_back(3);
    list.push_back(5);
    list.push_back(3);

    let mut iter = list.iter();
    assert_eq!(iter.next(), Some(&3));
    assert_eq!(iter.next(), Some(&5));
    assert_eq!(iter.next(), Some(&3));
}

#[test]
fn pop_front() {
    let mut list: LinkedList<i32> = LinkedList::new();
    list.push_back(1);
    list.push_back(2);
    list.push_back(3);

    let v = list.pop_front();
    assert_eq!(v, Some(1));

    let mut iter = list.iter();
    assert_eq!(iter.next(), Some(&2));
    assert_eq!(iter.next(), Some(&3));
}

#[test]
fn pop_back() {
    let mut list: LinkedList<i32> = LinkedList::new();
    list.push_back(1);
    list.push_back(2);
    list.push_back(3);

    let v = list.pop_back();
    assert_eq!(v, Some(3));
    assert_eq!(list.len(), 2);

    let v = list.pop_back();
    assert_eq!(v, Some(2));
    assert_eq!(list.len(), 1);

    let v = list.pop_back();
    assert_eq!(v, Some(1));
    assert_eq!(list.len(), 0);

    assert_eq!(list.pop_back(), None);
}

#[test]
fn len() {
    let mut list: LinkedList<i32> = LinkedList::new();

    assert!(list.front().is_none());
    assert_eq!(list.len(), 0);

    list.push_back(3);
    assert!(list.front().is_some());
    assert_eq!(list.len(), 1);

    list.push_back(2);
    assert_eq!(list.len(), 2);

    list.pop_front();
    assert_eq!(list.len(), 1);

    list.pop_front();
    assert_eq!(list.len(), 0);
}

#[test]
fn iter_ends_and_front_peeks() {
    let mut list: LinkedList<i32> = LinkedList::new();
    assert_eq!(list.pop_front(), None);
    list.push_back(7);
    list.push_front(6);
    assert_eq!(list.front(), Some(&6));
    let mut iter = list.iter();
    assert_eq!(iter.next(), Some(&6));
    assert_eq!(iter.next(), Some(&7));
    assert_eq!(iter.next(), None);
    assert_eq!(iter.next(), None);
}
