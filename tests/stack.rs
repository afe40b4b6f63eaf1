use rustds::datastructs::Stack;

#[test]
fn stack_empty() {
    let mut stack: Stack<i32> = Stack::new();

    assert!(stack.top().is_none());
    assert_eq!(stack.pop(), None);
}

#[test]
fn push() {
    let mut stack: Stack<i32> = Stack::new();
    stack.push(1);
    stack.push(2);
    stack.push(3);

    let top = stack.top();
    assert!(top.is_some());
    assert_eq!(*top.unwrap().item(), 3);

    let next = top.unwrap().next();
    assert!(next.is_some());
    assert_eq!(*next.unwrap().item(), 2);

    let next = next.unwrap().next();
    assert!(next.is_some());
    assert_eq!(*next.unwrap().item(), 1);
}

#[test]
fn pop() {
    let mut stack: Stack<i32> = Stack::new();
    stack.push(1);
    stack.push(2);
    stack.push(3);

    assert_eq!(stack.pop(), Some(3));
    assert_eq!(stack.pop(), Some(2));
    assert_eq!(stack.pop(), Some(1));
    assert_eq!(stack.pop(), None);
}

#[test]
fn push_after_pop() {
    let mut stack: Stack<i32> = Stack::new();
    stack.push(1);
    assert_eq!(stack.pop(), Some(1));
    stack.push(4);
    stack.push(5);
    assert_eq!(stack.pop(), Some(5));
    assert!(stack.top().unwrap().next().is_none());
    assert_eq!(stack.pop(), Some(4));
    assert_eq!(stack.pop(), None);
}
