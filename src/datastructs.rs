pub mod bst;
pub mod linkedlist;
pub mod stack;
pub mod trees;

pub use self::bst::BinarySearchTree;
pub use self::linkedlist::{LinkedList, LinkedListIter};
pub use self::stack::Stack;
