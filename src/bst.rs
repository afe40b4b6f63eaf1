//! A search tree that never holds two equal keys: inserting a key equal to a stored
//! one is a caller error.
use crate::tree::{below, key_order, lemma_inserted, lemma_order, same, Tree};
use vstd::pervasive::unreached;
use vstd::prelude::*;
use vstd::std_specs::cmp::{PartialEqSpec, PartialOrdSpec};

verus! {

/// A search tree that owns its root; its view is ordered and holds no two equal keys.
pub struct BinarySearchTree<T: PartialOrd> {
    root: Option<Box<Node<T>>>,
}

/// A node: one key and exclusive ownership of its two subtrees.
pub struct Node<T: PartialOrd> {
    value: T,
    left: Option<Box<Node<T>>>,
    right: Option<Box<Node<T>>>,
}

/// The tree that a link (a root or a child slot) leads to.
pub closed spec fn model<T: PartialOrd>(link: Option<Box<Node<T>>>) -> Tree<T>
    decreases link,
{
    match link {
        None => Tree::Empty,
        Some(n) => Tree::Node {
            key: n.value,
            left: Box::new(model(n.left)),
            right: Box::new(model(n.right)),
        },
    }
}

impl<T: PartialOrd> View for BinarySearchTree<T> {
    type V = Tree<T>;

    closed spec fn view(&self) -> Tree<T> {
        model(self.root)
    }
}

impl<T: PartialOrd> View for Node<T> {
    type V = Tree<T>;

    closed spec fn view(&self) -> Tree<T> {
        Tree::Node {
            key: self.value,
            left: Box::new(model(self.left)),
            right: Box::new(model(self.right)),
        }
    }
}

impl<T: PartialOrd> BinarySearchTree<T> {
    /// An empty tree.
    pub fn new() -> (tree: BinarySearchTree<T>)
        ensures
            tree@ == Tree::<T>::Empty,
    {
        BinarySearchTree { root: None }
    }

    /// Adds `value` as a new leaf where its descent ends. No stored key may compare
    /// equal to it.
    pub fn insert(&mut self, value: T)
        requires
            key_order::<T>(),
            old(self)@.ordered(),
            !old(self)@.holds(value),
        ensures
            final(self)@ == old(self)@.inserted(value),
            final(self)@.ordered(),
            final(self)@.keys() == old(self)@.keys().insert(value),
            final(self)@.size() == old(self)@.size() + 1,
    {
        proof {
            lemma_inserted(self@, value);
            lemma_fresh_insert_size(self@, value);
            assert(self@.keys().filter(|k: T| !same(k, value)) =~= self@.keys());
        }
        match &mut self.root {
            Some(root) => root.insert(value),
            None => {
                self.root = Some(Box::new(Node::new(value)));
            },
        }
    }

    /// The root node, if the tree is not empty.
    pub fn root(&self) -> (root: Option<&Node<T>>)
        ensures
            match root {
                Some(n) => n@ == self@,
                None => self@ == Tree::<T>::Empty,
            },
    {
        match &self.root {
            Some(n) => Some(&**n),
            None => None,
        }
    }
}

/// A key that compares equal to no stored key adds one node.
proof fn lemma_fresh_insert_size<T: PartialOrd>(t: Tree<T>, v: T)
    requires
        key_order::<T>(),
        !t.holds(v),
    ensures
        t.inserted(v).size() == t.size() + 1,
    decreases t,
{
    match t {
        Tree::Empty => {},
        Tree::Node { key, left, right } => {
            assert(t.keys().contains(key));
            if below(v, key) {
                lemma_subtree_lacks(t, v);
                lemma_fresh_insert_size(*left, v);
            } else {
                lemma_subtree_lacks(t, v);
                lemma_fresh_insert_size(*right, v);
            }
        },
    }
}

/// A key that no node holds is held by neither subtree.
proof fn lemma_subtree_lacks<T: PartialOrd>(t: Tree<T>, v: T)
    requires
        !t.holds(v),
    ensures
        t matches Tree::Node { key, left, right } ==> !same(key, v) && !left.holds(v)
            && !right.holds(v),
{
    if let Tree::Node { key, left, right } = t {
        assert(t.keys().contains(key));
        if left.holds(v) {
            let k = choose|k: T| #[trigger] left.keys().contains(k) && same(k, v);
            assert(t.keys().contains(k));
        }
        if right.holds(v) {
            let k = choose|k: T| #[trigger] right.keys().contains(k) && same(k, v);
            assert(t.keys().contains(k));
        }
    }
}

impl<T: PartialOrd> Node<T> {
    /// A node holding `value`, without children.
    pub fn new(value: T) -> (node: Node<T>)
        ensures
            node@ == Tree::leaf(value),
    {
        Node { value: value, left: None, right: None }
    }

    /// Adds `value` below this node, as a new leaf where its descent ends: left while
    /// it orders at or below a node's key, else right. No key of this subtree may
    /// compare equal to it.
    pub fn insert(&mut self, value: T)
        requires
            key_order::<T>(),
            !old(self)@.holds(value),
        ensures
            final(self)@ == old(self)@.inserted(value),
        decreases old(self)@.height(),
    {
        proof {
            lemma_order::<T>();
            lemma_subtree_lacks(self@, value);
        }
        if value == self.value {
            unreached::<()>();
        }
        if value <= self.value {
            match &mut self.left {
                Some(left) => left.insert(value),
                None => {
                    self.left = Some(Box::new(Node::new(value)));
                },
            }
        } else {
            match &mut self.right {
                Some(right) => right.insert(value),
                None => {
                    self.right = Some(Box::new(Node::new(value)));
                },
            }
        }
    }

    /// The key stored in this node.
    pub fn value(&self) -> (value: &T)
        ensures
            (self@ matches Tree::Node { key, .. } && key == *value),
    {
        &self.value
    }

    /// The root of the left subtree, if there is one.
    pub fn left(&self) -> (left: Option<&Node<T>>)
        ensures
            (self@ matches Tree::Node { left: l, .. } && match left {
                Some(n) => n@ == *l,
                None => *l == Tree::<T>::Empty,
            }),
    {
        match &self.left {
            Some(n) => Some(&**n),
            None => None,
        }
    }

    /// The root of the right subtree, if there is one.
    pub fn right(&self) -> (right: Option<&Node<T>>)
        ensures
            (self@ matches Tree::Node { right: r, .. } && match right {
                Some(n) => n@ == *r,
                None => *r == Tree::<T>::Empty,
            }),
    {
        match &self.right {
            Some(n) => Some(&**n),
            None => None,
        }
    }
}

} // verus!
