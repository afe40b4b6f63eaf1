//! A search tree over a total order that returns, on insert, whether an equal key
//! was replaced.
use crate::tree::{key_order, lemma_inserted, lemma_search, same, Tree};
use vstd::prelude::*;
use vstd::std_specs::cmp::{PartialEqSpec, PartialOrdSpec};

verus! {

/// A search tree that owns its root; its view is ordered and holds no two equal keys.
pub struct BinarySearchTree<T: Ord> {
    root: Option<Box<Node<T>>>,
}

/// A node: one key and exclusive ownership of its two subtrees.
pub struct Node<T: Ord> {
    value: T,
    left: Option<Box<Node<T>>>,
    right: Option<Box<Node<T>>>,
}

/// The tree that a link (a root or a child slot) leads to.
pub closed spec fn model<T: Ord>(link: Option<Box<Node<T>>>) -> Tree<T>
    decreases link,
{
    match link {
        None => Tree::Empty,
        Some(n) => Tree::Node {
            key: n.value,
            left: Box::new(model(n.left)),
            right: Box::new(model(n.right)),
        },
    }
}

impl<T: Ord> View for BinarySearchTree<T> {
    type V = Tree<T>;

    closed spec fn view(&self) -> Tree<T> {
        model(self.root)
    }
}

impl<T: Ord> View for Node<T> {
    type V = Tree<T>;

    closed spec fn view(&self) -> Tree<T> {
        Tree::Node {
            key: self.value,
            left: Box::new(model(self.left)),
            right: Box::new(model(self.right)),
        }
    }
}

impl<T: Ord> BinarySearchTree<T> {
    /// An empty tree.
    pub fn new() -> (tree: BinarySearchTree<T>)
        ensures
            tree@ == Tree::<T>::Empty,
    {
        BinarySearchTree { root: None }
    }

    /// Stores `value`: over an equal key, in its place; else as a new leaf where the
    /// descent ends. Returns whether an equal key was replaced.
    pub fn insert(&mut self, value: T) -> (replaced: bool)
        requires
            key_order::<T>(),
            old(self)@.ordered(),
        ensures
            final(self)@ == old(self)@.inserted(value),
            final(self)@.ordered(),
            final(self)@.keys() == old(self)@.keys().filter(|k: T| !same(k, value)).insert(value),
            replaced == old(self)@.holds(value),
    {
        proof {
            lemma_inserted(self@, value);
            lemma_search(self@, value);
        }
        // `cur` is the slot that the descent has reached. `ctx` rebuilds the whole tree
        // around what that slot holds: the nodes passed on the way down stay as they are.
        let ghost whole = model(self.root);
        let ghost mut ctx: spec_fn(Tree<T>) -> Tree<T> = |x: Tree<T>| x;
        let mut cur = &mut self.root;
        loop
            invariant
                T::obeys_eq_spec(),
                T::obeys_partial_cmp_spec(),
                model(after_borrow(self.root)) == ctx(model(*final(cur))),
                ctx(model(*cur).inserted(value)) == whole.inserted(value),
                whole == old(self)@,
                (model(*cur).search(value) is Some) == whole.holds(value),
                whole.inserted(value).ordered(),
                whole.inserted(value).keys() == whole.keys().filter(|k: T| !same(k, value)).insert(
                    value,
                ),
            decreases model(*cur).height(),
        {
            match cur {
                None => {
                    *cur = Some(Box::new(Node::new(value)));
                    return false;
                },
                Some(node) => {
                    if node.value == value {
                        node.value = value;
                            return true;
                    }
                    let ghost key = node.value;
                    if value < node.value {
                        let ghost right = model(node.right);
                        let ghost up = ctx;
                        proof {
                            ctx =
                            |x: Tree<T>|
                                up(Tree::Node { key, left: Box::new(x), right: Box::new(right) });
                        }
                        cur = &mut node.left;
                    } else {
                        let ghost left = model(node.left);
                        let ghost up = ctx;
                        proof {
                            ctx =
                            |x: Tree<T>|
                                up(Tree::Node { key, left: Box::new(left), right: Box::new(x) });
                        }
                        cur = &mut node.right;
                    }
                },
            }
        }
    }

    /// The stored key that compares equal to `value`, if there is one.
    pub fn find(&self, value: &T) -> (found: Option<&T>)
        requires
            key_order::<T>(),
            self@.ordered(),
        ensures
            match found {
                Some(k) => self@.search(*value) == Some(*k),
                None => self@.search(*value) is None,
            },
            (found is Some) == self@.holds(*value),
            found matches Some(k) ==> self@.keys().contains(*k) && same(*k, *value),
    {
        proof {
            lemma_search(self@, *value);
        }
        let mut node = &self.root;
        loop
            invariant
                key_order::<T>(),
                model(*node).search(*value) == self@.search(*value),
                (self@.search(*value) is Some) == self@.holds(*value),
                self@.search(*value) matches Some(k) ==> self@.keys().contains(k) && same(k, *value),
            decreases model(*node).height(),
        {
            match node {
                None => {
                    return None;
                },
                Some(n) => {
                    if n.value == *value {
                        return Some(&n.value);
                    }
                    if *value < n.value {
                        node = &n.left;
                    } else {
                        node = &n.right;
                    }
                },
            }
        }
    }

    /// Whether some stored key compares equal to `value`.
    pub fn contains(&self, value: &T) -> (found: bool)
        requires
            key_order::<T>(),
            self@.ordered(),
        ensures
            found == self@.holds(*value),
            found == self@.search(*value) is Some,
    {
        self.find(value).is_some()
    }

    /// The root node, if the tree is not empty.
    pub fn root(&self) -> (root: Option<&Node<T>>)
        ensures
            match root {
                Some(n) => n@ == self@,
                None => self@ == Tree::<T>::Empty,
            },
    {
        match &self.root {
            Some(n) => Some(&**n),
            None => None,
        }
    }
}

impl<T: Ord> Node<T> {
    /// A node holding `value`, without children.
    pub fn new(value: T) -> (node: Node<T>)
        ensures
            node@ == Tree::leaf(value),
    {
        Node { value: value, left: None, right: None }
    }

    /// The key stored in this node.
    pub fn value(&self) -> (value: &T)
        ensures
            (self@ matches Tree::Node { key, .. } && key == *value),
    {
        &self.value
    }

    /// The root of the left subtree, if there is one.
    pub fn left(&self) -> (left: Option<&Node<T>>)
        ensures
            (self@ matches Tree::Node { left: l, .. } && match left {
                Some(n) => n@ == *l,
                None => *l == Tree::<T>::Empty,
            }),
    {
        match &self.left {
            Some(n) => Some(&**n),
            None => None,
        }
    }

    /// The root of the right subtree, if there is one.
    pub fn right(&self) -> (right: Option<&Node<T>>)
        ensures
            (self@ matches Tree::Node { right: r, .. } && match right {
                Some(n) => n@ == *r,
                None => *r == Tree::<T>::Empty,
            }),
    {
        match &self.right {
            Some(n) => Some(&**n),
            None => None,
        }
    }
}

} // verus!
