//! A last-in, first-out stack of owned nodes.
use vstd::prelude::*;

verus! {

/// A stack that owns a chain of nodes from its top.
pub struct Stack<T> {
    top: Option<Box<Node<T>>>,
}

/// A node: one item and exclusive ownership of the nodes below it.
pub struct Node<T> {
    item: T,
    next: Option<Box<Node<T>>>,
}

/// The items of the chain that a link leads to, top first.
pub closed spec fn items<T>(link: Option<Box<Node<T>>>) -> Seq<T>
    decreases link,
{
    match link {
        None => Seq::empty(),
        Some(n) => seq![n.item] + items(n.next),
    }
}

impl<T> View for Stack<T> {
    type V = Seq<T>;

    /// The items, top first.
    closed spec fn view(&self) -> Seq<T> {
        items(self.top)
    }
}

impl<T> View for Node<T> {
    type V = Seq<T>;

    /// This node's item, then those below it.
    closed spec fn view(&self) -> Seq<T> {
        seq![self.item] + items(self.next)
    }
}

impl<T> Stack<T> {
    /// An empty stack.
    pub fn new() -> (stack: Stack<T>)
        ensures
            stack@ == Seq::<T>::empty(),
    {
        Stack { top: None }
    }

    /// Puts `item` on top.
    pub fn push(&mut self, item: T)
        ensures
            final(self)@ == seq![item] + old(self)@,
    {
        let top = self.top.take();
        self.top = Some(Box::new(Node::new(item, top)));
    }

    /// Removes and returns the top item, if there is one.
    pub fn pop(&mut self) -> (item: Option<T>)
        ensures
            match item {
                None => old(self)@.len() == 0 && final(self)@ == old(self)@,
                Some(x) => {
                    &&& old(self)@.len() > 0
                    &&& x == old(self)@[0]
                    &&& final(self)@ == old(self)@.drop_first()
                },
            },
    {
        let top = self.top.take();

        match top {
            Some(top) => {
                let top = *top;
                assert(items(top.next) =~= old(self)@.drop_first());
                self.top = top.next;
                Some(top.item)
            },
            None => None,
        }
    }

    /// The top node, if the stack is not empty.
    pub fn top(&self) -> (top: Option<&Node<T>>)
        ensures
            match top {
                None => self@.len() == 0,
                Some(n) => n@ == self@,
            },
    {
        match &self.top {
            Some(n) => Some(&**n),
            None => None,
        }
    }
}

impl<T> Node<T> {
    /// A node holding `item` above the chain `next`.
    pub fn new(item: T, next: Option<Box<Node<T>>>) -> (node: Node<T>)
        ensures
            node@ == seq![item] + items(next),
    {
        Node { item: item, next: next }
    }

    /// The item held by this node.
    pub fn item(&self) -> (item: &T)
        ensures
            *item == self@[0],
    {
        &self.item
    }

    /// The node below this one, if there is one.
    pub fn next(&self) -> (next: Option<&Node<T>>)
        ensures
            match next {
                None => self@.len() == 1,
                Some(n) => n@ == self@.drop_first(),
            },
    {
        match &self.next {
            Some(n) => Some(&**n),
            None => None,
        }
    }
}

} // verus!
