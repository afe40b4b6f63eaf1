//! A singly linked list that owns its nodes, with pushes and pops at both ends.
use vstd::prelude::*;

verus! {

/// A list that owns a chain of nodes from its front, and counts them.
pub struct LinkedList<T> {
    front: Option<Box<Node<T>>>,
    len: usize,
}

/// A node: one item and exclusive ownership of the rest of the chain.
pub struct Node<T> {
    item: T,
    next: Option<Box<Node<T>>>,
}

/// The items of the chain that a link leads to, front first.
pub closed spec fn items<T>(link: Option<Box<Node<T>>>) -> Seq<T>
    decreases link,
{
    match link {
        None => Seq::empty(),
        Some(n) => seq![n.item] + items(n.next),
    }
}

impl<T> View for LinkedList<T> {
    type V = Seq<T>;

    closed spec fn view(&self) -> Seq<T> {
        items(self.front)
    }
}

impl<T> View for Node<T> {
    type V = Seq<T>;

    closed spec fn view(&self) -> Seq<T> {
        seq![self.item] + items(self.next)
    }
}

impl<T> LinkedList<T> {
    /// The stored length agrees with the chain.
    pub closed spec fn wf(&self) -> bool {
        self.len == items(self.front).len()
    }

    /// An empty list.
    pub fn new() -> (list: Self)
        ensures
            list.wf(),
            list@ == Seq::<T>::empty(),
    {
        LinkedList { front: None, len: 0 }
    }

    /// Adds `item` before the first item.
    pub fn push_front(&mut self, item: T)
        requires
            old(self).wf(),
            old(self)@.len() < usize::MAX,
        ensures
            final(self).wf(),
            final(self)@ == seq![item] + old(self)@,
    {
        let front = self.front.take();
        let mut node = Node::new(item);
        node.next = front;

        self.front = Some(Box::new(node));
        self.len = self.len + 1;
    }

    /// Adds `item` after the last item.
    pub fn push_back(&mut self, item: T)
        requires
            old(self).wf(),
            old(self)@.len() < usize::MAX,
        ensures
            final(self).wf(),
            final(self)@ == old(self)@.push(item),
    {
        self.len = self.len + 1;
        // `cur` is the slot that the walk has reached; `passed` the items before it.
        let ghost mut passed = Seq::<T>::empty();
        let mut cur = &mut self.front;
        loop
            invariant
                items(after_borrow(self.front)) == passed + items(*final(cur)),
                passed + items(*cur) == old(self)@,
                self.len == old(self)@.len() + 1,
            decreases items(*cur).len(),
        {
            match cur {
                None => {
                    *cur = Some(Box::new(Node::new(item)));
                    return;
                },
                Some(n) => {
                    proof {
                        passed = passed.push(n.item);
                    }
                    cur = &mut n.next;
                },
            }
        }
    }

    /// Removes and returns the first item, if there is one.
    pub fn pop_front(&mut self) -> (item: Option<T>)
        requires
            old(self).wf(),
        ensures
            final(self).wf(),
            match item {
                None => old(self)@.len() == 0 && final(self)@ == old(self)@,
                Some(x) => {
                    &&& old(self)@.len() > 0
                    &&& x == old(self)@[0]
                    &&& final(self)@ == old(self)@.drop_first()
                },
            },
    {
        let front = self.front.take();

        match front {
            Some(front) => {
                let front = *front;
                assert(items(front.next) =~= old(self)@.drop_first());
                self.front = front.next;
                self.len = self.len - 1;
                Some(front.item)
            },
            None => None,
        }
    }

    /// Removes and returns the last item, if there is one.
    pub fn pop_back(&mut self) -> (item: Option<T>)
        requires
            old(self).wf(),
        ensures
            final(self).wf(),
            match item {
                None => old(self)@.len() == 0 && final(self)@ == old(self)@,
                Some(x) => {
                    &&& old(self)@.len() > 0
                    &&& x == old(self)@.last()
                    &&& final(self)@ == old(self)@.drop_last()
                },
            },
    {
        if self.front.is_none() {
            return None;
        }
        self.len = self.len - 1;
        // `cur` is the slot that the walk has reached; `passed` the items before it.
        let ghost mut passed = Seq::<T>::empty();
        let mut cur = &mut self.front;
        loop
            invariant
                items(after_borrow(self.front)) == passed + items(*final(cur)),
                passed + items(*cur) == old(self)@,
                items(*cur).len() > 0,
                self.len == old(self)@.len() - 1,
            decreases items(*cur).len(),
        {
            let last = match cur {
                Some(n) => n.next.is_none(),
                None => true,
            };
            if last {
                match cur.take() {
                    Some(n) => {
                        assert(old(self)@ == passed.push(n.item));
                        assert(passed == old(self)@.drop_last());
                        return Some(n.item);
                    },
                    None => {
                        return None;
                    },
                }
            } else {
                match cur {
                    Some(n) => {
                        proof {
                            passed = passed.push(n.item);
                        }
                        cur = &mut n.next;
                    },
                    None => {},
                }
            }
        }
    }

    /// The number of items.
    pub fn len(&self) -> (n: usize)
        requires
            self.wf(),
        ensures
            n == self@.len(),
    {
        self.len
    }

    /// The first item, if the list is not empty.
    pub fn front(&self) -> (item: Option<&T>)
        ensures
            match item {
                None => self@.len() == 0,
                Some(x) => self@.len() > 0 && *x == self@[0],
            },
    {
        match &self.front {
            Some(n) => Some(&n.item),
            None => None,
        }
    }

    /// A cursor over the items, front first.
    pub fn iter(&self) -> (it: LinkedListIter<'_, T>)
        ensures
            it@ == self@,
    {
        LinkedListIter { node: &self.front }
    }
}

impl<T> Node<T> {
    /// A node holding `item`, with nothing after it.
    pub fn new(item: T) -> (node: Self)
        ensures
            node@ == seq![item],
    {
        let node = Node { item: item, next: None };
        assert(node@ =~= seq![item]);
        node
    }
}

/// A cursor that hands out the items of a list, front first.
pub struct LinkedListIter<'a, T> {
    node: &'a Option<Box<Node<T>>>,
}

impl<'a, T> View for LinkedListIter<'a, T> {
    type V = Seq<T>;

    /// The items not yet handed out.
    closed spec fn view(&self) -> Seq<T> {
        items(*self.node)
    }
}

impl<'a, T> LinkedListIter<'a, T> {
    /// The next item, if any is left; the cursor moves past it.
    pub fn next(&mut self) -> (item: Option<&'a T>)
        ensures
            match item {
                None => old(self)@.len() == 0 && final(self)@ == old(self)@,
                Some(x) => {
                    &&& old(self)@.len() > 0
                    &&& *x == old(self)@[0]
                    &&& final(self)@ == old(self)@.drop_first()
                },
            },
    {
        match self.node {
            Some(n) => {
                assert(items(n.next) =~= old(self)@.drop_first());
                self.node = &n.next;
                Some(&n.item)
            },
            None => None,
        }
    }
}

} // verus!
