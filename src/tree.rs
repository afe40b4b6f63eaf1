//! The mathematical model shared by the search trees: a binary tree of keys,
//! the total order that keys must obey, and what insertion and lookup do to it.
use std::cmp::Ordering;
use vstd::laws_cmp::{obeys_cmp, obeys_cmp_ord, obeys_cmp_partial_ord, obeys_partial_cmp_spec_properties};
use vstd::laws_eq::obeys_eq_spec_properties;
use vstd::prelude::*;
use vstd::std_specs::cmp::{OrdSpec, PartialEqSpec, PartialOrdSpec};

verus! {

/// The comparison of `T` is a total order whose equality agrees with `==`.
pub open spec fn key_order<T: PartialOrd>() -> bool {
    &&& T::obeys_eq_spec()
    &&& T::obeys_partial_cmp_spec()
    &&& obeys_partial_cmp_spec_properties::<T>()
    &&& forall|x: T, y: T| (#[trigger] x.partial_cmp_spec(&y)) is Some
}

/// A type whose `Ord` obeys vstd's comparison laws (the integer types, tuples of such
/// types) has a key order.
pub proof fn lemma_key_order_of_ord<T: Ord>()
    requires
        obeys_cmp::<T>(),
    ensures
        key_order::<T>(),
{
    reveal(obeys_cmp_ord);
    reveal(obeys_cmp_partial_ord);
    assert forall|x: T, y: T| (#[trigger] x.partial_cmp_spec(&y)) is Some by {
        assert(x.partial_cmp_spec(&y) == Some(x.cmp_spec(&y)));
    }
}

/// `a` orders strictly before `b`.
pub open spec fn below<T: PartialOrd>(a: T, b: T) -> bool {
    a.partial_cmp_spec(&b) == Some(Ordering::Less)
}

/// `a` and `b` compare equal.
pub open spec fn same<T: PartialEq>(a: T, b: T) -> bool {
    a.eq_spec(&b)
}

/// Facts of a total order, derived from `key_order`.
pub proof fn lemma_order<T: PartialOrd>()
    requires
        key_order::<T>(),
    ensures
        forall|a: T| #[trigger] same(a, a),
        forall|a: T, b: T| (#[trigger] a.partial_cmp_spec(&b) == Some(Ordering::Equal)) == same(a, b),
        forall|a: T, b: T| #[trigger] same(a, b) ==> same(b, a),
        forall|a: T, b: T, c: T| #[trigger] same(a, b) && #[trigger] same(b, c) ==> same(a, c),
        forall|a: T, b: T| #[trigger] below(a, b) ==> !same(a, b) && !below(b, a),
        forall|a: T, b: T| !(#[trigger] below(a, b)) && !same(a, b) ==> below(b, a),
        forall|a: T, b: T, c: T| #[trigger] below(a, b) && #[trigger] below(b, c) ==> below(a, c),
        forall|a: T, b: T, c: T| #[trigger] below(a, b) && #[trigger] same(b, c) ==> below(a, c),
        forall|a: T, b: T, c: T| #[trigger] same(a, b) && #[trigger] below(b, c) ==> below(a, c),
{
    reveal(obeys_partial_cmp_spec_properties);
    reveal(obeys_eq_spec_properties);
    assert forall|a: T| #[trigger] same(a, a) by {
        let o = a.partial_cmp_spec(&a);
        assert(o is Some);
        assert(o == Some(Ordering::Less) <==> o == Some(Ordering::Greater));
        assert(o == Some(Ordering::Equal));
    }
    assert forall|a: T, b: T, c: T| #[trigger] below(a, b) && #[trigger] same(b, c) implies below(
        a,
        c,
    ) by {
        let o = a.partial_cmp_spec(&c);
        assert(o is Some);
        assert(b.partial_cmp_spec(&c) == Some(Ordering::Equal));
        assert(b.partial_cmp_spec(&a) == Some(Ordering::Greater));
        if o == Some(Ordering::Equal) {
            assert(same(a, c));
            assert(c.eq_spec(&b));
            assert(same(a, b));
            assert(a.partial_cmp_spec(&b) == Some(Ordering::Equal));
            assert(false);
        } else if o == Some(Ordering::Greater) {
            assert(b.partial_cmp_spec(&c) == Some(Ordering::Greater));
            assert(false);
        }
        assert(o == Some(Ordering::Less));
    }
    assert forall|a: T, b: T, c: T| #[trigger] same(a, b) && #[trigger] below(b, c) implies below(
        a,
        c,
    ) by {
        let o = a.partial_cmp_spec(&c);
        assert(o is Some);
        assert(a.partial_cmp_spec(&b) == Some(Ordering::Equal));
        assert(c.partial_cmp_spec(&b) == Some(Ordering::Greater));
        if o == Some(Ordering::Equal) {
            assert(b.eq_spec(&a));
            assert(same(b, c));
            assert(false);
        } else if o == Some(Ordering::Greater) {
            assert(c.partial_cmp_spec(&a) == Some(Ordering::Less));
            assert(c.partial_cmp_spec(&b) == Some(Ordering::Less));
            assert(false);
        }
        assert(o == Some(Ordering::Less));
    }
    assert forall|a: T, b: T| !(#[trigger] below(a, b)) && !same(a, b) implies below(b, a) by {
        assert(a.partial_cmp_spec(&b) is Some);
        assert(a.partial_cmp_spec(&b) == Some(Ordering::Greater));
        assert(b.partial_cmp_spec(&a) == Some(Ordering::Less));
    }
}

/// A binary tree of keys: the view of every search tree of this crate.
pub enum Tree<T> {
    Empty,
    Node { key: T, left: Box<Tree<T>>, right: Box<Tree<T>> },
}

impl<T> Tree<T> {
    /// A tree of one node, without children.
    pub open spec fn leaf(key: T) -> Tree<T> {
        Tree::Node { key, left: Box::new(Tree::Empty), right: Box::new(Tree::Empty) }
    }

    /// The set of keys held by the tree.
    pub open spec fn keys(self) -> Set<T>
        decreases self,
    {
        match self {
            Tree::Empty => Set::empty(),
            Tree::Node { key, left, right } => left.keys().union(right.keys()).insert(key),
        }
    }

    /// The number of nodes.
    pub open spec fn size(self) -> nat
        decreases self,
    {
        match self {
            Tree::Empty => 0,
            Tree::Node { key, left, right } => left.size() + right.size() + 1,
        }
    }

    /// The length of the longest path from the root down.
    pub open spec fn height(self) -> nat
        decreases self,
    {
        match self {
            Tree::Empty => 0,
            Tree::Node { key, left, right } => 1 + if left.height() >= right.height() {
                left.height()
            } else {
                right.height()
            },
        }
    }

    /// The two trees have a node at the same positions, whatever keys they hold.
    pub open spec fn same_shape(self, other: Tree<T>) -> bool
        decreases self,
    {
        match (self, other) {
            (Tree::Empty, Tree::Empty) => true,
            (Tree::Node { left: l1, right: r1, .. }, Tree::Node { left: l2, right: r2, .. }) => {
                l1.same_shape(*l2) && r1.same_shape(*r2)
            },
            _ => false,
        }
    }

    /// The keys read left subtree first, then the node, then the right subtree.
    pub open spec fn in_order(self) -> Seq<T>
        decreases self,
    {
        match self {
            Tree::Empty => Seq::empty(),
            Tree::Node { key, left, right } => left.in_order().push(key) + right.in_order(),
        }
    }
}

impl<T: PartialOrd> Tree<T> {
    /// Search-tree order: every key of a left subtree lies strictly below its node's
    /// key, every key of a right subtree strictly above it; so no two keys compare equal.
    pub open spec fn ordered(self) -> bool
        decreases self,
    {
        match self {
            Tree::Empty => true,
            Tree::Node { key, left, right } => {
                &&& left.ordered()
                &&& right.ordered()
                &&& forall|k: T| #[trigger] left.keys().contains(k) ==> below(k, key)
                &&& forall|k: T| #[trigger] right.keys().contains(k) ==> below(key, k)
            },
        }
    }

    /// Some key of the tree compares equal to `q`.
    pub open spec fn holds(self, q: T) -> bool {
        exists|k: T| #[trigger] self.keys().contains(k) && same(k, q)
    }

    /// The stored key that the descent for `q` meets: at each node, stop on an equal
    /// key, go left when `q` is below the node's key, else go right.
    pub open spec fn search(self, q: T) -> Option<T>
        decreases self,
    {
        match self {
            Tree::Empty => None,
            Tree::Node { key, left, right } => {
                if same(key, q) {
                    Some(key)
                } else if below(q, key) {
                    left.search(q)
                } else {
                    right.search(q)
                }
            },
        }
    }

    /// The tree after inserting `v`: the descent for `v` either meets an equal key,
    /// which `v` replaces in place, or ends at an empty slot, where `v` becomes a leaf.
    pub open spec fn inserted(self, v: T) -> Tree<T>
        decreases self,
    {
        match self {
            Tree::Empty => Tree::leaf(v),
            Tree::Node { key, left, right } => {
                if same(key, v) {
                    Tree::Node { key: v, left, right }
                } else if below(v, key) {
                    Tree::Node { key, left: Box::new(left.inserted(v)), right }
                } else {
                    Tree::Node { key, left, right: Box::new(right.inserted(v)) }
                }
            },
        }
    }

    /// The tree after inserting each key of `vs` in turn.
    pub open spec fn inserted_all(self, vs: Seq<T>) -> Tree<T>
        decreases vs.len(),
    {
        if vs.len() == 0 {
            self
        } else {
            self.inserted(vs[0]).inserted_all(vs.drop_first())
        }
    }
}

/// Inserting `v` into an ordered tree keeps it ordered; its keys become those that do
/// not compare equal to `v`, and `v`.
pub proof fn lemma_inserted<T: PartialOrd>(t: Tree<T>, v: T)
    requires
        key_order::<T>(),
        t.ordered(),
    ensures
        t.inserted(v).ordered(),
        t.inserted(v).keys() == t.keys().filter(|k: T| !same(k, v)).insert(v),
    decreases t,
{
    lemma_order::<T>();
    match t {
        Tree::Empty => {
            assert(t.inserted(v).keys() =~= t.keys().filter(|k: T| !same(k, v)).insert(v));
        },
        Tree::Node { key, left, right } => {
            if same(key, v) {
                assert forall|k: T| #[trigger] left.keys().contains(k) implies below(k, v) by {
                    assert(below(k, key));
                }
                assert forall|k: T| #[trigger] right.keys().contains(k) implies below(v, k) by {
                    assert(below(key, k));
                    assert(same(v, key));
                }
                assert forall|k: T| left.keys().contains(k) || right.keys().contains(k) implies !same(
                    k,
                    v,
                ) by {
                    if left.keys().contains(k) {
                        assert(below(k, key));
                    } else {
                        assert(below(key, k));
                    }
                }
                assert(t.inserted(v).keys() =~= t.keys().filter(|k: T| !same(k, v)).insert(v));
            } else if below(v, key) {
                lemma_inserted(*left, v);
                assert forall|k: T| right.keys().contains(k) implies !same(k, v) by {
                    assert(below(key, k));
                    assert(below(v, k));
                }
                assert(t.inserted(v).keys() =~= t.keys().filter(|k: T| !same(k, v)).insert(v));
            } else {
                assert(below(key, v));
                lemma_inserted(*right, v);
                assert forall|k: T| left.keys().contains(k) implies !same(k, v) by {
                    assert(below(k, key));
                    assert(below(k, v));
                }
                assert(t.inserted(v).keys() =~= t.keys().filter(|k: T| !same(k, v)).insert(v));
            }
        },
    }
}

/// In an ordered tree the descent for `q` meets a stored key exactly when some key
/// compares equal to `q`, and what it meets is such a key.
pub proof fn lemma_search<T: PartialOrd>(t: Tree<T>, q: T)
    requires
        key_order::<T>(),
        t.ordered(),
    ensures
        (t.search(q) is Some) == t.holds(q),
        t.search(q) matches Some(k) ==> t.keys().contains(k) && same(k, q),
    decreases t,
{
    lemma_order::<T>();
    match t {
        Tree::Empty => {
            assert(!t.holds(q));
        },
        Tree::Node { key, left, right } => {
            if same(key, q) {
                assert(t.keys().contains(key));
            } else if below(q, key) {
                lemma_search(*left, q);
                if left.holds(q) {
                    let k = choose|k: T| #[trigger] left.keys().contains(k) && same(k, q);
                    assert(t.keys().contains(k));
                }
                if t.holds(q) {
                    let k = choose|k: T| #[trigger] t.keys().contains(k) && same(k, q);
                    if right.keys().contains(k) {
                        assert(below(key, k));
                        assert(below(q, k));
                    }
                    assert(k != key);
                    assert(left.keys().contains(k));
                    assert(left.holds(q));
                }
            } else {
                assert(below(key, q));
                lemma_search(*right, q);
                if right.holds(q) {
                    let k = choose|k: T| #[trigger] right.keys().contains(k) && same(k, q);
                    assert(t.keys().contains(k));
                }
                if t.holds(q) {
                    let k = choose|k: T| #[trigger] t.keys().contains(k) && same(k, q);
                    if left.keys().contains(k) {
                        assert(below(k, key));
                        assert(below(q, key));
                    }
                    assert(k != key);
                    assert(right.keys().contains(k));
                    assert(right.holds(q));
                }
            }
        },
    }
}

/// After inserting `v`, the descent for `v` meets `v` itself.
pub proof fn lemma_inserted_found<T: PartialOrd>(t: Tree<T>, v: T)
    requires
        key_order::<T>(),
    ensures
        t.inserted(v).search(v) == Some(v),
    decreases t,
{
    lemma_order::<T>();
    match t {
        Tree::Empty => {},
        Tree::Node { key, left, right } => {
            if !same(key, v) {
                if below(v, key) {
                    lemma_inserted_found(*left, v);
                } else {
                    lemma_inserted_found(*right, v);
                }
            }
        },
    }
}

/// Every tree has its own shape.
pub proof fn lemma_same_shape_refl<T>(t: Tree<T>)
    ensures
        t.same_shape(t),
    decreases t,
{
    match t {
        Tree::Empty => {},
        Tree::Node { key, left, right } => {
            lemma_same_shape_refl(*left);
            lemma_same_shape_refl(*right);
        },
    }
}

/// Inserting a key equal to one already stored changes no position: the tree keeps its
/// shape and its size, and the stored key becomes the inserted one.
pub proof fn lemma_insert_existing<T: PartialOrd>(t: Tree<T>, v: T)
    requires
        key_order::<T>(),
        t.ordered(),
        t.holds(v),
    ensures
        t.inserted(v).same_shape(t),
        t.inserted(v).size() == t.size(),
        t.inserted(v).search(v) == Some(v),
        t.inserted(v).keys().contains(v),
    decreases t,
{
    lemma_order::<T>();
    lemma_search(t, v);
    lemma_inserted_found(t, v);
    lemma_inserted(t, v);
    match t {
        Tree::Empty => {},
        Tree::Node { key, left, right } => {
            if same(key, v) {
                lemma_same_shape_refl(*left);
                lemma_same_shape_refl(*right);
            } else if below(v, key) {
                lemma_search(*left, v);
                lemma_insert_existing(*left, v);
                lemma_same_shape_refl(*right);
            } else {
                lemma_search(*right, v);
                lemma_insert_existing(*right, v);
                lemma_same_shape_refl(*left);
            }
        },
    }
}

/// Inserting the same key twice in a row leaves the tree as inserting it once; the
/// second insertion finds the key stored.
pub proof fn lemma_insert_twice<T: PartialOrd>(t: Tree<T>, v: T)
    requires
        key_order::<T>(),
    ensures
        t.inserted(v).inserted(v) == t.inserted(v),
        t.inserted(v).search(v) is Some,
    decreases t,
{
    lemma_order::<T>();
    lemma_inserted_found(t, v);
    match t {
        Tree::Empty => {},
        Tree::Node { key, left, right } => {
            if !same(key, v) {
                if below(v, key) {
                    lemma_insert_twice(*left, v);
                } else {
                    lemma_insert_twice(*right, v);
                }
            }
        },
    }
}

/// A key stored in a tree stays findable through later insertions.
pub proof fn lemma_holds_kept<T: PartialOrd>(t: Tree<T>, v: T, q: T)
    requires
        key_order::<T>(),
        t.ordered(),
        t.holds(q),
    ensures
        t.inserted(v).holds(q),
{
    lemma_order::<T>();
    lemma_inserted(t, v);
    let k = choose|k: T| #[trigger] t.keys().contains(k) && same(k, q);
    if same(k, v) {
        assert(same(v, k));
        assert(t.inserted(v).keys().contains(v));
    } else {
        assert(t.inserted(v).keys().contains(k));
    }
}

/// After any sequence of insertions into an ordered tree, the tree is still ordered (its
/// in-order reading is strictly increasing) and the descent for each inserted key meets
/// a stored key equal to it.
pub proof fn lemma_inserted_all_found<T: PartialOrd>(t: Tree<T>, vs: Seq<T>)
    requires
        key_order::<T>(),
        t.ordered(),
    ensures
        t.inserted_all(vs).ordered(),
        forall|i: int| 0 <= i < vs.len() ==> #[trigger] t.inserted_all(vs).holds(vs[i]),
        forall|i: int|
            0 <= i < vs.len() ==> ((#[trigger] t.inserted_all(vs).search(vs[i])) matches Some(k)
                && same(k, vs[i])),
        forall|i: int, j: int|
            0 <= i < j < t.inserted_all(vs).in_order().len() ==> below(
                #[trigger] t.inserted_all(vs).in_order()[i],
                #[trigger] t.inserted_all(vs).in_order()[j],
            ),
    decreases vs.len(),
{
    if vs.len() > 0 {
        let t1 = t.inserted(vs[0]);
        let rest = vs.drop_first();
        lemma_inserted(t, vs[0]);
        lemma_inserted_all_found(t1, rest);
        let r = t.inserted_all(vs);
        assert(r == t1.inserted_all(rest));
        assert forall|i: int| 0 <= i < vs.len() implies #[trigger] r.holds(vs[i]) by {
            if i == 0 {
                lemma_order::<T>();
                assert(t1.keys().contains(vs[0]) && same(vs[0], vs[0]));
                lemma_inserted_all_keeps(t1, rest, vs[0]);
            } else {
                assert(vs[i] == rest[i - 1]);
            }
        }
        assert forall|i: int| 0 <= i < vs.len() implies ((#[trigger] r.search(vs[i])) matches Some(
            k,
        ) && same(k, vs[i])) by {
            assert(r.holds(vs[i]));
            lemma_search(r, vs[i]);
        }
    }
    lemma_in_order(t.inserted_all(vs));
}

/// A key findable in an ordered tree stays findable after any insertions.
pub proof fn lemma_inserted_all_keeps<T: PartialOrd>(t: Tree<T>, vs: Seq<T>, q: T)
    requires
        key_order::<T>(),
        t.ordered(),
        t.holds(q),
    ensures
        t.inserted_all(vs).holds(q),
    decreases vs.len(),
{
    if vs.len() > 0 {
        lemma_holds_kept(t, vs[0], q);
        lemma_inserted(t, vs[0]);
        lemma_inserted_all_keeps(t.inserted(vs[0]), vs.drop_first(), q);
    }
}

/// No insertion of keys unequal to `q` makes `q` findable in an ordered tree.
pub proof fn lemma_absent_kept<T: PartialOrd>(t: Tree<T>, vs: Seq<T>, q: T)
    requires
        key_order::<T>(),
        t.ordered(),
        !t.holds(q),
        forall|i: int| 0 <= i < vs.len() ==> !same(#[trigger] vs[i], q),
    ensures
        t.inserted_all(vs).ordered(),
        !t.inserted_all(vs).holds(q),
    decreases vs.len(),
{
    if vs.len() > 0 {
        let v = vs[0];
        let t1 = t.inserted(v);
        lemma_inserted(t, v);
        if t1.holds(q) {
            let k = choose|k: T| #[trigger] t1.keys().contains(k) && same(k, q);
            assert(k != v);
            assert(t.keys().contains(k));
        }
        let rest = vs.drop_first();
        assert forall|i: int| 0 <= i < rest.len() implies !same(#[trigger] rest[i], q) by {
            assert(rest[i] == vs[i + 1]);
        }
        lemma_absent_kept(t1, rest, q);
    }
}

/// Whatever keys were inserted into an empty tree, the descent for a key that compares
/// equal to none of them meets nothing.
pub proof fn lemma_never_inserted_absent<T: PartialOrd>(vs: Seq<T>, q: T)
    requires
        key_order::<T>(),
        forall|i: int| 0 <= i < vs.len() ==> !same(#[trigger] vs[i], q),
    ensures
        Tree::<T>::Empty.inserted_all(vs).search(q) is None,
{
    lemma_absent_kept(Tree::<T>::Empty, vs, q);
    lemma_search(Tree::<T>::Empty.inserted_all(vs), q);
}

/// The in-order reading of an ordered tree lists exactly its keys, each key strictly
/// below the ones after it.
pub proof fn lemma_in_order<T: PartialOrd>(t: Tree<T>)
    requires
        key_order::<T>(),
        t.ordered(),
    ensures
        forall|k: T| t.in_order().contains(k) <==> #[trigger] t.keys().contains(k),
        forall|i: int, j: int|
            0 <= i < j < t.in_order().len() ==> below(
                #[trigger] t.in_order()[i],
                #[trigger] t.in_order()[j],
            ),
    decreases t,
{
    lemma_order::<T>();
    match t {
        Tree::Empty => {},
        Tree::Node { key, left, right } => {
            lemma_in_order(*left);
            lemma_in_order(*right);
            let l = left.in_order();
            let r = right.in_order();
            let s = t.in_order();
            assert(s == l.push(key) + r);
            assert forall|k: T| s.contains(k) <==> #[trigger] t.keys().contains(k) by {
                if s.contains(k) {
                    let i = choose|i: int| 0 <= i < s.len() && s[i] == k;
                    if i < l.len() {
                        assert(l[i] == k);
                        assert(l.contains(k));
                        assert(left.keys().contains(k));
                    } else if i > l.len() {
                        assert(r[i - l.len() - 1] == k);
                        assert(r.contains(k));
                        assert(right.keys().contains(k));
                    }
                }
                if t.keys().contains(k) {
                    if left.keys().contains(k) {
                        let i = choose|i: int| 0 <= i < l.len() && l[i] == k;
                        assert(s[i] == k);
                    } else if right.keys().contains(k) {
                        let i = choose|i: int| 0 <= i < r.len() && r[i] == k;
                        assert(s[l.len() + 1 + i] == k);
                    } else {
                        assert(s[l.len() as int] == k);
                    }
                }
            }
            assert forall|i: int, j: int| 0 <= i < j < s.len() implies below(
                #[trigger] s[i],
                #[trigger] s[j],
            ) by {
                let n = l.len() as int;
                if j < n {
                    assert(s[i] == l[i] && s[j] == l[j]);
                } else if i > n {
                    assert(s[i] == r[i - n - 1] && s[j] == r[j - n - 1]);
                } else {
                    if i < n {
                        assert(s[i] == l[i]);
                        assert(l.contains(l[i]));
                        assert(left.keys().contains(l[i]));
                        assert(below(s[i], key));
                    }
                    if j > n {
                        assert(r.contains(r[j - n - 1]));
                        assert(right.keys().contains(r[j - n - 1]));
                        assert(s[j] == r[j - n - 1]);
                        assert(below(key, s[j]));
                    }
                }
            }
        },
    }
}

} // verus!
