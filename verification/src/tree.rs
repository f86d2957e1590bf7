//! Binary trees as shapes: the model in which the containers are specified.

use vstd::prelude::*;

verus! {

/// The shape of a binary tree: which item sits where.
pub enum Tree<T> {
    Empty,
    Node { left: Box<Tree<T>>, item: T, right: Box<Tree<T>> },
}

impl<T> Tree<T> {
    /// Number of nodes.
    pub open spec fn size(self) -> nat
        decreases self,
    {
        match self {
            Tree::Empty => 0,
            Tree::Node { left, item, right } => left.size() + 1 + right.size(),
        }
    }

    /// The items, left subtree first, then the root, then the right subtree.
    pub open spec fn in_order(self) -> Seq<T>
        decreases self,
    {
        match self {
            Tree::Empty => Seq::empty(),
            Tree::Node { left, item, right } => left.in_order() + seq![item] + right.in_order(),
        }
    }

    /// The items as a set.
    pub open spec fn items(self) -> Set<T>
        decreases self,
    {
        match self {
            Tree::Empty => Set::empty(),
            Tree::Node { left, item, right } => left.items().union(right.items()).insert(item),
        }
    }

    /// `sub` is this tree or the subtree at one of the nodes below its root.
    pub open spec fn has_subtree(self, sub: Tree<T>) -> bool
        decreases self,
    {
        self == sub || match self {
            Tree::Empty => false,
            Tree::Node { left, right, .. } => left.has_subtree(sub) || right.has_subtree(sub),
        }
    }

    /// The root holds `item`.
    pub open spec fn root_is(self, item: T) -> bool {
        match self {
            Tree::Node { item: i, .. } => i == item,
            Tree::Empty => false,
        }
    }

    /// The tree after a right rotation at the root: the left child is
    /// promoted, the old root becomes its right child. A tree without a left
    /// child is left as it is.
    pub open spec fn rotate_right(self) -> Tree<T> {
        match self {
            Tree::Node { left, item, right } => match *left {
                Tree::Node { left: ll, item: li, right: lr } => Tree::Node {
                    left: ll,
                    item: li,
                    right: Box::new(Tree::Node { left: lr, item, right }),
                },
                Tree::Empty => self,
            },
            Tree::Empty => self,
        }
    }

    /// The tree after a left rotation at the root: the right child is
    /// promoted, the old root becomes its left child. A tree without a right
    /// child is left as it is.
    pub open spec fn rotate_left(self) -> Tree<T> {
        match self {
            Tree::Node { left, item, right } => match *right {
                Tree::Node { left: rl, item: ri, right: rr } => Tree::Node {
                    left: Box::new(Tree::Node { left, item, right: rl }),
                    item: ri,
                    right: rr,
                },
                Tree::Empty => self,
            },
            Tree::Empty => self,
        }
    }

    /// A rotation moves no item across another: the in-order sequence, the
    /// set of items and the number of nodes stay what they were.
    pub proof fn lemma_rotate_keeps_order(self)
        ensures
            self.rotate_right().in_order() == self.in_order(),
            self.rotate_left().in_order() == self.in_order(),
            self.rotate_right().items() == self.items(),
            self.rotate_left().items() == self.items(),
            self.rotate_right().size() == self.size(),
            self.rotate_left().size() == self.size(),
    {
        reveal_with_fuel(Tree::in_order, 3);
        reveal_with_fuel(Tree::items, 3);
        reveal_with_fuel(Tree::size, 3);
        assert(self.rotate_right().in_order() =~= self.in_order());
        assert(self.rotate_left().in_order() =~= self.in_order());
        assert(self.rotate_right().items() =~= self.items());
        assert(self.rotate_left().items() =~= self.items());
    }

    /// The in-order sequence lists exactly the items, one entry per node.
    pub proof fn lemma_in_order_items(self)
        ensures
            self.in_order().len() == self.size(),
            forall|x: T| self.items().contains(x) <==> self.in_order().contains(x),
        decreases self,
    {
        match self {
            Tree::Empty => {},
            Tree::Node { left, item, right } => {
                left.lemma_in_order_items();
                right.lemma_in_order_items();
                let l = left.in_order();
                let r = right.in_order();
                let s = self.in_order();
                assert(s[l.len() as int] == item);
                assert forall|x: T| self.items().contains(x) implies s.contains(x) by {
                    if x == item {
                    } else if left.items().contains(x) {
                        assert(l.contains(x));
                        let i = choose|i: int| 0 <= i < l.len() && l[i] == x;
                        assert(s[i] == x);
                    } else {
                        assert(right.items().contains(x));
                        assert(r.contains(x));
                        let i = choose|i: int| 0 <= i < r.len() && r[i] == x;
                        assert(s[l.len() + 1 + i] == x);
                    }
                }
                assert forall|x: T| s.contains(x) implies self.items().contains(x) by {
                    let i = choose|i: int| 0 <= i < s.len() && s[i] == x;
                    if i < l.len() {
                        assert(l[i] == x);
                        assert(l.contains(x));
                    } else if i == l.len() {
                    } else {
                        assert(r[i - l.len() - 1] == x);
                        assert(r.contains(x));
                    }
                }
            },
        }
    }
}

} // verus!
