//! Search-tree order on shapes: what it is, how it shows in the in-order
//! sequence, and what plain insertion does to it.

use crate::order::{lemma_trichotomy, lt, total_order};
use crate::tree::Tree;
use vstd::prelude::*;

verus! {

/// Every entry sorts strictly before every later one.
pub open spec fn increasing<K: Ord>(s: Seq<K>) -> bool {
    forall|i: int, j: int| 0 <= i < j < s.len() ==> lt(s[i], s[j])
}

/// Every entry sorts strictly before the one that follows it.
pub open spec fn stepwise_increasing<K: Ord>(s: Seq<K>) -> bool {
    forall|i: int| 0 <= i < s.len() - 1 ==> lt(#[trigger] s[i], s[i + 1])
}

/// A sequence that rises from each entry to the next rises from each entry
/// to every later one.
pub proof fn lemma_stepwise_increasing<K: Ord>(s: Seq<K>)
    requires
        total_order::<K>(),
    ensures
        stepwise_increasing(s) == increasing(s),
{
    if stepwise_increasing(s) {
        assert forall|i: int, j: int| 0 <= i < j < s.len() implies lt(s[i], s[j]) by {
            lemma_rises(s, i, j);
        }
    }
}

/// In a sequence that rises from each entry to the next, an entry sorts
/// before any later one.
proof fn lemma_rises<K: Ord>(s: Seq<K>, i: int, j: int)
    requires
        total_order::<K>(),
        stepwise_increasing(s),
        0 <= i < j < s.len(),
    ensures
        lt(s[i], s[j]),
    decreases j - i,
{
    if j > i + 1 {
        lemma_rises(s, i, j - 1);
        assert(lt(s[j - 1], s[j - 1 + 1]));
    }
}

impl<K: Ord> Tree<K> {
    /// Every key in the tree sorts strictly before `bound`.
    pub open spec fn all_below(self, bound: K) -> bool {
        forall|k: K| self.items().contains(k) ==> lt(k, bound)
    }

    /// Every key in the tree sorts strictly after `bound`.
    pub open spec fn all_above(self, bound: K) -> bool {
        forall|k: K| self.items().contains(k) ==> lt(bound, k)
    }

    /// The search-tree order: at every node, the keys of the left subtree
    /// sort before the node's key and those of the right subtree after it.
    pub open spec fn is_bst(self) -> bool
        decreases self,
    {
        match self {
            Tree::Empty => true,
            Tree::Node { left, item, right } => {
                &&& left.is_bst()
                &&& right.is_bst()
                &&& left.all_below(item)
                &&& right.all_above(item)
            },
        }
    }

    /// A search for `key` by comparisons from the root reaches a node that
    /// holds it.
    pub open spec fn finds(self, key: K) -> bool
        decreases self,
    {
        match self {
            Tree::Empty => false,
            Tree::Node { left, item, right } => if lt(key, item) {
                left.finds(key)
            } else if lt(item, key) {
                right.finds(key)
            } else {
                true
            },
        }
    }

    /// In a search tree a search reaches a key exactly if the tree holds it.
    pub proof fn lemma_finds_items(self, key: K)
        requires
            total_order::<K>(),
            self.is_bst(),
        ensures
            self.finds(key) == self.items().contains(key),
        decreases self,
    {
        match self {
            Tree::Empty => {},
            Tree::Node { left, item, right } => {
                left.lemma_finds_items(key);
                right.lemma_finds_items(key);
                lemma_trichotomy(key, item);
            },
        }
    }

    /// A tree is a search tree exactly if its in-order sequence is strictly
    /// increasing.
    pub proof fn lemma_bst_increasing(self)
        requires
            total_order::<K>(),
        ensures
            self.is_bst() == increasing(self.in_order()),
        decreases self,
    {
        match self {
            Tree::Empty => {},
            Tree::Node { left, item, right } => {
                left.lemma_bst_increasing();
                right.lemma_bst_increasing();
                left.lemma_in_order_items();
                right.lemma_in_order_items();
                let l = left.in_order();
                let r = right.in_order();
                let s = self.in_order();
                let n = l.len();
                assert(s[n as int] == item);
                assert forall|i: int| 0 <= i < n implies s[i] == l[i] by {}
                assert forall|i: int| 0 <= i < r.len() implies s[n + 1 + i] == r[i] by {}
                if self.is_bst() {
                    assert forall|i: int, j: int| 0 <= i < j < s.len() implies lt(s[i], s[j]) by {
                        if j < n {
                            assert(lt(l[i], l[j]));
                        } else if i > n {
                            assert(lt(r[i - n - 1], r[j - n - 1]));
                        } else {
                            if i < n {
                                assert(l.contains(l[i]));
                                assert(lt(s[i], item));
                            }
                            if j > n {
                                assert(r.contains(r[j - n - 1]));
                                assert(lt(item, s[j]));
                            }
                        }
                    }
                }
                if increasing(s) {
                    assert forall|i: int, j: int| 0 <= i < j < l.len() implies lt(l[i], l[j]) by {
                        assert(lt(s[i], s[j]));
                    }
                    assert forall|i: int, j: int| 0 <= i < j < r.len() implies lt(r[i], r[j]) by {
                        assert(lt(s[n + 1 + i], s[n + 1 + j]));
                    }
                    assert forall|k: K| left.items().contains(k) implies lt(k, item) by {
                        assert(l.contains(k));
                        let i = choose|i: int| 0 <= i < l.len() && l[i] == k;
                        assert(lt(s[i], s[n as int]));
                    }
                    assert forall|k: K| right.items().contains(k) implies lt(item, k) by {
                        assert(r.contains(k));
                        let i = choose|i: int| 0 <= i < r.len() && r[i] == k;
                        assert(lt(s[n as int], s[n + 1 + i]));
                    }
                }
            },
        }
    }

    /// Two trees with the same in-order sequence hold the same keys, and
    /// either both are search trees or neither is.
    pub proof fn lemma_same_order(self, other: Tree<K>)
        requires
            total_order::<K>(),
            self.in_order() == other.in_order(),
        ensures
            self.items() == other.items(),
            self.is_bst() == other.is_bst(),
            self.size() == other.size(),
    {
        self.lemma_bst_increasing();
        other.lemma_bst_increasing();
        self.lemma_in_order_items();
        other.lemma_in_order_items();
        assert(self.items() =~= other.items());
    }

    /// The tree with `key` put in as a leaf where a search for it ends; the
    /// tree as it is where the search reaches the key.
    pub open spec fn inserted(self, key: K) -> Tree<K>
        decreases self,
    {
        match self {
            Tree::Empty => Tree::Node {
                left: Box::new(Tree::Empty),
                item: key,
                right: Box::new(Tree::Empty),
            },
            Tree::Node { left, item, right } => if lt(key, item) {
                Tree::Node { left: Box::new(left.inserted(key)), item, right }
            } else if lt(item, key) {
                Tree::Node { left, item, right: Box::new(right.inserted(key)) }
            } else {
                self
            },
        }
    }

    /// Putting a key into a search tree gives a search tree that holds the
    /// key besides the old ones, in one node more. A key that was there
    /// leaves the tree as it is.
    pub proof fn lemma_inserted(self, key: K)
        requires
            total_order::<K>(),
            self.is_bst(),
        ensures
            self.inserted(key).is_bst(),
            self.inserted(key).items() == self.items().insert(key),
            self.items().contains(key) ==> self.inserted(key) == self,
            !self.items().contains(key) ==> self.inserted(key).size() == self.size() + 1,
        decreases self,
    {
        match self {
            Tree::Empty => {
                assert(self.inserted(key).items() =~= self.items().insert(key));
            },
            Tree::Node { left, item, right } => {
                lemma_trichotomy(key, item);
                left.lemma_inserted(key);
                right.lemma_inserted(key);
                self.lemma_finds_items(key);
                left.lemma_finds_items(key);
                right.lemma_finds_items(key);
                assert(self.inserted(key).items() =~= self.items().insert(key));
            },
        }
    }

    /// Taking the root out of a search tree while keeping the order of the
    /// other keys gives a search tree that holds just those, in one node
    /// less.
    pub proof fn lemma_joined(self, joined: Tree<K>)
        requires
            total_order::<K>(),
            self.is_bst(),
            self matches Tree::Node { left, item, right } && joined.in_order() == left.in_order()
                + right.in_order(),
        ensures
            joined.is_bst(),
            self matches Tree::Node { item, .. } && joined.items() == self.items().remove(item),
            joined.size() + 1 == self.size(),
    {
        match self {
            Tree::Empty => {},
            Tree::Node { left, item, right } => {
                let l = left.in_order();
                let r = right.in_order();
                let s = self.in_order();
                let j = joined.in_order();
                let n = l.len();
                self.lemma_bst_increasing();
                joined.lemma_bst_increasing();
                self.lemma_in_order_items();
                joined.lemma_in_order_items();
                left.lemma_in_order_items();
                right.lemma_in_order_items();
                assert forall|a: int, b: int| 0 <= a < b < j.len() implies lt(j[a], j[b]) by {
                    let a2 = if a < n { a } else { a + 1 };
                    let b2 = if b < n { b } else { b + 1 };
                    assert(j[a] == s[a2]);
                    assert(j[b] == s[b2]);
                }
                lemma_trichotomy(item, item);
                assert forall|k: K| joined.items().contains(k) <==> self.items().remove(
                    item,
                ).contains(k) by {
                    if joined.items().contains(k) {
                        assert(j.contains(k));
                        let a = choose|a: int| 0 <= a < j.len() && j[a] == k;
                        if a < n {
                            assert(l[a] == k);
                            assert(l.contains(k));
                        } else {
                            assert(r[a - n] == k);
                            assert(r.contains(k));
                        }
                    }
                    if self.items().remove(item).contains(k) {
                        if left.items().contains(k) {
                            assert(l.contains(k));
                            let a = choose|a: int| 0 <= a < l.len() && l[a] == k;
                            assert(j[a] == k);
                        } else {
                            assert(right.items().contains(k));
                            assert(r.contains(k));
                            let a = choose|a: int| 0 <= a < r.len() && r[a] == k;
                            assert(j[n + a] == k);
                        }
                        assert(j.contains(k));
                    }
                }
                assert(joined.items() =~= self.items().remove(item));
            },
        }
    }
}

} // verus!
