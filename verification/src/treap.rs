//! The treap: what its operations do to a shape, and the treap itself.

use crate::bst::{increasing, lemma_stepwise_increasing};
use crate::history::{kept, lemma_kept_last, Step};
use crate::order::{lemma_trichotomy, lt, total_order};
use crate::render::{bracketed, debug_text, frame};
use crate::rng::{next_priority, seeded};
use crate::tree::Tree;
use crate::BST;
use core::cmp::Ordering;
use core::fmt::Debug;
use rand::rngs::StdRng;
use vstd::prelude::*;

verus! {

/// What a node of a treap holds: a key and the priority drawn for it.
pub struct Entry<K> {
    pub key: K,
    pub priority: u64,
}

impl<K: Ord> Tree<Entry<K>> {
    /// The tree of the keys alone, priorities left out.
    pub open spec fn keyed(self) -> Tree<K>
        decreases self,
    {
        match self {
            Tree::Empty => Tree::Empty,
            Tree::Node { left, item, right } => Tree::Node {
                left: Box::new(left.keyed()),
                item: item.key,
                right: Box::new(right.keyed()),
            },
        }
    }

    /// The root's priority is greater than `priority`.
    pub open spec fn outranks(self, priority: u64) -> bool {
        match self {
            Tree::Empty => false,
            Tree::Node { item, .. } => item.priority > priority,
        }
    }

    /// The heap order: no node's priority is below that of a child.
    pub open spec fn heap_ordered(self) -> bool
        decreases self,
    {
        match self {
            Tree::Empty => true,
            Tree::Node { left, item, right } => {
                &&& !left.outranks(item.priority)
                &&& !right.outranks(item.priority)
                &&& left.heap_ordered()
                &&& right.heap_ordered()
            },
        }
    }

    /// The tree after `key` has been put in with `priority`: as a leaf where
    /// a search for the key ends, and then rotated upwards past every
    /// ancestor of lower priority. The tree as it is where the search
    /// reaches the key.
    pub open spec fn with_entry(self, key: K, priority: u64) -> Tree<Entry<K>>
        decreases self,
    {
        match self {
            Tree::Empty => Tree::Node {
                left: Box::new(Tree::Empty),
                item: Entry { key, priority },
                right: Box::new(Tree::Empty),
            },
            Tree::Node { left, item, right } => if lt(key, item.key) {
                let grown = left.with_entry(key, priority);
                let whole = Tree::Node { left: Box::new(grown), item, right };
                if grown.outranks(item.priority) {
                    whole.rotate_right()
                } else {
                    whole
                }
            } else if lt(item.key, key) {
                let grown = right.with_entry(key, priority);
                let whole = Tree::Node { left, item, right: Box::new(grown) };
                if grown.outranks(item.priority) {
                    whole.rotate_left()
                } else {
                    whole
                }
            } else {
                self
            },
        }
    }

    /// The root's right child is the one to promote when the root is taken
    /// out: it is the only child, or its priority is the greater one. Of two
    /// children with the same priority the left one is promoted.
    pub open spec fn promotes_right(self) -> bool {
        match self {
            Tree::Empty => false,
            Tree::Node { left, item, right } => match *right {
                Tree::Empty => false,
                Tree::Node { item: ri, .. } => match *left {
                    Tree::Empty => true,
                    Tree::Node { item: li, .. } => li.priority < ri.priority,
                },
            },
        }
    }

    /// The tree without its root. The root sinks by rotations until it has
    /// no child and is cut off; each rotation promotes the child that
    /// `promotes_right` picks.
    pub open spec fn without_top(self) -> Tree<Entry<K>>
        decreases self.size(),
    {
        proof {
            reveal_with_fuel(Tree::size, 2);
        }
        match self {
            Tree::Empty => self,
            Tree::Node { left, item, right } => if self.promotes_right() {
                match *right {
                    Tree::Node { left: rl, item: ri, right: rr } => Tree::Node {
                        left: Box::new(Tree::Node { left, item, right: rl }.without_top()),
                        item: ri,
                        right: rr,
                    },
                    Tree::Empty => self,
                }
            } else {
                match *left {
                    Tree::Node { left: ll, item: li, right: lr } => Tree::Node {
                        left: ll,
                        item: li,
                        right: Box::new(Tree::Node { left: lr, item, right }.without_top()),
                    },
                    Tree::Empty => Tree::Empty,
                }
            },
        }
    }

    /// The tree after `delete`: the node that a search for `key` reaches is
    /// taken out as `without_top` says; a tree in which the search fails is
    /// left as it is.
    pub open spec fn without_key(self, key: K) -> Tree<Entry<K>>
        decreases self,
    {
        match self {
            Tree::Empty => self,
            Tree::Node { left, item, right } => if lt(key, item.key) {
                Tree::Node { left: Box::new(left.without_key(key)), item, right }
            } else if lt(item.key, key) {
                Tree::Node { left, item, right: Box::new(right.without_key(key)) }
            } else {
                self.without_top()
            },
        }
    }

    /// Leaving out the priorities and rotating can be done in either order.
    pub proof fn lemma_keyed_rotate(self)
        ensures
            self.rotate_right().keyed() == self.keyed().rotate_right(),
            self.rotate_left().keyed() == self.keyed().rotate_left(),
    {
        reveal_with_fuel(Tree::keyed, 3);
    }

    /// Leaving out the priorities leaves the number of nodes.
    pub proof fn lemma_keyed_size(self)
        ensures
            self.keyed().size() == self.size(),
        decreases self,
    {
        match self {
            Tree::Empty => {},
            Tree::Node { left, item, right } => {
                left.lemma_keyed_size();
                right.lemma_keyed_size();
            },
        }
    }

    /// In a heap-ordered treap whose root does not outrank `bound`, no entry
    /// has a priority above `bound`.
    pub proof fn lemma_heap_bound(self, bound: u64, entry: Entry<K>)
        requires
            self.heap_ordered(),
            !self.outranks(bound),
        ensures
            self.items().contains(entry) ==> entry.priority <= bound,
        decreases self,
    {
        match self {
            Tree::Empty => {},
            Tree::Node { left, item, right } => {
                left.lemma_heap_bound(item.priority, entry);
                right.lemma_heap_bound(item.priority, entry);
            },
        }
    }

    /// In a heap-ordered treap no node has a priority below that of a node
    /// anywhere beneath it.
    pub proof fn lemma_heap_everywhere(self, node: Tree<Entry<K>>, below: Entry<K>)
        requires
            self.heap_ordered(),
            self.has_subtree(node),
            node matches Tree::Node { left, right, .. } && (left.items().contains(below)
                || right.items().contains(below)),
        ensures
            node matches Tree::Node { item, .. } && below.priority <= item.priority,
        decreases self,
    {
        if self == node {
            match self {
                Tree::Empty => {},
                Tree::Node { left, item, right } => {
                    left.lemma_heap_bound(item.priority, below);
                    right.lemma_heap_bound(item.priority, below);
                },
            }
        } else {
            match self {
                Tree::Empty => {},
                Tree::Node { left, item, right } => {
                    if left.has_subtree(node) {
                        left.lemma_heap_everywhere(node, below);
                    } else {
                        right.lemma_heap_everywhere(node, below);
                    }
                },
            }
        }
    }

    /// Putting a key into a treap whose keys are in search-tree order keeps
    /// that order and adds the key to the old ones, in one node more. A key
    /// that was there leaves a heap-ordered tree as it is, whatever the
    /// priority.
    pub proof fn lemma_with_entry(self, key: K, priority: u64)
        requires
            total_order::<K>(),
            self.keyed().is_bst(),
        ensures
            self.with_entry(key, priority).keyed().is_bst(),
            self.with_entry(key, priority).keyed().items() == self.keyed().items().insert(key),
            self.heap_ordered() && self.keyed().items().contains(key) ==> self.with_entry(
                key,
                priority,
            ) == self,
            !self.keyed().items().contains(key) ==> self.with_entry(key, priority).size()
                == self.size() + 1,
            self.with_entry(key, priority) is Node,
        decreases self,
    {
        match self {
            Tree::Empty => {
                let grown = self.with_entry(key, priority);
                assert(grown.keyed().items() =~= self.keyed().items().insert(key));
            },
            Tree::Node { left, item, right } => {
                lemma_trichotomy(key, item.key);
                self.keyed().lemma_finds_items(key);
                if lt(key, item.key) {
                    left.lemma_with_entry(key, priority);
                    let whole = Tree::Node {
                        left: Box::new(left.with_entry(key, priority)),
                        item,
                        right,
                    };
                    assert(whole.keyed().items() =~= self.keyed().items().insert(key));
                    whole.lemma_keyed_rotate();
                    whole.lemma_rotate_keeps_order();
                    whole.keyed().lemma_rotate_keeps_order();
                    whole.keyed().lemma_same_order(whole.rotate_right().keyed());
                    left.keyed().lemma_finds_items(key);
                } else if lt(item.key, key) {
                    right.lemma_with_entry(key, priority);
                    let whole = Tree::Node {
                        left,
                        item,
                        right: Box::new(right.with_entry(key, priority)),
                    };
                    assert(whole.keyed().items() =~= self.keyed().items().insert(key));
                    whole.lemma_keyed_rotate();
                    whole.lemma_rotate_keeps_order();
                    whole.keyed().lemma_rotate_keeps_order();
                    whole.keyed().lemma_same_order(whole.rotate_left().keyed());
                    right.keyed().lemma_finds_items(key);
                } else {
                    assert(self.keyed().items() =~= self.keyed().items().insert(key));
                }
            },
        }
    }

    /// Putting a key into a heap-ordered treap keeps the heap order. Where
    /// the old root did not outrank `bound`, the new root does not either,
    /// unless it is the new entry, and then neither of its children does.
    pub proof fn lemma_with_entry_heap(self, key: K, priority: u64, bound: u64)
        requires
            self.heap_ordered(),
            !self.outranks(bound),
        ensures
            self.with_entry(key, priority).heap_ordered(),
            !self.with_entry(key, priority).outranks(bound) || (self.with_entry(
                key,
                priority,
            ) matches Tree::Node { left, item, right } && item == (Entry { key, priority })
                && !left.outranks(bound) && !right.outranks(bound)),
        decreases self,
    {
        reveal_with_fuel(Tree::heap_ordered, 3);
        match self {
            Tree::Empty => {},
            Tree::Node { left, item, right } => {
                if lt(key, item.key) {
                    left.lemma_with_entry_heap(key, priority, item.priority);
                } else if lt(item.key, key) {
                    right.lemma_with_entry_heap(key, priority, item.priority);
                }
            },
        }
    }

    /// Taking out the root leaves the other keys in their order.
    pub proof fn lemma_without_top(self)
        ensures
            self matches Tree::Node { left, item, right } ==> self.without_top().keyed().in_order()
                == left.keyed().in_order() + right.keyed().in_order(),
        decreases self.size(),
    {
        reveal_with_fuel(Tree::size, 2);
        reveal_with_fuel(Tree::keyed, 2);
        match self {
            Tree::Empty => {},
            Tree::Node { left, item, right } => {
                let l = left.keyed().in_order();
                let r = right.keyed().in_order();
                if self.promotes_right() {
                    match *right {
                        Tree::Node { left: rl, item: ri, right: rr } => {
                            let sunk = Tree::Node { left, item, right: rl };
                            sunk.lemma_without_top();
                            assert(self.without_top().keyed().in_order() =~= l + r);
                        },
                        Tree::Empty => {},
                    }
                } else {
                    match *left {
                        Tree::Node { left: ll, item: li, right: lr } => {
                            let sunk = Tree::Node { left: lr, item, right };
                            sunk.lemma_without_top();
                            assert(self.without_top().keyed().in_order() =~= l + r);
                        },
                        Tree::Empty => {
                            assert(self.without_top().keyed().in_order() =~= l + r);
                        },
                    }
                }
            },
        }
    }

    /// Taking the root out of a tree whose subtrees are heap-ordered leaves
    /// a heap-ordered tree, and its root outranks no bound that neither
    /// child outranked.
    pub proof fn lemma_without_top_heap(self, bound: u64)
        requires
            self matches Tree::Node { left, item, right } && left.heap_ordered()
                && right.heap_ordered() && !left.outranks(bound) && !right.outranks(bound),
        ensures
            self.without_top().heap_ordered(),
            !self.without_top().outranks(bound),
        decreases self.size(),
    {
        reveal_with_fuel(Tree::size, 2);
        reveal_with_fuel(Tree::heap_ordered, 2);
        match self {
            Tree::Empty => {},
            Tree::Node { left, item, right } => {
                if self.promotes_right() {
                    match *right {
                        Tree::Node { left: rl, item: ri, right: rr } => {
                            let sunk = Tree::Node { left, item, right: rl };
                            sunk.lemma_without_top_heap(ri.priority);
                        },
                        Tree::Empty => {},
                    }
                } else {
                    match *left {
                        Tree::Node { left: ll, item: li, right: lr } => {
                            let sunk = Tree::Node { left: lr, item, right };
                            sunk.lemma_without_top_heap(li.priority);
                        },
                        Tree::Empty => {},
                    }
                }
            },
        }
    }

    /// Deleting from a treap whose keys are in search-tree order keeps that
    /// order and takes just that key away, and one node with it. A key that
    /// was not there leaves the tree as it is.
    pub proof fn lemma_without_key(self, key: K)
        requires
            total_order::<K>(),
            self.keyed().is_bst(),
        ensures
            self.without_key(key).keyed().is_bst(),
            self.without_key(key).keyed().items() == self.keyed().items().remove(key),
            !self.keyed().items().contains(key) ==> self.without_key(key) == self,
            self.keyed().items().contains(key) ==> self.without_key(key).size() + 1 == self.size(),
        decreases self,
    {
        match self {
            Tree::Empty => {
                assert(self.without_key(key).keyed().items() =~= self.keyed().items().remove(key));
            },
            Tree::Node { left, item, right } => {
                lemma_trichotomy(key, item.key);
                left.lemma_without_key(key);
                right.lemma_without_key(key);
                self.keyed().lemma_finds_items(key);
                left.keyed().lemma_finds_items(key);
                right.keyed().lemma_finds_items(key);
                if key == item.key {
                    self.lemma_without_top();
                    self.keyed().lemma_joined(self.without_top().keyed());
                    self.lemma_keyed_size();
                    self.without_top().lemma_keyed_size();
                }
                assert(self.without_key(key).keyed().items() =~= self.keyed().items().remove(key));
            },
        }
    }

    /// Deleting from a heap-ordered treap keeps the heap order, and the new
    /// root outranks no bound that the old one did not.
    pub proof fn lemma_without_key_heap(self, key: K, bound: u64)
        requires
            self.heap_ordered(),
            !self.outranks(bound),
        ensures
            self.without_key(key).heap_ordered(),
            !self.without_key(key).outranks(bound),
        decreases self,
    {
        match self {
            Tree::Empty => {},
            Tree::Node { left, item, right } => {
                if lt(key, item.key) {
                    left.lemma_without_key_heap(key, item.priority);
                } else if lt(item.key, key) {
                    right.lemma_without_key_heap(key, item.priority);
                } else {
                    self.lemma_without_top_heap(bound);
                }
            },
        }
    }

    /// After a deletion a search does not reach the deleted key, and reaches
    /// every other key exactly if it did before.
    pub proof fn lemma_without_key_finds(self, key: K, other: K)
        requires
            total_order::<K>(),
            self.keyed().is_bst(),
        ensures
            !self.without_key(key).keyed().finds(key),
            other != key ==> self.without_key(key).keyed().finds(other) == self.keyed().finds(
                other,
            ),
    {
        self.lemma_without_key(key);
        self.keyed().lemma_finds_items(other);
        self.without_key(key).keyed().lemma_finds_items(key);
        self.without_key(key).keyed().lemma_finds_items(other);
    }
}

struct Node<K: Ord> {
    key: K,
    priority: u64,
    lchild: Option<Box<Node<K>>>,
    rchild: Option<Box<Node<K>>>,
}

/// The shape of the subtree that hangs from a link, each key with its
/// priority.
spec fn shape_of<K: Ord>(link: Option<Box<Node<K>>>) -> Tree<Entry<K>>
    decreases link,
{
    match link {
        None => Tree::Empty,
        Some(n) => Tree::Node {
            left: Box::new(shape_of(n.lchild)),
            item: Entry { key: n.key, priority: n.priority },
            right: Box::new(shape_of(n.rchild)),
        },
    }
}

/// Rotates right at `tree`: the links are rewired and the two nodes' keys
/// and priorities change places, so that the node `tree` points to stays
/// the top of the subtree.
fn rotate_right<K: Ord>(tree: &mut Box<Node<K>>)
    requires
        old(tree).lchild is Some,
    ensures
        shape_of(Some(*final(tree))) == shape_of(Some(*old(tree))).rotate_right(),
{
    let mut pivot = tree.lchild.take().unwrap();
    tree.lchild = pivot.lchild.take();
    core::mem::swap(&mut tree.key, &mut pivot.key);
    core::mem::swap(&mut tree.priority, &mut pivot.priority);
    pivot.lchild = pivot.rchild.take();
    pivot.rchild = tree.rchild.take();
    tree.rchild = Some(pivot);
    proof {
        reveal_with_fuel(shape_of, 3);
    }
}

/// Rotates left at `tree`, the mirror image of `rotate_right`.
fn rotate_left<K: Ord>(tree: &mut Box<Node<K>>)
    requires
        old(tree).rchild is Some,
    ensures
        shape_of(Some(*final(tree))) == shape_of(Some(*old(tree))).rotate_left(),
{
    let mut pivot = tree.rchild.take().unwrap();
    tree.rchild = pivot.rchild.take();
    core::mem::swap(&mut tree.key, &mut pivot.key);
    core::mem::swap(&mut tree.priority, &mut pivot.priority);
    pivot.rchild = pivot.lchild.take();
    pivot.lchild = tree.lchild.take();
    tree.lchild = Some(pivot);
    proof {
        reveal_with_fuel(shape_of, 3);
    }
}

/// Hangs the leaf `item` where a search for its key ends and, on the way
/// back up, rotates it above each ancestor of lower priority. A key that is
/// already there is left alone and `item` is dropped.
fn _insert<K: Ord>(item: Box<Node<K>>, tree: &mut Option<Box<Node<K>>>)
    requires
        total_order::<K>(),
        item.lchild is None,
        item.rchild is None,
    ensures
        shape_of(*final(tree)) == shape_of(*old(tree)).with_entry(item.key, item.priority),
        *final(tree) is Some,
    decreases shape_of(*old(tree)).size(),
{
    proof {
        reveal_with_fuel(shape_of, 2);
    }
    match tree {
        None => {
            *tree = Some(item);
        },
        Some(t) => match item.key.cmp(&t.key) {
            Ordering::Less => {
                _insert(item, &mut t.lchild);
                if t.lchild.as_ref().unwrap().priority > t.priority {
                    rotate_right(t);
                }
            },
            Ordering::Greater => {
                _insert(item, &mut t.rchild);
                if t.rchild.as_ref().unwrap().priority > t.priority {
                    rotate_left(t);
                }
            },
            Ordering::Equal => {},
        },
    }
}

/// Searches for `key` by comparisons.
fn _find<K: Ord>(key: &K, tree: &Option<Box<Node<K>>>) -> (found: bool)
    requires
        total_order::<K>(),
    ensures
        found == shape_of(*tree).keyed().finds(*key),
    decreases tree,
{
    match tree {
        None => false,
        Some(t) => match key.cmp(&t.key) {
            Ordering::Less => _find(key, &t.lchild),
            Ordering::Greater => _find(key, &t.rchild),
            Ordering::Equal => true,
        },
    }
}

/// Takes out the node at `tree`: it is rotated downwards, each time under
/// the child of higher priority, until it has no child, and then cut off.
fn root_delete<K: Ord>(tree: &mut Option<Box<Node<K>>>)
    ensures
        shape_of(*final(tree)) == shape_of(*old(tree)).without_top(),
    decreases shape_of(*old(tree)).size(),
{
    proof {
        reveal_with_fuel(shape_of, 3);
        reveal_with_fuel(Tree::size, 2);
    }
    match tree {
        None => {},
        Some(t) => match &t.lchild {
            None => match &t.rchild {
                None => *tree = None,
                Some(_) => {
                    rotate_left(t);
                    root_delete(&mut t.lchild);
                },
            },
            Some(l) => match &t.rchild {
                None => {
                    rotate_right(t);
                    root_delete(&mut t.rchild);
                },
                Some(r) => {
                    if l.priority < r.priority {
                        rotate_left(t);
                        root_delete(&mut t.lchild);
                    } else {
                        rotate_right(t);
                        root_delete(&mut t.rchild);
                    }
                },
            },
        },
    }
}

/// Searches for `key` by comparisons and takes out the node that holds it.
fn _delete<K: Ord>(key: &K, tree: &mut Option<Box<Node<K>>>)
    requires
        total_order::<K>(),
    ensures
        shape_of(*final(tree)) == shape_of(*old(tree)).without_key(*key),
    decreases shape_of(*old(tree)).size(),
{
    proof {
        reveal_with_fuel(shape_of, 2);
    }
    match tree {
        None => {},
        Some(t) => match key.cmp(&t.key) {
            Ordering::Less => _delete(key, &mut t.lchild),
            Ordering::Greater => _delete(key, &mut t.rchild),
            Ordering::Equal => root_delete(tree),
        },
    }
}

/// Writes down the subtree at `tree`.
fn _print<K: Ord + Debug>(tree: &Box<Node<K>>) -> (message: String)
    ensures
        shape_of(Some(*tree)).written_as(message@),
    decreases tree,
{
    let key = debug_text(&tree.key);
    let left = match &tree.lchild {
        None => String::new(),
        Some(l) => _print(l),
    };
    let right = match &tree.rchild {
        None => String::new(),
        Some(r) => _print(r),
    };
    let message = frame(key.as_str(), left.as_str(), right.as_str());
    proof {
        assert(shape_of(tree.lchild).written_as(left@));
        assert(shape_of(tree.rchild).written_as(right@));
        assert(message@ == bracketed(key@, left@, right@));
    }
    message
}

/// Says whether some node of the subtree at `tree` has a child of higher
/// priority.
fn _invalid_priority<K: Ord>(tree: &Box<Node<K>>) -> (invalid: bool)
    ensures
        invalid == !shape_of(Some(*tree)).heap_ordered(),
    decreases tree,
{
    let mut ng = false;
    match &tree.lchild {
        None => {},
        Some(l) => {
            if l.priority > tree.priority {
                ng = true;
            }
            if _invalid_priority(l) {
                ng = true;
            }
        },
    }
    match &tree.rchild {
        None => {},
        Some(r) => {
            if r.priority > tree.priority {
                ng = true;
            }
            if _invalid_priority(r) {
                ng = true;
            }
        },
    }
    proof {
        reveal_with_fuel(shape_of, 2);
        let whole = shape_of(Some(*tree));
        assert(whole.heap_ordered() == (!shape_of(tree.lchild).outranks(tree.priority)
            && !shape_of(tree.rchild).outranks(tree.priority) && shape_of(
            tree.lchild,
        ).heap_ordered() && shape_of(tree.rchild).heap_ordered()));
    }
    ng
}

/// Appends the keys of the subtree at `tree` to `seq`, in order.
fn get_seq_in_order<K: Ord + Copy>(tree: &Box<Node<K>>, seq: &mut Vec<K>)
    ensures
        final(seq)@ == old(seq)@ + shape_of(Some(*tree)).keyed().in_order(),
    decreases tree,
{
    match &tree.lchild {
        None => {},
        Some(l) => {
            get_seq_in_order(l, seq);
        },
    }
    assert(seq@ == old(seq)@ + shape_of(tree.lchild).keyed().in_order());
    seq.push(tree.key);
    let ghost before_right = seq@;
    match &tree.rchild {
        None => {},
        Some(r) => {
            get_seq_in_order(r, seq);
        },
    }
    assert(seq@ == before_right + shape_of(tree.rchild).keyed().in_order());
    assert(seq@ =~= old(seq)@ + shape_of(Some(*tree)).keyed().in_order());
}

/// A treap: a search tree on the keys that is at the same time a heap on
/// priorities drawn at random, one for each key as it comes in.
pub struct Treap<K: Ord + Debug> {
    root: Option<Box<Node<K>>>,
    rng: StdRng,
}

impl<K: Ord + Debug> View for Treap<K> {
    type V = Tree<Entry<K>>;

    closed spec fn view(&self) -> Tree<Entry<K>> {
        shape_of(self.root)
    }
}

impl<K: Ord + Debug> Treap<K> {
    /// An empty treap whose priorities will come from a generator seeded
    /// with 32 copies of `seed`.
    pub fn new(seed: u8) -> (tree: Treap<K>)
        ensures
            tree@ == Tree::<Entry<K>>::Empty,
            total_order::<K>() ==> tree.wf(),
    {
        Treap { root: None, rng: seeded([seed; 32]) }
    }

    /// Puts `key` in with the given priority instead of a drawn one.
    pub fn insert_with_priority(&mut self, key: K, priority: u64)
        requires
            old(self).wf(),
        ensures
            final(self).wf(),
            final(self)@ == old(self)@.with_entry(key, priority),
            final(self).keys() == old(self).keys().insert(key),
            old(self).keys().contains(key) ==> final(self)@ == old(self)@,
    {
        proof {
            self@.lemma_with_entry(key, priority);
            self@.lemma_with_entry_heap(key, priority, u64::MAX);
        }
        let item: Box<Node<K>> = Box::new(Node { key, priority, lchild: None, rchild: None });
        _insert(item, &mut self.root);
    }

    /// The shape that `step` makes of `shape`, where an insertion draws
    /// `priority`.
    pub open spec fn stepped(shape: Tree<Entry<K>>, step: Step<K>, priority: u64) -> Tree<
        Entry<K>,
    > {
        match step {
            Step::Insert(key) => shape.with_entry(key, priority),
            Step::Find(key) => shape,
            Step::Delete(key) => shape.without_key(key),
        }
    }

    /// The shape of a treap that was empty and then went through `steps`,
    /// where step `i` drew `priorities[i]` if it was an insertion.
    pub open spec fn after(steps: Seq<Step<K>>, priorities: Seq<u64>) -> Tree<Entry<K>>
        recommends
            steps.len() <= priorities.len(),
        decreases steps.len(),
    {
        if steps.len() == 0 {
            Tree::Empty
        } else {
            Self::stepped(
                Self::after(steps.drop_last(), priorities),
                steps.last(),
                priorities[steps.len() - 1],
            )
        }
    }

    /// Whatever steps a treap went through and whatever priorities were
    /// drawn, its keys are in search-tree order and rise strictly when read
    /// in order, its priorities are in heap order, and a search reaches a
    /// key exactly if the key was inserted and not deleted since.
    pub proof fn lemma_history(steps: Seq<Step<K>>, priorities: Seq<u64>, key: K)
        requires
            total_order::<K>(),
            steps.len() <= priorities.len(),
        ensures
            Self::after(steps, priorities).keyed().is_bst(),
            increasing(Self::after(steps, priorities).keyed().in_order()),
            Self::after(steps, priorities).heap_ordered(),
            Self::after(steps, priorities).keyed().items().contains(key) == kept(steps, key),
            Self::after(steps, priorities).keyed().finds(key) == kept(steps, key),
        decreases steps.len(),
    {
        let now = Self::after(steps, priorities);
        if steps.len() > 0 {
            let before = Self::after(steps.drop_last(), priorities);
            let priority = priorities[steps.len() - 1];
            Self::lemma_history(steps.drop_last(), priorities, key);
            lemma_kept_last(steps, key);
            match steps.last() {
                Step::Insert(k) => {
                    before.lemma_with_entry(k, priority);
                    before.lemma_with_entry_heap(k, priority, u64::MAX);
                },
                Step::Find(k) => {},
                Step::Delete(k) => {
                    before.lemma_without_key(k);
                    before.lemma_without_key_heap(k, u64::MAX);
                },
            }
        }
        now.keyed().lemma_bst_increasing();
        now.keyed().lemma_finds_items(key);
    }

    /// The treap written down, from the root; each key as `Debug` gives it.
    pub fn print(&self) -> (message: String)
        requires
            self@ is Node,
        ensures
            self@.written_as(message@),
    {
        _print(self.root.as_ref().unwrap())
    }

    /// Says whether some node has a child of higher priority.
    pub fn invalid_priority(&self) -> (invalid: bool)
        requires
            self@ is Node,
        ensures
            invalid == !self@.heap_ordered(),
    {
        _invalid_priority(self.root.as_ref().unwrap())
    }

    /// Says whether the keys, read in order, fail to rise strictly.
    pub fn invalid_key(&self) -> (invalid: bool) where K: Copy
        requires
            total_order::<K>(),
            self@ is Node,
        ensures
            invalid == !increasing(self@.keyed().in_order()),
            invalid == !self@.keyed().is_bst(),
    {
        let mut seq: Vec<K> = Vec::new();
        get_seq_in_order(self.root.as_ref().unwrap(), &mut seq);
        proof {
            self@.keyed().lemma_in_order_items();
            self@.keyed().lemma_bst_increasing();
            lemma_stepwise_increasing(seq@);
            assert(seq@ =~= self@.keyed().in_order());
        }
        let mut ng = false;
        let last = seq.len() - 1;
        for i in 0..last
            invariant
                total_order::<K>(),
                last == seq@.len() - 1,
                ng == exists|j: int| 0 <= j < i && !lt(#[trigger] seq@[j], seq@[j + 1]),
        {
            match seq[i].cmp(&seq[i + 1]) {
                Ordering::Less => {},
                _ => {
                    ng = true;
                },
            }
        }
        ng
    }
}

impl<K: Ord + Debug> BST<K> for Treap<K> {
    open spec fn keys(&self) -> Set<K> {
        self@.keyed().items()
    }

    open spec fn wf(&self) -> bool {
        total_order::<K>() && self@.keyed().is_bst() && self@.heap_ordered()
    }

    /// Puts `key` in with a priority drawn from the treap's generator. The
    /// priority is drawn even where the key is there already.
    fn insert(&mut self, key: K)
        ensures
            exists|priority: u64| final(self)@ == old(self)@.with_entry(key, priority),
            old(self).keys().contains(key) ==> final(self)@ == old(self)@,
    {
        let priority = next_priority(&mut self.rng);
        self.insert_with_priority(key, priority);
    }

    /// Says whether the treap holds `key`. The treap stays as it is.
    fn find(&mut self, key: K) -> (found: bool)
        ensures
            *final(self) == *old(self),
    {
        proof {
            self@.keyed().lemma_finds_items(key);
        }
        _find(&key, &self.root)
    }

    /// Takes out the node that holds `key`, by rotating it down to a leaf.
    fn delete(&mut self, key: K)
        ensures
            final(self)@ == old(self)@.without_key(key),
            !old(self).keys().contains(key) ==> final(self)@ == old(self)@,
    {
        proof {
            self@.lemma_without_key(key);
            self@.lemma_without_key_heap(key, u64::MAX);
        }
        _delete(&key, &mut self.root);
    }
}

} // verus!
