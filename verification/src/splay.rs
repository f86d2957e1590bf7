//! The splay tree: what its operations do to a shape, and the tree itself.

use crate::bst::{increasing, lemma_stepwise_increasing};
use crate::history::{kept, lemma_kept_last, Step};
use crate::order::{lemma_trichotomy, lt, total_order};
use crate::render::{bracketed, debug_text, frame};
use crate::tree::Tree;
use crate::BST;
use core::cmp::Ordering;
use core::fmt::Debug;
use vstd::prelude::*;

verus! {

impl<K: Ord> Tree<K> {
    /// The child that a search for `key` descends into; empty where the
    /// search stops at the root.
    pub open spec fn toward(self, key: K) -> Tree<K> {
        match self {
            Tree::Empty => Tree::Empty,
            Tree::Node { left, item, right } => if lt(key, item) {
                *left
            } else if lt(item, key) {
                *right
            } else {
                Tree::Empty
            },
        }
    }

    /// `key` sits at the root or at the child that a search descends into.
    pub open spec fn near_root(self, key: K) -> bool {
        self.root_is(key) || self.toward(key).root_is(key)
    }

    /// `key` sits at most two levels below the root on its search path.
    pub open spec fn within_two(self, key: K) -> bool {
        self.near_root(key) || self.toward(key).toward(key).root_is(key)
    }

    /// One splay step. Where `key` sits two levels below the root on its
    /// search path, the double rotation that brings it to the root: twice
    /// the same way where the path keeps its side, the child first and then
    /// the root where it changes sides. Otherwise the tree as it is.
    pub open spec fn lifted(self, key: K) -> Tree<K> {
        match self {
            Tree::Empty => self,
            Tree::Node { left, item, right } => if lt(key, item) {
                if left.toward(key).root_is(key) {
                    if lt(key, left->item) {
                        self.rotate_right().rotate_right()
                    } else {
                        let turned = Tree::Node { left: Box::new(left.rotate_left()), item, right };
                        turned.rotate_right()
                    }
                } else {
                    self
                }
            } else if lt(item, key) {
                if right.toward(key).root_is(key) {
                    if lt(key, right->item) {
                        let turned = Tree::Node { left, item, right: Box::new(right.rotate_right()) };
                        turned.rotate_left()
                    } else {
                        self.rotate_left().rotate_left()
                    }
                } else {
                    self
                }
            } else {
                self
            },
        }
    }

    /// The tree after splaying `key`: the subtree on the search path is
    /// splayed first, then one step is applied at this level. A key that
    /// the search reaches ends at the root or at a child of the root; a tree
    /// in which the search fails is left as it is.
    pub open spec fn splayed(self, key: K) -> Tree<K>
        decreases self,
    {
        match self {
            Tree::Empty => self,
            Tree::Node { left, item, right } => if lt(key, item) {
                Tree::Node { left: Box::new(left.splayed(key)), item, right }.lifted(key)
            } else if lt(item, key) {
                Tree::Node { left, item, right: Box::new(right.splayed(key)) }.lifted(key)
            } else {
                self
            },
        }
    }

    /// The tree after `find`: the key is splayed and, where that leaves it
    /// at a child of the root, one more rotation brings it to the root.
    pub open spec fn accessed(self, key: K) -> Tree<K> {
        let s = self.splayed(key);
        if s.toward(key).root_is(key) {
            if lt(key, s->item) {
                s.rotate_right()
            } else {
                s.rotate_left()
            }
        } else {
            s
        }
    }

    /// The tree without its root. The root sinks by rotations until it has
    /// no child and is cut off: to the left while it has a right child, to
    /// the right once only a left child is left.
    pub open spec fn root_removed(self) -> Tree<K>
        decreases self.size(),
    {
        proof {
            reveal_with_fuel(Tree::size, 2);
        }
        match self {
            Tree::Empty => self,
            Tree::Node { left, item, right } => match *right {
                Tree::Node { left: rl, item: ri, right: rr } => Tree::Node {
                    left: Box::new(Tree::Node { left, item, right: rl }.root_removed()),
                    item: ri,
                    right: rr,
                },
                Tree::Empty => match *left {
                    Tree::Node { left: ll, item: li, right: lr } => Tree::Node {
                        left: ll,
                        item: li,
                        right: Box::new(Tree::Node { left: lr, item, right }.root_removed()),
                    },
                    Tree::Empty => Tree::Empty,
                },
            },
        }
    }

    /// The tree after `delete`: the node that a search for `key` reaches is
    /// taken out as `root_removed` says; a tree in which the search fails is
    /// left as it is.
    pub open spec fn deleted(self, key: K) -> Tree<K>
        decreases self,
    {
        match self {
            Tree::Empty => self,
            Tree::Node { left, item, right } => if lt(key, item) {
                Tree::Node { left: Box::new(left.deleted(key)), item, right }
            } else if lt(item, key) {
                Tree::Node { left, item, right: Box::new(right.deleted(key)) }
            } else {
                self.root_removed()
            },
        }
    }

    /// A splay step moves no key across another.
    pub proof fn lemma_lifted_keeps_order(self, key: K)
        ensures
            self.lifted(key).in_order() == self.in_order(),
            self.lifted(key).size() == self.size(),
    {
        match self {
            Tree::Empty => {},
            Tree::Node { left, item, right } => {
                self.lemma_rotate_keeps_order();
                self.rotate_right().lemma_rotate_keeps_order();
                self.rotate_left().lemma_rotate_keeps_order();
                left.lemma_rotate_keeps_order();
                right.lemma_rotate_keeps_order();
                let zag = Tree::Node { left: Box::new(left.rotate_left()), item, right };
                let zig = Tree::Node { left, item, right: Box::new(right.rotate_right()) };
                zag.lemma_rotate_keeps_order();
                zig.lemma_rotate_keeps_order();
            },
        }
    }

    /// Splaying moves no key across another.
    pub proof fn lemma_splayed_keeps_order(self, key: K)
        ensures
            self.splayed(key).in_order() == self.in_order(),
            self.splayed(key).size() == self.size(),
        decreases self,
    {
        match self {
            Tree::Empty => {},
            Tree::Node { left, item, right } => {
                left.lemma_splayed_keeps_order(key);
                right.lemma_splayed_keeps_order(key);
                let l = Tree::Node { left: Box::new(left.splayed(key)), item, right };
                let r = Tree::Node { left, item, right: Box::new(right.splayed(key)) };
                l.lemma_lifted_keeps_order(key);
                r.lemma_lifted_keeps_order(key);
            },
        }
    }

    /// Splaying changes nothing where the key already sits at the root or at
    /// a child of the root, nor where the search for it fails.
    pub proof fn lemma_splayed_fixed(self, key: K)
        requires
            total_order::<K>(),
        ensures
            self.near_root(key) ==> self.splayed(key) == self,
            !self.finds(key) ==> self.splayed(key) == self,
            self.within_two(key) ==> self.finds(key),
            self.within_two(key) ==> self.splayed(key) == self.lifted(key),
        decreases self,
    {
        match self {
            Tree::Empty => {},
            Tree::Node { left, item, right } => {
                lemma_trichotomy(key, item);
                left.lemma_splayed_fixed(key);
                right.lemma_splayed_fixed(key);
                match *left {
                    Tree::Empty => {},
                    Tree::Node { left: ll, item: li, right: lr } => {
                        lemma_trichotomy(key, li);
                    },
                }
                match *right {
                    Tree::Empty => {},
                    Tree::Node { left: rl, item: ri, right: rr } => {
                        lemma_trichotomy(key, ri);
                    },
                }
            },
        }
    }

    /// Splaying a key that the search reaches brings it to the root or to a
    /// child of the root.
    pub proof fn lemma_splayed_near_root(self, key: K)
        requires
            total_order::<K>(),
            self.finds(key),
        ensures
            self.splayed(key).near_root(key),
        decreases self,
    {
        match self {
            Tree::Empty => {},
            Tree::Node { left, item, right } => {
                lemma_trichotomy(key, item);
                if lt(key, item) {
                    left.lemma_splayed_near_root(key);
                    let mid = left.splayed(key);
                    lemma_trichotomy(key, mid->item);
                } else if lt(item, key) {
                    right.lemma_splayed_near_root(key);
                    let mid = right.splayed(key);
                    lemma_trichotomy(key, mid->item);
                }
            },
        }
    }

    /// After `find` the tree holds the keys it held, in the same order, and a
    /// key that the search reached sits at the root. A tree in which the
    /// search fails is left as it is.
    pub proof fn lemma_accessed(self, key: K)
        requires
            total_order::<K>(),
        ensures
            self.accessed(key).in_order() == self.in_order(),
            self.accessed(key).size() == self.size(),
            self.finds(key) ==> self.accessed(key).root_is(key),
            !self.finds(key) ==> self.accessed(key) == self,
    {
        let s = self.splayed(key);
        self.lemma_splayed_keeps_order(key);
        self.lemma_splayed_fixed(key);
        s.lemma_rotate_keeps_order();
        if self.finds(key) {
            self.lemma_splayed_near_root(key);
            lemma_trichotomy(key, s->item);
        } else {
            s.lemma_splayed_fixed(key);
        }
    }

    /// Taking out the root leaves the other keys in their order.
    pub proof fn lemma_root_removed(self)
        ensures
            self matches Tree::Node { left, item, right } ==> self.root_removed().in_order()
                == left.in_order() + right.in_order(),
        decreases self.size(),
    {
        reveal_with_fuel(Tree::size, 2);
        match self {
            Tree::Empty => {},
            Tree::Node { left, item, right } => match *right {
                Tree::Node { left: rl, item: ri, right: rr } => {
                    let sunk = Tree::Node { left, item, right: rl };
                    sunk.lemma_root_removed();
                    assert(self.root_removed().in_order() =~= left.in_order() + right.in_order());
                },
                Tree::Empty => match *left {
                    Tree::Node { left: ll, item: li, right: lr } => {
                        let sunk = Tree::Node { left: lr, item, right };
                        sunk.lemma_root_removed();
                        assert(self.root_removed().in_order() =~= left.in_order()
                            + right.in_order());
                    },
                    Tree::Empty => {
                        assert(self.root_removed().in_order() =~= left.in_order()
                            + right.in_order());
                    },
                },
            },
        }
    }

    /// Deleting from a search tree gives a search tree that holds the other
    /// keys and not the deleted one, in one node less. A key that was not
    /// there leaves the tree as it is.
    pub proof fn lemma_deleted(self, key: K)
        requires
            total_order::<K>(),
            self.is_bst(),
        ensures
            self.deleted(key).is_bst(),
            self.deleted(key).items() == self.items().remove(key),
            !self.items().contains(key) ==> self.deleted(key) == self,
            self.items().contains(key) ==> self.deleted(key).size() + 1 == self.size(),
        decreases self,
    {
        match self {
            Tree::Empty => {
                assert(self.deleted(key).items() =~= self.items().remove(key));
            },
            Tree::Node { left, item, right } => {
                lemma_trichotomy(key, item);
                left.lemma_deleted(key);
                right.lemma_deleted(key);
                self.lemma_finds_items(key);
                left.lemma_finds_items(key);
                right.lemma_finds_items(key);
                if key == item {
                    self.lemma_root_removed();
                    self.lemma_joined(self.root_removed());
                }
                assert(self.deleted(key).items() =~= self.items().remove(key));
            },
        }
    }

    /// After a deletion a search does not reach the deleted key, and reaches
    /// every other key exactly if it did before.
    pub proof fn lemma_deleted_finds(self, key: K, other: K)
        requires
            total_order::<K>(),
            self.is_bst(),
        ensures
            !self.deleted(key).finds(key),
            other != key ==> self.deleted(key).finds(other) == self.finds(other),
    {
        self.lemma_deleted(key);
        self.lemma_finds_items(other);
        self.deleted(key).lemma_finds_items(key);
        self.deleted(key).lemma_finds_items(other);
    }
}

struct Node<K: Ord> {
    key: K,
    lchild: Option<Box<Node<K>>>,
    rchild: Option<Box<Node<K>>>,
}

/// The shape of the subtree that hangs from a link.
spec fn shape_of<K: Ord>(link: Option<Box<Node<K>>>) -> Tree<K>
    decreases link,
{
    match link {
        None => Tree::Empty,
        Some(n) => Tree::Node {
            left: Box::new(shape_of(n.lchild)),
            item: n.key,
            right: Box::new(shape_of(n.rchild)),
        },
    }
}

/// Rotates right at `tree`: the links are rewired and the two keys change
/// places, so that the node `tree` points to stays the top of the subtree.
fn rotate_right<K: Ord>(tree: &mut Box<Node<K>>)
    requires
        old(tree).lchild is Some,
    ensures
        shape_of(Some(*final(tree))) == shape_of(Some(*old(tree))).rotate_right(),
{
    let mut pivot = tree.lchild.take().unwrap();
    tree.lchild = pivot.lchild.take();
    core::mem::swap(&mut tree.key, &mut pivot.key);
    pivot.lchild = pivot.rchild.take();
    pivot.rchild = tree.rchild.take();
    tree.rchild = Some(pivot);
    proof {
        reveal_with_fuel(shape_of, 3);
    }
}

/// Rotates left at `tree`, the mirror image of `rotate_right`.
fn rotate_left<K: Ord>(tree: &mut Box<Node<K>>)
    requires
        old(tree).rchild is Some,
    ensures
        shape_of(Some(*final(tree))) == shape_of(Some(*old(tree))).rotate_left(),
{
    let mut pivot = tree.rchild.take().unwrap();
    tree.rchild = pivot.rchild.take();
    core::mem::swap(&mut tree.key, &mut pivot.key);
    pivot.rchild = pivot.lchild.take();
    pivot.lchild = tree.lchild.take();
    tree.lchild = Some(pivot);
    proof {
        reveal_with_fuel(shape_of, 3);
    }
}

/// Splays `key` in the subtree at `tree` and says whether the search
/// reached it.
fn splay<K: Ord>(key: &K, tree: &mut Option<Box<Node<K>>>) -> (found: bool)
    requires
        total_order::<K>(),
    ensures
        found == shape_of(*old(tree)).finds(*key),
        shape_of(*final(tree)) == shape_of(*old(tree)).splayed(*key),
    decreases
        shape_of(*old(tree)).size(),
        (if shape_of(*old(tree)).within_two(*key) { 0nat } else { 1nat }),
{
    proof {
        reveal_with_fuel(shape_of, 4);
        reveal_with_fuel(Tree::finds, 3);
        shape_of(*tree).lemma_splayed_fixed(*key);
    }
    match tree {
        None => false,
        Some(t) => match key.cmp(&t.key) {
            Ordering::Less => match &mut t.lchild {
                None => false,
                Some(l) => match key.cmp(&l.key) {
                    Ordering::Less => match &mut l.lchild {
                        None => false,
                        Some(ll) => match key.cmp(&ll.key) {
                            Ordering::Equal => {
                                // zig-zig: the target is the left child's left child
                                rotate_right(t);
                                rotate_right(t);
                                true
                            },
                            _ => {
                                if !splay(key, &mut t.lchild) {
                                    return false;
                                }
                                proof {
                                    lemma_descent(shape_of(*old(tree)), shape_of(*tree), *key);
                                }
                                splay(key, tree)
                            },
                        },
                    },
                    Ordering::Greater => match &mut l.rchild {
                        None => false,
                        Some(lr) => match key.cmp(&lr.key) {
                            Ordering::Equal => {
                                // zig-zag: the target is the left child's right child
                                rotate_left(l);
                                rotate_right(t);
                                true
                            },
                            _ => {
                                if !splay(key, &mut t.lchild) {
                                    return false;
                                }
                                proof {
                                    lemma_descent(shape_of(*old(tree)), shape_of(*tree), *key);
                                }
                                splay(key, tree)
                            },
                        },
                    },
                    Ordering::Equal => true,
                },
            },
            Ordering::Greater => match &mut t.rchild {
                None => false,
                Some(r) => match key.cmp(&r.key) {
                    Ordering::Less => match &mut r.lchild {
                        None => false,
                        Some(rl) => match key.cmp(&rl.key) {
                            Ordering::Equal => {
                                // zig-zag: the target is the right child's left child
                                rotate_right(r);
                                rotate_left(t);
                                true
                            },
                            _ => {
                                if !splay(key, &mut t.rchild) {
                                    return false;
                                }
                                proof {
                                    lemma_descent(shape_of(*old(tree)), shape_of(*tree), *key);
                                }
                                splay(key, tree)
                            },
                        },
                    },
                    Ordering::Greater => match &mut r.rchild {
                        None => false,
                        Some(rr) => match key.cmp(&rr.key) {
                            Ordering::Equal => {
                                // zig-zig: the target is the right child's right child
                                rotate_left(t);
                                rotate_left(t);
                                true
                            },
                            _ => {
                                if !splay(key, &mut t.rchild) {
                                    return false;
                                }
                                proof {
                                    lemma_descent(shape_of(*old(tree)), shape_of(*tree), *key);
                                }
                                splay(key, tree)
                            },
                        },
                    },
                    Ordering::Equal => true,
                },
            },
            Ordering::Equal => true,
        },
    }
}

/// What the second pass of a deep splay rests on: once the subtree on the
/// search path has been splayed and the key was found there, the key sits
/// within two levels of the root, and a splay of the whole is one step.
proof fn lemma_descent<K: Ord>(before: Tree<K>, mid: Tree<K>, key: K)
    requires
        total_order::<K>(),
        before.finds(key),
        !before.root_is(key),
        before matches Tree::Node { left, item, right } && (if lt(key, item) {
            mid == Tree::Node { left: Box::new(left.splayed(key)), item, right }
        } else {
            mid == Tree::Node { left, item, right: Box::new(right.splayed(key)) }
        }),
    ensures
        mid.size() == before.size(),
        mid.within_two(key),
        mid.finds(key),
        mid.splayed(key) == before.splayed(key),
{
    match before {
        Tree::Empty => {},
        Tree::Node { left, item, right } => {
            lemma_trichotomy(key, item);
            left.lemma_splayed_keeps_order(key);
            right.lemma_splayed_keeps_order(key);
            if lt(key, item) {
                left.lemma_splayed_near_root(key);
            } else {
                right.lemma_splayed_near_root(key);
            }
            mid.lemma_splayed_fixed(key);
        },
    }
}

/// Hangs the leaf `item` where a search for its key ends; a key that is
/// already there is left alone and `item` is dropped.
fn _insert<K: Ord>(item: Box<Node<K>>, tree: &mut Option<Box<Node<K>>>)
    requires
        total_order::<K>(),
        item.lchild is None,
        item.rchild is None,
    ensures
        shape_of(*final(tree)) == shape_of(*old(tree)).inserted(item.key),
    decreases shape_of(*old(tree)).size(),
{
    proof {
        reveal_with_fuel(shape_of, 2);
    }
    match tree {
        None => {
            *tree = Some(item);
        },
        Some(t) => match item.key.cmp(&t.key) {
            Ordering::Less => {
                _insert(item, &mut t.lchild);
            },
            Ordering::Greater => {
                _insert(item, &mut t.rchild);
            },
            Ordering::Equal => {},
        },
    }
}

/// Takes out the node at `tree`: it is rotated downwards until it has no
/// child, and then cut off.
fn root_delete<K: Ord>(tree: &mut Option<Box<Node<K>>>)
    ensures
        shape_of(*final(tree)) == shape_of(*old(tree)).root_removed(),
    decreases shape_of(*old(tree)).size(),
{
    proof {
        reveal_with_fuel(shape_of, 3);
        reveal_with_fuel(Tree::size, 2);
    }
    match tree {
        None => {},
        Some(t) => match &t.lchild {
            None => match &t.rchild {
                None => *tree = None,
                Some(_) => {
                    rotate_left(t);
                    root_delete(&mut t.lchild);
                },
            },
            Some(_) => match &t.rchild {
                None => {
                    rotate_right(t);
                    root_delete(&mut t.rchild);
                },
                Some(_) => {
                    rotate_left(t);
                    root_delete(&mut t.lchild);
                },
            },
        },
    }
}

/// Searches for `key` by comparisons and takes out the node that holds it.
fn _delete<K: Ord>(key: &K, tree: &mut Option<Box<Node<K>>>)
    requires
        total_order::<K>(),
    ensures
        shape_of(*final(tree)) == shape_of(*old(tree)).deleted(*key),
    decreases shape_of(*old(tree)).size(),
{
    proof {
        reveal_with_fuel(shape_of, 2);
    }
    match tree {
        None => {},
        Some(t) => match key.cmp(&t.key) {
            Ordering::Less => _delete(key, &mut t.lchild),
            Ordering::Greater => _delete(key, &mut t.rchild),
            Ordering::Equal => root_delete(tree),
        },
    }
}

/// Writes down the subtree at `tree`.
fn _print<K: Ord + Debug>(tree: &Box<Node<K>>) -> (message: String)
    ensures
        shape_of(Some(*tree)).written_as(message@),
    decreases tree,
{
    let key = debug_text(&tree.key);
    let left = match &tree.lchild {
        None => String::new(),
        Some(l) => _print(l),
    };
    let right = match &tree.rchild {
        None => String::new(),
        Some(r) => _print(r),
    };
    let message = frame(key.as_str(), left.as_str(), right.as_str());
    proof {
        assert(shape_of(tree.lchild).written_as(left@));
        assert(shape_of(tree.rchild).written_as(right@));
        assert(message@ == bracketed(key@, left@, right@));
    }
    message
}

/// Appends the keys of the subtree at `tree` to `seq`, in order.
fn get_seq_in_order<K: Ord + Copy>(tree: &Box<Node<K>>, seq: &mut Vec<K>)
    ensures
        final(seq)@ == old(seq)@ + shape_of(Some(*tree)).in_order(),
    decreases tree,
{
    match &tree.lchild {
        None => {},
        Some(l) => {
            get_seq_in_order(l, seq);
        },
    }
    assert(seq@ == old(seq)@ + shape_of(tree.lchild).in_order());
    seq.push(tree.key);
    let ghost before_right = seq@;
    match &tree.rchild {
        None => {},
        Some(r) => {
            get_seq_in_order(r, seq);
        },
    }
    assert(seq@ == before_right + shape_of(tree.rchild).in_order());
    assert(seq@ =~= old(seq)@ + shape_of(Some(*tree)).in_order());
}

/// A splay tree: a search tree that brings each key it finds to the root.
pub struct Splay<K: Ord + Debug> {
    root: Option<Box<Node<K>>>,
}

impl<K: Ord + Debug> View for Splay<K> {
    type V = Tree<K>;

    closed spec fn view(&self) -> Tree<K> {
        shape_of(self.root)
    }
}

impl<K: Ord + Debug> Splay<K> {
    /// An empty tree.
    pub fn new() -> (tree: Splay<K>)
        ensures
            tree@ == Tree::<K>::Empty,
            total_order::<K>() ==> tree.wf(),
    {
        Splay { root: None }
    }

    /// The shape that `step` makes of `shape`.
    pub open spec fn stepped(shape: Tree<K>, step: Step<K>) -> Tree<K> {
        match step {
            Step::Insert(key) => shape.inserted(key),
            Step::Find(key) => shape.accessed(key),
            Step::Delete(key) => shape.deleted(key),
        }
    }

    /// The shape of a tree that was empty and then went through `steps`.
    pub open spec fn after(steps: Seq<Step<K>>) -> Tree<K>
        decreases steps.len(),
    {
        if steps.len() == 0 {
            Tree::Empty
        } else {
            Self::stepped(Self::after(steps.drop_last()), steps.last())
        }
    }

    /// Whatever steps a tree went through, it is a search tree, its keys
    /// read in order rise strictly, and a search reaches a key exactly if
    /// the key was inserted and not deleted since.
    pub proof fn lemma_history(steps: Seq<Step<K>>, key: K)
        requires
            total_order::<K>(),
        ensures
            Self::after(steps).is_bst(),
            increasing(Self::after(steps).in_order()),
            Self::after(steps).items().contains(key) == kept(steps, key),
            Self::after(steps).finds(key) == kept(steps, key),
        decreases steps.len(),
    {
        let now = Self::after(steps);
        if steps.len() > 0 {
            let before = Self::after(steps.drop_last());
            Self::lemma_history(steps.drop_last(), key);
            lemma_kept_last(steps, key);
            match steps.last() {
                Step::Insert(k) => {
                    before.lemma_inserted(k);
                },
                Step::Find(k) => {
                    before.lemma_accessed(k);
                    before.lemma_same_order(now);
                },
                Step::Delete(k) => {
                    before.lemma_deleted(k);
                },
            }
        }
        now.lemma_bst_increasing();
        now.lemma_finds_items(key);
    }

    /// The tree written down, from the root; each key as `Debug` gives it.
    pub fn print(&self) -> (message: String)
        requires
            self@ is Node,
        ensures
            self@.written_as(message@),
    {
        _print(self.root.as_ref().unwrap())
    }

    /// Says whether the keys, read in order, fail to rise strictly.
    pub fn invalid_key(&self) -> (invalid: bool) where K: Copy
        requires
            total_order::<K>(),
            self@ is Node,
        ensures
            invalid == !increasing(self@.in_order()),
            invalid == !self@.is_bst(),
    {
        let mut seq: Vec<K> = Vec::new();
        get_seq_in_order(self.root.as_ref().unwrap(), &mut seq);
        proof {
            self@.lemma_in_order_items();
            self@.lemma_bst_increasing();
            lemma_stepwise_increasing(seq@);
            assert(seq@ =~= self@.in_order());
        }
        let mut ng = false;
        let last = seq.len() - 1;
        for i in 0..last
            invariant
                total_order::<K>(),
                last == seq@.len() - 1,
                ng == exists|j: int| 0 <= j < i && !lt(#[trigger] seq@[j], seq@[j + 1]),
        {
            match seq[i].cmp(&seq[i + 1]) {
                Ordering::Less => {},
                _ => {
                    ng = true;
                },
            }
        }
        ng
    }
}

impl<K: Ord + Debug> BST<K> for Splay<K> {
    open spec fn keys(&self) -> Set<K> {
        self@.items()
    }

    open spec fn wf(&self) -> bool {
        total_order::<K>() && self@.is_bst()
    }

    /// Hangs `key` as a leaf where a search for it ends. The tree is not
    /// splayed.
    fn insert(&mut self, key: K)
        ensures
            final(self)@ == old(self)@.inserted(key),
            old(self).keys().contains(key) ==> final(self)@ == old(self)@,
    {
        proof {
            self@.lemma_inserted(key);
        }
        let item: Box<Node<K>> = Box::new(Node { key, lchild: None, rchild: None });
        _insert(item, &mut self.root);
    }

    /// Splays `key` to the root and says whether the tree holds it. A tree
    /// that does not hold the key is left as it is.
    fn find(&mut self, key: K) -> (found: bool)
        ensures
            final(self)@ == old(self)@.accessed(key),
            final(self)@.in_order() == old(self)@.in_order(),
            found ==> final(self)@.root_is(key),
            !found ==> final(self)@ == old(self)@,
    {
        proof {
            reveal_with_fuel(shape_of, 2);
            self@.lemma_finds_items(key);
            self@.lemma_accessed(key);
            self@.lemma_same_order(self@.accessed(key));
            self@.lemma_splayed_fixed(key);
            if self@.finds(key) {
                self@.lemma_splayed_near_root(key);
            }
        }
        if !splay(&key, &mut self.root) {
            return false;
        }
        match &mut self.root {
            None => {},
            Some(t) => match key.cmp(&t.key) {
                Ordering::Equal => {},
                Ordering::Less => {
                    rotate_right(t);
                },
                Ordering::Greater => {
                    rotate_left(t);
                },
            },
        }
        true
    }

    /// Takes out the node that holds `key`, by rotating it down to a leaf.
    /// The tree is not splayed.
    fn delete(&mut self, key: K)
        ensures
            final(self)@ == old(self)@.deleted(key),
            !old(self).keys().contains(key) ==> final(self)@ == old(self)@,
    {
        proof {
            self@.lemma_deleted(key);
        }
        _delete(&key, &mut self.root);
    }
}

} // verus!
