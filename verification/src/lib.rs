//! Two self-balancing search trees over a totally ordered key type: a splay
//! tree and a treap. Each operation is specified by what it does to the
//! tree's shape, and the shapes are proved to stay search trees (and, for
//! the treap, heaps) that hold exactly the keys put in and not taken out.

use vstd::prelude::*;

pub mod order;
pub mod tree;
pub mod bst;
pub mod history;
pub mod render;
pub mod rng;
pub mod splay;
pub mod treap;

verus! {

/// An ordered container of distinct keys.
pub trait BST<K> {
    /// The keys that the container holds.
    spec fn keys(&self) -> Set<K>;

    /// The container's invariant: what every operation expects and
    /// re-establishes.
    spec fn wf(&self) -> bool;

    /// Puts `key` into the container; nothing changes if it is there already.
    fn insert(&mut self, key: K)
        requires
            old(self).wf(),
        ensures
            final(self).wf(),
            final(self).keys() == old(self).keys().insert(key),
    ;

    /// Says whether the container holds `key`. The container may rearrange
    /// itself; the keys stay the same.
    fn find(&mut self, key: K) -> (found: bool)
        requires
            old(self).wf(),
        ensures
            final(self).wf(),
            final(self).keys() == old(self).keys(),
            found == old(self).keys().contains(key),
    ;

    /// Takes `key` out of the container; nothing changes if it is not there.
    fn delete(&mut self, key: K)
        requires
            old(self).wf(),
        ensures
            final(self).wf(),
            final(self).keys() == old(self).keys().remove(key),
    ;
}

} // verus!
