//! What it means for a key type to be totally ordered by its `Ord` instance.

use core::cmp::Ordering;
use vstd::prelude::*;
use vstd::std_specs::cmp::{OrdSpec, PartialOrdSpec};

verus! {

/// `a` sorts strictly before `b` under the key type's `Ord` instance.
pub open spec fn lt<K: Ord>(a: K, b: K) -> bool {
    a.cmp_spec(&b) == Ordering::Less
}

/// The key type's `cmp` is a strict total order whose `Equal` is equality of
/// values, and the comparison that runs is the one that is specified.
pub open spec fn total_order<K: Ord>() -> bool {
    &&& K::obeys_cmp_spec()
    &&& forall|a: K, b: K| (#[trigger] a.cmp_spec(&b)) == Ordering::Equal <==> a == b
    &&& forall|a: K, b: K| (#[trigger] a.cmp_spec(&b)) == Ordering::Greater <==> lt(b, a)
    &&& forall|a: K, b: K, c: K| #[trigger] lt(a, b) && #[trigger] lt(b, c) ==> lt(a, c)
}

/// Of two keys exactly one holds: the first sorts before the second, they
/// are equal, or the second sorts before the first.
pub proof fn lemma_trichotomy<K: Ord>(a: K, b: K)
    requires
        total_order::<K>(),
    ensures
        lt(a, b) || a == b || lt(b, a),
        !(lt(a, b) && a == b),
        !(lt(b, a) && a == b),
        !(lt(a, b) && lt(b, a)),
{
    let c = a.cmp_spec(&b);
    let d = b.cmp_spec(&a);
    assert(c == Ordering::Less || c == Ordering::Equal || c == Ordering::Greater);
}

/// A key type that keeps the comparison laws of the standard library, and
/// whose `==` is equality of values, is totally ordered.
pub proof fn lemma_total_order_from_laws<K: Ord>()
    requires
        vstd::laws_cmp::obeys_cmp::<K>(),
        vstd::laws_eq::obeys_concrete_eq::<K>(),
    ensures
        total_order::<K>(),
{
    reveal(vstd::laws_cmp::obeys_cmp_partial_ord);
    reveal(vstd::laws_cmp::obeys_cmp_ord);
    reveal(vstd::laws_cmp::obeys_partial_cmp_spec_properties);
    reveal(vstd::laws_eq::obeys_concrete_eq);
    assert forall|a: K, b: K| (#[trigger] a.cmp_spec(&b)) == Ordering::Equal <==> a == b by {
        assert(a.partial_cmp_spec(&b) == Some(a.cmp_spec(&b)));
    }
    assert forall|a: K, b: K| (#[trigger] a.cmp_spec(&b)) == Ordering::Greater <==> lt(b, a) by {
        assert(a.partial_cmp_spec(&b) == Some(a.cmp_spec(&b)));
        assert(b.partial_cmp_spec(&a) == Some(b.cmp_spec(&a)));
    }
    assert forall|a: K, b: K, c: K| #[trigger] lt(a, b) && #[trigger] lt(b, c) implies lt(a, c) by {
        assert(a.partial_cmp_spec(&b) == Some(a.cmp_spec(&b)));
        assert(b.partial_cmp_spec(&c) == Some(b.cmp_spec(&c)));
        assert(a.partial_cmp_spec(&c) == Some(a.cmp_spec(&c)));
    }
}

/// Unsigned 64-bit integers are totally ordered by `<`.
pub proof fn lemma_u64_total_order()
    ensures
        total_order::<u64>(),
{
}

} // verus!
