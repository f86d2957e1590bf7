//! Sequences of operations, and which keys such a sequence leaves behind.

use vstd::prelude::*;

verus! {

/// One operation on a container of keys.
pub enum Step<K> {
    Insert(K),
    Find(K),
    Delete(K),
}

/// `key` was inserted at some step and deleted at no later one.
pub open spec fn kept<K>(steps: Seq<Step<K>>, key: K) -> bool {
    exists|i: int|
        0 <= i < steps.len() && #[trigger] steps[i] == Step::Insert(key) && forall|j: int|
            i < j < steps.len() ==> #[trigger] steps[j] != Step::Delete(key)
}

/// How the last step decides whether a key is kept: an insertion of the key
/// keeps it, a deletion of the key does not, and any other step leaves the
/// matter as the steps before it left it.
pub proof fn lemma_kept_last<K>(steps: Seq<Step<K>>, key: K)
    requires
        steps.len() > 0,
    ensures
        kept(steps, key) == (steps.last() == Step::Insert(key) || (steps.last() != Step::Delete(key)
            && kept(steps.drop_last(), key))),
{
    let init = steps.drop_last();
    let n = steps.len() - 1;
    if kept(steps, key) {
        let i = choose|i: int|
            0 <= i < steps.len() && #[trigger] steps[i] == Step::Insert(key) && forall|j: int|
                i < j < steps.len() ==> #[trigger] steps[j] != Step::Delete(key);
        if i < n {
            assert(steps[n] != Step::Delete(key));
            assert(init[i] == steps[i]);
            assert forall|j: int| i < j < init.len() implies #[trigger] init[j] != Step::Delete(
                key,
            ) by {
                assert(init[j] == steps[j]);
            }
        }
    }
    if steps.last() == Step::Insert(key) {
        assert(steps[n] == Step::Insert(key));
    } else if steps.last() != Step::Delete(key) && kept(init, key) {
        let i = choose|i: int|
            0 <= i < init.len() && #[trigger] init[i] == Step::Insert(key) && forall|j: int|
                i < j < init.len() ==> #[trigger] init[j] != Step::Delete(key);
        assert(steps[i] == init[i]);
        assert forall|j: int| i < j < steps.len() implies #[trigger] steps[j] != Step::Delete(
            key,
        ) by {
            if j < n {
                assert(init[j] == steps[j]);
            }
        }
    }
}

} // verus!
