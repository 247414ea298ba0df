//! Increasing sequences of the indices that satisfy a predicate.

use vstd::prelude::*;

verus! {

/// The indices below `n` that satisfy `p`, in increasing order.
pub open spec fn select(n: nat, p: spec_fn(usize) -> bool) -> Seq<usize>
    decreases n,
{
    if n == 0 {
        Seq::empty()
    } else {
        let shorter = select((n - 1) as nat, p);
        let last = (n - 1) as usize;
        if p(last) {
            shorter.push(last)
        } else {
            shorter
        }
    }
}

/// A selection is increasing, and holds an index exactly when the index is in
/// range and satisfies the predicate.
pub(crate) proof fn lemma_select(n: nat, p: spec_fn(usize) -> bool)
    requires
        n <= usize::MAX,
    ensures
        select(n, p).len() <= n,
        forall|k: int| 0 <= k < select(n, p).len() ==> #[trigger] select(n, p)[k] < n,
        forall|k: int| 0 <= k < select(n, p).len() ==> p(#[trigger] select(n, p)[k]),
        forall|a: int, b: int|
            0 <= a < b < select(n, p).len() ==> select(n, p)[a] < select(n, p)[b],
        forall|i: usize| i < n && #[trigger] p(i) ==> select(n, p).contains(i),
    decreases n,
{
    if n > 0 {
        let shorter = select((n - 1) as nat, p);
        let last = (n - 1) as usize;
        lemma_select((n - 1) as nat, p);
        assert forall|i: usize| i < n && #[trigger] p(i) implies select(n, p).contains(i) by {
            if i == last {
                assert(select(n, p)[shorter.len() as int] == i);
            } else {
                assert(shorter.contains(i));
                let k = choose|k: int| 0 <= k < shorter.len() && shorter[k] == i;
                assert(select(n, p)[k] == i);
            }
        }
    }
}

/// Predicates that agree below `n` select the same indices.
pub(crate) proof fn lemma_select_agree(n: nat, p: spec_fn(usize) -> bool, q: spec_fn(usize) -> bool)
    requires
        n <= usize::MAX,
        forall|i: usize| i < n ==> #[trigger] p(i) == q(i),
    ensures
        select(n, p) == select(n, q),
    decreases n,
{
    if n > 0 {
        lemma_select_agree((n - 1) as nat, p, q);
    }
}

} // verus!
