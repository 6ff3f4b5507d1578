//! Walking a parent relation towards its roots.
use crate::types::Hash256;
use vstd::prelude::*;

verus! {

/// The node that is `n` parent steps away from `root`.
pub open spec fn nth_ancestor(parents: Map<Hash256, Hash256>, root: Hash256, n: nat) -> Hash256
    decreases n,
{
    if n == 0 {
        root
    } else {
        parents[nth_ancestor(parents, root, (n - 1) as nat)]
    }
}

/// Whether the first `n` nodes of the walk from `root` are all known.
pub open spec fn known_for(parents: Map<Hash256, Hash256>, root: Hash256, n: nat) -> bool {
    forall|i: nat| i < n ==> parents.contains_key(#[trigger] nth_ancestor(parents, root, i))
}

/// Whether the walk from `root` leaves the known nodes after exactly `n` steps.
pub open spec fn leaves_after(parents: Map<Hash256, Hash256>, root: Hash256, n: nat) -> bool {
    known_for(parents, root, n) && !parents.contains_key(nth_ancestor(parents, root, n))
}

/// Whether the walk from `root` ever leaves the known nodes.
pub open spec fn walk_ends(parents: Map<Hash256, Hash256>, root: Hash256) -> bool {
    exists|n: nat| leaves_after(parents, root, n)
}

/// A walk leaves the known nodes after one number of steps only.
pub proof fn law_walk_leaves_once(parents: Map<Hash256, Hash256>, root: Hash256, m: nat, n: nat)
    requires
        leaves_after(parents, root, m),
        leaves_after(parents, root, n),
    ensures
        m == n,
{
    if m < n {
        assert(parents.contains_key(nth_ancestor(parents, root, m)));
    }
    if n < m {
        assert(parents.contains_key(nth_ancestor(parents, root, n)));
    }
}

/// Walking `m` steps and then `n` more is walking `m + n` steps.
pub proof fn lemma_nth_ancestor_split(
    parents: Map<Hash256, Hash256>,
    root: Hash256,
    m: nat,
    n: nat,
)
    ensures
        nth_ancestor(parents, nth_ancestor(parents, root, m), n) == nth_ancestor(
            parents,
            root,
            m + n,
        ),
    decreases n,
{
    if n > 0 {
        lemma_nth_ancestor_split(parents, root, m, (n - 1) as nat);
    }
}

} // verus!
