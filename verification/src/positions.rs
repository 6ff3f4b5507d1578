//! Picking entries of a list by their positions.
use vstd::prelude::*;

verus! {

/// The positions below `n` that are picked.
pub open spec fn picked_positions(pick: spec_fn(int) -> bool, n: int) -> Set<int> {
    Set::new(|j: int| 0 <= j < n && pick(j))
}

/// How many positions below `n` are picked.
pub open spec fn picked_below(pick: spec_fn(int) -> bool, n: int) -> nat {
    picked_positions(pick, n).len()
}

/// Whether `r` lists the entries of `list` at the picked positions, all of them and in their order:
/// the entry at a picked position stands behind as many entries as there are picked positions before
/// it.
pub open spec fn is_picked<A>(list: Seq<A>, pick: spec_fn(int) -> bool, r: Seq<A>) -> bool {
    &&& r.len() == picked_below(pick, list.len() as int)
    &&& forall|i: int|
        0 <= i < list.len() && #[trigger] pick(i) ==> picked_below(pick, i) < r.len()
            && r[picked_below(pick, i) as int] == list[i]
}

/// One more position is one more to be picked or not.
pub proof fn lemma_picked_step(pick: spec_fn(int) -> bool, n: int)
    requires
        0 <= n,
    ensures
        picked_positions(pick, n).finite(),
        picked_positions(pick, n + 1).finite(),
        picked_below(pick, 0) == 0,
        picked_below(pick, n + 1) == picked_below(pick, n) + (if pick(n) {
            1nat
        } else {
            0nat
        }),
    decreases n,
{
    assert(picked_positions(pick, 0) =~= Set::empty());
    if n > 0 {
        lemma_picked_step(pick, n - 1);
    }
    if pick(n) {
        assert(picked_positions(pick, n + 1) =~= picked_positions(pick, n).insert(n));
    } else {
        assert(picked_positions(pick, n + 1) =~= picked_positions(pick, n));
    }
}

/// There are no more picked positions below a lower position, and fewer below a picked one.
pub proof fn lemma_picked_below_grows(pick: spec_fn(int) -> bool, m: int, n: int)
    requires
        0 <= m <= n,
    ensures
        picked_below(pick, m) <= picked_below(pick, n),
        m < n && pick(m) ==> picked_below(pick, m) < picked_below(pick, n),
    decreases n - m,
{
    if m < n {
        lemma_picked_step(pick, m);
        lemma_picked_below_grows(pick, m + 1, n);
    }
}

/// A list is picked still when one entry, picked or not, is added.
pub proof fn lemma_is_picked_push<A>(
    list: Seq<A>,
    pick: spec_fn(int) -> bool,
    r: Seq<A>,
    next: Seq<A>,
)
    requires
        list.len() > 0,
        is_picked(list.drop_last(), pick, r),
        next == (if pick(list.len() - 1) {
            r.push(list.last())
        } else {
            r
        }),
    ensures
        is_picked(list, pick, next),
{
    let n = list.len() - 1;
    lemma_picked_step(pick, n);
    assert forall|i: int| 0 <= i < list.len() && #[trigger] pick(i) implies picked_below(pick, i) < next.len()
        && next[picked_below(pick, i) as int] == list[i] by {
        if i < n {
            assert(list.drop_last()[i] == list[i]);
        }
    }
}

/// What is picked depends only on the positions of the list.
pub proof fn lemma_same_picks<A>(
    list: Seq<A>,
    pick: spec_fn(int) -> bool,
    other: spec_fn(int) -> bool,
    r: Seq<A>,
)
    requires
        is_picked(list, pick, r),
        forall|i: int| 0 <= i < list.len() ==> (#[trigger] pick(i) <==> other(i)),
    ensures
        is_picked(list, other, r),
{
    assert forall|n: int| 0 <= n <= list.len() implies #[trigger] picked_below(pick, n) == picked_below(
        other,
        n,
    ) by {
        assert(picked_positions(pick, n) =~= picked_positions(other, n)) by {
            assert forall|j: int| picked_positions(pick, n).contains(j) <==> picked_positions(
                other,
                n,
            ).contains(j) by {
                if 0 <= j < n {
                    assert(pick(j) <==> other(j));
                }
            }
        }
    }
    assert forall|i: int| 0 <= i < list.len() && #[trigger] other(i) implies picked_below(other, i)
        < r.len() && r[picked_below(other, i) as int] == list[i] by {
        assert(pick(i));
        assert(picked_below(pick, i) == picked_below(other, i));
    }
    assert(picked_below(pick, list.len() as int) == picked_below(other, list.len() as int));
}

/// Filtering picks the entries that satisfy the predicate.
pub proof fn lemma_filter_picks<A>(list: Seq<A>, keep: spec_fn(A) -> bool)
    ensures
        is_picked(list, |i: int| keep(list[i]), list.filter(keep)),
    decreases list.len(),
{
    reveal(Seq::filter);
    let pick = |i: int| keep(list[i]);
    if list.len() == 0 {
        lemma_picked_step(pick, 0);
    } else {
        let short = list.drop_last();
        lemma_filter_picks(short, keep);
        let earlier = |i: int| keep(short[i]);
        assert forall|i: int| 0 <= i < short.len() implies (#[trigger] earlier(i) <==> pick(i)) by {
            assert(short[i] == list[i]);
        }
        lemma_same_picks(short, earlier, pick, short.filter(keep));
        lemma_is_picked_push(list, pick, short.filter(keep), list.filter(keep));
    }
}

/// An entry is picked exactly where it is listed at a picked position.
pub proof fn lemma_picked_contains<A>(list: Seq<A>, pick: spec_fn(int) -> bool, r: Seq<A>, x: A)
    requires
        is_picked(list, pick, r),
    ensures
        r.contains(x) <==> exists|i: int| 0 <= i < list.len() && #[trigger] pick(i) && list[i] == x,
{
    if exists|i: int| 0 <= i < list.len() && #[trigger] pick(i) && list[i] == x {
        let i = choose|i: int| 0 <= i < list.len() && #[trigger] pick(i) && list[i] == x;
        assert(r[picked_below(pick, i) as int] == x);
    }
    if r.contains(x) {
        let k = choose|k: int| 0 <= k < r.len() && r[k] == x;
        let i = lemma_position_of_pick(pick, list.len() as int, k as nat);
        assert(r[picked_below(pick, i) as int] == list[i]);
    }
}

/// The position of the `k`th pick.
pub proof fn lemma_position_of_pick(pick: spec_fn(int) -> bool, n: int, k: nat) -> (i: int)
    requires
        0 <= n,
        k < picked_below(pick, n),
    ensures
        0 <= i < n,
        pick(i),
        picked_below(pick, i) == k,
    decreases n,
{
    lemma_picked_step(pick, 0);
    lemma_picked_step(pick, n - 1);
    if pick(n - 1) && picked_below(pick, n - 1) == k {
        n - 1
    } else {
        lemma_position_of_pick(pick, n - 1, k)
    }
}

} // verus!
