//! Reading standard hash maps and sets that are keyed by integers.
use crate::fnv_map;
use std::collections::{HashMap, HashSet};
use vstd::prelude::*;
use vstd::std_specs::iter::IteratorSpec;

verus! {

broadcast use vstd::std_specs::hash::group_hash_axioms;

/// The elements of the set, each once, in no particular order.
pub fn elements(set: &HashSet<u64>) -> (r: Vec<u64>)
    ensures
        fnv_map::is_order(r@, set@),
{
    let mut r: Vec<u64> = Vec::new();
    let iter = set.iter();
    let ghost all = iter.remaining();
    for key in it: iter
        invariant
            it.seq() == all,
            r@.len() == it.index(),
            forall|i: int| 0 <= i < r@.len() ==> (#[trigger] r@[i]) == *all[i],
    {
        r.push(*key);
    }
    proof {
        assert(r@ =~= all.unref());
    }
    r
}

/// The keys of the map, each once, in no particular order.
pub fn keys<V>(m: &HashMap<u64, V>) -> (r: Vec<u64>)
    ensures
        fnv_map::is_order(r@, m@.dom()),
{
    let mut r: Vec<u64> = Vec::new();
    let iter = m.keys();
    let ghost all = iter.remaining();
    for key in it: iter
        invariant
            it.seq() == all,
            r@.len() == it.index(),
            forall|i: int| 0 <= i < r@.len() ==> (#[trigger] r@[i]) == *all[i],
    {
        r.push(*key);
    }
    proof {
        assert(r@ =~= all.unref());
    }
    r
}

/// A set with the same elements.
pub fn copy_set(set: &HashSet<u64>) -> (r: HashSet<u64>)
    ensures
        r@ == set@,
{
    let list = elements(set);
    let mut r: HashSet<u64> = HashSet::new();
    let mut i: usize = 0;
    while i < list.len()
        invariant
            i <= list@.len(),
            fnv_map::is_order(list@, set@),
            forall|x: u64| #[trigger]
                r@.contains(x) <==> exists|j: int| 0 <= j < i && #[trigger] list@[j] == x,
        decreases list@.len() - i,
    {
        let ghost before = r@;
        r.insert(list[i]);
        proof {
            assert forall|x: u64| #[trigger] r@.contains(x) <==> exists|j: int|
                0 <= j < i + 1 && #[trigger] list@[j] == x by {
                assert(r@.contains(x) <==> before.contains(x) || x == list@[i as int]);
            }
        }
        i += 1;
    }
    proof {
        assert forall|x: u64| r@.contains(x) == set@.contains(x) by {
            assert(list@.contains(x) <==> set@.contains(x));
            if r@.contains(x) {
                let j = choose|j: int| 0 <= j < list@.len() && #[trigger] list@[j] == x;
                assert(list@.contains(x));
            }
        }
        assert(r@ =~= set@);
    }
    r
}

} // verus!
