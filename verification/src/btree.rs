//! Reading a `BTreeMap` keyed by integers in key order.
use std::collections::BTreeMap;
use vstd::prelude::*;
use vstd::std_specs::cmp::OrdSpec;
use vstd::std_specs::iter::IteratorSpec;

verus! {

broadcast use vstd::std_specs::btree::group_btree_axioms;

/// Whether `s` lists exactly the entries of `m`, in strictly increasing key order.
pub open spec fn lists_map<T>(s: Seq<(u64, T)>, m: Map<u64, T>) -> bool {
    &&& s.len() == m.len()
    &&& forall|i: int, j: int| 0 <= i < j < s.len() ==> (#[trigger] s[i]).0 < (#[trigger] s[j]).0
    &&& forall|i: int|
        0 <= i < s.len() ==> m.contains_key((#[trigger] s[i]).0) && m[s[i].0] == s[i].1
    &&& forall|k: u64| #[trigger] m.contains_key(k) ==> s.contains((k, m[k]))
}

/// The entries of `m` in increasing key order.
pub fn entries<T: Copy>(m: &BTreeMap<u64, T>) -> (r: Vec<(u64, T)>)
    ensures
        lists_map(r@, m@),
{
    let mut r: Vec<(u64, T)> = Vec::new();
    let iter = m.iter();
    let ghost all = iter.remaining();
    proof {
        let keys = all.map_values(|kv: (&u64, &T)| *kv.0);
        assert(vstd::std_specs::btree::increasing_seq(keys));
        assert forall|i: int, j: int| 0 <= i < j < all.len() implies *(#[trigger] all[i]).0 < *(
        #[trigger] all[j]).0 by {
            assert(keys[i].cmp_spec(&keys[j]) is Less);
        }
    }
    for kv in it: iter
        invariant
            it.seq() == all,
            r@.len() == it.index(),
            forall|i: int| 0 <= i < r@.len() ==> (#[trigger] r@[i]) == (*all[i].0, *all[i].1),
    {
        r.push((*kv.0, *kv.1));
    }
    proof {
        assert forall|i: int| 0 <= i < r@.len() implies m@.contains_key((#[trigger] r@[i]).0) && m@[r@[i].0]
            == r@[i].1 by {
            assert(m@.contains_key(*all[i].0));
        }
        assert forall|k: u64| #[trigger] m@.contains_key(k) implies r@.contains((k, m@[k])) by {
            assert(all.contains((&k, &m@[k])));
            let i = choose|i: int| 0 <= i < all.len() && all[i] == (&k, &m@[k]);
            assert(r@[i] == (k, m@[k]));
        }
    }
    r
}

/// The keys of `m` in increasing order.
pub fn keys<T>(m: &BTreeMap<u64, T>) -> (r: Vec<u64>)
    ensures
        forall|i: int, j: int| 0 <= i < j < r@.len() ==> (#[trigger] r@[i]) < (#[trigger] r@[j]),
        forall|k: u64| #[trigger] m@.contains_key(k) <==> r@.contains(k),
{
    let mut r: Vec<u64> = Vec::new();
    let iter = m.iter();
    let ghost all = iter.remaining();
    proof {
        let keys = all.map_values(|kv: (&u64, &T)| *kv.0);
        assert(vstd::std_specs::btree::increasing_seq(keys));
        assert forall|i: int, j: int| 0 <= i < j < all.len() implies *(#[trigger] all[i]).0 < *(
        #[trigger] all[j]).0 by {
            assert(keys[i].cmp_spec(&keys[j]) is Less);
        }
    }
    for kv in it: iter
        invariant
            it.seq() == all,
            r@.len() == it.index(),
            forall|i: int| 0 <= i < r@.len() ==> (#[trigger] r@[i]) == *all[i].0,
    {
        r.push(*kv.0);
    }
    proof {
        assert forall|k: u64| #[trigger] m@.contains_key(k) implies r@.contains(k) by {
            assert(all.contains((&k, &m@[k])));
            let i = choose|i: int| 0 <= i < all.len() && all[i] == (&k, &m@[k]);
            assert(r@[i] == k);
        }
        assert forall|k: u64| r@.contains(k) implies #[trigger] m@.contains_key(k) by {
            let i = choose|i: int| 0 <= i < r@.len() && r@[i] == k;
            assert(m@.contains_key(*all[i].0));
        }
    }
    r
}

} // verus!
