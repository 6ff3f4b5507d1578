//! The `fnv` crate's hash map, keyed by integers.
//!
//! A `FnvHashMap` is the standard `HashMap` with the hasher of the `fnv` crate. Its contents are the
//! view `m@` of the standard map; each function below makes one call and states what that call does
//! to the contents.
use vstd::prelude::*;

verus! {

/// The hasher of the `fnv` crate.
#[verifier::external_type_specification]
#[verifier::external_body]
pub struct ExFnvHasher(fnv::FnvHasher);

/// The standard builder of hashers that start from their default state.
#[verifier::external_type_specification]
#[verifier::external_body]
#[verifier::reject_recursive_types(H)]
pub struct ExBuildHasherDefault<H>(core::hash::BuildHasherDefault<H>);

/// `HashMap::insert` on a `FnvHashMap`: puts `value` under `key` and returns what was there.
#[verifier::external_body]
pub(crate) fn insert<V>(m: &mut fnv::FnvHashMap<u64, V>, key: u64, value: V) -> (r: Option<V>)
    ensures
        final(m)@ == old(m)@.insert(key, value),
        r == (if old(m)@.contains_key(key) {
            Some(old(m)@[key])
        } else {
            None
        }),
{
    m.insert(key, value)
}

/// `HashMap::remove` on a `FnvHashMap`: takes the entry of `key` out and returns its value.
#[verifier::external_body]
pub(crate) fn remove<V>(m: &mut fnv::FnvHashMap<u64, V>, key: u64) -> (r: Option<V>)
    ensures
        final(m)@ == old(m)@.remove(key),
        r == (if old(m)@.contains_key(key) {
            Some(old(m)@[key])
        } else {
            None
        }),
{
    m.remove(&key)
}

/// `HashMap::get` on a `FnvHashMap`: the value under `key`.
#[verifier::external_body]
pub(crate) fn get<V>(m: &fnv::FnvHashMap<u64, V>, key: u64) -> (r: Option<&V>)
    ensures
        r == (if m@.contains_key(key) {
            Some(&m@[key])
        } else {
            None
        }),
{
    m.get(&key)
}

/// `HashMap::len` on a `FnvHashMap`: the number of entries.
#[verifier::external_body]
pub(crate) fn len<V>(m: &fnv::FnvHashMap<u64, V>) -> (r: usize)
    ensures
        r == m@.len(),
{
    m.len()
}

/// Whether `order` lists every element of `keys` exactly once.
pub open spec fn is_order(order: Seq<u64>, keys: Set<u64>) -> bool {
    &&& order.no_duplicates()
    &&& forall|k: u64| #[trigger] order.contains(k) <==> keys.contains(k)
}

/// `HashMap::keys` on a `FnvHashMap`: every key once. The order is that of the hash table, which is
/// not specified.
#[verifier::external_body]
pub(crate) fn keys<V>(m: &fnv::FnvHashMap<u64, V>) -> (r: Vec<u64>)
    ensures
        is_order(r@, m@.dom()),
{
    m.keys().copied().collect()
}

/// An order of a set's elements shows that the set is finite, and its size.
pub proof fn lemma_order_len(order: Seq<u64>, keys: Set<u64>)
    requires
        is_order(order, keys),
    ensures
        keys.finite(),
        keys.len() == order.len(),
{
    order.unique_seq_to_set();
    assert(order.to_set() =~= keys);
}

} // verus!
