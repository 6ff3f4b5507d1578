//! A map kept as a vector of entries in increasing key order.
//!
//! The standard maps are specified for integer keys only; this one serves the composite keys.
use vstd::prelude::*;

verus! {

/// Whether pair `a` comes strictly before pair `b` in lexicographic order.
pub open spec fn code_lt(a: (int, int), b: (int, int)) -> bool {
    a.0 < b.0 || (a.0 == b.0 && a.1 < b.1)
}

/// A key with an order, given by an injective encoding into pairs of integers.
pub trait MapKey: Copy {
    spec fn code(self) -> (int, int);

    proof fn code_injective(a: Self, b: Self)
        requires
            a.code() == b.code(),
        ensures
            a == b,
    ;

    fn before(&self, other: &Self) -> (r: bool)
        ensures
            r == code_lt(self.code(), other.code()),
    ;
}

/// A finite map from `K` to `V`.
pub struct OrderedMap<K: MapKey, V> {
    entries: Vec<(K, V)>,
}

/// Whether position `i` of `s` holds an entry for `k`.
pub open spec fn holds_at<K, V>(s: Seq<(K, V)>, k: K, i: int) -> bool {
    0 <= i < s.len() && s[i].0 == k
}

/// The map that a listing of entries with distinct keys stands for.
pub open spec fn listed<K, V>(s: Seq<(K, V)>) -> Map<K, V> {
    Map::new(
        |k: K| exists|i: int| holds_at(s, k, i),
        |k: K| s[choose|i: int| holds_at(s, k, i)].1,
    )
}

/// Whether the keys of a listing increase strictly.
pub open spec fn increasing<K: MapKey, V>(s: Seq<(K, V)>) -> bool {
    forall|i: int, j: int|
        0 <= i < j < s.len() ==> code_lt((#[trigger] s[i]).0.code(), (#[trigger] s[j]).0.code())
}

proof fn lemma_listed<K: MapKey, V>(s: Seq<(K, V)>)
    requires
        increasing(s),
    ensures
        forall|i: int| 0 <= i < s.len() ==> listed(s).contains_key((#[trigger] s[i]).0),
        forall|i: int| 0 <= i < s.len() ==> listed(s)[(#[trigger] s[i]).0] == s[i].1,
        forall|k: K| #[trigger]
            listed(s).contains_key(k) ==> exists|i: int| holds_at(s, k, i) && listed(s)[k] == s[i].1,
{
    assert forall|i: int| 0 <= i < s.len() implies listed(s).contains_key((#[trigger] s[i]).0)
        && listed(s)[s[i].0] == s[i].1 by {
        assert(holds_at(s, s[i].0, i));
        let j = choose|j: int| holds_at(s, s[i].0, j);
        assert(holds_at(s, s[i].0, j));
        if j < i {
            assert(code_lt(s[j].0.code(), s[i].0.code()));
        } else if i < j {
            assert(code_lt(s[i].0.code(), s[j].0.code()));
        }
    }
    assert forall|k: K| #[trigger] listed(s).contains_key(k) implies exists|i: int|
        holds_at(s, k, i) && listed(s)[k] == s[i].1 by {
        let j = choose|j: int| holds_at(s, k, j);
        assert(holds_at(s, k, j) && listed(s)[k] == s[j].1);
    }
}

proof fn lemma_listed_finite<K, V>(s: Seq<(K, V)>)
    ensures
        listed(s).dom().finite(),
{
    let keys = s.map_values(|e: (K, V)| e.0);
    vstd::seq_lib::seq_to_set_is_finite(keys);
    assert forall|k: K| listed(s).contains_key(k) implies keys.to_set().contains(k) by {
        let i = choose|i: int| holds_at(s, k, i);
        assert(keys[i] == k);
    }
    assert(listed(s).dom().subset_of(keys.to_set()));
    vstd::set_lib::lemma_set_subset_finite(keys.to_set(), listed(s).dom());
}

impl<K: MapKey, V> View for OrderedMap<K, V> {
    type V = Map<K, V>;

    closed spec fn view(&self) -> Map<K, V> {
        listed(self.entries@)
    }
}

impl<K: MapKey, V> OrderedMap<K, V> {
    /// The entries in increasing key order.
    pub closed spec fn listing(self) -> Seq<(K, V)> {
        self.entries@
    }

    /// The listing is in strictly increasing key order.
    pub closed spec fn wf(self) -> bool {
        increasing(self.entries@)
    }

    /// The listing of a map and the map hold the same entries, each once and in key order.
    pub proof fn lemma_listing(&self)
        requires
            self.wf(),
        ensures
            increasing(self.listing()),
            forall|i: int| 0 <= i < self.listing().len() ==> self@.contains_key((#[trigger] self.listing()[i]).0),
            forall|i: int| 0 <= i < self.listing().len() ==> self@[(#[trigger] self.listing()[i]).0] == self.listing()[i].1,
            forall|k: K| #[trigger]
                self@.contains_key(k) ==> exists|i: int|
                    holds_at(self.listing(), k, i) && self@[k] == self.listing()[i].1,
            self@.dom().finite(),
    {
        lemma_listed(self.entries@);
        lemma_listed_finite(self.entries@);
    }

    /// The empty map.
    pub fn new() -> (r: Self)
        ensures
            r.wf(),
            r@ == Map::<K, V>::empty(),
            r.listing().len() == 0,
    {
        let r = OrderedMap { entries: Vec::new() };
        assert(r@ =~= Map::<K, V>::empty()) by {
            assert forall|k: K| !r@.contains_key(k) by {
                assert(forall|i: int| !holds_at(r.entries@, k, i));
            }
        }
        r
    }

    /// The first position whose key is not before `key`.
    fn position(&self, key: &K) -> (r: usize)
        requires
            self.wf(),
        ensures
            r <= self.entries@.len(),
            forall|i: int| 0 <= i < r ==> code_lt((#[trigger] self.entries@[i]).0.code(), key.code()),
            forall|i: int|
                r <= i < self.entries@.len() ==> !code_lt((#[trigger] self.entries@[i]).0.code(), key.code()),
    {
        let mut lo: usize = 0;
        let mut hi: usize = self.entries.len();
        while lo < hi
            invariant
                self.wf(),
                lo <= hi <= self.entries@.len(),
                forall|i: int| 0 <= i < lo ==> code_lt((#[trigger] self.entries@[i]).0.code(), key.code()),
                forall|i: int|
                    hi <= i < self.entries@.len() ==> !code_lt((#[trigger] self.entries@[i]).0.code(), key.code()),
            decreases hi - lo,
        {
            let mid: usize = lo + (hi - lo) / 2;
            if self.entries[mid].0.before(key) {
                lo = mid + 1;
            } else {
                hi = mid;
            }
        }
        lo
    }

    /// The position of `key`, if it is present.
    fn find(&self, key: &K) -> (r: Option<usize>)
        requires
            self.wf(),
        ensures
            r matches Some(i) ==> i < self.entries@.len() && self.entries@[i as int].0 == *key
                && self@.contains_key(*key) && self@[*key] == self.entries@[i as int].1,
            r is None ==> !self@.contains_key(*key),
    {
        let i: usize = self.position(key);
        proof {
            lemma_listed(self.entries@);
        }
        if i < self.entries.len() && !key.before(&self.entries[i].0) {
            proof {
                K::code_injective(self.entries@[i as int].0, *key);
            }
            Some(i)
        } else {
            None
        }
    }

    /// The value under `key`.
    pub fn get(&self, key: &K) -> (r: Option<&V>)
        requires
            self.wf(),
        ensures
            r == (if self@.contains_key(*key) {
                Some(&self@[*key])
            } else {
                None
            }),
    {
        match self.find(key) {
            Some(i) => Some(&self.entries[i].1),
            None => None,
        }
    }

    /// Whether `key` is present.
    pub fn contains_key(&self, key: &K) -> (r: bool)
        requires
            self.wf(),
        ensures
            r == self@.contains_key(*key),
    {
        self.find(key).is_some()
    }

    /// The number of entries.
    pub fn len(&self) -> (r: usize)
        requires
            self.wf(),
        ensures
            r == self.listing().len(),
            r == self@.len(),
    {
        proof {
            self.lemma_len();
        }
        self.entries.len()
    }

    /// A map has as many entries as its listing.
    pub proof fn lemma_len(&self)
        requires
            self.wf(),
        ensures
            self@.len() == self.listing().len(),
    {
        let s = self.entries@;
        let keys = s.map_values(|e: (K, V)| e.0);
        lemma_listed(s);
        assert(keys.no_duplicates()) by {
            assert forall|i: int, j: int| 0 <= i < j < keys.len() implies keys[i] != keys[j] by {
                assert(code_lt(s[i].0.code(), s[j].0.code()));
            }
        }
        keys.unique_seq_to_set();
        assert(keys.to_set() =~= self@.dom()) by {
            assert forall|k: K| keys.to_set().contains(k) == self@.dom().contains(k) by {
                if self@.contains_key(k) {
                    let i = choose|i: int| holds_at(s, k, i);
                    assert(keys[i] == k);
                }
                if keys.contains(k) {
                    let i = choose|i: int| 0 <= i < keys.len() && keys[i] == k;
                    assert(s[i].0 == k);
                }
            }
        }
    }

    /// The key at position `i` of the listing.
    pub fn key_at(&self, i: usize) -> (r: K)
        requires
            i < self.listing().len(),
        ensures
            r == self.listing()[i as int].0,
    {
        self.entries[i].0
    }

    /// The value at position `i` of the listing.
    pub fn value_at(&self, i: usize) -> (r: &V)
        requires
            i < self.listing().len(),
        ensures
            *r == self.listing()[i as int].1,
    {
        &self.entries[i].1
    }

    /// Puts `value` under `key` and returns what was there before.
    pub fn insert(&mut self, key: K, value: V) -> (r: Option<V>)
        requires
            old(self).wf(),
        ensures
            final(self).wf(),
            final(self)@ == old(self)@.insert(key, value),
            r == (if old(self)@.contains_key(key) {
                Some(old(self)@[key])
            } else {
                None
            }),
    {
        let i: usize = self.position(&key);
        let ghost before = self.entries@;
        proof {
            lemma_listed(before);
        }
        let r = if i < self.entries.len() && !key.before(&self.entries[i].0) {
            proof {
                K::code_injective(self.entries@[i as int].0, key);
            }
            let (_, previous) = self.entries.remove(i);
            Some(previous)
        } else {
            None
        };
        let ghost kept = self.entries@;
        self.entries.insert(i, (key, value));
        let ghost after = self.entries@;
        proof {
            assert(increasing(after)) by {
                assert forall|a: int, b: int| 0 <= a < b < after.len() implies code_lt(
                    (#[trigger] after[a]).0.code(),
                    (#[trigger] after[b]).0.code(),
                ) by {
                    if b == i {
                        assert(after[a] == before[a]);
                    } else if a == i {
                        let c = if r is Some { b } else { b - 1 };
                        assert(after[b] == before[c]);
                        assert(!code_lt(before[c].0.code(), key.code()));
                        if before[c].0.code() == key.code() {
                            K::code_injective(before[c].0, key);
                            if r is Some {
                                assert(code_lt(before[i as int].0.code(), before[c].0.code()));
                            }
                        }
                    } else {
                        let x = if a < i { a } else if r is Some { a } else { a - 1 };
                        let y = if b < i { b } else if r is Some { b } else { b - 1 };
                        assert(after[a] == before[x]);
                        assert(after[b] == before[y]);
                    }
                }
            }
            lemma_listed(after);
            assert(listed(after) =~= listed(before).insert(key, value)) by {
                assert(after[i as int] == (key, value));
                assert forall|k: K| k != key implies #[trigger] listed(after).contains_key(k) == listed(before).contains_key(k)
                    && (listed(before).contains_key(k) ==> listed(after)[k] == listed(before)[k]) by {
                    if listed(before).contains_key(k) {
                        let x = choose|x: int| holds_at(before, k, x) && listed(before)[k] == before[x].1;
                        let y = if x < i || r is Some { x } else { x + 1 };
                        assert(after[y] == before[x]);
                    }
                    if listed(after).contains_key(k) {
                        let y = choose|y: int| holds_at(after, k, y) && listed(after)[k] == after[y].1;
                        let x = if y < i || r is Some { y } else { y - 1 };
                        assert(after[y] == before[x]);
                        assert(holds_at(before, k, x));
                    }
                }
            }
            if r is None && listed(before).contains_key(key) {
                let x = choose|x: int| holds_at(before, key, x) && listed(before)[key] == before[x].1;
                if x < i {
                    assert(code_lt(before[x].0.code(), key.code()));
                } else {
                    assert(!code_lt(before[i as int].0.code(), key.code()));
                    assert(x == i || code_lt(before[i as int].0.code(), before[x].0.code()));
                }
            }
        }
        r
    }

    /// Takes the entry of `key` out and returns its value.
    pub fn remove(&mut self, key: &K) -> (r: Option<V>)
        requires
            old(self).wf(),
        ensures
            final(self).wf(),
            final(self)@ == old(self)@.remove(*key),
            r == (if old(self)@.contains_key(*key) {
                Some(old(self)@[*key])
            } else {
                None
            }),
    {
        let ghost before = self.entries@;
        match self.find(key) {
            Some(i) => {
                let (_, value) = self.entries.remove(i);
                let ghost after = self.entries@;
                proof {
                    assert(increasing(after)) by {
                        assert forall|a: int, b: int| 0 <= a < b < after.len() implies code_lt(
                            (#[trigger] after[a]).0.code(),
                            (#[trigger] after[b]).0.code(),
                        ) by {
                            let x = if a < i { a } else { a + 1 };
                            let y = if b < i { b } else { b + 1 };
                            assert(after[a] == before[x]);
                            assert(after[b] == before[y]);
                        }
                    }
                    lemma_listed(before);
                    lemma_listed(after);
                    assert(listed(after) =~= listed(before).remove(*key)) by {
                        assert forall|k: K| #[trigger] listed(after).contains_key(k) == (k != *key
                            && listed(before).contains_key(k)) && (listed(after).contains_key(k)
                            ==> listed(after)[k] == listed(before)[k]) by {
                            if listed(after).contains_key(k) {
                                let y = choose|y: int| holds_at(after, k, y) && listed(after)[k] == after[y].1;
                                let x = if y < i { y } else { y + 1 };
                                assert(after[y] == before[x]);
                                assert(holds_at(before, k, x));
                                if x < i {
                                    assert(code_lt(before[x].0.code(), before[i as int].0.code()));
                                } else {
                                    assert(code_lt(before[i as int].0.code(), before[x].0.code()));
                                }
                            }
                            if k != *key && listed(before).contains_key(k) {
                                let x = choose|x: int| holds_at(before, k, x) && listed(before)[k] == before[x].1;
                                let y = if x < i { x } else { x - 1 };
                                assert(after[y] == before[x]);
                            }
                        }
                    }
                }
                Some(value)
            },
            None => {
                assert(listed(before).remove(*key) =~= listed(before));
                None
            },
        }
    }
}

} // verus!
