//! Which peers served which parts of a block.
use crate::fnv_map;
use crate::hash;
use crate::types::PeerId;
use std::collections::HashMap;
use vstd::prelude::*;

verus! {

broadcast use vstd::std_specs::hash::group_hash_axioms;

/// The peers that served a block component, each with the indices of the parts it served.
pub struct PeerGroup {
    peers: HashMap<PeerId, Vec<usize>>,
}

/// Whether `reversed` has an entry for exactly the served indices, and names for each a peer that
/// served it.
pub open spec fn is_reversed(group: Map<PeerId, Seq<usize>>, reversed: Map<u64, PeerId>) -> bool {
    &&& forall|index: u64| #[trigger]
        reversed.contains_key(index) <==> exists|peer: PeerId, i: usize|
            i as u64 == index && #[trigger] serves(group, peer, i)
    &&& forall|index: u64| #[trigger]
        reversed.contains_key(index) ==> serves(group, reversed[index], index as usize)
}

/// The served indices of each peer, as mathematical sequences.
pub open spec fn served(m: Map<PeerId, Vec<usize>>) -> Map<PeerId, Seq<usize>> {
    m.map_values(|v: Vec<usize>| v@)
}

/// Whether `peer` served the part `index`.
pub open spec fn serves(group: Map<PeerId, Seq<usize>>, peer: PeerId, index: usize) -> bool {
    group.contains_key(peer) && group[peer].contains(index)
}

/// Whether `list` holds `x`.
pub fn contains_usize(list: &Vec<usize>, x: usize) -> (r: bool)
    ensures
        r == list@.contains(x),
{
    let mut i: usize = 0;
    while i < list.len()
        invariant
            i <= list@.len(),
            forall|j: int| 0 <= j < i ==> list@[j] != x,
        decreases list@.len() - i,
    {
        if list[i] == x {
            return true;
        }
        i += 1;
    }
    false
}

impl PeerGroup {
    /// The served indices of each peer.
    pub closed spec fn view(self) -> Map<PeerId, Seq<usize>> {
        served(self.peers@)
    }

    /// The group of one peer that served the only part there is.
    pub fn from_single(peer: PeerId) -> (r: Self)
        ensures
            r@ == map![peer => seq![0usize]],
    {
        let mut peers: HashMap<PeerId, Vec<usize>> = HashMap::new();
        let mut indices: Vec<usize> = Vec::new();
        indices.push(0);
        assert(indices@ =~= seq![0usize]);
        peers.insert(peer, indices);
        let r = PeerGroup { peers };
        assert(r@ =~= map![peer => seq![0usize]]);
        r
    }

    pub fn from_set(peers: HashMap<PeerId, Vec<usize>>) -> (r: Self)
        ensures
            r@ == served(peers@),
    {
        PeerGroup { peers }
    }

    /// All peers of the group, each once.
    pub fn all(&self) -> (r: Vec<PeerId>)
        ensures
            fnv_map::is_order(r@, self@.dom()),
    {
        let r = hash::keys(&self.peers);
        assert(self@.dom() =~= self.peers@.dom());
        r
    }

    /// The peers that served the part `index`, each once.
    pub fn of_index(&self, index: usize) -> (r: Vec<PeerId>)
        ensures
            r@.no_duplicates(),
            forall|peer: PeerId| #[trigger] r@.contains(peer) <==> serves(self@, peer, index),
    {
        let all = self.all();
        let mut r: Vec<PeerId> = Vec::new();
        let mut i: usize = 0;
        while i < all.len()
            invariant
                i <= all@.len(),
                fnv_map::is_order(all@, self@.dom()),
                r@.no_duplicates(),
                forall|peer: PeerId| #[trigger]
                    r@.contains(peer) <==> serves(self@, peer, index) && all@.take(i as int).contains(
                        peer,
                    ),
            decreases all@.len() - i,
        {
            let peer: u64 = all[i];
            assert(all@.contains(peer));
            assert(self@.dom().contains(peer));
            let ghost before = r@;
            assert(!all@.take(i as int).contains(peer));
            assert(!before.contains(peer));
            let serves_it = match self.peers.get(&peer) {
                Some(indices) => contains_usize(indices, index),
                None => false,
            };
            if serves_it {
                r.push(peer);
            }
            proof {
                assert(all@.take(i + 1) =~= all@.take(i as int).push(peer));
                assert forall|p: PeerId| #[trigger] r@.contains(p) <==> serves(self@, p, index)
                    && all@.take(i + 1).contains(p) by {
                    lemma_push_contains(all@.take(i as int), peer, p);
                    lemma_push_contains(before, peer, p);
                    assert(before.contains(p) <==> serves(self@, p, index) && all@.take(
                        i as int,
                    ).contains(p));
                }
            }
            i += 1;
        }
        proof {
            assert(all@.take(i as int) =~= all@);
            assert forall|p: PeerId| #[trigger] r@.contains(p) <==> serves(self@, p, index) by {
                assert(all@.contains(p) <==> self@.dom().contains(p));
            }
        }
        r
    }

    /// For each served index, a peer that served it.
    pub fn as_reversed_map(&self) -> (r: HashMap<u64, PeerId>)
        ensures
            is_reversed(self@, r@),
    {
        let all = self.all();
        let mut r: HashMap<u64, PeerId> = HashMap::new();
        let mut i: usize = 0;
        while i < all.len()
            invariant
                i <= all@.len(),
                fnv_map::is_order(all@, self@.dom()),
                forall|index: u64| #[trigger]
                    r@.contains_key(index) ==> serves(self@, r@[index], index as usize),
                forall|j: int, x: usize|
                    0 <= j < i && serves(self@, all@[j], x) ==> #[trigger] served_in(r@, all@[j], x),
                forall|index: u64| #[trigger] r@.contains_key(index) ==> index <= usize::MAX,
            decreases all@.len() - i,
        {
            let peer: u64 = all[i];
            assert(all@.contains(peer));
            match self.peers.get(&peer) {
                Some(indices) => {
                    let ghost outer = r@;
                    let mut k: usize = 0;
                    while k < indices.len()
                        invariant
                            k <= indices@.len(),
                            self@.contains_key(peer),
                            self@[peer] == indices@,
                            forall|index: u64| #[trigger]
                                r@.contains_key(index) ==> serves(self@, r@[index], index as usize),
                            forall|index: u64| #[trigger] r@.contains_key(index) ==> index <= usize::MAX,
                            forall|index: u64| #[trigger]
                                outer.contains_key(index) ==> r@.contains_key(index),
                            forall|m: int| 0 <= m < k ==> r@.contains_key((#[trigger] indices@[m]) as u64),
                        decreases indices@.len() - k,
                    {
                        let index: usize = indices[k];
                        assert(indices@.contains(index));
                        r.insert(index as u64, peer);
                        k += 1;
                    }
                    proof {
                        assert forall|j: int, x: usize|
                            0 <= j < i + 1 && serves(self@, all@[j], x) implies #[trigger] served_in(
                            r@,
                            all@[j],
                            x,
                        ) by {
                            if j < i {
                                assert(served_in(outer, all@[j], x));
                            } else {
                                let m = choose|m: int| 0 <= m < indices@.len() && indices@[m] == x;
                                assert(r@.contains_key(indices@[m] as u64));
                            }
                        }
                    }
                },
                None => {},
            }
            i += 1;
        }
        proof {
            assert forall|index: u64| #[trigger] r@.contains_key(index) <==> exists|peer: PeerId, x: usize|
                x as u64 == index && #[trigger] serves(self@, peer, x) by {
                if r@.contains_key(index) {
                    assert(serves(self@, r@[index], index as usize));
                }
                if exists|peer: PeerId, x: usize| x as u64 == index && #[trigger] serves(self@, peer, x) {
                    let (peer, x) = choose|peer: PeerId, x: usize|
                        x as u64 == index && #[trigger] serves(self@, peer, x);
                    assert(self@.dom().contains(peer));
                    assert(all@.contains(peer));
                    let j = choose|j: int| 0 <= j < all@.len() && all@[j] == peer;
                    assert(served_in(r@, all@[j], x));
                }
            }
        }
        r
    }
}

/// Whether the reversed map has an entry for a part that `peer` served.
spec fn served_in(reversed: Map<u64, PeerId>, peer: PeerId, index: usize) -> bool {
    reversed.contains_key(index as u64)
}

proof fn lemma_push_contains(s: Seq<PeerId>, x: PeerId, y: PeerId)
    ensures
        s.push(x).contains(y) <==> s.contains(y) || x == y,
{
    if s.contains(y) {
        let i = choose|i: int| 0 <= i < s.len() && s[i] == y;
        assert(s.push(x)[i] == y);
    }
    if x == y {
        assert(s.push(x)[s.len() as int] == y);
    }
}

/// The reversed map of a single peer's group names that peer for the only part.
pub proof fn law_single_peer_serves_the_only_part(peer: PeerId, other: PeerId, index: usize)
    ensures
        serves(map![peer => seq![0usize]], other, index) <==> other == peer && index == 0,
{
    let group = map![peer => seq![0usize]];
    if other == peer {
        assert(group[peer] == seq![0usize]);
        if index == 0 {
            assert(seq![0usize][0] == 0);
        }
    }
}

/// A group made from a map has the peers of the map, each with the indices listed there.
pub proof fn law_group_has_the_peers_of_its_map(m: Map<PeerId, Vec<usize>>, peer: PeerId, index: usize)
    ensures
        serves(served(m), peer, index) <==> m.contains_key(peer) && m[peer]@.contains(index),
{
}

} // verus!
