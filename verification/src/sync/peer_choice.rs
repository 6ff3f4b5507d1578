//! Choosing the peer that a request goes to.
use crate::types::PeerId;
use vstd::prelude::*;

verus! {

/// What decides the place of a peer among the candidates for a request, most important first.
#[derive(Clone, Copy, PartialEq, Eq, Structural, Debug)]
pub struct PeerRank {
    /// Whether the peer comes after all those that are not held back.
    pub held_back: bool,
    /// How many requests the peer has been given.
    pub load: u128,
    /// A random number, to break ties.
    pub factor: u32,
    pub peer_id: PeerId,
}

impl PeerRank {
    /// Whether `self` comes strictly before `other`.
    pub open spec fn spec_before(self, other: PeerRank) -> bool {
        if self.held_back != other.held_back {
            !self.held_back
        } else if self.load != other.load {
            self.load < other.load
        } else if self.factor != other.factor {
            self.factor < other.factor
        } else {
            self.peer_id < other.peer_id
        }
    }

    pub fn before(&self, other: &PeerRank) -> (r: bool)
        ensures
            r == self.spec_before(*other),
    {
        if self.held_back != other.held_back {
            !self.held_back
        } else if self.load != other.load {
            self.load < other.load
        } else if self.factor != other.factor {
            self.factor < other.factor
        } else {
            self.peer_id < other.peer_id
        }
    }
}

/// Whether no candidate comes before the one at position `i`.
pub open spec fn comes_first(candidates: Seq<PeerRank>, i: int) -> bool {
    &&& 0 <= i < candidates.len()
    &&& forall|j: int|
        0 <= j < candidates.len() ==> !(#[trigger] candidates[j]).spec_before(candidates[i])
}

/// The peer of the candidate that no other comes before; none where there is no candidate.
pub open spec fn first_peer(candidates: Seq<PeerRank>) -> Option<PeerId> {
    if candidates.len() == 0 {
        None
    } else {
        Some(candidates[choose|i: int| comes_first(candidates, i)].peer_id)
    }
}

/// Whichever candidate comes first, its peer is the same.
pub proof fn lemma_first_peer(candidates: Seq<PeerRank>, i: int)
    requires
        comes_first(candidates, i),
    ensures
        first_peer(candidates) == Some(candidates[i].peer_id),
{
    let k = choose|k: int| comes_first(candidates, k);
    assert(!candidates[i].spec_before(candidates[k]));
    assert(!candidates[k].spec_before(candidates[i]));
}

/// The peer of the candidate that comes first.
pub fn pick_peer(candidates: &Vec<PeerRank>) -> (r: Option<PeerId>)
    ensures
        r == first_peer(candidates@),
{
    if candidates.len() == 0 {
        return None;
    }
    let mut best: usize = 0;
    let mut i: usize = 1;
    while i < candidates.len()
        invariant
            1 <= i <= candidates@.len(),
            best < i,
            forall|j: int|
                0 <= j < i ==> !(#[trigger] candidates@[j]).spec_before(candidates@[best as int]),
        decreases candidates@.len() - i,
    {
        if candidates[i].before(&candidates[best]) {
            best = i;
        }
        i += 1;
    }
    proof {
        assert(comes_first(candidates@, best as int));
        lemma_first_peer(candidates@, best as int);
    }
    Some(candidates[best].peer_id)
}

/// The chosen peer is a candidate that is held back only if all are, and none that is held back
/// as much has a lower load. The random numbers decide only among equals.
pub proof fn law_chosen_peer_has_least_load(candidates: Seq<PeerRank>, peer: PeerId)
    requires
        first_peer(candidates) == Some(peer),
    ensures
        exists|i: int|
            #![trigger candidates[i]]
            0 <= i < candidates.len() && candidates[i].peer_id == peer && forall|j: int|
                0 <= j < candidates.len() ==> (candidates[i].held_back ==> (
                #[trigger] candidates[j]).held_back) && (candidates[j].held_back
                    == candidates[i].held_back ==> candidates[i].load <= candidates[j].load),
{
    lemma_some_comes_first(candidates);
    let i = choose|i: int| comes_first(candidates, i);
    lemma_first_peer(candidates, i);
    assert forall|j: int| 0 <= j < candidates.len() implies (candidates[i].held_back ==> (
    #[trigger] candidates[j]).held_back) && (candidates[j].held_back == candidates[i].held_back
        ==> candidates[i].load <= candidates[j].load) by {
        assert(!candidates[j].spec_before(candidates[i]));
    }
}

proof fn lemma_some_comes_first(candidates: Seq<PeerRank>)
    requires
        candidates.len() > 0,
    ensures
        exists|i: int| comes_first(candidates, i),
    decreases candidates.len(),
{
    let short = candidates.drop_last();
    let last = candidates.len() - 1;
    if candidates.len() == 1 {
        assert(comes_first(candidates, 0));
    } else {
        lemma_some_comes_first(short);
        let i = choose|i: int| comes_first(short, i);
        if candidates[last].spec_before(candidates[i]) {
            assert forall|j: int| 0 <= j < candidates.len() implies !(
            #[trigger] candidates[j]).spec_before(candidates[last]) by {
                if j < last {
                    assert(!short[j].spec_before(short[i]));
                }
            }
            assert(comes_first(candidates, last));
        } else {
            assert forall|j: int| 0 <= j < candidates.len() implies !(
            #[trigger] candidates[j]).spec_before(candidates[i]) by {
                if j < last {
                    assert(!short[j].spec_before(short[i]));
                }
            }
            assert(comes_first(candidates, i));
        }
    }
}

/// `rand::random`: a random number, about which nothing is said.
#[verifier::external_body]
pub(crate) fn random_u32() -> (r: u32)
{
    rand::random::<u32>()
}

/// `n` random numbers.
pub(crate) fn random_factors(n: usize) -> (r: Vec<u32>)
    ensures
        r@.len() == n,
{
    let mut r: Vec<u32> = Vec::new();
    while r.len() < n
        invariant
            r@.len() <= n,
        decreases n - r@.len(),
    {
        r.push(random_u32());
    }
    r
}

/// There is a choice where there is a candidate. Among candidates that are alike in being held back
/// and in load, the one with the smallest random number is chosen, and among those the one with the
/// smallest id.
pub proof fn law_ties_go_to_the_smallest_number(candidates: Seq<PeerRank>)
    ensures
        first_peer(candidates) is Some <==> candidates.len() > 0,
        first_peer(candidates) matches Some(peer) ==> exists|i: int|
            #![trigger candidates[i]]
            0 <= i < candidates.len() && candidates[i].peer_id == peer && forall|j: int|
                0 <= j < candidates.len() && (#[trigger] candidates[j]).held_back
                    == candidates[i].held_back && candidates[j].load == candidates[i].load ==> {
                    &&& candidates[i].factor <= candidates[j].factor
                    &&& candidates[i].factor == candidates[j].factor ==> peer <= candidates[j].peer_id
                },
{
    if candidates.len() > 0 {
        lemma_some_comes_first(candidates);
        let i = choose|i: int| comes_first(candidates, i);
        lemma_first_peer(candidates, i);
        assert forall|j: int|
            0 <= j < candidates.len() && (#[trigger] candidates[j]).held_back == candidates[i].held_back
                && candidates[j].load == candidates[i].load implies candidates[i].factor
            <= candidates[j].factor && (candidates[i].factor == candidates[j].factor
            ==> candidates[i].peer_id <= candidates[j].peer_id) by {
            assert(!candidates[j].spec_before(candidates[i]));
        }
    }
}

} // verus!
