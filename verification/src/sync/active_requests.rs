//! Requests that wait for their responses.
use crate::fnv_map;
use crate::sync::errors::{LookupVerifyError, RpcEvent, RpcResponseError, RpcResponseResult};
use crate::sync::ids::RequestId;
use crate::types::{Nanos, PeerId};
use vstd::prelude::*;

verus! {

/// What the check of a received item against its request found.
pub enum ItemCheck {
    /// The item is valid and the last one that was asked for.
    Last,
    /// The item is valid and more may follow.
    More,
    /// The item is not what was asked for.
    Invalid(LookupVerifyError),
}

enum RequestState<T> {
    Active(Vec<T>),
    CompletedEarly,
    Errored,
}

struct ActiveRequest<I, T> {
    id: I,
    peer_id: PeerId,
    expect_max_responses: bool,
    state: RequestState<T>,
}

/// How far a request is: the items it has, or that it was already answered.
pub enum RequestStateView<T> {
    Active(Seq<T>),
    CompletedEarly,
    Errored,
}

/// A request that waits for its response.
pub struct ActiveRequestView<I, T> {
    pub id: I,
    pub peer_id: PeerId,
    pub expect_max_responses: bool,
    pub state: RequestStateView<T>,
}

impl<I, T> ActiveRequest<I, T> {
    closed spec fn view(self) -> ActiveRequestView<I, T> {
        ActiveRequestView {
            id: self.id,
            peer_id: self.peer_id,
            expect_max_responses: self.expect_max_responses,
            state: match self.state {
                RequestState::Active(items) => RequestStateView::Active(items@),
                RequestState::CompletedEarly => RequestStateView::CompletedEarly,
                RequestState::Errored => RequestStateView::Errored,
            },
        }
    }
}

/// The active requests of one kind, by request number.
pub struct ActiveRequests<I: RequestId, T> {
    requests: fnv::FnvHashMap<u64, ActiveRequest<I, T>>,
    name: &'static str,
}

/// The contents of a response.
pub open spec fn response_view<T>(r: Option<RpcResponseResult<Vec<T>>>) -> Option<
    RpcResponseResult<Seq<T>>,
> {
    match r {
        None => None,
        Some(Ok((items, seen))) => Some(Ok((items@, seen))),
        Some(Err(e)) => Some(Err(e)),
    }
}

/// What is left of a request after an event, and the response that the event completes.
pub open spec fn after_event<I, T>(
    request: ActiveRequestView<I, T>,
    event: RpcEvent<T>,
    check: ItemCheck,
    now: Nanos,
) -> (Option<ActiveRequestView<I, T>>, Option<RpcResponseResult<Seq<T>>>) {
    match event {
        RpcEvent::Response(item, seen) => match request.state {
            RequestStateView::Active(items) => match check {
                ItemCheck::Last => (
                    Some(ActiveRequestView { state: RequestStateView::CompletedEarly, ..request }),
                    Some(Ok((items.push(item), seen))),
                ),
                ItemCheck::More => (
                    Some(
                        ActiveRequestView {
                            state: RequestStateView::Active(items.push(item)),
                            ..request
                        },
                    ),
                    None,
                ),
                ItemCheck::Invalid(e) => (
                    Some(ActiveRequestView { state: RequestStateView::Errored, ..request }),
                    Some(Err(RpcResponseError::VerifyError(e))),
                ),
            },
            _ => (Some(request), None),
        },
        RpcEvent::StreamTermination => match request.state {
            RequestStateView::Active(items) => if request.expect_max_responses {
                (
                    None,
                    Some(
                        Err(
                            RpcResponseError::VerifyError(
                                LookupVerifyError::NotEnoughResponsesReturned {
                                    actual: items.len() as usize,
                                },
                            ),
                        ),
                    ),
                )
            } else {
                (None, Some(Ok((items, now))))
            },
            _ => (None, None),
        },
        RpcEvent::RPCError(e) => match request.state {
            RequestStateView::Active(_) => (None, Some(Err(RpcResponseError::RpcError(e)))),
            _ => (None, None),
        },
    }
}

/// What an event does: the requests after it, and the response that it completes. An event for a
/// request that is not known does nothing.
pub open spec fn respond<I: RequestId, T>(
    m: Map<u64, ActiveRequestView<I, T>>,
    id: I,
    event: RpcEvent<T>,
    check: ItemCheck,
    now: Nanos,
) -> (Map<u64, ActiveRequestView<I, T>>, Option<RpcResponseResult<Seq<T>>>) {
    let k = id.number();
    if m.contains_key(k) && m[k].id == id {
        let (kept, response) = after_event(m[k], event, check, now);
        (
            match kept {
                Some(request) => m.insert(k, request),
                None => m.remove(k),
            },
            response,
        )
    } else {
        (m, None)
    }
}

/// The number of requests in `m` that were made to `peer`.
pub open spec fn count_of_peer<I, T>(m: Map<u64, ActiveRequestView<I, T>>, peer: PeerId) -> nat {
    m.dom().filter(|k: u64| m[k].peer_id == peer).len()
}

/// How often `peer` occurs in `list`.
pub open spec fn occurrences(list: Seq<PeerId>, peer: PeerId) -> nat
    decreases list.len(),
{
    if list.len() == 0 {
        0
    } else {
        occurrences(list.drop_last(), peer) + (if list.last() == peer {
            1nat
        } else {
            0nat
        })
    }
}

/// The peers of a list of requests.
pub open spec fn peers_of<I>(list: Seq<(I, PeerId)>) -> Seq<PeerId> {
    list.map_values(|e: (I, PeerId)| e.1)
}

impl<I: RequestId, T> ActiveRequests<I, T> {
    /// The requests by number.
    pub closed spec fn view(self) -> Map<u64, ActiveRequestView<I, T>> {
        self.requests@.map_values(|r: ActiveRequest<I, T>| r@)
    }

    pub closed spec fn spec_name(self) -> Seq<char> {
        self.name@
    }

    /// Every request stands under its own number, and there are finitely many.
    pub open spec fn wf(self) -> bool {
        &&& self@.dom().finite()
        &&& forall|k: u64| #[trigger] self@.contains_key(k) ==> self@[k].id.number() == k
    }

    pub fn new(name: &'static str) -> (r: Self)
        ensures
            r.wf(),
            r@ == Map::<u64, ActiveRequestView<I, T>>::empty(),
            r.spec_name() == name@,
    {
        let requests: fnv::FnvHashMap<u64, ActiveRequest<I, T>> = Default::default();
        let r = ActiveRequests { requests, name };
        assert(r@ =~= Map::empty());
        r
    }

    /// Adds a request without any response yet.
    pub fn insert(&mut self, id: I, peer_id: PeerId, expect_max_responses: bool)
        requires
            old(self).wf(),
        ensures
            final(self).wf(),
            final(self).spec_name() == old(self).spec_name(),
            final(self)@ == old(self)@.insert(
                id.number(),
                (ActiveRequestView {
                    id,
                    peer_id,
                    expect_max_responses,
                    state: RequestStateView::Active(Seq::empty()),
                }),
            ),
    {
        let request = ActiveRequest {
            id,
            peer_id,
            expect_max_responses,
            state: RequestState::Active(Vec::new()),
        };
        let ghost view = request@;
        assert(view.state->Active_0 =~= Seq::empty());
        fnv_map::insert(&mut self.requests, id.get_number(), request);
        assert(self@ =~= old(self)@.insert(id.number(), view));
    }

    /// Takes in one event of a response stream.
    ///
    /// Each request is answered exactly once, by the event that completes it or by its first error;
    /// later events of the stream are ignored. The end of the stream and a protocol error remove
    /// the request. `check` is the verdict on the item that a response event carries.
    pub fn on_response(
        &mut self,
        id: I,
        rpc_event: RpcEvent<T>,
        check: ItemCheck,
        now: Nanos,
    ) -> (r: Option<RpcResponseResult<Vec<T>>>)
        requires
            old(self).wf(),
        ensures
            final(self).wf(),
            final(self).spec_name() == old(self).spec_name(),
            (final(self)@, response_view(r)) == respond(old(self)@, id, rpc_event, check, now),
    {
        let number: u64 = id.get_number();
        let known = match fnv_map::get(&self.requests, number) {
            Some(request) => request.id.same_as(&id),
            None => false,
        };
        assert(self@.contains_key(number) == self.requests@.contains_key(number));
        if !known {
            return None;
        }
        let ghost before = self@;
        let removed = fnv_map::remove(&mut self.requests, number);
        assert(self@ =~= before.remove(number));
        let request = match removed {
            Some(request) => request,
            None => return None,
        };
        let ghost view = request@;
        assert(view == before[number]);
        let ActiveRequest { id: own_id, peer_id, expect_max_responses, state } = request;
        let (kept, response) = match rpc_event {
            RpcEvent::Response(item, seen_timestamp) => match state {
                RequestState::Active(mut items) => match check {
                    ItemCheck::Last => {
                        items.push(item);
                        (Some(RequestState::CompletedEarly), Some(Ok((items, seen_timestamp))))
                    },
                    ItemCheck::More => {
                        items.push(item);
                        (Some(RequestState::Active(items)), None)
                    },
                    ItemCheck::Invalid(e) => (
                        Some(RequestState::Errored),
                        Some(Err(RpcResponseError::VerifyError(e))),
                    ),
                },
                RequestState::CompletedEarly => (Some(RequestState::CompletedEarly), None),
                RequestState::Errored => (Some(RequestState::Errored), None),
            },
            RpcEvent::StreamTermination => match state {
                RequestState::Active(items) => {
                    if expect_max_responses {
                        let actual: usize = items.len();
                        (
                            None,
                            Some(
                                Err(
                                    RpcResponseError::VerifyError(
                                        LookupVerifyError::NotEnoughResponsesReturned { actual },
                                    ),
                                ),
                            ),
                        )
                    } else {
                        (None, Some(Ok((items, now))))
                    }
                },
                RequestState::CompletedEarly => (None, None),
                RequestState::Errored => (None, None),
            },
            RpcEvent::RPCError(e) => match state {
                RequestState::Active(_) => (None, Some(Err(RpcResponseError::RpcError(e)))),
                RequestState::CompletedEarly => (None, None),
                RequestState::Errored => (None, None),
            },
        };
        match kept {
            Some(state) => {
                let request = ActiveRequest { id: own_id, peer_id, expect_max_responses, state };
                let ghost next = request@;
                fnv_map::insert(&mut self.requests, number, request);
                assert(self@ =~= before.insert(number, next));
            },
            None => {},
        }
        response
    }

    /// The number of active requests.
    pub fn len(&self) -> (r: usize)
        ensures
            r == self@.len(),
    {
        assert(self@.dom() =~= self.requests@.dom());
        fnv_map::len(&self.requests)
    }

    /// The active requests with their peers, each once, in no particular order.
    pub fn active_requests(&self) -> (r: Vec<(I, PeerId)>)
        requires
            self.wf(),
        ensures
            r@.no_duplicates(),
            forall|e: (I, PeerId)| #[trigger]
                r@.contains(e) <==> self@.contains_key(e.0.number()) && self@[e.0.number()].id == e.0
                    && self@[e.0.number()].peer_id == e.1,
            forall|peer: PeerId| #[trigger]
                occurrences(peers_of(r@), peer) == count_of_peer(self@, peer),
    {
        let keys = fnv_map::keys(&self.requests);
        assert(self@.dom() =~= self.requests@.dom());
        let mut r: Vec<(I, PeerId)> = Vec::new();
        let mut i: usize = 0;
        while i < keys.len()
            invariant
                i <= keys@.len(),
                fnv_map::is_order(keys@, self@.dom()),
                self@.dom() == self.requests@.dom(),
                r@.len() == i,
                forall|j: int|
                    0 <= j < i ==> (#[trigger] r@[j]) == (self@[keys@[j]].id, self@[keys@[j]].peer_id),
            decreases keys@.len() - i,
        {
            assert(keys@.contains(keys@[i as int]));
            assert(self@.dom().contains(keys@[i as int]));
            match fnv_map::get(&self.requests, keys[i]) {
                Some(request) => {
                    r.push((request.id, request.peer_id));
                },
                None => {},
            }
            i += 1;
        }
        proof {
            assert forall|j: int| 0 <= j < keys@.len() implies self@.contains_key(#[trigger] keys@[j]) by {
                assert(keys@.contains(keys@[j]));
            }
            assert forall|a: int, b: int| 0 <= a < b < r@.len() implies r@[a] != r@[b] by {
                assert(self@[keys@[a]].id.number() == keys@[a]);
                assert(self@[keys@[b]].id.number() == keys@[b]);
            }
            assert forall|e: (I, PeerId)| #[trigger] r@.contains(e) <==> self@.contains_key(e.0.number())
                && self@[e.0.number()].id == e.0 && self@[e.0.number()].peer_id == e.1 by {
                if r@.contains(e) {
                    let j = choose|j: int| 0 <= j < r@.len() && r@[j] == e;
                    assert(self@[keys@[j]].id.number() == keys@[j]);
                }
                if self@.contains_key(e.0.number()) && self@[e.0.number()].id == e.0
                    && self@[e.0.number()].peer_id == e.1 {
                    assert(keys@.contains(e.0.number()));
                    let j = choose|j: int| 0 <= j < keys@.len() && keys@[j] == e.0.number();
                    assert(r@[j] == e);
                }
            }
            assert forall|peer: PeerId| #[trigger]
                occurrences(peers_of(r@), peer) == count_of_peer(self@, peer) by {
                lemma_occurrences(self@, keys@, peers_of(r@), peer);
            }
        }
        r
    }
}

proof fn lemma_occurrences<I, T>(
    m: Map<u64, ActiveRequestView<I, T>>,
    keys: Seq<u64>,
    peers: Seq<PeerId>,
    peer: PeerId,
)
    requires
        fnv_map::is_order(keys, m.dom()),
        peers.len() == keys.len(),
        forall|j: int| 0 <= j < keys.len() ==> (#[trigger] peers[j]) == m[keys[j]].peer_id,
    ensures
        occurrences(peers, peer) == count_of_peer(m, peer),
{
    let all = m.dom().filter(|k: u64| m[k].peer_id == peer);
    lemma_occurrences_prefix(m, keys, peers, peer, keys.len() as int);
    assert(peers.take(keys.len() as int) =~= peers);
    assert(keys.take(keys.len() as int) =~= keys);
    assert(keys.to_set().filter(|k: u64| m[k].peer_id == peer) =~= all) by {
        assert forall|k: u64| keys.to_set().contains(k) == m.dom().contains(k) by {
            assert(keys.contains(k) <==> m.dom().contains(k));
        }
    }
}

proof fn lemma_occurrences_prefix<I, T>(
    m: Map<u64, ActiveRequestView<I, T>>,
    keys: Seq<u64>,
    peers: Seq<PeerId>,
    peer: PeerId,
    n: int,
)
    requires
        keys.no_duplicates(),
        peers.len() == keys.len(),
        forall|j: int| 0 <= j < keys.len() ==> (#[trigger] peers[j]) == m[keys[j]].peer_id,
        0 <= n <= keys.len(),
    ensures
        keys.take(n).to_set().filter(|k: u64| m[k].peer_id == peer).finite(),
        occurrences(peers.take(n), peer) == keys.take(n).to_set().filter(
            |k: u64| m[k].peer_id == peer,
        ).len(),
    decreases n,
{
    let keep = |k: u64| m[k].peer_id == peer;
    if n == 0 {
        assert(keys.take(0).to_set().filter(keep) =~= Set::empty());
        assert(peers.take(0).len() == 0);
    } else {
        lemma_occurrences_prefix(m, keys, peers, peer, n - 1);
        let key = keys[n - 1];
        let short = keys.take(n - 1).to_set().filter(keep);
        let long = keys.take(n).to_set().filter(keep);
        assert(peers.take(n).drop_last() =~= peers.take(n - 1));
        assert(peers.take(n).last() == m[key].peer_id);
        assert(!keys.take(n - 1).contains(key));
        assert forall|k: u64| keys.take(n).contains(k) == (keys.take(n - 1).contains(k) || k == key) by {
            if keys.take(n - 1).contains(k) {
                let i = choose|i: int| 0 <= i < n - 1 && #[trigger] keys.take(n - 1)[i] == k;
                assert(keys.take(n)[i] == k);
            }
            if k == key {
                assert(keys.take(n)[n - 1] == k);
            }
            if keys.take(n).contains(k) {
                let i = choose|i: int| 0 <= i < n && #[trigger] keys.take(n)[i] == k;
                if i < n - 1 {
                    assert(keys.take(n - 1)[i] == k);
                }
            }
        }
        if m[key].peer_id == peer {
            assert(long =~= short.insert(key));
        } else {
            assert(long =~= short);
        }
    }
}

/// A request is answered at most once: after an answer no event brings another one.
pub proof fn law_answered_once<I, T>(
    request: ActiveRequestView<I, T>,
    first: RpcEvent<T>,
    first_check: ItemCheck,
    second: RpcEvent<T>,
    second_check: ItemCheck,
    now: Nanos,
    later: Nanos,
)
    requires
        after_event(request, first, first_check, now).1 is Some,
        after_event(request, first, first_check, now).0 is Some,
    ensures
        after_event(
            after_event(request, first, first_check, now).0->0,
            second,
            second_check,
            later,
        ).1 is None,
{
}

/// The end of a stream and a protocol error always remove the request; an item never does.
pub proof fn law_removed_at_the_end<I, T>(
    request: ActiveRequestView<I, T>,
    event: RpcEvent<T>,
    check: ItemCheck,
    now: Nanos,
)
    ensures
        after_event(request, event, check, now).0 is None <==> !(event is Response),
{
}

} // verus!
