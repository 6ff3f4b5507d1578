//! Looking up single blocks and their data.
use crate::fnv_map;
use crate::globals::contains_u64;
use crate::hash;
use crate::sync::errors::{LookupRequestResult, RpcRequestSendError};
use crate::sync::ids::{
    CustodyRequester, DataColumnsByRootRequestId, DataColumnsByRootRequester, RequestId,
    SingleLookupId, SingleLookupReqId, SyncRequestId,
};
use crate::sync::messages::{
    AppRequestId, MessageView, NetworkMessage, RequestType, RequestView,
};
use crate::sync::network_context;
use crate::sync::network_context::SyncNetworkContext;
use crate::sync::peer_choice;
use crate::sync::peer_choice::PeerRank;
use crate::types::{ColumnIndex, Hash256, Id, PeerId};
use std::collections::HashSet;
use vstd::prelude::*;
use vstd::string::*;

verus! {

broadcast use vstd::std_specs::hash::group_hash_axioms;

/// What the chain knows of a block.
#[derive(Clone, Copy, PartialEq, Eq, Structural, Debug)]
pub enum BlockProcessStatus {
    /// Nothing.
    Unknown,
    /// The block is being processed.
    NotValidated,
    /// The block is valid and waits for its data at most.
    ExecutionValidated,
}

/// The ranks of the candidates for a lookup: peers with fewer active requests first; random numbers
/// break ties.
pub open spec fn lookup_ranks(cx: SyncNetworkContext, order: Seq<PeerId>, factors: Seq<u32>) -> Seq<
    PeerRank,
> {
    Seq::new(
        order.len(),
        |i: int|
            PeerRank {
                held_back: false,
                load: cx.load_of(order[i]) as u128,
                factor: factors[i],
                peer_id: order[i],
            },
    )
}

/// What a lookup request is answered with, as text.
pub enum LookupView<I> {
    RequestSent(I),
    NoRequestNeeded(Seq<char>),
    Pending(Seq<char>),
    Failed(Seq<char>),
}

pub open spec fn lookup_view<I>(r: Result<LookupRequestResult<I>, RpcRequestSendError>) -> LookupView<I> {
    match r {
        Ok(LookupRequestResult::RequestSent(id)) => LookupView::RequestSent(id),
        Ok(LookupRequestResult::NoRequestNeeded(why)) => LookupView::NoRequestNeeded(why@),
        Ok(LookupRequestResult::Pending(why)) => LookupView::Pending(why@),
        Err(e) => LookupView::Failed(e.text()),
    }
}

/// What a request for a block does, given the order of the peers and the random numbers.
pub open spec fn block_looked_up(
    cx0: SyncNetworkContext,
    lookup_id: SingleLookupId,
    order: Seq<PeerId>,
    factors: Seq<u32>,
    block_root: Hash256,
    status: BlockProcessStatus,
    cx1: SyncNetworkContext,
    r: LookupView<Id>,
) -> bool {
    let id = SingleLookupReqId { lookup_id, req_id: cx0.request_id };
    match peer_choice::first_peer(lookup_ranks(cx0, order, factors)) {
        None => r == LookupView::<Id>::Pending("no peers"@) && cx1 == cx0,
        Some(peer) => match status {
            BlockProcessStatus::NotValidated => r == LookupView::<Id>::Pending(
                "block in processing cache"@,
            ) && cx1 == cx0,
            BlockProcessStatus::ExecutionValidated => r == LookupView::<Id>::NoRequestNeeded(
                "block execution validated"@,
            ) && cx1 == cx0,
            BlockProcessStatus::Unknown => if cx0.network_send.is_open() {
                &&& r == LookupView::RequestSent(id.req_id)
                &&& cx1 == SyncNetworkContext {
                    network_send: cx1.network_send,
                    request_id: cx1.request_id,
                    blocks_by_root_requests: cx1.blocks_by_root_requests,
                    ..cx0
                }
                &&& network_context::message_and_number(
                    cx0,
                    cx1,
                    MessageView::SendRequest {
                        peer_id: peer,
                        request: RequestView::BlocksByRoot(block_root),
                        app_request_id: AppRequestId::Sync(SyncRequestId::SingleBlock { id }),
                    },
                )
                &&& cx1.blocks_by_root_requests@ == cx0.blocks_by_root_requests@.insert(
                    id.number(),
                    network_context::fresh_request(id, peer, true),
                )
            } else {
                &&& r == LookupView::<Id>::Failed("network send error"@)
                &&& cx1 == SyncNetworkContext { request_id: (cx0.request_id + 1) as u32, ..cx0 }
            },
        },
    }
}

/// The blob indices below `expected` that were not imported yet, in increasing order.
pub open spec fn missing_blobs(expected: nat, imported: Seq<u64>) -> Seq<u64> {
    Seq::new(expected, |i: int| i as u64).filter(|i: u64| !imported.contains(i))
}

/// What a request for the blobs of a block does, given the order of the peers and the random
/// numbers.
pub open spec fn blobs_looked_up(
    cx0: SyncNetworkContext,
    lookup_id: SingleLookupId,
    order: Seq<PeerId>,
    factors: Seq<u32>,
    block_root: Hash256,
    expected_blobs: nat,
    imported: Seq<u64>,
    cx1: SyncNetworkContext,
    r: LookupView<Id>,
) -> bool {
    let id = SingleLookupReqId { lookup_id, req_id: cx0.request_id };
    let indices = missing_blobs(expected_blobs, imported);
    match peer_choice::first_peer(lookup_ranks(cx0, order, factors)) {
        None => r == LookupView::<Id>::Pending("no peers"@) && cx1 == cx0,
        Some(peer) => if indices.len() == 0 {
            r == LookupView::<Id>::NoRequestNeeded("no indices to fetch"@) && cx1 == cx0
        } else if cx0.network_send.is_open() {
            &&& r == LookupView::RequestSent(id.req_id)
            &&& cx1 == SyncNetworkContext {
                network_send: cx1.network_send,
                request_id: cx1.request_id,
                blobs_by_root_requests: cx1.blobs_by_root_requests,
                ..cx0
            }
            &&& network_context::message_and_number(
                cx0,
                cx1,
                MessageView::SendRequest {
                    peer_id: peer,
                    request: RequestView::BlobsByRoot { block_root, indices },
                    app_request_id: AppRequestId::Sync(SyncRequestId::SingleBlob { id }),
                },
            )
            &&& cx1.blobs_by_root_requests@ == cx0.blobs_by_root_requests@.insert(
                id.number(),
                network_context::fresh_request(id, peer, true),
            )
        } else {
            &&& r == LookupView::<Id>::Failed("network send error"@)
            &&& cx1 == SyncNetworkContext { request_id: (cx0.request_id + 1) as u32, ..cx0 }
        },
    }
}

/// The entries of `list` that are not in `without`, in order.
pub open spec fn entries_without(list: Seq<u64>, without: Seq<u64>) -> Seq<u64> {
    list.filter(|x: u64| !without.contains(x))
}

fn remove_entries(list: &Vec<u64>, without: &Vec<u64>) -> (r: Vec<u64>)
    ensures
        r@ == entries_without(list@, without@),
{
    let ghost keep = |x: u64| !without@.contains(x);
    let mut r: Vec<u64> = Vec::new();
    let mut i: usize = 0;
    proof {
        reveal(Seq::filter);
        assert(list@.take(0).filter(keep) =~= Seq::empty());
    }
    while i < list.len()
        invariant
            i <= list@.len(),
            keep == (|x: u64| !without@.contains(x)),
            r@ == list@.take(i as int).filter(keep),
        decreases list@.len() - i,
    {
        proof {
            reveal(Seq::filter);
            assert(list@.take(i + 1).drop_last() =~= list@.take(i as int));
        }
        if !contains_u64(without, list[i]) {
            r.push(list[i]);
        }
        i += 1;
    }
    assert(list@.take(i as int) =~= list@);
    r
}

fn up_to(n: usize) -> (r: Vec<u64>)
    ensures
        r@ == Seq::new(n as nat, |i: int| i as u64),
{
    let mut r: Vec<u64> = Vec::new();
    let mut i: usize = 0;
    while i < n
        invariant
            i <= n,
            r@.len() == i,
            forall|j: int| 0 <= j < i ==> #[trigger] r@[j] == j as u64,
        decreases n - i,
    {
        r.push(i as u64);
        i += 1;
    }
    assert(r@ =~= Seq::new(n as nat, |i: int| i as u64));
    r
}

/// What the start of a custody request for a block found.
pub enum CustodyLookupStart {
    /// Every column that the node samples has been imported.
    NoRequestNeeded(&'static str),
    /// The request `id` is to fetch these columns.
    Start { id: SingleLookupReqId, indices: Vec<ColumnIndex> },
}

impl SyncNetworkContext {
    /// The candidate with the fewest active requests.
    fn pick_lookup_peer(&self, order: &Vec<PeerId>, factors: &Vec<u32>) -> (r: Option<PeerId>)
        requires
            self.wf(),
            factors@.len() == order@.len(),
        ensures
            r == peer_choice::first_peer(lookup_ranks(*self, order@, factors@)),
    {
        let counts = self.active_request_count_by_peer();
        let ghost ranks0 = lookup_ranks(*self, order@, factors@);
        let mut ranks: Vec<PeerRank> = Vec::new();
        let mut i: usize = 0;
        while i < order.len()
            invariant
                i <= order@.len(),
                factors@.len() == order@.len(),
                ranks0 == lookup_ranks(*self, order@, factors@),
                forall|p: PeerId| #[trigger]
                    network_context::count_in(counts@, p) == self.load_of(p),
                ranks@.len() == i,
                forall|j: int| 0 <= j < i ==> #[trigger] ranks@[j] == ranks0[j],
            decreases order@.len() - i,
        {
            let peer_id: u64 = order[i];
            let load: u128 = match counts.get(&peer_id) {
                Some(count) => *count,
                None => 0,
            };
            assert(load == network_context::count_in(counts@, peer_id));
            ranks.push(PeerRank { held_back: false, load, factor: factors[i], peer_id });
            i += 1;
        }
        assert(ranks@ =~= ranks0);
        peer_choice::pick_peer(&ranks)
    }

    /// Requests a block, unless there is no peer to ask or the chain has it already. The peers are
    /// gone through in the given order, and the given random numbers break ties.
    pub fn block_lookup_request_with(
        &mut self,
        lookup_id: SingleLookupId,
        order: &Vec<PeerId>,
        factors: &Vec<u32>,
        block_root: Hash256,
        status: BlockProcessStatus,
    ) -> (r: Result<LookupRequestResult<Id>, RpcRequestSendError>)
        requires
            old(self).wf(),
            old(self).has_ids(1),
            factors@.len() == order@.len(),
        ensures
            final(self).wf(),
            block_looked_up(
                *old(self),
                lookup_id,
                order@,
                factors@,
                block_root,
                status,
                *final(self),
                lookup_view(r),
            ),
    {
        let peer_id: u64 = match self.pick_lookup_peer(order, factors) {
            Some(peer) => peer,
            None => return Ok(LookupRequestResult::Pending("no peers")),
        };
        match status {
            BlockProcessStatus::Unknown => {},
            BlockProcessStatus::NotValidated => return Ok(
                LookupRequestResult::Pending("block in processing cache"),
            ),
            BlockProcessStatus::ExecutionValidated => return Ok(
                LookupRequestResult::NoRequestNeeded("block execution validated"),
            ),
        }
        let id = SingleLookupReqId { lookup_id, req_id: self.next_id() };
        let message = NetworkMessage::SendRequest {
            peer_id,
            request: RequestType::BlocksByRoot(block_root),
            app_request_id: AppRequestId::Sync(SyncRequestId::SingleBlock { id }),
        };
        if self.network_send.send(message).is_err() {
            return Err(RpcRequestSendError::InternalError("network send error".to_owned()));
        }
        self.blocks_by_root_requests.insert(id, peer_id, true);
        Ok(LookupRequestResult::RequestSent(id.req_id))
    }

    /// Requests a block from one of the peers, unless there is none or the chain has it already.
    ///
    /// Random numbers break ties between peers with the same number of active requests.
    pub fn block_lookup_request(
        &mut self,
        lookup_id: SingleLookupId,
        lookup_peers: &HashSet<PeerId>,
        block_root: Hash256,
        status: BlockProcessStatus,
    ) -> (r: Result<LookupRequestResult<Id>, RpcRequestSendError>)
        requires
            old(self).wf(),
            old(self).has_ids(1),
        ensures
            final(self).wf(),
            exists|order: Seq<PeerId>, factors: Seq<u32>|
                fnv_map::is_order(order, lookup_peers@) && factors.len() == order.len()
                    && #[trigger] block_looked_up(
                    *old(self),
                    lookup_id,
                    order,
                    factors,
                    block_root,
                    status,
                    *final(self),
                    lookup_view(r),
                ),
    {
        let order = hash::elements(lookup_peers);
        let factors = peer_choice::random_factors(order.len());
        self.block_lookup_request_with(lookup_id, &order, &factors, block_root, status)
    }

    /// Requests the blobs of a block that were not imported yet. The peers are gone through in the
    /// given order, and the given random numbers break ties.
    pub fn blob_lookup_request_with(
        &mut self,
        lookup_id: SingleLookupId,
        order: &Vec<PeerId>,
        factors: &Vec<u32>,
        block_root: Hash256,
        expected_blobs: usize,
        imported_blob_indexes: &Vec<u64>,
    ) -> (r: Result<LookupRequestResult<Id>, RpcRequestSendError>)
        requires
            old(self).wf(),
            old(self).has_ids(1),
            factors@.len() == order@.len(),
        ensures
            final(self).wf(),
            blobs_looked_up(
                *old(self),
                lookup_id,
                order@,
                factors@,
                block_root,
                expected_blobs as nat,
                imported_blob_indexes@,
                *final(self),
                lookup_view(r),
            ),
    {
        let peer_id: u64 = match self.pick_lookup_peer(order, factors) {
            Some(peer) => peer,
            None => return Ok(LookupRequestResult::Pending("no peers")),
        };
        let all = up_to(expected_blobs);
        let indices = remove_entries(&all, imported_blob_indexes);
        if indices.len() == 0 {
            return Ok(LookupRequestResult::NoRequestNeeded("no indices to fetch"));
        }
        let id = SingleLookupReqId { lookup_id, req_id: self.next_id() };
        let message = NetworkMessage::SendRequest {
            peer_id,
            request: RequestType::BlobsByRoot { block_root, indices },
            app_request_id: AppRequestId::Sync(SyncRequestId::SingleBlob { id }),
        };
        if self.network_send.send(message).is_err() {
            return Err(RpcRequestSendError::InternalError("network send error".to_owned()));
        }
        self.blobs_by_root_requests.insert(id, peer_id, true);
        Ok(LookupRequestResult::RequestSent(id.req_id))
    }

    /// Requests the blobs of a block that were not imported yet, from one of the peers.
    ///
    /// Random numbers break ties between peers with the same number of active requests.
    pub fn blob_lookup_request(
        &mut self,
        lookup_id: SingleLookupId,
        lookup_peers: &HashSet<PeerId>,
        block_root: Hash256,
        expected_blobs: usize,
        imported_blob_indexes: &Vec<u64>,
    ) -> (r: Result<LookupRequestResult<Id>, RpcRequestSendError>)
        requires
            old(self).wf(),
            old(self).has_ids(1),
        ensures
            final(self).wf(),
            exists|order: Seq<PeerId>, factors: Seq<u32>|
                fnv_map::is_order(order, lookup_peers@) && factors.len() == order.len()
                    && #[trigger] blobs_looked_up(
                    *old(self),
                    lookup_id,
                    order,
                    factors,
                    block_root,
                    expected_blobs as nat,
                    imported_blob_indexes@,
                    *final(self),
                    lookup_view(r),
                ),
    {
        let order = hash::elements(lookup_peers);
        let factors = peer_choice::random_factors(order.len());
        self.blob_lookup_request_with(
            lookup_id,
            &order,
            &factors,
            block_root,
            expected_blobs,
            imported_blob_indexes,
        )
    }

    /// Requests columns of a block from a peer. `encodable` says whether the request can be put
    /// into the form of the current fork, and else why not.
    pub fn data_columns_by_root_request(
        &mut self,
        requester: DataColumnsByRootRequester,
        peer_id: PeerId,
        block_root: Hash256,
        indices: Vec<ColumnIndex>,
        expect_max_responses: bool,
        encodable: Result<(), &'static str>,
    ) -> (r: Result<LookupRequestResult<DataColumnsByRootRequestId>, &'static str>)
        requires
            old(self).wf(),
            old(self).has_ids(1),
        ensures
            final(self).wf(),
            ({
                let id = DataColumnsByRootRequestId { id: old(self).request_id, requester };
                if encodable is Err || !old(self).network_send.is_open() {
                    &&& r matches Err(e) && (match encodable {
                        Err(why) => e == why,
                        Ok(_) => e@ == "Network channel send Failed"@,
                    })
                    &&& *final(self) == SyncNetworkContext {
                        request_id: (old(self).request_id + 1) as u32,
                        ..*old(self)
                    }
                } else {
                    &&& r matches Ok(LookupRequestResult::RequestSent(sent)) && sent == id
                    &&& *final(self) == SyncNetworkContext {
                        network_send: final(self).network_send,
                        request_id: final(self).request_id,
                        data_columns_by_root_requests: final(self).data_columns_by_root_requests,
                        ..*old(self)
                    }
                    &&& network_context::message_and_number(
                        *old(self),
                        *final(self),
                        MessageView::SendRequest {
                            peer_id,
                            request: RequestView::DataColumnsByRoot { block_root, indices: indices@ },
                            app_request_id: AppRequestId::Sync(SyncRequestId::DataColumnsByRoot(id)),
                        },
                    )
                    &&& final(self).data_columns_by_root_requests@
                        == old(self).data_columns_by_root_requests@.insert(
                        id.number(),
                        network_context::fresh_request(id, peer_id, expect_max_responses),
                    )
                }
            }),
    {
        let id = DataColumnsByRootRequestId { id: self.next_id(), requester };
        match encodable {
            Ok(()) => {},
            Err(why) => return Err(why),
        }
        let message = NetworkMessage::SendRequest {
            peer_id,
            request: RequestType::DataColumnsByRoot { block_root, indices },
            app_request_id: AppRequestId::Sync(SyncRequestId::DataColumnsByRoot(id)),
        };
        match self.send_network_msg(message) {
            Ok(()) => {},
            Err(e) => return Err(e),
        }
        self.data_columns_by_root_requests.insert(id, peer_id, expect_max_responses);
        Ok(LookupRequestResult::RequestSent(id))
    }

    /// Decides which custody columns of a block are to be fetched: those that the node samples and
    /// that were not imported yet. The request for them is the caller's to make.
    pub fn start_custody_lookup(
        &mut self,
        lookup_id: SingleLookupId,
        custody_indexes_imported: &Vec<ColumnIndex>,
    ) -> (r: CustodyLookupStart)
        requires
            old(self).has_ids(1),
        ensures
            ({
                let indices0 = entries_without(
                    old(self).sampling_columns@,
                    custody_indexes_imported@,
                );
                if indices0.len() == 0 {
                    &&& r matches CustodyLookupStart::NoRequestNeeded(why) && why@
                        == "no indices to fetch"@
                    &&& *final(self) == *old(self)
                } else {
                    &&& r matches CustodyLookupStart::Start { id, indices } && id == (
                    SingleLookupReqId { lookup_id, req_id: old(self).request_id }) && indices@
                        == indices0
                    &&& *final(self) == SyncNetworkContext {
                        request_id: (old(self).request_id + 1) as u32,
                        ..*old(self)
                    }
                }
            }),
    {
        let indices = remove_entries(&self.sampling_columns, custody_indexes_imported);
        if indices.len() == 0 {
            return CustodyLookupStart::NoRequestNeeded("no indices to fetch");
        }
        let id = SingleLookupReqId { lookup_id, req_id: self.next_id() };
        CustodyLookupStart::Start { id, indices }
    }

    /// Completes the start of a custody request for a block: a request that could make its first
    /// step is kept under its requester, with the caller's key for it.
    pub fn custody_lookup_request(
        &mut self,
        start: CustodyLookupStart,
        first_step: Result<u64, RpcRequestSendError>,
    ) -> (r: Result<LookupRequestResult<Id>, RpcRequestSendError>)
        ensures
            match start {
                CustodyLookupStart::NoRequestNeeded(why) => r == Ok::<
                    LookupRequestResult<Id>,
                    RpcRequestSendError,
                >(LookupRequestResult::NoRequestNeeded(why)) && *final(self) == *old(self),
                CustodyLookupStart::Start { id, indices: _ } => match first_step {
                    Ok(key) => {
                        &&& r == Ok::<LookupRequestResult<Id>, RpcRequestSendError>(
                            LookupRequestResult::RequestSent(id.req_id),
                        )
                        &&& *final(self) == SyncNetworkContext {
                            custody_by_root_requests: final(self).custody_by_root_requests,
                            ..*old(self)
                        }
                        &&& final(self).custody_by_root_requests@
                            == old(self).custody_by_root_requests@.insert(
                            id.number(),
                            (CustodyRequester { id }, key),
                        )
                    },
                    Err(e) => r == Err::<LookupRequestResult<Id>, RpcRequestSendError>(e)
                        && *final(self) == *old(self),
                },
            },
    {
        match start {
            CustodyLookupStart::NoRequestNeeded(why) => Ok(
                LookupRequestResult::NoRequestNeeded(why),
            ),
            CustodyLookupStart::Start { id, indices: _ } => {
                match first_step {
                    Ok(key) => {
                        let requester = CustodyRequester { id };
                        fnv_map::insert(
                            &mut self.custody_by_root_requests,
                            id.get_number(),
                            (requester, key),
                        );
                        Ok(LookupRequestResult::RequestSent(id.req_id))
                    },
                    Err(e) => Err(e),
                }
            },
        }
    }
}

} // verus!
