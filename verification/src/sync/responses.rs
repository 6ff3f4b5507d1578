//! Taking in what peers respond.
use crate::fnv_map;
use crate::sync::active_requests;
use crate::sync::active_requests::ItemCheck;
use crate::sync::block_components_by_range;
use crate::sync::block_components_by_range::{
    BlockComponentsByRangeRequest, BlockComponentsByRangeRequestResult,
};
use crate::sync::coupling;
use crate::sync::coupling::{BatchPeers, Error, RpcBlock, RpcBlockData, RpcBlockView};
use crate::sync::custody_by_range;
use crate::sync::custody_by_range::{
    ActiveCustodyByRangeRequest, CustodyByRangeRequestResult, CustodyOutcome, CustodyView,
};
use crate::sync::errors::{
    LookupVerifyError, RpcEvent, RpcResponseError, RpcResponseResult, SendErrorProcessor,
};
use crate::sync::ids::{
    BlobsByRangeRequestId, BlocksByRangeRequestId, ComponentsByRangeRequestId,
    CustodyByRangeRequestId, CustodyId, CustodyRequester, DataColumnsByRangeRequestId,
    DataColumnsByRootRequestId, RequestId, SingleLookupReqId,
};
use crate::sync::messages::{
    BlobSidecar, DataColumnSidecar, NetworkSender, PeerAction, SignedBeaconBlock,
};
use crate::sync::network_context;
use crate::sync::network_context::{to_response_error, EngineState, SyncNetworkContext};
use crate::sync::peer_group::PeerGroup;
use crate::types::{ChainSpec, Hash256, Id, Nanos, PeerId};
use vstd::prelude::*;
use vstd::string::*;

verus! {

/// The columns of a custody request, the peers that served them and the latest time at which one
/// was seen, or why they could not be fetched.
pub type CustodyRequestResult = Result<(Vec<DataColumnSidecar>, PeerGroup, Nanos), RpcResponseError>;

/// Whether `after` is the channel `before` with the report that the response calls for: the peer
/// of a response that fails its checks is reported.
pub open spec fn penalized<R>(
    before: NetworkSender,
    after: NetworkSender,
    peer_id: PeerId,
    r: Option<RpcResponseResult<R>>,
) -> bool {
    match r {
        Some(Err(RpcResponseError::VerifyError(e))) => network_context::reported(
            before,
            after,
            peer_id,
            PeerAction::LowToleranceError,
            e.spec_name(),
        ),
        _ => after == before,
    }
}

/// The only block of a response. A response without a block is not valid.
pub open spec fn single_block(r: Option<RpcResponseResult<Seq<SignedBeaconBlock>>>) -> Option<
    RpcResponseResult<SignedBeaconBlock>,
> {
    match r {
        None => None,
        Some(Err(e)) => Some(Err(e)),
        Some(Ok((blocks, seen))) => if blocks.len() > 0 {
            Some(Ok((blocks.last(), seen)))
        } else {
            Some(
                Err(
                    RpcResponseError::VerifyError(
                        LookupVerifyError::NotEnoughResponsesReturned { actual: 0 },
                    ),
                ),
            )
        },
    }
}

/// The last blob listed for `index`.
pub open spec fn last_of_index(blobs: Seq<BlobSidecar>, index: int) -> Option<BlobSidecar>
    decreases blobs.len(),
{
    if blobs.len() == 0 {
        None
    } else if blobs.last().index == index {
        Some(blobs.last())
    } else {
        last_of_index(blobs.drop_last(), index)
    }
}

/// Whether the blob at position `i` is the first whose index is not below `max_len`.
pub open spec fn first_beyond(blobs: Seq<BlobSidecar>, max_len: int, i: int) -> bool {
    &&& 0 <= i < blobs.len()
    &&& blobs[i].index >= max_len
    &&& forall|j: int| 0 <= j < i ==> (#[trigger] blobs[j]).index < max_len
}

/// The blobs by index, with gaps where there is none. Fails on the first blob whose index is out of
/// bounds.
pub fn to_fixed_blob_sidecar_list(blobs: &Vec<BlobSidecar>, max_len: usize) -> (r: Result<
    Vec<Option<BlobSidecar>>,
    LookupVerifyError,
>)
    ensures
        match r {
            Ok(list) => {
                &&& forall|i: int| 0 <= i < blobs@.len() ==> (#[trigger] blobs@[i]).index < max_len
                &&& list@ == Seq::new(max_len as nat, |k: int| last_of_index(blobs@, k))
            },
            Err(e) => exists|i: int| #[trigger]
                first_beyond(blobs@, max_len as int, i) && e == LookupVerifyError::UnrequestedIndex(
                    blobs@[i].index,
                ),
        },
{
    let mut list: Vec<Option<BlobSidecar>> = Vec::new();
    while list.len() < max_len
        invariant
            list@.len() <= max_len,
            forall|k: int| 0 <= k < list@.len() ==> #[trigger] list@[k] is None,
        decreases max_len - list@.len(),
    {
        list.push(None);
    }
    let mut i: usize = 0;
    assert(blobs@.take(0) =~= Seq::empty());
    while i < blobs.len()
        invariant
            i <= blobs@.len(),
            list@.len() == max_len,
            forall|j: int| 0 <= j < i ==> (#[trigger] blobs@[j]).index < max_len,
            forall|k: int|
                0 <= k < max_len ==> #[trigger] list@[k] == last_of_index(blobs@.take(i as int), k),
        decreases blobs@.len() - i,
    {
        let blob = blobs[i];
        assert(blobs@.take(i + 1).drop_last() =~= blobs@.take(i as int));
        if blob.index >= max_len as u64 {
            assert(first_beyond(blobs@, max_len as int, i as int));
            return Err(LookupVerifyError::UnrequestedIndex(blob.index));
        }
        list.set(blob.index as usize, Some(blob));
        i += 1;
    }
    assert(blobs@.take(i as int) =~= blobs@);
    assert(list@ =~= Seq::new(max_len as nat, |k: int| last_of_index(blobs@, k)));
    Ok(list)
}

/// Whether `r` is the blobs of a response by index. A response without blobs is an internal error.
pub open spec fn is_blob_list(
    response: Option<RpcResponseResult<Seq<BlobSidecar>>>,
    spec: ChainSpec,
    r: Option<RpcResponseResult<Vec<Option<BlobSidecar>>>>,
) -> bool {
    match response {
        None => r is None,
        Some(Err(e)) => r matches Some(Err(x)) && x == e,
        Some(Ok((blobs, seen))) => if blobs.len() == 0 {
            r matches Some(Err(RpcResponseError::VerifyError(LookupVerifyError::InternalError(text))))
                && text@ == "Requested blobs for a block that has no blobs"@
        } else {
            let max_len = spec.spec_max_blobs_per_block(spec.spec_epoch_of(blobs[0].slot));
            match r {
                Some(Ok((list, time))) => {
                    &&& time == seen
                    &&& forall|i: int|
                        0 <= i < blobs.len() ==> (#[trigger] blobs[i]).index < max_len
                    &&& list@ == Seq::new(
                        max_len as nat,
                        |k: int| last_of_index(blobs, k),
                    )
                },
                Some(Err(e)) => exists|i: int| #[trigger]
                    first_beyond(blobs, max_len as int, i) && e
                        == RpcResponseError::VerifyError(
                        LookupVerifyError::UnrequestedIndex(blobs[i].index),
                    ),
                None => false,
            }
        },
    }
}

impl SyncNetworkContext {
    /// The part that all responses have in common: reports the peer where its response failed the
    /// checks, and hands the response on.
    fn on_rpc_response_result<R>(&mut self, resp: Option<RpcResponseResult<R>>, peer_id: PeerId) -> (r: Option<
        RpcResponseResult<R>,
    >)
        ensures
            r == resp,
            *final(self) == (SyncNetworkContext { network_send: final(self).network_send, ..*old(self) }),
            penalized(old(self).network_send, final(self).network_send, peer_id, resp),
    {
        if let Some(Err(RpcResponseError::VerifyError(e))) = &resp {
            let name = e.name();
            self.report_peer(peer_id, PeerAction::LowToleranceError, name);
        }
        resp
    }

    /// Takes in an event of a request for a single block.
    pub fn on_single_block_response(
        &mut self,
        id: SingleLookupReqId,
        peer_id: PeerId,
        rpc_event: RpcEvent<SignedBeaconBlock>,
        check: ItemCheck,
        now: Nanos,
    ) -> (r: Option<RpcResponseResult<SignedBeaconBlock>>)
        requires
            old(self).wf(),
        ensures
            final(self).wf(),
            ({
                let (requests, response) = active_requests::respond(
                    old(self).blocks_by_root_requests@,
                    id,
                    rpc_event,
                    check,
                    now,
                );
                &&& final(self).blocks_by_root_requests@ == requests
                &&& r == single_block(response)
            }),
            *final(self) == (SyncNetworkContext {
                network_send: final(self).network_send,
                blocks_by_root_requests: final(self).blocks_by_root_requests,
                ..*old(self)
            }),
            penalized(old(self).network_send, final(self).network_send, peer_id, r),
    {
        let resp = self.blocks_by_root_requests.on_response(id, rpc_event, check, now);
        let resp = match resp {
            None => None,
            Some(Err(e)) => Some(Err(e)),
            Some(Ok((mut blocks, seen_timestamp))) => match blocks.pop() {
                Some(block) => Some(Ok((block, seen_timestamp))),
                None => Some(
                    Err(
                        RpcResponseError::from(
                            LookupVerifyError::NotEnoughResponsesReturned { actual: 0 },
                        ),
                    ),
                ),
            },
        };
        self.on_rpc_response_result(resp, peer_id)
    }

    /// Takes in an event of a request for the blobs of a block.
    pub fn on_single_blob_response(
        &mut self,
        id: SingleLookupReqId,
        peer_id: PeerId,
        rpc_event: RpcEvent<BlobSidecar>,
        check: ItemCheck,
        now: Nanos,
    ) -> (r: Option<RpcResponseResult<Vec<Option<BlobSidecar>>>>)
        requires
            old(self).wf(),
            forall|i: int|
                0 <= i < old(self).network_globals.spec.blob_limits@.len() ==> (
                #[trigger] old(self).network_globals.spec.blob_limits@[i]).max_blobs <= usize::MAX,
        ensures
            final(self).wf(),
            ({
                let (requests, response) = active_requests::respond(
                    old(self).blobs_by_root_requests@,
                    id,
                    rpc_event,
                    check,
                    now,
                );
                let spec = old(self).network_globals.spec;
                &&& final(self).blobs_by_root_requests@ == requests
                &&& is_blob_list(response, spec, r)
            }),
            *final(self) == (SyncNetworkContext {
                network_send: final(self).network_send,
                blobs_by_root_requests: final(self).blobs_by_root_requests,
                ..*old(self)
            }),
            penalized(old(self).network_send, final(self).network_send, peer_id, r),
    {
        let resp = self.blobs_by_root_requests.on_response(id, rpc_event, check, now);
        let resp = match resp {
            None => None,
            Some(Err(e)) => Some(Err(e)),
            Some(Ok((blobs, seen_timestamp))) => {
                if blobs.len() == 0 {
                    Some(
                        Err(
                            RpcResponseError::VerifyError(
                                LookupVerifyError::InternalError(
                                    "Requested blobs for a block that has no blobs".to_owned(),
                                ),
                            ),
                        ),
                    )
                } else {
                    let epoch: u64 = self.network_globals.spec.epoch_of(blobs[0].slot);
                    let max_len: u64 = self.network_globals.spec.max_blobs_per_block(epoch);
                    proof {
                        lemma_limit_fits(self.network_globals.spec.blob_limits@, epoch);
                    }
                    let len: usize = max_len as usize;
                    assert(len as nat == max_len as nat);
                    match to_fixed_blob_sidecar_list(&blobs, len) {
                        Ok(list) => Some(Ok((list, seen_timestamp))),
                        Err(e) => Some(Err(RpcResponseError::from(e))),
                    }
                }
            },
        };
        self.on_rpc_response_result(resp, peer_id)
    }

    /// Takes in an event of a request for columns of a block.
    pub fn on_data_columns_by_root_response(
        &mut self,
        id: DataColumnsByRootRequestId,
        peer_id: PeerId,
        rpc_event: RpcEvent<DataColumnSidecar>,
        check: ItemCheck,
        now: Nanos,
    ) -> (r: Option<RpcResponseResult<Vec<DataColumnSidecar>>>)
        requires
            old(self).wf(),
        ensures
            final(self).wf(),
            (final(self).data_columns_by_root_requests@, active_requests::response_view(r))
                == active_requests::respond(
                old(self).data_columns_by_root_requests@,
                id,
                rpc_event,
                check,
                now,
            ),
            *final(self) == (SyncNetworkContext {
                network_send: final(self).network_send,
                data_columns_by_root_requests: final(self).data_columns_by_root_requests,
                ..*old(self)
            }),
            penalized(old(self).network_send, final(self).network_send, peer_id, r),
    {
        let resp = self.data_columns_by_root_requests.on_response(id, rpc_event, check, now);
        self.on_rpc_response_result(resp, peer_id)
    }

    /// Takes in an event of a request for the blocks of a range.
    ///
    /// An event that completes the request gives its blocks, an error fails it, and any other event
    /// only adds to what has been received.
    pub fn on_blocks_by_range_response(
        &mut self,
        id: BlocksByRangeRequestId,
        peer_id: PeerId,
        rpc_event: RpcEvent<SignedBeaconBlock>,
        check: ItemCheck,
        now: Nanos,
    ) -> (r: Option<RpcResponseResult<Vec<SignedBeaconBlock>>>)
        requires
            old(self).wf(),
        ensures
            final(self).wf(),
            (final(self).blocks_by_range_requests@, active_requests::response_view(r))
                == active_requests::respond(
                old(self).blocks_by_range_requests@,
                id,
                rpc_event,
                check,
                now,
            ),
            *final(self) == (SyncNetworkContext {
                network_send: final(self).network_send,
                blocks_by_range_requests: final(self).blocks_by_range_requests,
                ..*old(self)
            }),
            penalized(old(self).network_send, final(self).network_send, peer_id, r),
    {
        let resp = self.blocks_by_range_requests.on_response(id, rpc_event, check, now);
        self.on_rpc_response_result(resp, peer_id)
    }

    /// Takes in an event of a request for the blobs of a range.
    pub fn on_blobs_by_range_response(
        &mut self,
        id: BlobsByRangeRequestId,
        peer_id: PeerId,
        rpc_event: RpcEvent<BlobSidecar>,
        check: ItemCheck,
        now: Nanos,
    ) -> (r: Option<RpcResponseResult<Vec<BlobSidecar>>>)
        requires
            old(self).wf(),
        ensures
            final(self).wf(),
            (final(self).blobs_by_range_requests@, active_requests::response_view(r))
                == active_requests::respond(
                old(self).blobs_by_range_requests@,
                id,
                rpc_event,
                check,
                now,
            ),
            *final(self) == (SyncNetworkContext {
                network_send: final(self).network_send,
                blobs_by_range_requests: final(self).blobs_by_range_requests,
                ..*old(self)
            }),
            penalized(old(self).network_send, final(self).network_send, peer_id, r),
    {
        let resp = self.blobs_by_range_requests.on_response(id, rpc_event, check, now);
        self.on_rpc_response_result(resp, peer_id)
    }

    /// Takes in an event of a request for columns of a range.
    pub fn on_data_columns_by_range_response(
        &mut self,
        id: DataColumnsByRangeRequestId,
        peer_id: PeerId,
        rpc_event: RpcEvent<DataColumnSidecar>,
        check: ItemCheck,
        now: Nanos,
    ) -> (r: Option<RpcResponseResult<Vec<DataColumnSidecar>>>)
        requires
            old(self).wf(),
        ensures
            final(self).wf(),
            (final(self).data_columns_by_range_requests@, active_requests::response_view(r))
                == active_requests::respond(
                old(self).data_columns_by_range_requests@,
                id,
                rpc_event,
                check,
                now,
            ),
            *final(self) == (SyncNetworkContext {
                network_send: final(self).network_send,
                data_columns_by_range_requests: final(self).data_columns_by_range_requests,
                ..*old(self)
            }),
            penalized(old(self).network_send, final(self).network_send, peer_id, r),
    {
        let resp = self.data_columns_by_range_requests.on_response(id, rpc_event, check, now);
        self.on_rpc_response_result(resp, peer_id)
    }
}

proof fn lemma_limit_fits(limits: Seq<crate::types::BlobLimit>, epoch: u64)
    requires
        forall|i: int| 0 <= i < limits.len() ==> (#[trigger] limits[i]).max_blobs <= usize::MAX,
    ensures
        crate::types::blob_limit_at(limits, epoch) <= usize::MAX,
    decreases limits.len(),
{
    if limits.len() > 0 {
        assert(limits[limits.len() - 1].max_blobs <= usize::MAX);
        assert forall|i: int| 0 <= i < limits.drop_last().len() implies (
        #[trigger] limits.drop_last()[i]).max_blobs <= usize::MAX by {
            assert(limits[i].max_blobs <= usize::MAX);
        }
        lemma_limit_fits(limits.drop_last(), epoch);
    }
}

/// Whether `r` is the answer that the result of a custody step gives the requester: none while the
/// request is active.
pub open spec fn is_custody_answer(
    result: CustodyByRangeRequestResult,
    r: Option<CustodyRequestResult>,
) -> bool {
    match custody_by_range::outcome(result) {
        CustodyOutcome::Active => r is None,
        CustodyOutcome::Failed(cause) => r matches Some(Err(e)) && network_context::is_custody_failure(
            e,
            cause,
        ),
        CustodyOutcome::Done(columns, peers, seen) => r matches Some(Ok((c, p, t))) && c@ == columns
            && p@ == peers && t == seen,
    }
}

/// Whether `cx1` is `cx` with the custody request put back, where it is still active.
pub open spec fn custody_settled(
    cx: SyncNetworkContext,
    number: u64,
    v: CustodyView,
    result: CustodyByRangeRequestResult,
    cx1: SyncNetworkContext,
) -> bool {
    match custody_by_range::outcome(result) {
        CustodyOutcome::Active => {
            &&& cx1 == SyncNetworkContext {
                custody_by_range_requests: cx1.custody_by_range_requests,
                ..cx
            }
            &&& network_context::custody_views(cx1.custody_by_range_requests@)
                == network_context::custody_views(cx.custody_by_range_requests@).insert(number, v)
        },
        _ => cx1 == cx,
    }
}

/// Whether `mid` is `cx` without the custody request `number`.
pub open spec fn without_custody(cx: SyncNetworkContext, number: u64, mid: SyncNetworkContext) -> bool {
    &&& mid == SyncNetworkContext { custody_by_range_requests: mid.custody_by_range_requests, ..cx }
    &&& network_context::custody_views(mid.custody_by_range_requests@)
        == network_context::custody_views(cx.custody_by_range_requests@).remove(number)
}

/// Whether the custody request `id` is active.
pub open spec fn has_custody(cx: SyncNetworkContext, id: CustodyByRangeRequestId) -> bool {
    let m = network_context::custody_views(cx.custody_by_range_requests@);
    m.contains_key(id.number()) && m[id.number()].id == id
}

/// What the response to a request for columns does to the custody request that it is part of.
pub open spec fn custody_responded(
    cx0: SyncNetworkContext,
    id: CustodyByRangeRequestId,
    req_id: DataColumnsByRangeRequestId,
    peer_id: PeerId,
    resp: RpcResponseResult<Vec<DataColumnSidecar>>,
    now: Nanos,
    timestamp_now: Nanos,
    cx1: SyncNetworkContext,
    r: Option<CustodyRequestResult>,
) -> bool {
    let v0 = network_context::custody_views(cx0.custody_by_range_requests@)[id.number()];
    if !has_custody(cx0, id) {
        r is None && cx1 == cx0
    } else {
        exists|
            mid: SyncNetworkContext,
            v: CustodyView,
            cx: SyncNetworkContext,
            result: CustodyByRangeRequestResult,
        |
            {
                &&& without_custody(cx0, id.number(), mid)
                &&& #[trigger] custody_by_range::download_step(
                    v0,
                    mid,
                    peer_id,
                    req_id,
                    resp,
                    now,
                    timestamp_now,
                    v,
                    cx,
                    result,
                )
                &&& custody_settled(cx, id.number(), v, result, cx1)
                &&& is_custody_answer(result, r)
            }
    }
}

/// What making progress on the custody request `number` does.
pub open spec fn custody_continued(
    cx0: SyncNetworkContext,
    number: u64,
    now: Nanos,
    timestamp_now: Nanos,
    cx1: SyncNetworkContext,
    r: Option<CustodyRequestResult>,
) -> bool {
    let v0 = network_context::custody_views(cx0.custody_by_range_requests@)[number];
    exists|
        mid: SyncNetworkContext,
        v: CustodyView,
        cx: SyncNetworkContext,
        result: CustodyByRangeRequestResult,
    |
        {
            &&& without_custody(cx0, number, mid)
            &&& #[trigger] custody_by_range::progresses(
                v0,
                mid,
                now,
                timestamp_now,
                v,
                cx,
                result,
            )
            &&& custody_settled(cx, number, v, result, cx1)
            &&& is_custody_answer(result, r)
        }
}

/// The number of columns of the custody requests in `order`.
pub open spec fn columns_total(m: Map<u64, CustodyView>, order: Seq<u64>) -> nat
    decreases order.len(),
{
    if order.len() == 0 {
        0
    } else {
        m[order[0]].columns.len() + columns_total(m, order.drop_first())
    }
}

/// The answers that were given, with the identifiers of their requests.
pub open spec fn answers(
    m: Map<u64, CustodyView>,
    order: Seq<u64>,
    given: Seq<Option<CustodyRequestResult>>,
) -> Seq<(CustodyByRangeRequestId, CustodyRequestResult)>
    decreases given.len(),
{
    if given.len() == 0 {
        Seq::empty()
    } else {
        let earlier = answers(m, order, given.drop_last());
        match given.last() {
            Some(result) => earlier.push((m[order[given.len() - 1]].id, result)),
            None => earlier,
        }
    }
}

/// What making progress on all custody requests does: one after the other, in some order. `trace`
/// lists the contexts before, between and after the steps.
pub open spec fn all_continued(
    cx0: SyncNetworkContext,
    order: Seq<u64>,
    trace: Seq<SyncNetworkContext>,
    given: Seq<Option<CustodyRequestResult>>,
    now: Nanos,
    timestamp_now: Nanos,
    cx1: SyncNetworkContext,
    r: Seq<(CustodyByRangeRequestId, CustodyRequestResult)>,
) -> bool {
    let m = network_context::custody_views(cx0.custody_by_range_requests@);
    &&& fnv_map::is_order(order, m.dom())
    &&& trace.len() == order.len() + 1
    &&& given.len() == order.len()
    &&& trace[0] == cx0
    &&& trace.last() == cx1
    &&& forall|i: int|
        0 <= i < order.len() ==> custody_continued(
            #[trigger] trace[i],
            order[i],
            now,
            timestamp_now,
            trace[i + 1],
            given[i],
        )
    &&& r == answers(m, order, given)
}

impl SyncNetworkContext {
    /// Puts an active custody request back, and turns the result of its step into the answer.
    fn handle_custody_by_range_result(
        &mut self,
        id: CustodyByRangeRequestId,
        request: ActiveCustodyByRangeRequest,
        result: CustodyByRangeRequestResult,
    ) -> (r: Option<CustodyRequestResult>)
        requires
            old(self).wf(),
        ensures
            final(self).wf(),
            custody_settled(*old(self), id.number(), request@, result, *final(self)),
            is_custody_answer(result, r),
    {
        self.settle_custody(id.get_number(), request, result)
    }

    /// Takes in the response to a request for columns that is part of a custody request, and makes
    /// progress on it. An answer completes the custody request.
    pub fn on_custody_by_range_response(
        &mut self,
        id: CustodyByRangeRequestId,
        req_id: DataColumnsByRangeRequestId,
        peer_id: PeerId,
        resp: RpcResponseResult<Vec<DataColumnSidecar>>,
        now: Nanos,
        timestamp_now: Nanos,
    ) -> (r: Option<CustodyRequestResult>)
        requires
            old(self).wf(),
            has_custody(*old(self), id) ==> old(self).has_ids(
                network_context::custody_views(
                    old(self).custody_by_range_requests@,
                )[id.number()].columns.len() as int,
            ),
        ensures
            final(self).wf(),
            custody_responded(
                *old(self),
                id,
                req_id,
                peer_id,
                resp,
                now,
                timestamp_now,
                *final(self),
                r,
            ),
    {
        let number: u64 = id.get_number();
        let ghost cx0 = *self;
        let ghost m = network_context::custody_views(self.custody_by_range_requests@);
        assert(m.contains_key(number) == self.custody_by_range_requests@.contains_key(number));
        let known = match fnv_map::get(&self.custody_by_range_requests, number) {
            Some(request) => request.request_id() == id,
            None => false,
        };
        if !known {
            return None;
        }
        let mut request = match fnv_map::remove(&mut self.custody_by_range_requests, number) {
            Some(request) => request,
            None => return None,
        };
        let ghost mid = *self;
        proof {
            assert(request@ == m[number]);
            assert(network_context::custody_views(mid.custody_by_range_requests@) =~= m.remove(number));
            assert(without_custody(cx0, number, mid));
        }
        let result = request.on_data_column_downloaded(
            peer_id,
            req_id,
            resp,
            self,
            now,
            timestamp_now,
        );
        assert(custody_by_range::download_step(
            m[number],
            mid,
            peer_id,
            req_id,
            resp,
            now,
            timestamp_now,
            request@,
            *self,
            result,
        ));
        self.handle_custody_by_range_result(id, request, result)
    }

    /// Makes progress on all custody requests for ranges, some of which may have waited for peers.
    /// Returns the answers of those that came to an end.
    ///
    /// The order of the requests is that of a hash table.
    pub fn continue_custody_by_range_requests(&mut self, now: Nanos, timestamp_now: Nanos) -> (r: Vec<
        (CustodyByRangeRequestId, CustodyRequestResult),
    >)
        requires
            old(self).wf(),
            forall|order: Seq<u64>| #[trigger]
                fnv_map::is_order(order, old(self).custody_by_range_requests@.dom()) ==> old(
                    self).has_ids(
                    columns_total(
                        network_context::custody_views(old(self).custody_by_range_requests@),
                        order,
                    ) as int,
                ),
        ensures
            final(self).wf(),
            exists|
                order: Seq<u64>,
                trace: Seq<SyncNetworkContext>,
                given: Seq<Option<CustodyRequestResult>>,
            | #[trigger]
                all_continued(
                    *old(self),
                    order,
                    trace,
                    given,
                    now,
                    timestamp_now,
                    *final(self),
                    r@,
                ),
    {
        let ghost cx0 = *self;
        let ghost m = network_context::custody_views(self.custody_by_range_requests@);
        let order = fnv_map::keys(&self.custody_by_range_requests);
        assert(m.dom() =~= self.custody_by_range_requests@.dom());
        let ghost mut trace: Seq<SyncNetworkContext> = seq![*self];
        let ghost mut given: Seq<Option<CustodyRequestResult>> = Seq::empty();
        let mut r: Vec<(CustodyByRangeRequestId, CustodyRequestResult)> = Vec::new();
        assert(order@.skip(0) =~= order@);
        proof {
            assert forall|j: int| 0 <= j < order@.len() implies waits_unchanged(
                *self,
                m,
                #[trigger] order@[j],
            ) by {
                assert(order@.contains(order@[j]));
                assert(m.dom().contains(order@[j]));
            }
        }
        let mut i: usize = 0;
        while i < order.len()
            invariant
                i <= order@.len(),
                cx0 == *old(self),
                m == network_context::custody_views(cx0.custody_by_range_requests@),
                fnv_map::is_order(order@, m.dom()),
                self.wf(),
                trace.len() == i + 1,
                given.len() == i,
                trace[0] == cx0,
                trace.last() == *self,
                forall|j: int|
                    0 <= j < i ==> custody_continued(
                        #[trigger] trace[j],
                        order@[j],
                        now,
                        timestamp_now,
                        trace[j + 1],
                        given[j],
                    ),
                r@ == answers(m, order@, given),
                self.has_ids(columns_total(m, order@.skip(i as int)) as int),
                forall|j: int|
                    i <= j < order@.len() ==> waits_unchanged(
                        *self,
                        m,
                        #[trigger] order@[j],
                    ),
            decreases order@.len() - i,
        {
            let number: u64 = order[i];
            let ghost cx_now = *self;
            let ghost given_before = given;
            let ghost views_now = network_context::custody_views(self.custody_by_range_requests@);
            assert(waits_unchanged(*self, m, order@[i as int]));
            assert(views_now.contains_key(number) == self.custody_by_range_requests@.contains_key(
                number,
            ));
            assert(order@.skip(i as int).drop_first() =~= order@.skip(i + 1));
            assert(order@.skip(i as int)[0] == number);
            match fnv_map::remove(&mut self.custody_by_range_requests, number) {
                Some(mut request) => {
                    let ghost mid = *self;
                    let ghost v0 = request@;
                    proof {
                        assert(v0 == m[number]);
                        assert(network_context::custody_views(mid.custody_by_range_requests@)
                            =~= network_context::custody_views(
                            cx_now.custody_by_range_requests@,
                        ).remove(number));
                    }
                    let id = request.request_id();
                    let result = request.continue_requests(self, now, timestamp_now);
                    let ghost cx = *self;
                    proof {
                        assert(custody_by_range::progresses(
                            v0,
                            mid,
                            now,
                            timestamp_now,
                            request@,
                            cx,
                            result,
                        ));
                        custody_by_range::law_step_touches_only_column_requests(
                            v0,
                            mid,
                            now,
                            timestamp_now,
                            request@,
                            cx,
                            result,
                        );
                    }
                    let answer = self.settle_custody(number, request, result);
                    proof {
                        assert(custody_continued(
                            cx_now,
                            number,
                            now,
                            timestamp_now,
                            *self,
                            answer,
                        ));
                        trace = trace.push(*self);
                        given = given.push(answer);
                        assert(given.drop_last() =~= given_before);
                        let views = network_context::custody_views(self.custody_by_range_requests@);
                        assert(cx.custody_by_range_requests == mid.custody_by_range_requests);
                        assert forall|j: int| i + 1 <= j < order@.len() implies waits_unchanged(
                            *self,
                            m,
                            #[trigger] order@[j],
                        ) by {
                            assert(waits_unchanged(cx_now, m, order@[j]));
                            assert(order@[j] != order@[i as int]);
                            assert(views.contains_key(order@[j]) && views[order@[j]]
                                == views_now[order@[j]]);
                        }
                    }
                    match answer {
                        Some(answer) => {
                            r.push((id, answer));
                        },
                        None => {},
                    }
                },
                None => {},
            }
            i += 1;
        }
        assert(all_continued(cx0, order@, trace, given, now, timestamp_now, *self, r@));
        r
    }

    /// Puts an active custody request back under its number, and turns the result of its step into
    /// the answer.
    fn settle_custody(
        &mut self,
        number: u64,
        request: ActiveCustodyByRangeRequest,
        result: CustodyByRangeRequestResult,
    ) -> (r: Option<CustodyRequestResult>)
        requires
            old(self).wf(),
        ensures
            final(self).wf(),
            custody_settled(*old(self), number, request@, result, *final(self)),
            is_custody_answer(result, r),
    {
        match result {
            Ok(Some((columns, peers, seen))) => Some(Ok((columns, peers, seen))),
            Err(e) => Some(Err(to_response_error(e))),
            Ok(None) => {
                let ghost before = self.custody_by_range_requests@;
                let ghost v = request@;
                fnv_map::insert(&mut self.custody_by_range_requests, number, request);
                assert(network_context::custody_views(self.custody_by_range_requests@)
                    =~= network_context::custody_views(before).insert(number, v));
                None
            },
        }
    }
}

/// Whether the custody request `number` still waits in `cx` as it stood in `m`.
spec fn waits_unchanged(cx: SyncNetworkContext, m: Map<u64, CustodyView>, number: u64) -> bool {
    let views = network_context::custody_views(cx.custody_by_range_requests@);
    views.contains_key(number) && views[number] == m[number]
}

/// A part of the components of a range: blocks, blobs or custody columns, and who sent it.
pub enum RangeBlockComponent {
    Block(BlocksByRangeRequestId, RpcResponseResult<Vec<SignedBeaconBlock>>, PeerId),
    Blob(BlobsByRangeRequestId, RpcResponseResult<Vec<BlobSidecar>>, PeerId),
    CustodyColumns(CustodyByRangeRequestId, RpcResponseResult<Vec<DataColumnSidecar>>, PeerGroup),
}

/// The state that a component leads to, the text of the error that it causes, or the failure that
/// it reports.
pub open spec fn component_state(q: BlockComponentsByRangeRequest, component: RangeBlockComponent) -> Result<
    Result<block_components_by_range::State, Seq<char>>,
    RpcResponseError,
> {
    match component {
        RangeBlockComponent::Block(req_id, resp, peer_id) => match resp {
            Ok((blocks, _)) => Ok(
                block_components_by_range::blocks_finished(q.state, req_id, blocks, peer_id),
            ),
            Err(e) => Err(e),
        },
        RangeBlockComponent::Blob(req_id, resp, peer_id) => match resp {
            Ok((blobs, _)) => Ok(
                block_components_by_range::blobs_finished(q.state, req_id, blobs, peer_id),
            ),
            Err(e) => Err(e),
        },
        RangeBlockComponent::CustodyColumns(req_id, resp, peers) => match resp {
            Ok((columns, _)) => Ok(
                block_components_by_range::custody_finished(q.state, req_id, columns, peers),
            ),
            Err(e) => Err(e),
        },
    }
}

/// The blocks of a range with their data and the peers they came from, or why there are none.
pub type ComponentsAnswer = Result<(Vec<RpcBlock>, BatchPeers), RpcResponseError>;

/// The answer that a step gives the requester: none while the request is active.
pub open spec fn components_answer(r: BlockComponentsByRangeRequestResult) -> Option<ComponentsAnswer> {
    match r {
        Ok(Some(done)) => Some(Ok(done)),
        Ok(None) => None,
        Err(Error::InternalError(e)) => Some(Err(RpcResponseError::InternalError(e))),
    }
}

/// Whether the request `id` for components is active.
pub open spec fn has_components(cx: SyncNetworkContext, id: ComponentsByRangeRequestId) -> bool {
    let m = cx.block_components_by_range_requests@;
    m.contains_key(id.number()) && m[id.number()].id == id
}

/// The blocks that taking in a component couples with columns: none unless it completes a request
/// for blocks with columns.
pub open spec fn offered(
    cx: SyncNetworkContext,
    id: ComponentsByRangeRequestId,
    component: RangeBlockComponent,
) -> Seq<RpcBlockView> {
    let q = cx.block_components_by_range_requests@[id.number()];
    if !has_components(cx, id) {
        Seq::empty()
    } else {
        match component_state(q, component) {
            Ok(Ok(state)) => block_components_by_range::offered_blocks(state, cx.sampling_columns@),
            _ => Seq::empty(),
        }
    }
}

/// What a component does to the request that it is part of.
pub open spec fn components_responded(
    cx0: SyncNetworkContext,
    id: ComponentsByRangeRequestId,
    component: RangeBlockComponent,
    refusals: Seq<Option<String>>,
    now: Nanos,
    timestamp_now: Nanos,
    cx1: SyncNetworkContext,
    r: Option<ComponentsAnswer>,
) -> bool {
    let q0 = cx0.block_components_by_range_requests@[id.number()];
    if !has_components(cx0, id) {
        r is None && cx1 == cx0
    } else {
        match component_state(q0, component) {
            Err(e) => r == Some(Err::<(Vec<RpcBlock>, BatchPeers), RpcResponseError>(e))
                && without_components(cx0, id.number(), cx1),
            Ok(next) => exists|
                mid: SyncNetworkContext,
                q: BlockComponentsByRangeRequest,
                cx: SyncNetworkContext,
                result: BlockComponentsByRangeRequestResult,
            |
                {
                    &&& without_components(cx0, id.number(), mid)
                    &&& #[trigger] block_components_by_range::response_progress(
                        q0,
                        next,
                        mid,
                        refusals,
                        now,
                        timestamp_now,
                        q,
                        cx,
                        result,
                    )
                    &&& r == components_answer(result)
                    &&& if r is None {
                        &&& cx1 == SyncNetworkContext {
                            block_components_by_range_requests: cx1.block_components_by_range_requests,
                            ..cx
                        }
                        &&& cx1.block_components_by_range_requests@
                            == cx.block_components_by_range_requests@.insert(id.number(), q)
                    } else {
                        cx1 == cx
                    }
                },
        }
    }
}

/// Whether `mid` is `cx` without the request `number` for components.
pub open spec fn without_components(cx: SyncNetworkContext, number: u64, mid: SyncNetworkContext) -> bool {
    &&& mid == SyncNetworkContext {
        block_components_by_range_requests: mid.block_components_by_range_requests,
        ..cx
    }
    &&& mid.block_components_by_range_requests@ == cx.block_components_by_range_requests@.remove(
        number,
    )
}

/// A component that completes a request for blocks with columns ends the request: with the offered
/// blocks where none is refused, otherwise with the reason of the first refusal.
pub proof fn law_offered_blocks_decide_the_answer(
    cx0: SyncNetworkContext,
    id: ComponentsByRangeRequestId,
    component: RangeBlockComponent,
    refusals: Seq<Option<String>>,
    now: Nanos,
    timestamp_now: Nanos,
    cx1: SyncNetworkContext,
    r: Option<ComponentsAnswer>,
)
    requires
        components_responded(cx0, id, component, refusals, now, timestamp_now, cx1, r),
        offered(cx0, id, component).len() > 0,
    ensures
        match coupling::first_refusal(refusals, offered(cx0, id, component).len()) {
            Some(reason) => r matches Some(Err(RpcResponseError::InternalError(e))) && e@ == reason,
            None => r matches Some(Ok((blocks, _))) && coupling::rpc_views(blocks@) == offered(
                cx0,
                id,
                component,
            ),
        },
        without_components(cx0, id.number(), cx1),
{
}

impl SyncNetworkContext {
    /// The blocks, with their columns, that [`Self::on_block_components_by_range_response`] couples
    /// when it takes in this component. The caller tries to build each of them, and says there which
    /// are refused.
    pub fn offered_blocks(
        &self,
        id: ComponentsByRangeRequestId,
        range_block_component: &RangeBlockComponent,
    ) -> (r: Vec<RpcBlock>)
        ensures
            coupling::rpc_views(r@) == offered(*self, id, *range_block_component),
    {
        if let Some(request) = fnv_map::get(
            &self.block_components_by_range_requests,
            id.get_number(),
        ) {
            if request.id == id {
                match range_block_component {
                    RangeBlockComponent::Block(req_id, Ok((blocks, _)), _) => {
                        return request.offered_with_blocks(*req_id, blocks, &self.sampling_columns);
                    },
                    RangeBlockComponent::CustodyColumns(req_id, Ok((columns, _)), _) => {
                        return request.offered_with_columns(
                            *req_id,
                            columns,
                            &self.sampling_columns,
                        );
                    },
                    _ => {},
                }
            }
        }
        let none: Vec<RpcBlock> = Vec::new();
        assert(coupling::rpc_views(none@) =~= Seq::empty());
        none
    }

    /// Takes in blocks, blobs or custody columns of a range, and makes progress on the request that
    /// they are part of. An answer completes the request: the coupled blocks, or the error that
    /// failed it.
    ///
    /// `refusals` says which of the blocks of [`Self::offered_blocks`] cannot be built, and why.
    pub fn on_block_components_by_range_response(
        &mut self,
        id: ComponentsByRangeRequestId,
        range_block_component: RangeBlockComponent,
        refusals: &Vec<Option<String>>,
        now: Nanos,
        timestamp_now: Nanos,
    ) -> (r: Option<ComponentsAnswer>)
        requires
            old(self).wf(),
            old(self).has_ids(old(self).sampling_columns@.len() + 1int),
        ensures
            final(self).wf(),
            components_responded(
                *old(self),
                id,
                range_block_component,
                refusals@,
                now,
                timestamp_now,
                *final(self),
                r,
            ),
    {
        let number: u64 = id.get_number();
        let ghost cx0 = *self;
        let known = match fnv_map::get(&self.block_components_by_range_requests, number) {
            Some(request) => request.id == id,
            None => false,
        };
        if !known {
            return None;
        }
        let mut request = match fnv_map::remove(
            &mut self.block_components_by_range_requests,
            number,
        ) {
            Some(request) => request,
            None => return None,
        };
        let ghost mid = *self;
        let ghost q0 = request;
        let ghost next = component_state(q0, range_block_component);
        assert(without_components(cx0, number, mid));
        let result = match range_block_component {
            RangeBlockComponent::Block(req_id, resp, peer_id) => match resp {
                Ok((blocks, _)) => request.on_blocks_by_range_result(
                    req_id,
                    blocks,
                    peer_id,
                    self,
                    refusals,
                    now,
                    timestamp_now,
                ),
                Err(e) => return Some(Err(e)),
            },
            RangeBlockComponent::Blob(req_id, resp, peer_id) => match resp {
                Ok((blobs, _)) => request.on_blobs_by_range_result(
                    req_id,
                    blobs,
                    peer_id,
                    self,
                    refusals,
                    now,
                    timestamp_now,
                ),
                Err(e) => return Some(Err(e)),
            },
            RangeBlockComponent::CustodyColumns(req_id, resp, peers) => match resp {
                Ok((custody_columns, _)) => request.on_custody_by_range_result(
                    req_id,
                    custody_columns,
                    peers,
                    self,
                    refusals,
                    now,
                    timestamp_now,
                ),
                Err(e) => return Some(Err(e)),
            },
        };
        assert(block_components_by_range::response_progress(
            q0,
            next->Ok_0,
            mid,
            refusals@,
            now,
            timestamp_now,
            request,
            *self,
            result,
        ));
        match result {
            Ok(Some(done)) => Some(Ok(done)),
            Err(e) => Some(Err(RpcResponseError::from(e))),
            Ok(None) => {
                fnv_map::insert(&mut self.block_components_by_range_requests, number, request);
                None
            },
        }
    }

    /// The caller's key for the custody request of a block, where it is active.
    pub fn custody_by_root_request(&self, requester: CustodyRequester) -> (r: Option<u64>)
        ensures
            r == self.spec_custody_by_root(requester),
    {
        match fnv_map::get(&self.custody_by_root_requests, requester.id.get_number()) {
            Some((id, key)) => {
                if *id == requester {
                    Some(*key)
                } else {
                    None
                }
            },
            None => None,
        }
    }

    /// The caller's key for the custody request of a block, where it is active.
    pub open spec fn spec_custody_by_root(self, requester: CustodyRequester) -> Option<u64> {
        let m = self.custody_by_root_requests@;
        let number = requester.id.number();
        if m.contains_key(number) && m[number].0 == requester {
            Some(m[number].1)
        } else {
            None
        }
    }

    /// Takes in the result of a step of the custody request of a block: an answer completes the
    /// request. The step of a request that is not active is ignored.
    pub fn on_custody_by_root_response(&mut self, id: CustodyId, result: Option<CustodyRequestResult>) -> (r: Option<
        CustodyRequestResult,
    >)
        ensures
            custody_by_root_handled(*old(self), id.requester, result, *final(self), r),
    {
        if self.custody_by_root_request(id.requester).is_none() {
            return None;
        }
        self.handle_custody_by_root_result(id.requester, result)
    }

    /// Removes the custody request of a block that has come to an end.
    fn handle_custody_by_root_result(
        &mut self,
        requester: CustodyRequester,
        result: Option<CustodyRequestResult>,
    ) -> (r: Option<CustodyRequestResult>)
        requires
            old(self).spec_custody_by_root(requester) is Some,
        ensures
            custody_by_root_handled(*old(self), requester, result, *final(self), r),
    {
        if result.is_some() {
            fnv_map::remove(&mut self.custody_by_root_requests, requester.id.get_number());
        }
        result
    }

    /// Takes in the results of a step of each of the given custody requests, and returns the answers
    /// of those that came to an end.
    pub fn continue_custody_by_root_requests(
        &mut self,
        results: Vec<(CustodyRequester, Option<CustodyRequestResult>)>,
    ) -> (r: Vec<(CustodyRequester, CustodyRequestResult)>)
        ensures
            exists|trace: Seq<SyncNetworkContext>, given: Seq<Option<CustodyRequestResult>>| #[trigger]
                by_root_handled(*old(self), results@, trace, given, *final(self), r@),
    {
        let mut r: Vec<(CustodyRequester, CustodyRequestResult)> = Vec::new();
        let ghost all = results@;
        let ghost mut trace: Seq<SyncNetworkContext> = seq![*self];
        let ghost mut given: Seq<Option<CustodyRequestResult>> = Seq::empty();
        let mut rest = results;
        assert(all.skip(0) =~= all);
        while rest.len() > 0
            invariant
                given.len() + rest@.len() == all.len(),
                rest@ == all.skip(given.len() as int),
                trace.len() == given.len() + 1,
                trace[0] == *old(self),
                trace.last() == *self,
                forall|i: int|
                    0 <= i < given.len() ==> custody_by_root_handled(
                        #[trigger] trace[i],
                        all[i].0,
                        all[i].1,
                        trace[i + 1],
                        given[i],
                    ),
                r@ == root_answers(all, given),
            decreases rest@.len(),
        {
            let ghost k = given.len() as int;
            let ghost given_before = given;
            let (requester, result) = rest.remove(0);
            assert(rest@ =~= all.skip(k + 1));
            let answer = self.on_custody_by_root_response(CustodyId { requester }, result);
            proof {
                trace = trace.push(*self);
                given = given.push(answer);
                assert(given.drop_last() =~= given_before);
            }
            match answer {
                Some(answer) => {
                    r.push((requester, answer));
                },
                None => {},
            }
        }
        assert(by_root_handled(*old(self), all, trace, given, *self, r@));
        r
    }
}

/// What the result of a step of the custody request of a block does.
pub open spec fn custody_by_root_handled(
    cx0: SyncNetworkContext,
    requester: CustodyRequester,
    result: Option<CustodyRequestResult>,
    cx1: SyncNetworkContext,
    r: Option<CustodyRequestResult>,
) -> bool {
    if cx0.spec_custody_by_root(requester) is None {
        r is None && cx1 == cx0
    } else if result is None {
        r is None && cx1 == cx0
    } else {
        &&& r == result
        &&& cx1 == SyncNetworkContext { custody_by_root_requests: cx1.custody_by_root_requests, ..cx0 }
        &&& cx1.custody_by_root_requests@ == cx0.custody_by_root_requests@.remove(
            requester.id.number(),
        )
    }
}

/// The answers that were given, with their requesters.
pub open spec fn root_answers(
    results: Seq<(CustodyRequester, Option<CustodyRequestResult>)>,
    given: Seq<Option<CustodyRequestResult>>,
) -> Seq<(CustodyRequester, CustodyRequestResult)>
    decreases given.len(),
{
    if given.len() == 0 {
        Seq::empty()
    } else {
        let earlier = root_answers(results, given.drop_last());
        match given.last() {
            Some(answer) => earlier.push((results[given.len() - 1].0, answer)),
            None => earlier,
        }
    }
}

/// What the results of steps do, one after the other. `trace` lists the contexts before, between and
/// after them.
pub open spec fn by_root_handled(
    cx0: SyncNetworkContext,
    results: Seq<(CustodyRequester, Option<CustodyRequestResult>)>,
    trace: Seq<SyncNetworkContext>,
    given: Seq<Option<CustodyRequestResult>>,
    cx1: SyncNetworkContext,
    r: Seq<(CustodyRequester, CustodyRequestResult)>,
) -> bool {
    &&& trace.len() == results.len() + 1
    &&& given.len() == results.len()
    &&& trace[0] == cx0
    &&& trace.last() == cx1
    &&& forall|i: int|
        0 <= i < results.len() ==> custody_by_root_handled(
            #[trigger] trace[i],
            results[i].0,
            results[i].1,
            trace[i + 1],
            given[i],
        )
    &&& r == root_answers(results, given)
}

/// What is handed to the beacon processor.
#[derive(Clone, Copy, PartialEq, Eq, Structural, Debug)]
pub enum BlockProcessType {
    SingleBlock { id: Id },
    SingleBlob { id: Id },
    SingleCustodyColumn(Id),
}

/// Work for the beacon processor.
pub enum ProcessorWork {
    RpcBlock {
        block_root: Hash256,
        block: RpcBlock,
        seen_timestamp: Nanos,
        process_type: BlockProcessType,
    },
    RpcBlobs {
        block_root: Hash256,
        blobs: Vec<Option<BlobSidecar>>,
        seen_timestamp: Nanos,
        process_type: BlockProcessType,
    },
    RpcCustodyColumns {
        block_root: Hash256,
        custody_columns: Vec<DataColumnSidecar>,
        seen_timestamp: Nanos,
        process_type: BlockProcessType,
    },
}

/// What a send to the beacon processor gives, by whether it took the work.
#[verifier::allow_in_spec]
pub fn processor_send_result(accepted: bool) -> Result<(), SendErrorProcessor>
    returns
        (if accepted {
            Ok::<(), SendErrorProcessor>(())
        } else {
            Err(SendErrorProcessor::SendError)
        }),
{
    if accepted {
        Ok(())
    } else {
        Err(SendErrorProcessor::SendError)
    }
}

impl SyncNetworkContext {
    /// Whether the beacon processor may be used: only while the execution engine is online.
    pub fn beacon_processor_if_enabled(&self) -> (r: bool)
        ensures
            r == (self.execution_engine_state == EngineState::Online),
    {
        self.is_execution_engine_online()
    }

    /// The work that processes a block, unless the processor may not be used.
    ///
    /// While the processor may be used, the configuration must give a sampling size for the custody
    /// group count at the block's slot.
    pub fn send_block_for_processing(
        &self,
        id: Id,
        block_root: Hash256,
        block: SignedBeaconBlock,
        seen_timestamp: Nanos,
    ) -> (r: Result<ProcessorWork, SendErrorProcessor>)
        requires
            self.execution_engine_state == EngineState::Online
                ==> self.network_globals.cgc().spec_at_slot(block.slot)
                < self.network_globals.spec.sampling_sizes@.len(),
            self.execution_engine_state == EngineState::Online
                ==> self.network_globals.spec.sampling_sizes@[self.network_globals.cgc().spec_at_slot(
                block.slot,
            ) as int] <= usize::MAX,
        ensures
            self.execution_engine_state != EngineState::Online ==> r == Err::<
                ProcessorWork,
                SendErrorProcessor,
            >(SendErrorProcessor::ProcessorNotAvailable),
            self.execution_engine_state == EngineState::Online ==> r == Ok::<
                ProcessorWork,
                SendErrorProcessor,
            >(
                ProcessorWork::RpcBlock {
                    block_root,
                    block: RpcBlock {
                        block_root: Some(block_root),
                        block,
                        data: RpcBlockData::NoData {
                            custody_columns_count: self.network_globals.spec.sampling_sizes@[self.network_globals.cgc().spec_at_slot(
                                block.slot,
                            ) as int] as usize,
                        },
                    },
                    seen_timestamp,
                    process_type: BlockProcessType::SingleBlock { id },
                },
            ),
    {
        if !self.beacon_processor_if_enabled() {
            return Err(SendErrorProcessor::ProcessorNotAvailable);
        }
        let custody_columns_count: usize = self.network_globals.custody_columns_count(
            block.slot,
        ) as usize;
        let block = RpcBlock {
            block_root: Some(block_root),
            block,
            data: RpcBlockData::NoData { custody_columns_count },
        };
        Ok(
            ProcessorWork::RpcBlock {
                block_root,
                block,
                seen_timestamp,
                process_type: BlockProcessType::SingleBlock { id },
            },
        )
    }

    /// The work that processes the blobs of a block, unless the processor may not be used.
    pub fn send_blobs_for_processing(
        &self,
        id: Id,
        block_root: Hash256,
        blobs: Vec<Option<BlobSidecar>>,
        seen_timestamp: Nanos,
    ) -> (r: Result<ProcessorWork, SendErrorProcessor>)
        ensures
            r == (if self.execution_engine_state == EngineState::Online {
                Ok(
                    ProcessorWork::RpcBlobs {
                        block_root,
                        blobs,
                        seen_timestamp,
                        process_type: BlockProcessType::SingleBlob { id },
                    },
                )
            } else {
                Err(SendErrorProcessor::ProcessorNotAvailable)
            }),
    {
        if !self.beacon_processor_if_enabled() {
            return Err(SendErrorProcessor::ProcessorNotAvailable);
        }
        Ok(
            ProcessorWork::RpcBlobs {
                block_root,
                blobs,
                seen_timestamp,
                process_type: BlockProcessType::SingleBlob { id },
            },
        )
    }

    /// The work that processes the custody columns of a block, unless the processor may not be used.
    pub fn send_custody_columns_for_processing(
        &self,
        _id: Id,
        block_root: Hash256,
        custody_columns: Vec<DataColumnSidecar>,
        seen_timestamp: Nanos,
        process_type: BlockProcessType,
    ) -> (r: Result<ProcessorWork, SendErrorProcessor>)
        ensures
            r == (if self.execution_engine_state == EngineState::Online {
                Ok(
                    ProcessorWork::RpcCustodyColumns {
                        block_root,
                        custody_columns,
                        seen_timestamp,
                        process_type,
                    },
                )
            } else {
                Err(SendErrorProcessor::ProcessorNotAvailable)
            }),
    {
        if !self.beacon_processor_if_enabled() {
            return Err(SendErrorProcessor::ProcessorNotAvailable);
        }
        Ok(
            ProcessorWork::RpcCustodyColumns {
                block_root,
                custody_columns,
                seen_timestamp,
                process_type,
            },
        )
    }

    /// The number of active requests of each kind, in the order of the gauges that show them:
    /// blocks, blobs and columns by root, the same by range, custody by root, and components by
    /// range.
    pub fn register_metrics(&self) -> (r: [(&'static str, usize); 8])
        ensures
            r@.len() == 8,
            r[0].0@ == "blocks_by_root"@ && r[0].1 == self.blocks_by_root_requests@.len(),
            r[1].0@ == "blobs_by_root"@ && r[1].1 == self.blobs_by_root_requests@.len(),
            r[2].0@ == "data_columns_by_root"@ && r[2].1 == self.data_columns_by_root_requests@.len(),
            r[3].0@ == "blocks_by_range"@ && r[3].1 == self.blocks_by_range_requests@.len(),
            r[4].0@ == "blobs_by_range"@ && r[4].1 == self.blobs_by_range_requests@.len(),
            r[5].0@ == "data_columns_by_range"@ && r[5].1 == self.data_columns_by_range_requests@.len(),
            r[6].0@ == "custody_by_root"@ && r[6].1 == self.custody_by_root_requests@.len(),
            r[7].0@ == "block_components_by_range"@ && r[7].1
                == self.block_components_by_range_requests@.len(),
    {
        [
            ("blocks_by_root", self.blocks_by_root_requests.len()),
            ("blobs_by_root", self.blobs_by_root_requests.len()),
            ("data_columns_by_root", self.data_columns_by_root_requests.len()),
            ("blocks_by_range", self.blocks_by_range_requests.len()),
            ("blobs_by_range", self.blobs_by_range_requests.len()),
            ("data_columns_by_range", self.data_columns_by_range_requests.len()),
            ("custody_by_root", fnv_map::len(&self.custody_by_root_requests)),
            ("block_components_by_range", fnv_map::len(&self.block_components_by_range_requests)),
        ]
    }
}

} // verus!
