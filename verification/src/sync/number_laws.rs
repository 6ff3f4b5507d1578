//! Every request gets a number that no other request has.
use crate::sync::active_requests;
use crate::sync::active_requests::{ActiveRequestView, ItemCheck};
use crate::sync::block_components_by_range;
use crate::sync::custody_by_range;
use crate::sync::custody_by_range::{BatchView, CustodyByRangeRequestResult, CustodyView};
use crate::sync::errors::{RpcEvent, RpcRequestSendError};
use crate::sync::ids::{
    ComponentsByRangeRequestId, CustodyByRangeRequestId, DataColumnsByRangeRequestId, RequestId,
    SingleLookupId,
};
use crate::sync::lookups;
use crate::sync::lookups::{BlockProcessStatus, LookupView};
use crate::sync::messages::{BlocksByRangeRequest, DataColumnSidecar};
use crate::sync::network_context;
use crate::sync::network_context::SyncNetworkContext;
use crate::types::{Hash256, Id, Nanos, PeerId};
use vstd::prelude::*;

verus! {

/// Whether every request in the table has a number below `n`.
pub open spec fn table_below<I, T>(m: Map<u64, ActiveRequestView<I, T>>, n: int) -> bool {
    forall|k: u64| #[trigger] m.contains_key(k) ==> k < n
}

/// Whether every request to a peer has a number that was given out already.
pub open spec fn numbers_below(cx: SyncNetworkContext) -> bool {
    let n = cx.request_id as int;
    &&& table_below(cx.blocks_by_root_requests@, n)
    &&& table_below(cx.blobs_by_root_requests@, n)
    &&& table_below(cx.data_columns_by_root_requests@, n)
    &&& table_below(cx.blocks_by_range_requests@, n)
    &&& table_below(cx.blobs_by_range_requests@, n)
    &&& table_below(cx.data_columns_by_range_requests@, n)
}

/// Whether some request to a peer has the number `k`.
pub open spec fn number_in_use(cx: SyncNetworkContext, k: u64) -> bool {
    ||| cx.blocks_by_root_requests@.contains_key(k)
    ||| cx.blobs_by_root_requests@.contains_key(k)
    ||| cx.data_columns_by_root_requests@.contains_key(k)
    ||| cx.blocks_by_range_requests@.contains_key(k)
    ||| cx.blobs_by_range_requests@.contains_key(k)
    ||| cx.data_columns_by_range_requests@.contains_key(k)
}

/// The next number is not in use.
pub proof fn law_next_number_is_unused(cx: SyncNetworkContext)
    requires
        numbers_below(cx),
    ensures
        !number_in_use(cx, cx.request_id as u64),
{
}

/// An event of a response stream gives no request another number.
pub proof fn law_events_keep_numbers<I: RequestId, T>(
    m: Map<u64, ActiveRequestView<I, T>>,
    id: I,
    event: RpcEvent<T>,
    check: ItemCheck,
    now: Nanos,
    n: int,
)
    requires
        table_below(m, n),
    ensures
        table_below(active_requests::respond(m, id, event, check, now).0, n),
{
}

/// Looking up a block uses the next number, if any.
pub proof fn law_block_lookup_numbers(
    cx0: SyncNetworkContext,
    lookup_id: SingleLookupId,
    order: Seq<PeerId>,
    factors: Seq<u32>,
    block_root: Hash256,
    status: BlockProcessStatus,
    cx1: SyncNetworkContext,
    r: LookupView<Id>,
)
    requires
        numbers_below(cx0),
        cx0.has_ids(1),
        lookups::block_looked_up(cx0, lookup_id, order, factors, block_root, status, cx1, r),
    ensures
        numbers_below(cx1),
        r matches LookupView::RequestSent(id) ==> !number_in_use(cx0, id as u64) && number_in_use(
            cx1,
            id as u64,
        ),
{
}

/// Looking up blobs uses the next number, if any.
pub proof fn law_blob_lookup_numbers(
    cx0: SyncNetworkContext,
    lookup_id: SingleLookupId,
    order: Seq<PeerId>,
    factors: Seq<u32>,
    block_root: Hash256,
    expected_blobs: nat,
    imported: Seq<u64>,
    cx1: SyncNetworkContext,
    r: LookupView<Id>,
)
    requires
        numbers_below(cx0),
        cx0.has_ids(1),
        lookups::blobs_looked_up(
            cx0,
            lookup_id,
            order,
            factors,
            block_root,
            expected_blobs,
            imported,
            cx1,
            r,
        ),
    ensures
        numbers_below(cx1),
        r matches LookupView::RequestSent(id) ==> !number_in_use(cx0, id as u64) && number_in_use(
            cx1,
            id as u64,
        ),
{
}

proof fn lemma_batch_numbers(
    m: Map<u64, ActiveRequestView<DataColumnsByRangeRequestId, DataColumnSidecar>>,
    batches: Seq<BatchView>,
    n: nat,
    first: u32,
    parent: CustodyByRangeRequestId,
)
    requires
        table_below(m, first as int),
        first + n <= u32::MAX,
    ensures
        table_below(
            network_context::with_batch_requests(m, batches, n, first, parent),
            first + n,
        ),
    decreases n,
{
    if n > 0 {
        lemma_batch_numbers(m, batches, (n - 1) as nat, first, parent);
    }
}

/// Requesting columns uses the next numbers, one for each batch.
pub proof fn law_column_request_numbers(
    cx0: SyncNetworkContext,
    cx1: SyncNetworkContext,
    batches: Seq<BatchView>,
    n: nat,
    parent: CustodyByRangeRequestId,
    request: BlocksByRangeRequest,
)
    requires
        numbers_below(cx0),
        cx0.has_ids(n as int),
        network_context::columns_requested(cx0, cx1, batches, n, parent, request),
    ensures
        numbers_below(cx1),
{
    lemma_batch_numbers(
        cx0.data_columns_by_range_requests@,
        batches,
        n,
        cx0.request_id,
        parent,
    );
}

/// Starting to fetch a range uses the next numbers, and the range itself has one of its own.
pub proof fn law_range_request_numbers(
    cx0: SyncNetworkContext,
    id: ComponentsByRangeRequestId,
    request: BlocksByRangeRequest,
    peers: Set<PeerId>,
    held_back: Set<PeerId>,
    totals: Map<PeerId, usize>,
    cx1: SyncNetworkContext,
    r: Result<Id, RpcRequestSendError>,
)
    requires
        numbers_below(cx0),
        cx0.has_ids(3),
        id.id == cx0.request_id,
        network_context::components_requested(
            cx0,
            id,
            request,
            peers,
            held_back,
            totals,
            cx1,
            r,
        ),
    ensures
        numbers_below(cx1),
        !number_in_use(cx1, id.number()),
{
    let started = SyncNetworkContext { request_id: (cx0.request_id + 1) as u32, ..cx0 };
    let (order, factors, cx, made) = choose|
        order: Seq<PeerId>,
        factors: Seq<u32>,
        cx: SyncNetworkContext,
        made: Result<block_components_by_range::BlockComponentsByRangeRequest, RpcRequestSendError>,
    |
        {
            &&& crate::fnv_map::is_order(order, peers)
            &&& factors.len() == order.len()
            &&& #[trigger] block_components_by_range::components_started(
                id,
                request,
                order,
                factors,
                held_back,
                totals,
                started,
                cx,
                made,
            )
            &&& match made {
                Ok(q) => {
                    &&& r == Ok::<Id, RpcRequestSendError>(id.id)
                    &&& cx1 == SyncNetworkContext {
                        block_components_by_range_requests: cx1.block_components_by_range_requests,
                        ..cx
                    }
                    &&& cx1.block_components_by_range_requests@
                        == cx.block_components_by_range_requests@.insert(id.number(), q)
                },
                Err(e) => r == Err::<Id, RpcRequestSendError>(e) && cx1 == cx,
            }
        };
    assert(numbers_below(started));
    assert(!number_in_use(started, id.number()));
    assert(numbers_below(cx));
}

/// A custody request that makes progress uses the next numbers, one for each batch it sends.
pub proof fn law_custody_progress_numbers(
    v0: CustodyView,
    cx0: SyncNetworkContext,
    order: Seq<u64>,
    factors: Seq<Seq<u32>>,
    now: Nanos,
    timestamp_now: Nanos,
    v1: CustodyView,
    cx1: SyncNetworkContext,
    r: CustodyByRangeRequestResult,
)
    requires
        numbers_below(cx0),
        cx0.has_ids(order.len() as int),
        custody_by_range::progress(v0, cx0, order, factors, now, timestamp_now, v1, cx1, r),
    ensures
        numbers_below(cx1),
{
    if !custody_by_range::all_downloaded(v0.columns) {
        match custody_by_range::planned(v0, cx0, order, factors, now) {
            Err(_) => {},
            Ok(batches) => {
                lemma_planned_len(v0, cx0, order, factors, now);
                if batches.len() > 0 && !cx0.network_send.is_open() {
                } else {
                    law_column_request_numbers(cx0, cx1, batches, batches.len(), v0.id, v0.request);
                }
            },
        }
    }
}

proof fn lemma_planned_len(
    v: CustodyView,
    cx: SyncNetworkContext,
    order: Seq<u64>,
    factors: Seq<Seq<u32>>,
    now: Nanos,
)
    ensures
        custody_by_range::planned(v, cx, order, factors, now) matches Ok(batches) ==> batches.len()
            <= order.len(),
    decreases order.len(),
{
    if order.len() > 0 {
        lemma_planned_len(v, cx, order.drop_last(), factors, now);
    }
}

} // verus!
