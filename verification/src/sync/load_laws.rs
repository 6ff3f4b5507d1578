//! Which requests are active, and what counts as the load of a peer.
use crate::sync::active_requests;
use crate::sync::active_requests::{ActiveRequestView, RequestStateView};
use crate::sync::custody_by_range::BatchView;
use crate::sync::errors::RpcRequestSendError;
use crate::sync::ids::{
    BlobsByRangeRequestId, BlocksByRangeRequestId, ComponentsByRangeRequestId,
    CustodyByRangeRequestId, DataColumnsByRangeRequestId, RequestId, SyncRequestId,
};
use crate::sync::messages::{
    AppRequestId, BlobSidecar, BlobsByRangeRequest, BlocksByRangeRequest, DataColumnSidecar,
    MessageView, RequestView, SignedBeaconBlock,
};
use crate::sync::network_context;
use crate::sync::network_context::SyncNetworkContext;
use crate::types::PeerId;
use vstd::prelude::*;

verus! {

/// A request that is added counts once for its peer and not for another; one that is removed counts no
/// longer.
pub proof fn law_each_request_counts_once<I, T>(
    m: Map<u64, ActiveRequestView<I, T>>,
    number: u64,
    request: ActiveRequestView<I, T>,
    peer: PeerId,
)
    requires
        m.dom().finite(),
        !m.contains_key(number),
    ensures
        active_requests::count_of_peer(Map::<u64, ActiveRequestView<I, T>>::empty(), peer) == 0,
        active_requests::count_of_peer(m.insert(number, request), peer)
            == active_requests::count_of_peer(m, peer) + (if request.peer_id == peer {
            1nat
        } else {
            0nat
        }),
        m.insert(number, request).remove(number) == m,
{
    let none = Map::<u64, ActiveRequestView<I, T>>::empty();
    assert(none.dom().filter(|k: u64| none[k].peer_id == peer) =~= Set::empty());
    let more = m.insert(number, request);
    let old_keys = m.dom().filter(|k: u64| m[k].peer_id == peer);
    let new_keys = more.dom().filter(|k: u64| more[k].peer_id == peer);
    m.dom().lemma_len_filter(|k: u64| m[k].peer_id == peer);
    if request.peer_id == peer {
        assert(new_keys =~= old_keys.insert(number));
    } else {
        assert(new_keys =~= old_keys);
    }
    assert(more.remove(number) =~= m);
}

proof fn lemma_counted<I, T>(m: Map<u64, ActiveRequestView<I, T>>, peer: PeerId)
    requires
        m.dom().finite(),
    ensures
        active_requests::count_of_peer(m, peer) > 0 <==> exists|k: u64| #[trigger]
            m.contains_key(k) && m[k].peer_id == peer,
{
    let keys = m.dom().filter(|k: u64| m[k].peer_id == peer);
    m.dom().lemma_len_filter(|k: u64| m[k].peer_id == peer);
    if keys.len() > 0 {
        let k = keys.choose();
        assert(keys.contains(k));
        assert(m.contains_key(k));
    }
    if exists|k: u64| #[trigger] m.contains_key(k) && m[k].peer_id == peer {
        let k = choose|k: u64| #[trigger] m.contains_key(k) && m[k].peer_id == peer;
        assert(keys.contains(k));
        if keys.len() == 0 {
            assert(keys =~= Set::empty());
        }
    }
}

/// A peer is busy exactly where some request of some kind is made to it.
pub proof fn law_peer_with_a_request_is_busy(cx: SyncNetworkContext, peer: PeerId)
    requires
        cx.wf(),
    ensures
        cx.load_of(peer) > 0 <==> exists|id: SyncRequestId| #[trigger] cx.is_active(id, peer),
{
    lemma_counted(cx.blocks_by_root_requests@, peer);
    lemma_counted(cx.blobs_by_root_requests@, peer);
    lemma_counted(cx.data_columns_by_root_requests@, peer);
    lemma_counted(cx.blocks_by_range_requests@, peer);
    lemma_counted(cx.blobs_by_range_requests@, peer);
    lemma_counted(cx.data_columns_by_range_requests@, peer);
    if exists|id: SyncRequestId| #[trigger] cx.is_active(id, peer) {
        let id = choose|id: SyncRequestId| #[trigger] cx.is_active(id, peer);
        match id {
            SyncRequestId::SingleBlock { id } => {
                assert(network_context::holds_request(cx.blocks_by_root_requests@, id, peer));
            },
            SyncRequestId::SingleBlob { id } => {
                assert(network_context::holds_request(cx.blobs_by_root_requests@, id, peer));
            },
            SyncRequestId::DataColumnsByRoot(id) => {
                assert(network_context::holds_request(cx.data_columns_by_root_requests@, id, peer));
            },
            SyncRequestId::BlocksByRange(id) => {
                assert(network_context::holds_request(cx.blocks_by_range_requests@, id, peer));
            },
            SyncRequestId::BlobsByRange(id) => {
                assert(network_context::holds_request(cx.blobs_by_range_requests@, id, peer));
            },
            SyncRequestId::DataColumnsByRange(id) => {
                assert(network_context::holds_request(cx.data_columns_by_range_requests@, id, peer));
            },
        }
    }
    if active_requests::count_of_peer(cx.blocks_by_root_requests@, peer) > 0 {
        let m = cx.blocks_by_root_requests@;
        let k = choose|k: u64| #[trigger] m.contains_key(k) && m[k].peer_id == peer;
        assert(cx.is_active(SyncRequestId::SingleBlock { id: m[k].id }, peer));
    }
    if active_requests::count_of_peer(cx.blobs_by_root_requests@, peer) > 0 {
        let m = cx.blobs_by_root_requests@;
        let k = choose|k: u64| #[trigger] m.contains_key(k) && m[k].peer_id == peer;
        assert(cx.is_active(SyncRequestId::SingleBlob { id: m[k].id }, peer));
    }
    if active_requests::count_of_peer(cx.data_columns_by_root_requests@, peer) > 0 {
        let m = cx.data_columns_by_root_requests@;
        let k = choose|k: u64| #[trigger] m.contains_key(k) && m[k].peer_id == peer;
        assert(cx.is_active(SyncRequestId::DataColumnsByRoot(m[k].id), peer));
    }
    if active_requests::count_of_peer(cx.blocks_by_range_requests@, peer) > 0 {
        let m = cx.blocks_by_range_requests@;
        let k = choose|k: u64| #[trigger] m.contains_key(k) && m[k].peer_id == peer;
        assert(cx.is_active(SyncRequestId::BlocksByRange(m[k].id), peer));
    }
    if active_requests::count_of_peer(cx.blobs_by_range_requests@, peer) > 0 {
        let m = cx.blobs_by_range_requests@;
        let k = choose|k: u64| #[trigger] m.contains_key(k) && m[k].peer_id == peer;
        assert(cx.is_active(SyncRequestId::BlobsByRange(m[k].id), peer));
    }
    if active_requests::count_of_peer(cx.data_columns_by_range_requests@, peer) > 0 {
        let m = cx.data_columns_by_range_requests@;
        let k = choose|k: u64| #[trigger] m.contains_key(k) && m[k].peer_id == peer;
        assert(cx.is_active(SyncRequestId::DataColumnsByRange(m[k].id), peer));
    }
}

/// A request for blocks of a range that is sent is active at its peer from then on, and what was active
/// before still is; without a channel nothing is sent.
pub proof fn law_sent_blocks_request_is_active(
    cx0: SyncNetworkContext,
    cx1: SyncNetworkContext,
    peer: PeerId,
    request: BlocksByRangeRequest,
    parent: ComponentsByRangeRequestId,
    r: Result<BlocksByRangeRequestId, RpcRequestSendError>,
    other: SyncRequestId,
    other_peer: PeerId,
)
    requires
        network_context::blocks_requested(cx0, cx1, peer, request, parent, r),
        !cx0.blocks_by_range_requests@.contains_key(cx0.request_id as u64),
    ensures
        r is Ok <==> cx0.network_send.is_open(),
        r matches Ok(id) ==> {
            &&& id.id == cx0.request_id
            &&& id.parent_request_id == parent
            &&& cx1.is_active(SyncRequestId::BlocksByRange(id), peer)
            &&& !cx1.blocks_by_range_requests@[id.number()].expect_max_responses
            &&& cx1.blocks_by_range_requests@[id.number()].state == RequestStateView::Active(
                Seq::<SignedBeaconBlock>::empty(),
            )
            &&& cx1.network_send.sent() == cx0.network_send.sent().push(
                MessageView::SendRequest {
                    peer_id: peer,
                    request: RequestView::BlocksByRange(request),
                    app_request_id: AppRequestId::Sync(SyncRequestId::BlocksByRange(id)),
                },
            )
        },
        r is Err ==> cx1.network_send == cx0.network_send,
        cx0.is_active(other, other_peer) ==> cx1.is_active(other, other_peer),
{
}

/// A request for blobs of a range that is sent is active at its peer from then on, and what was active
/// before still is; without a channel nothing is sent.
pub proof fn law_sent_blobs_request_is_active(
    cx0: SyncNetworkContext,
    cx1: SyncNetworkContext,
    peer: PeerId,
    request: BlobsByRangeRequest,
    parent: ComponentsByRangeRequestId,
    r: Result<BlobsByRangeRequestId, RpcRequestSendError>,
    other: SyncRequestId,
    other_peer: PeerId,
)
    requires
        network_context::blobs_requested(cx0, cx1, peer, request, parent, r),
        !cx0.blobs_by_range_requests@.contains_key(cx0.request_id as u64),
    ensures
        r is Ok <==> cx0.network_send.is_open(),
        r matches Ok(id) ==> {
            &&& id.id == cx0.request_id
            &&& id.parent_request_id == parent
            &&& cx1.is_active(SyncRequestId::BlobsByRange(id), peer)
            &&& !cx1.blobs_by_range_requests@[id.number()].expect_max_responses
            &&& cx1.blobs_by_range_requests@[id.number()].state == RequestStateView::Active(
                Seq::<BlobSidecar>::empty(),
            )
            &&& cx1.network_send.sent() == cx0.network_send.sent().push(
                MessageView::SendRequest {
                    peer_id: peer,
                    request: RequestView::BlobsByRange(request),
                    app_request_id: AppRequestId::Sync(SyncRequestId::BlobsByRange(id)),
                },
            )
        },
        r is Err ==> cx1.network_send == cx0.network_send,
        cx0.is_active(other, other_peer) ==> cx1.is_active(other, other_peer),
{
}

/// Each batch of columns that is requested is one message to its peer, in order, and one request that
/// is active at that peer from then on.
pub proof fn law_sent_column_requests_are_active(
    cx0: SyncNetworkContext,
    cx1: SyncNetworkContext,
    batches: Seq<BatchView>,
    parent: CustodyByRangeRequestId,
    request: BlocksByRangeRequest,
    i: int,
)
    requires
        network_context::columns_requested(cx0, cx1, batches, batches.len(), parent, request),
        cx0.has_ids(batches.len() as int),
        0 <= i < batches.len(),
    ensures
        ({
            let id = DataColumnsByRangeRequestId {
                id: (cx0.request_id + i) as u32,
                parent_request_id: parent,
            };
            &&& cx1.is_active(SyncRequestId::DataColumnsByRange(id), batches[i].peer_id)
            &&& cx1.network_send.sent()[cx0.network_send.sent().len() + i] == (
            MessageView::SendRequest {
                peer_id: batches[i].peer_id,
                request: RequestView::DataColumnsByRange {
                    start_slot: request.start_slot,
                    count: request.count,
                    columns: batches[i].columns,
                },
                app_request_id: AppRequestId::Sync(SyncRequestId::DataColumnsByRange(id)),
            })
        }),
        cx1.network_send.sent().len() == cx0.network_send.sent().len() + batches.len(),
        cx0.network_send.sent().is_prefix_of(cx1.network_send.sent()),
{
    lemma_batch_is_held(
        cx0.data_columns_by_range_requests@,
        batches,
        batches.len(),
        cx0.request_id,
        parent,
        i,
    );
}

proof fn lemma_batch_is_held(
    m: Map<u64, ActiveRequestView<DataColumnsByRangeRequestId, DataColumnSidecar>>,
    batches: Seq<BatchView>,
    n: nat,
    first: u32,
    parent: CustodyByRangeRequestId,
    i: int,
)
    requires
        0 <= i < n,
        first + n <= u32::MAX,
    ensures
        network_context::holds_request(
            network_context::with_batch_requests(m, batches, n, first, parent),
            DataColumnsByRangeRequestId { id: (first + i) as u32, parent_request_id: parent },
            batches[i].peer_id,
        ),
    decreases n,
{
    if i < n - 1 {
        lemma_batch_is_held(m, batches, (n - 1) as nat, first, parent, i);
    }
}

} // verus!
