//! What starting a batch of a range sends, and to whom.
use crate::fnv_map;
use crate::sync::block_components_by_range;
use crate::sync::block_components_by_range::{
    BlockComponentsByRangeRequest, ByRangeRequest, FuluEnabledState, State,
};
use crate::sync::errors::RpcRequestSendError;
use crate::sync::ids::{
    BlobsByRangeRequestId, BlocksByRangeRequestId, ComponentsByRangeRequestId, RequestId,
    SyncRequestId,
};
use crate::sync::messages::{
    AppRequestId, BlobsByRangeRequest, BlocksByRangeRequest, MessageView, RequestView,
};
use crate::sync::network_context;
use crate::sync::network_context::SyncNetworkContext;
use crate::sync::peer_choice;
use crate::types::{ChainSpec, Epoch, Id, PeerId, Slot};
use vstd::prelude::*;

verus! {

/// How many requests a peer has been given so far.
pub open spec fn total_of(totals: Map<PeerId, usize>, peer: PeerId) -> nat {
    if totals.contains_key(peer) {
        totals[peer] as nat
    } else {
        0
    }
}

/// Whether `peer` may be chosen from `peers`: it is one of them, it is to be held back only where all
/// are, and among those that are alike in this none has been given fewer requests.
pub open spec fn is_best_peer(
    peers: Set<PeerId>,
    held_back: Set<PeerId>,
    totals: Map<PeerId, usize>,
    peer: PeerId,
) -> bool {
    &&& peers.contains(peer)
    &&& forall|other: PeerId| #[trigger]
        peers.contains(other) ==> {
            &&& held_back.contains(peer) ==> held_back.contains(other)
            &&& held_back.contains(peer) == held_back.contains(other) ==> total_of(totals, peer)
                <= total_of(totals, other)
        }
}

/// Whether the fork with this activation epoch is active in the epoch of `slot`.
pub open spec fn is_active_at(spec: ChainSpec, fork_epoch: Option<Epoch>, slot: Slot) -> bool {
    fork_epoch matches Some(epoch) && epoch <= slot / spec.slots_per_epoch
}

/// Whether the message asks `peer` for the blocks of the range, as request `id`.
pub open spec fn asks_for_blocks(
    message: MessageView,
    peer: PeerId,
    request: BlocksByRangeRequest,
    id: BlocksByRangeRequestId,
) -> bool {
    message == (MessageView::SendRequest {
        peer_id: peer,
        request: RequestView::BlocksByRange(request),
        app_request_id: AppRequestId::Sync(SyncRequestId::BlocksByRange(id)),
    })
}

/// Whether the message asks `peer` for the blobs of the range, as request `id`.
pub open spec fn asks_for_blobs(
    message: MessageView,
    peer: PeerId,
    request: BlocksByRangeRequest,
    id: BlobsByRangeRequestId,
) -> bool {
    message == (MessageView::SendRequest {
        peer_id: peer,
        request: RequestView::BlobsByRange(
            BlobsByRangeRequest { start_slot: request.start_slot, count: request.count },
        ),
        app_request_id: AppRequestId::Sync(SyncRequestId::BlobsByRange(id)),
    })
}

/// Whether the messages `new` and the state `state` are those of a batch that was started with the
/// peer `peer`: the blocks are asked for and, where the epoch has blobs and no columns, the blobs from
/// the same peer, and nothing else.
pub open spec fn is_started_with(
    spec: ChainSpec,
    id: ComponentsByRangeRequestId,
    request: BlocksByRangeRequest,
    peer: PeerId,
    new: Seq<MessageView>,
    state: State,
) -> bool {
    let columns = is_active_at(spec, spec.fulu_fork_epoch, request.start_slot);
    let blobs = is_active_at(spec, spec.deneb_fork_epoch, request.start_slot);
    match state {
        State::Base { blocks_by_range_request: ByRangeRequest::Active(blocks_id) } => {
            &&& !columns && !blobs
            &&& new.len() == 1
            &&& asks_for_blocks(new[0], peer, request, blocks_id)
            &&& blocks_id.parent_request_id == id
        },
        State::DenebEnabled {
            blocks_by_range_request: ByRangeRequest::Active(blocks_id),
            blobs_by_range_request: ByRangeRequest::Active(blobs_id),
        } => {
            &&& !columns && blobs
            &&& new.len() == 2
            &&& asks_for_blocks(new[0], peer, request, blocks_id)
            &&& asks_for_blobs(new[1], peer, request, blobs_id)
            &&& blocks_id.parent_request_id == id
            &&& blobs_id.parent_request_id == id
        },
        State::FuluEnabled(
            FuluEnabledState::BlockRequest {
                blocks_by_range_request: ByRangeRequest::Active(blocks_id),
            },
        ) => {
            &&& columns
            &&& new.len() == 1
            &&& asks_for_blocks(new[0], peer, request, blocks_id)
            &&& blocks_id.parent_request_id == id
        },
        _ => false,
    }
}

proof fn lemma_chosen_peer(
    order: Seq<PeerId>,
    factors: Seq<u32>,
    held_back: Set<PeerId>,
    totals: Map<PeerId, usize>,
    peers: Set<PeerId>,
    peer: PeerId,
)
    requires
        fnv_map::is_order(order, peers),
        factors.len() == order.len(),
        peer_choice::first_peer(
            block_components_by_range::block_ranks(order, factors, held_back, totals),
        ) == Some(peer),
    ensures
        is_best_peer(peers, held_back, totals, peer),
{
    let ranks = block_components_by_range::block_ranks(order, factors, held_back, totals);
    peer_choice::law_chosen_peer_has_least_load(ranks, peer);
    let b = choose|b: int|
        #![trigger ranks[b]]
        0 <= b < ranks.len() && ranks[b].peer_id == peer && forall|k: int|
            0 <= k < ranks.len() ==> (ranks[b].held_back ==> (#[trigger] ranks[k]).held_back) && (
            ranks[k].held_back == ranks[b].held_back ==> ranks[b].load <= ranks[k].load);
    assert(order.contains(order[b]));
    assert forall|other: PeerId| #[trigger] peers.contains(other) implies {
        &&& held_back.contains(peer) ==> held_back.contains(other)
        &&& held_back.contains(peer) == held_back.contains(other) ==> total_of(totals, peer)
            <= total_of(totals, other)
    } by {
        assert(order.contains(other));
        let k = choose|k: int| 0 <= k < order.len() && order[k] == other;
        assert(ranks[k].peer_id == other);
    }
}

/// Starting a batch asks a best peer of the set for the blocks and, where the epoch has blobs and no
/// columns, for the blobs. It fails only where the set of peers is empty or the channel is closed.
pub proof fn law_batch_is_asked_from_a_best_peer(
    cx0: SyncNetworkContext,
    id: ComponentsByRangeRequestId,
    request: BlocksByRangeRequest,
    peers: Set<PeerId>,
    held_back: Set<PeerId>,
    totals: Map<PeerId, usize>,
    cx1: SyncNetworkContext,
    r: Result<Id, RpcRequestSendError>,
)
    requires
        network_context::components_requested(
            cx0,
            id,
            request,
            peers,
            held_back,
            totals,
            cx1,
            r,
        ),
        peers.finite(),
    ensures
        r is Ok <==> peers.len() > 0 && cx0.network_send.is_open(),
        r matches Ok(number) ==> {
            let kept = cx1.block_components_by_range_requests@;
            &&& number == id.id
            &&& kept.contains_key(id.number())
            &&& kept == cx0.block_components_by_range_requests@.insert(
                id.number(),
                kept[id.number()],
            )
            &&& kept[id.number()].id == id
            &&& kept[id.number()].request == request
            &&& kept[id.number()].peers@ == peers
            &&& cx0.network_send.sent().is_prefix_of(cx1.network_send.sent())
            &&& exists|peer: PeerId| #[trigger]
                is_best_peer(peers, held_back, totals, peer) && is_started_with(
                    cx0.network_globals.spec,
                    id,
                    request,
                    peer,
                    cx1.network_send.sent().skip(cx0.network_send.sent().len() as int),
                    kept[id.number()].state,
                )
        },
        r is Err ==> cx1.network_send == cx0.network_send && cx1.block_components_by_range_requests
            == cx0.block_components_by_range_requests,
{
    let start = SyncNetworkContext { request_id: (cx0.request_id + 1) as u32, ..cx0 };
    let (order, factors, cx, made) = choose|
        order: Seq<PeerId>,
        factors: Seq<u32>,
        cx: SyncNetworkContext,
        made: Result<BlockComponentsByRangeRequest, RpcRequestSendError>,
    |
        {
            &&& fnv_map::is_order(order, peers)
            &&& factors.len() == order.len()
            &&& #[trigger] block_components_by_range::components_started(
                id,
                request,
                order,
                factors,
                held_back,
                totals,
                start,
                cx,
                made,
            )
            &&& match made {
                Ok(q) => {
                    &&& r == Ok::<Id, RpcRequestSendError>(id.id)
                    &&& cx1 == SyncNetworkContext {
                        block_components_by_range_requests: cx1.block_components_by_range_requests,
                        ..cx
                    }
                    &&& cx1.block_components_by_range_requests@
                        == cx.block_components_by_range_requests@.insert(id.number(), q)
                },
                Err(e) => r == Err::<Id, RpcRequestSendError>(e) && cx1 == cx,
            }
        };
    fnv_map::lemma_order_len(order, peers);
    assert(order.to_set() =~= peers);
    let ranks = block_components_by_range::block_ranks(order, factors, held_back, totals);
    assert(ranks.len() == order.len());
    if ranks.len() > 0 {
        let peer = peer_choice::first_peer(ranks)->0;
        lemma_chosen_peer(order, factors, held_back, totals, peers, peer);
        assert(is_best_peer(peers, held_back, totals, peer));
        if cx0.network_send.is_open() {
            let old_len = cx0.network_send.sent().len() as int;
            let new = cx1.network_send.sent().skip(old_len);
            assert(is_started_with(
                cx0.network_globals.spec,
                id,
                request,
                peer,
                new,
                cx1.block_components_by_range_requests@[id.number()].state,
            ));
        }
    }
}

} // verus!
