//! What looking up a block or its data sends, and to whom.
use crate::fnv_map;
use crate::positions;
use crate::sync::active_requests::RequestStateView;
use crate::sync::custody_plan_laws;
use crate::sync::ids::{RequestId, SingleLookupId, SingleLookupReqId, SyncRequestId};
use crate::sync::lookups;
use crate::sync::lookups::{BlockProcessStatus, LookupView};
use crate::sync::messages::{
    AppRequestId, BlobSidecar, MessageView, RequestView, SignedBeaconBlock,
};
use crate::sync::network_context::SyncNetworkContext;
use crate::sync::peer_choice;
use crate::types::{Hash256, Id, PeerId};
use vstd::prelude::*;

verus! {

/// Whether `peer` is one of `peers`, and none of them has fewer active requests.
pub open spec fn is_least_busy(cx: SyncNetworkContext, peers: Set<PeerId>, peer: PeerId) -> bool {
    &&& peers.contains(peer)
    &&& forall|other: PeerId| #[trigger] peers.contains(other) ==> cx.load_of(peer) <= cx.load_of(other)
}

proof fn lemma_least_busy(
    cx: SyncNetworkContext,
    order: Seq<PeerId>,
    factors: Seq<u32>,
    peers: Set<PeerId>,
    peer: PeerId,
)
    requires
        fnv_map::is_order(order, peers),
        custody_plan_laws::loads_can_be_counted(cx),
        peer_choice::first_peer(lookups::lookup_ranks(cx, order, factors)) == Some(peer),
    ensures
        is_least_busy(cx, peers, peer),
{
    let ranks = lookups::lookup_ranks(cx, order, factors);
    peer_choice::law_chosen_peer_has_least_load(ranks, peer);
    let b = choose|b: int|
        #![trigger ranks[b]]
        0 <= b < ranks.len() && ranks[b].peer_id == peer && forall|k: int|
            0 <= k < ranks.len() ==> (ranks[b].held_back ==> (#[trigger] ranks[k]).held_back) && (
            ranks[k].held_back == ranks[b].held_back ==> ranks[b].load <= ranks[k].load);
    assert(order.contains(order[b]));
    assert(cx.load_of(order[b]) < u128::MAX);
    assert forall|other: PeerId| #[trigger] peers.contains(other) implies cx.load_of(peer)
        <= cx.load_of(other) by {
        assert(order.contains(other));
        let k = choose|k: int| 0 <= k < order.len() && order[k] == other;
        assert(cx.load_of(order[k]) < u128::MAX);
        assert(ranks[k].peer_id == other);
    }
}

/// Whether the step from `cx0` to `cx1` sent exactly this message.
pub open spec fn sent_only(
    cx0: SyncNetworkContext,
    cx1: SyncNetworkContext,
    message: MessageView,
) -> bool {
    cx1.network_send.sent() == cx0.network_send.sent().push(message)
}

/// A lookup asks a least busy peer for the block, exactly where there is a peer, the chain does not
/// know the block yet and the channel is open; the response has to be one block. In any other case
/// nothing is sent.
pub proof fn law_block_is_asked_from_a_least_busy_peer(
    cx0: SyncNetworkContext,
    lookup_id: SingleLookupId,
    order: Seq<PeerId>,
    factors: Seq<u32>,
    peers: Set<PeerId>,
    block_root: Hash256,
    status: BlockProcessStatus,
    cx1: SyncNetworkContext,
    r: LookupView<Id>,
)
    requires
        fnv_map::is_order(order, peers),
        factors.len() == order.len(),
        custody_plan_laws::loads_can_be_counted(cx0),
        lookups::block_looked_up(
            cx0,
            lookup_id,
            order,
            factors,
            block_root,
            status,
            cx1,
            r,
        ),
    ensures
        r is RequestSent <==> peers.len() > 0 && status is Unknown && cx0.network_send.is_open(),
        r is Failed <==> peers.len() > 0 && status is Unknown && !cx0.network_send.is_open(),
        r is NoRequestNeeded <==> peers.len() > 0 && status is ExecutionValidated,
        r is Pending <==> peers.len() == 0 || status is NotValidated,
        r matches LookupView::RequestSent(number) ==> {
            let id = SingleLookupReqId { lookup_id, req_id: number };
            let table = cx1.blocks_by_root_requests@;
            &&& number == cx0.request_id
            &&& table.contains_key(id.number())
            &&& table[id.number()].id == id
            &&& table[id.number()].expect_max_responses
            &&& table[id.number()].state == RequestStateView::Active(Seq::<SignedBeaconBlock>::empty())
            &&& is_least_busy(cx0, peers, table[id.number()].peer_id)
            &&& sent_only(
                cx0,
                cx1,
                MessageView::SendRequest {
                    peer_id: table[id.number()].peer_id,
                    request: RequestView::BlocksByRoot(block_root),
                    app_request_id: AppRequestId::Sync(SyncRequestId::SingleBlock { id }),
                },
            )
        },
        !(r is RequestSent) ==> cx1.network_send == cx0.network_send && cx1.blocks_by_root_requests
            == cx0.blocks_by_root_requests,
{
    fnv_map::lemma_order_len(order, peers);
    let ranks = lookups::lookup_ranks(cx0, order, factors);
    assert(ranks.len() == order.len());
    if ranks.len() > 0 {
        lemma_least_busy(cx0, order, factors, peers, peer_choice::first_peer(ranks)->0);
    }
}

/// The blobs that a lookup asks for are those below the expected number that were not imported, each
/// once and in increasing order.
pub proof fn law_missing_blobs_are_asked_for(expected: nat, imported: Seq<u64>)
    requires
        expected <= u64::MAX,
    ensures
        ({
            let indices = lookups::missing_blobs(expected, imported);
            &&& forall|i: u64| #[trigger]
                indices.contains(i) <==> i < expected && !imported.contains(i)
            &&& forall|a: int, b: int|
                0 <= a < b < indices.len() ==> #[trigger] indices[a] < #[trigger] indices[b]
        }),
{
    let all = Seq::new(expected, |i: int| i as u64);
    let keep = |i: u64| !imported.contains(i);
    let indices = lookups::missing_blobs(expected, imported);
    let pick = |i: int| keep(all[i]);
    positions::lemma_filter_picks(all, keep);
    assert forall|i: u64| #[trigger] indices.contains(i) <==> i < expected && !imported.contains(i) by {
        positions::lemma_picked_contains(all, pick, indices, i);
        if i < expected && !imported.contains(i) {
            assert(pick(i as int) && all[i as int] == i);
        }
    }
    assert forall|a: int, b: int| 0 <= a < b < indices.len() implies #[trigger] indices[a]
        < #[trigger] indices[b] by {
        let i = positions::lemma_position_of_pick(pick, all.len() as int, a as nat);
        let j = positions::lemma_position_of_pick(pick, all.len() as int, b as nat);
        if j <= i {
            positions::lemma_picked_below_grows(pick, j, i);
        }
        assert(indices[positions::picked_below(pick, i) as int] == all[i]);
        assert(indices[positions::picked_below(pick, j) as int] == all[j]);
    }
}

/// A lookup asks a least busy peer for the blobs that are missing, exactly where there is a peer, some
/// blob is missing and the channel is open. In any other case nothing is sent.
pub proof fn law_blobs_are_asked_from_a_least_busy_peer(
    cx0: SyncNetworkContext,
    lookup_id: SingleLookupId,
    order: Seq<PeerId>,
    factors: Seq<u32>,
    peers: Set<PeerId>,
    block_root: Hash256,
    expected_blobs: nat,
    imported: Seq<u64>,
    cx1: SyncNetworkContext,
    r: LookupView<Id>,
)
    requires
        fnv_map::is_order(order, peers),
        factors.len() == order.len(),
        expected_blobs <= u64::MAX,
        custody_plan_laws::loads_can_be_counted(cx0),
        lookups::blobs_looked_up(
            cx0,
            lookup_id,
            order,
            factors,
            block_root,
            expected_blobs,
            imported,
            cx1,
            r,
        ),
    ensures
        ({
            let some_missing = exists|i: u64| i < expected_blobs && !#[trigger] imported.contains(i);
            &&& r is RequestSent <==> peers.len() > 0 && some_missing && cx0.network_send.is_open()
            &&& r is Failed <==> peers.len() > 0 && some_missing && !cx0.network_send.is_open()
            &&& r is NoRequestNeeded <==> peers.len() > 0 && !some_missing
            &&& r is Pending <==> peers.len() == 0
        }),
        r matches LookupView::RequestSent(number) ==> {
            let id = SingleLookupReqId { lookup_id, req_id: number };
            let table = cx1.blobs_by_root_requests@;
            &&& number == cx0.request_id
            &&& table.contains_key(id.number())
            &&& table[id.number()].id == id
            &&& table[id.number()].expect_max_responses
            &&& table[id.number()].state == RequestStateView::Active(Seq::<BlobSidecar>::empty())
            &&& is_least_busy(cx0, peers, table[id.number()].peer_id)
            &&& cx1.network_send.sent().len() == cx0.network_send.sent().len() + 1
            &&& cx0.network_send.sent().is_prefix_of(cx1.network_send.sent())
            &&& cx1.network_send.sent().last() matches MessageView::SendRequest {
                peer_id,
                request: RequestView::BlobsByRoot { block_root: root, indices },
                app_request_id: AppRequestId::Sync(SyncRequestId::SingleBlob { id: sent_id }),
            } && {
                &&& peer_id == table[id.number()].peer_id
                &&& root == block_root
                &&& sent_id == id
                &&& forall|i: u64| #[trigger]
                    indices.contains(i) <==> i < expected_blobs && !imported.contains(i)
            }
        },
        !(r is RequestSent) ==> cx1.network_send == cx0.network_send && cx1.blobs_by_root_requests
            == cx0.blobs_by_root_requests,
{
    fnv_map::lemma_order_len(order, peers);
    let ranks = lookups::lookup_ranks(cx0, order, factors);
    assert(ranks.len() == order.len());
    if ranks.len() > 0 {
        lemma_least_busy(cx0, order, factors, peers, peer_choice::first_peer(ranks)->0);
    }
    law_missing_blobs_are_asked_for(expected_blobs, imported);
    let indices = lookups::missing_blobs(expected_blobs, imported);
    if indices.len() > 0 {
        assert(indices.contains(indices[0]));
        assert(!imported.contains(indices[0]));
    } else {
        assert forall|i: u64| i < expected_blobs implies #[trigger] imported.contains(i) by {
            assert(!indices.contains(i));
        }
    }
}

/// The custody columns that are fetched for a block are those that the node samples and that were not
/// imported, each as often and in the order in which it samples them.
pub proof fn law_columns_not_imported_are_fetched(sampled: Seq<u64>, imported: Seq<u64>)
    ensures
        positions::is_picked(
            sampled,
            |i: int| !imported.contains(sampled[i]),
            lookups::entries_without(sampled, imported),
        ),
        forall|c: u64| #[trigger]
            lookups::entries_without(sampled, imported).contains(c) <==> sampled.contains(c)
                && !imported.contains(c),
{
    let keep = |x: u64| !imported.contains(x);
    let pick = |i: int| keep(sampled[i]);
    let fetched = lookups::entries_without(sampled, imported);
    positions::lemma_filter_picks(sampled, keep);
    positions::lemma_same_picks(sampled, pick, |i: int| !imported.contains(sampled[i]), fetched);
    assert forall|c: u64| #[trigger] fetched.contains(c) <==> sampled.contains(c) && !imported.contains(c) by {
        positions::lemma_picked_contains(sampled, pick, fetched, c);
        if sampled.contains(c) && !imported.contains(c) {
            let i = choose|i: int| 0 <= i < sampled.len() && sampled[i] == c;
            assert(pick(i));
        }
    }
}

} // verus!
