//! When the blocks of a range are handed out with their data, and what each response adds.
use crate::fnv_map;
use crate::positions;
use crate::sync::block_components_by_range;
use crate::sync::block_components_by_range::{
    BlockComponentsByRangeRequest, BlockComponentsByRangeRequestResult,
    BlockComponentsByRangeRequestStep, ByRangeRequest, FuluEnabledState, State,
};
use crate::sync::coupling;
use crate::sync::coupling::{BatchPeers, Error, RpcBlock, RpcBlockDataView};
use crate::sync::coupling_laws;
use crate::sync::custody_by_range::CustodyView;
use crate::sync::errors::{RpcRequestSendError, RpcResponseError};
use crate::sync::ids::{
    BlobsByRangeRequestId, BlocksByRangeRequestId, ComponentsByRangeRequestId,
    CustodyByRangeRequestId, CustodyRequester, RequestId,
};
use crate::sync::messages::{BlobSidecar, DataColumnSidecar, SignedBeaconBlock, SignedBeaconBlockHeader};
use crate::sync::network_context;
use crate::sync::network_context::SyncNetworkContext;
use crate::sync::peer_group;
use crate::sync::peer_group::PeerGroup;
use crate::sync::responses;
use crate::sync::responses::{ComponentsAnswer, CustodyRequestResult, RangeBlockComponent};
use crate::types::{Nanos, PeerId};
use vstd::prelude::*;

verus! {

/// What a request has received, with who sent it.
pub open spec fn received<I, T, P>(request: ByRangeRequest<I, T, P>) -> Option<(T, P)> {
    match request {
        ByRangeRequest::Active(_) => None,
        ByRangeRequest::Complete(data, from) => Some((data, from)),
    }
}

/// The blocks that have arrived, and the peer that sent them.
pub open spec fn blocks_in(state: State) -> Option<(Seq<SignedBeaconBlock>, PeerId)> {
    match state {
        State::FuluEnabled(FuluEnabledState::CustodyRequest { blocks, block_peer, .. }) => Some(
            (blocks@, block_peer),
        ),
        State::Base { blocks_by_range_request: b } => match received(b) {
            Some((blocks, peer)) => Some((blocks@, peer)),
            None => None,
        },
        State::DenebEnabled { blocks_by_range_request: b, .. } => match received(b) {
            Some((blocks, peer)) => Some((blocks@, peer)),
            None => None,
        },
        State::FuluEnabled(FuluEnabledState::BlockRequest { blocks_by_range_request: b }) => match received(
            b,
        ) {
            Some((blocks, peer)) => Some((blocks@, peer)),
            None => None,
        },
    }
}

/// The blobs that have arrived.
pub open spec fn blobs_in(state: State) -> Option<Seq<BlobSidecar>> {
    match state {
        State::DenebEnabled { blobs_by_range_request: b, .. } => match received(b) {
            Some((blobs, _)) => Some(blobs@),
            None => None,
        },
        _ => None,
    }
}

/// The columns that have arrived, and the peers that sent them.
pub open spec fn columns_in(state: State) -> Option<(Seq<DataColumnSidecar>, PeerGroup)> {
    match state {
        State::FuluEnabled(FuluEnabledState::CustodyRequest { custody_by_range_request: c, .. }) => match received(
            c,
        ) {
            Some((columns, peers)) => Some((columns@, peers)),
            None => None,
        },
        _ => None,
    }
}

/// The blocks that have arrived, where they have.
pub open spec fn arrived_blocks(state: State) -> Seq<SignedBeaconBlock> {
    (blocks_in(state)->0).0
}

/// The peer that sent the blocks, where they have arrived.
pub open spec fn block_sender(state: State) -> PeerId {
    (blocks_in(state)->0).1
}

/// The columns that have arrived, where they have.
pub open spec fn arrived_columns(state: State) -> Seq<DataColumnSidecar> {
    (columns_in(state)->0).0
}

/// Whether some of the blocks has data.
pub open spec fn some_has_data(blocks: Seq<SignedBeaconBlock>) -> bool {
    exists|i: int| 0 <= i < blocks.len() && (#[trigger] blocks[i]).has_data
}

/// Whether everything that the blocks need has arrived: blobs with them where the range has blobs,
/// and columns where it has columns and some block has data.
pub open spec fn all_arrived(state: State) -> bool {
    blocks_in(state) matches Some((blocks, _)) && match state {
        State::Base { .. } => true,
        State::DenebEnabled { .. } => blobs_in(state) is Some,
        State::FuluEnabled(FuluEnabledState::BlockRequest { .. }) => !some_has_data(blocks),
        State::FuluEnabled(FuluEnabledState::CustodyRequest { .. }) => columns_in(state) is Some,
    }
}

/// The blocks that have data.
pub open spec fn has_data(blocks: Seq<SignedBeaconBlock>) -> spec_fn(int) -> bool {
    |i: int| blocks[i].has_data
}

/// The slot and root of each block.
pub open spec fn headers(blocks: Seq<SignedBeaconBlock>) -> Seq<SignedBeaconBlockHeader> {
    Seq::new(
        blocks.len(),
        |i: int| SignedBeaconBlockHeader { slot: blocks[i].slot, root: blocks[i].root },
    )
}

/// Columns are fetched for every block that has data, and for no other, in the order of the blocks.
pub proof fn law_columns_are_fetched_for_blocks_with_data(blocks: Seq<SignedBeaconBlock>)
    ensures
        positions::is_picked(
            headers(blocks),
            has_data(blocks),
            block_components_by_range::headers_with_data(blocks),
        ),
        block_components_by_range::headers_with_data(blocks).len() > 0 <==> some_has_data(blocks),
{
    let keep = |b: SignedBeaconBlock| b.has_data;
    let kept = blocks.filter(keep);
    let pick = |i: int| keep(blocks[i]);
    positions::lemma_filter_picks(blocks, keep);
    positions::lemma_same_picks(blocks, pick, has_data(blocks), kept);
    let found = block_components_by_range::headers_with_data(blocks);
    assert(found.len() == kept.len());
    assert forall|i: int| 0 <= i < blocks.len() && #[trigger] has_data(blocks)(i) implies ({
        let k = positions::picked_below(has_data(blocks), i);
        k < found.len() && found[k as int] == headers(blocks)[i]
    }) by {
        let k = positions::picked_below(has_data(blocks), i) as int;
        assert(kept[k] == blocks[i]);
    }
    if found.len() > 0 {
        let i = positions::lemma_position_of_pick(has_data(blocks), blocks.len() as int, 0);
        assert(blocks[i].has_data);
    }
    if some_has_data(blocks) {
        let i = choose|i: int| 0 <= i < blocks.len() && (#[trigger] blocks[i]).has_data;
        assert(has_data(blocks)(i));
    }
}

/// Whether the step left everything as it was.
pub open spec fn still_waits(
    q0: BlockComponentsByRangeRequest,
    cx0: SyncNetworkContext,
    q1: BlockComponentsByRangeRequest,
    cx1: SyncNetworkContext,
    r: BlockComponentsByRangeRequestResult,
) -> bool {
    &&& r == Ok::<Option<(Vec<RpcBlock>, BatchPeers)>, Error>(None)
    &&& q1 == q0
    &&& cx1 == cx0
}

/// Blocks are handed out only once they and everything that they need have arrived: all of them, in
/// the order received, named with the peer that sent them. Nothing else changes then.
pub proof fn law_received_blocks_are_handed_out(
    q0: BlockComponentsByRangeRequest,
    cx0: SyncNetworkContext,
    refusals: Seq<Option<String>>,
    now: Nanos,
    timestamp_now: Nanos,
    q1: BlockComponentsByRangeRequest,
    cx1: SyncNetworkContext,
    r: BlockComponentsByRangeRequestResult,
)
    requires
        block_components_by_range::components_progress(
            q0,
            cx0,
            refusals,
            now,
            timestamp_now,
            q1,
            cx1,
            r,
        ),
    ensures
        r matches Ok(Some((handed, peers))) ==> {
            let (blocks, block_peer) = blocks_in(q0.state)->0;
            &&& all_arrived(q0.state)
            &&& q1 == q0
            &&& cx1 == cx0
            &&& handed@.len() == blocks.len()
            &&& forall|i: int|
                0 <= i < blocks.len() ==> (#[trigger] coupling::rpc_views(handed@)[i]).block == blocks[i]
            &&& peers.block_peer == block_peer
        },
        all_arrived(q0.state) ==> !(r matches Ok(None)),
        blocks_in(q0.state) is None ==> still_waits(q0, cx0, q1, cx1, r),
        q0.state is DenebEnabled && blobs_in(q0.state) is None ==> still_waits(q0, cx0, q1, cx1, r),
        waits_for_columns(q0.state) is Some ==> still_waits(q0, cx0, q1, cx1, r),
{
    if let Some((blocks, _)) = blocks_in(q0.state) {
        law_columns_are_fetched_for_blocks_with_data(blocks);
        match r {
            Ok(Some((handed, _))) => {
                assert(handed@.len() == coupling::rpc_views(handed@).len());
            },
            _ => {},
        }
    }
}

/// The columns of a range are named with a peer that served each of them; blocks without columns are
/// named with their own peer only.
pub proof fn law_column_peers_served_the_columns(
    q0: BlockComponentsByRangeRequest,
    cx0: SyncNetworkContext,
    refusals: Seq<Option<String>>,
    now: Nanos,
    timestamp_now: Nanos,
    q1: BlockComponentsByRangeRequest,
    cx1: SyncNetworkContext,
    r: BlockComponentsByRangeRequestResult,
    index: u64,
)
    requires
        block_components_by_range::components_progress(
            q0,
            cx0,
            refusals,
            now,
            timestamp_now,
            q1,
            cx1,
            r,
        ),
    ensures
        r matches Ok(Some((_, peers))) ==> match columns_in(q0.state) {
            None => !peers.column_peers@.contains_key(index),
            Some((_, from)) => {
                &&& peers.column_peers@.contains_key(index) <==> exists|peer: PeerId, i: usize|
                    i as u64 == index && #[trigger] from@.contains_key(peer)
                        && #[trigger] from@[peer].contains(i)
                &&& peers.column_peers@.contains_key(index) ==> {
                    let peer = peers.column_peers@[index];
                    from@.contains_key(peer) && from@[peer].contains(index as usize)
                }
            },
        },
{
    if let Ok(Some((_, peers))) = r {
        if let Some((_, from)) = columns_in(q0.state) {
            let m = peers.column_peers@;
            assert(peer_group::is_reversed(from@, m));
            if m.contains_key(index) {
                let (peer, i) = choose|peer: PeerId, i: usize|
                    i as u64 == index && #[trigger] peer_group::serves(from@, peer, i);
                assert(from@.contains_key(peer) && from@[peer].contains(i));
            }
            if exists|peer: PeerId, i: usize|
                i as u64 == index && #[trigger] from@.contains_key(peer)
                    && #[trigger] from@[peer].contains(i) {
                let (peer, i) = choose|peer: PeerId, i: usize|
                    i as u64 == index && #[trigger] from@.contains_key(peer)
                        && #[trigger] from@[peer].contains(i);
                assert(peer_group::serves(from@, peer, i));
            }
        }
    }
}

/// With distinct block roots, each block of a range with columns is handed out with exactly the
/// received columns of its root whose index the node samples.
pub proof fn law_blocks_are_handed_out_with_their_columns(
    q0: BlockComponentsByRangeRequest,
    cx0: SyncNetworkContext,
    refusals: Seq<Option<String>>,
    now: Nanos,
    timestamp_now: Nanos,
    q1: BlockComponentsByRangeRequest,
    cx1: SyncNetworkContext,
    r: BlockComponentsByRangeRequestResult,
    i: int,
    column: DataColumnSidecar,
)
    requires
        block_components_by_range::components_progress(
            q0,
            cx0,
            refusals,
            now,
            timestamp_now,
            q1,
            cx1,
            r,
        ),
        columns_in(q0.state) is Some,
        coupling_laws::distinct_block_roots(arrived_blocks(q0.state)),
        0 <= i < arrived_blocks(q0.state).len(),
    ensures
        r matches Ok(Some((handed, _))) ==> {
            let handed_data = coupling::rpc_views(handed@)[i].data;
            &&& handed_data matches RpcBlockDataView::CustodyColumns {
                columns: own,
                custody_column_indices,
            } && custody_column_indices == cx0.sampling_columns@ && (own.contains(column)
                <==> arrived_columns(q0.state).contains(column) && column.block_root == arrived_blocks(
                q0.state,
            )[i].root && cx0.sampling_columns@.contains(column.index))
        },
{
    coupling_laws::law_every_custody_column_is_coupled(
        arrived_blocks(q0.state),
        arrived_columns(q0.state),
        cx0.sampling_columns@,
        i,
        column,
    );
    coupling_laws::law_blocks_are_coupled_with_their_columns(
        arrived_blocks(q0.state),
        arrived_columns(q0.state),
        cx0.sampling_columns@,
    );
}

/// Whether `fresh` asks the peers of the batch for the columns that the node samples, for the blocks
/// with data, over the epoch in which the range starts; nothing of it has been asked for yet.
pub open spec fn is_custody_for(
    q: BlockComponentsByRangeRequest,
    cx: SyncNetworkContext,
    blocks: Seq<SignedBeaconBlock>,
    fresh: CustodyView,
) -> bool {
    let spec = cx.network_globals.spec;
    &&& fresh.id.id == cx.request_id
    &&& fresh.id.parent_request_id == q.id
    &&& positions::is_picked(headers(blocks), has_data(blocks), fresh.blocks)
    &&& fresh.lookup_peers == q.peers@
    &&& forall|c: u64| #[trigger] fresh.columns.contains_key(c) <==> cx.sampling_columns@.contains(c)
    &&& fresh.request.start_slot == spec.spec_start_slot(spec.spec_epoch_of(q.request.start_slot))
    &&& fresh.request.count == spec.slots_per_epoch
    &&& fresh.batches.len() == 0
    &&& fresh.failed.len() == 0
}

/// Once the blocks of a range with columns have arrived and some has data, their columns are fetched:
/// the request then waits for them and keeps the blocks and their peer, or fails with the reason why
/// the columns cannot be asked for.
pub proof fn law_columns_are_fetched_after_the_blocks(
    q0: BlockComponentsByRangeRequest,
    cx0: SyncNetworkContext,
    refusals: Seq<Option<String>>,
    now: Nanos,
    timestamp_now: Nanos,
    q1: BlockComponentsByRangeRequest,
    cx1: SyncNetworkContext,
    r: BlockComponentsByRangeRequestResult,
)
    requires
        block_components_by_range::components_progress(
            q0,
            cx0,
            refusals,
            now,
            timestamp_now,
            q1,
            cx1,
            r,
        ),
        q0.state is FuluEnabled,
        q0.state->FuluEnabled_0 is BlockRequest,
        blocks_in(q0.state) is Some,
        some_has_data(arrived_blocks(q0.state)),
    ensures
        exists|fresh: CustodyView, sent: Result<CustodyByRangeRequestId, RpcRequestSendError>|
            {
                &&& #[trigger] network_context::custody_started(
                    cx0,
                    fresh,
                    now,
                    timestamp_now,
                    cx1,
                    sent,
                )
                &&& is_custody_for(q0, cx0, arrived_blocks(q0.state), fresh)
                &&& sent is Ok <==> block_components_by_range::is_active(r)
                &&& sent is Err <==> r is Err
                &&& sent is Ok ==> {
                    &&& sent->Ok_0 == fresh.id
                    &&& blocks_in(q1.state) == blocks_in(q0.state)
                    &&& columns_in(q1.state) is None
                    &&& q1.state matches State::FuluEnabled(
                        FuluEnabledState::CustodyRequest { custody_by_range_request: c, .. },
                    ) && c == block_components_by_range::CustodyRequest::Active(fresh.id)
                    &&& q1.id == q0.id && q1.request == q0.request && q1.peers == q0.peers
                }
                &&& sent is Err ==> q1 == q0
            },
{
    let blocks = arrived_blocks(q0.state);
    law_columns_are_fetched_for_blocks_with_data(blocks);
    let fresh = block_components_by_range::custody_of(q0, cx0, blocks, now);
    let sent = choose|sent: Result<CustodyByRangeRequestId, RpcRequestSendError>|
        {
            &&& #[trigger] network_context::custody_started(cx0, fresh, now, timestamp_now, cx1, sent)
            &&& match sent {
                Ok(id) => block_components_by_range::is_active(r)
                    && block_components_by_range::custody_phase(
                    q0,
                    q1,
                    blocks,
                    block_sender(q0.state),
                    id,
                ),
                Err(e) => block_components_by_range::is_internal(r, e.text()) && q1 == q0,
            }
        };
    assert(network_context::custody_started(cx0, fresh, now, timestamp_now, cx1, sent));
    assert(is_custody_for(q0, cx0, blocks, fresh));
}

/// The blocks request that is in flight.
pub open spec fn waits_for_blocks(state: State) -> Option<BlocksByRangeRequestId> {
    match state {
        State::Base { blocks_by_range_request: ByRangeRequest::Active(id) } => Some(id),
        State::DenebEnabled { blocks_by_range_request: ByRangeRequest::Active(id), .. } => Some(id),
        State::FuluEnabled(
            FuluEnabledState::BlockRequest { blocks_by_range_request: ByRangeRequest::Active(id) },
        ) => Some(id),
        _ => None,
    }
}

/// The blobs request that is in flight.
pub open spec fn waits_for_blobs(state: State) -> Option<BlobsByRangeRequestId> {
    match state {
        State::DenebEnabled { blobs_by_range_request: ByRangeRequest::Active(id), .. } => Some(id),
        _ => None,
    }
}

/// The custody request that is in flight.
pub open spec fn waits_for_columns(state: State) -> Option<CustodyByRangeRequestId> {
    match state {
        State::FuluEnabled(
            FuluEnabledState::CustodyRequest {
                custody_by_range_request: ByRangeRequest::Active(id),
                ..
            },
        ) => Some(id),
        _ => None,
    }
}

/// Whether the two states are of the same fork and phase.
pub open spec fn same_phase(a: State, b: State) -> bool {
    &&& a is Base <==> b is Base
    &&& a is DenebEnabled <==> b is DenebEnabled
    &&& a is FuluEnabled ==> (a->FuluEnabled_0 is BlockRequest <==> b->FuluEnabled_0 is BlockRequest)
}

/// Blocks are taken in exactly where they answer the blocks request in flight. They are then the
/// blocks that have arrived, with their peer; what else has arrived or is in flight stays.
pub proof fn law_blocks_are_taken_in(
    state: State,
    id: BlocksByRangeRequestId,
    data: Vec<SignedBeaconBlock>,
    peer_id: PeerId,
)
    ensures
        ({
            let next = block_components_by_range::blocks_finished(state, id, data, peer_id);
            &&& next is Ok <==> waits_for_blocks(state) == Some(id)
            &&& next matches Ok(next) ==> {
                &&& blocks_in(next) == Some((data@, peer_id))
                &&& blobs_in(next) == blobs_in(state)
                &&& waits_for_blocks(next) is None
                &&& waits_for_blobs(next) == waits_for_blobs(state)
                &&& same_phase(state, next)
            }
        }),
{
}

/// Blobs are taken in exactly where they answer the blobs request in flight; what else has arrived or
/// is in flight stays.
pub proof fn law_blobs_are_taken_in(
    state: State,
    id: BlobsByRangeRequestId,
    data: Vec<BlobSidecar>,
    peer_id: PeerId,
)
    ensures
        ({
            let next = block_components_by_range::blobs_finished(state, id, data, peer_id);
            &&& next is Ok <==> waits_for_blobs(state) == Some(id)
            &&& next matches Ok(next) ==> {
                &&& blobs_in(next) == Some(data@)
                &&& blocks_in(next) == blocks_in(state)
                &&& waits_for_blobs(next) is None
                &&& waits_for_blocks(next) == waits_for_blocks(state)
                &&& same_phase(state, next)
            }
        }),
{
}

/// Columns are taken in exactly where they answer the custody request in flight; the blocks stay.
pub proof fn law_columns_are_taken_in(
    state: State,
    id: CustodyByRangeRequestId,
    data: Vec<DataColumnSidecar>,
    peers: PeerGroup,
)
    ensures
        ({
            let next = block_components_by_range::custody_finished(state, id, data, peers);
            &&& next is Ok <==> waits_for_columns(state) == Some(id)
            &&& next matches Ok(next) ==> {
                &&& columns_in(next) == Some((data@, peers))
                &&& blocks_in(next) == blocks_in(state)
                &&& waits_for_columns(next) is None
                &&& same_phase(state, next)
            }
        }),
{
}

/// Whether the component answers a request that is in flight.
pub open spec fn is_awaited(state: State, component: RangeBlockComponent) -> bool {
    match component {
        RangeBlockComponent::Block(id, _, _) => waits_for_blocks(state) == Some(id),
        RangeBlockComponent::Blob(id, _, _) => waits_for_blobs(state) == Some(id),
        RangeBlockComponent::CustodyColumns(id, _, _) => waits_for_columns(state) == Some(id),
    }
}

/// The failure that the component reports.
pub open spec fn failure_of(component: RangeBlockComponent) -> Option<RpcResponseError> {
    match component {
        RangeBlockComponent::Block(_, Err(e), _) => Some(e),
        RangeBlockComponent::Blob(_, Err(e), _) => Some(e),
        RangeBlockComponent::CustodyColumns(_, Err(e), _) => Some(e),
        _ => None,
    }
}

/// A component of a request that is not active is ignored. A failure ends the request and is passed
/// on; so does a component that no request is in flight for, with an internal error. Without an
/// answer the request stays active, and an answer ends it. Other requests for components are not
/// touched.
pub proof fn law_component_reaches_its_request_only(
    cx0: SyncNetworkContext,
    id: ComponentsByRangeRequestId,
    component: RangeBlockComponent,
    refusals: Seq<Option<String>>,
    now: Nanos,
    timestamp_now: Nanos,
    cx1: SyncNetworkContext,
    r: Option<ComponentsAnswer>,
)
    requires
        responses::components_responded(
            cx0,
            id,
            component,
            refusals,
            now,
            timestamp_now,
            cx1,
            r,
        ),
    ensures
        ({
            let m0 = cx0.block_components_by_range_requests@;
            let n = id.number();
            let known = m0.contains_key(n) && m0[n].id == id;
            &&& !known ==> r is None && cx1 == cx0
            &&& known ==> (failure_of(component) matches Some(e) ==> r == Some(
                Err::<(Vec<RpcBlock>, BatchPeers), RpcResponseError>(e),
            ))
            &&& known && failure_of(component) is None && !is_awaited(m0[n].state, component)
                ==> r matches Some(Err(RpcResponseError::InternalError(_)))
        }),
        ({
            let m0 = cx0.block_components_by_range_requests@;
            let m1 = cx1.block_components_by_range_requests@;
            let n = id.number();
            let known = m0.contains_key(n) && m0[n].id == id;
            &&& known ==> (m1.contains_key(n) <==> r is None)
            &&& known && r is None ==> m1[n].id == id && m1[n].request == m0[n].request && m1[n].peers
                == m0[n].peers
            &&& forall|k: u64| k != n ==> (#[trigger] m1.contains_key(k) <==> m0.contains_key(k))
            &&& forall|k: u64| k != n && #[trigger] m1.contains_key(k) ==> m1[k] == m0[k]
        }),
{
    let m0 = cx0.block_components_by_range_requests@;
    let q0 = m0[id.number()];
    if responses::has_components(cx0, id) {
        if let Ok(next) = responses::component_state(q0, component) {
            let (mid, q, cx, result) = choose|
                mid: SyncNetworkContext,
                q: BlockComponentsByRangeRequest,
                cx: SyncNetworkContext,
                result: BlockComponentsByRangeRequestResult,
            |
                {
                    &&& responses::without_components(cx0, id.number(), mid)
                    &&& #[trigger] block_components_by_range::response_progress(
                        q0,
                        next,
                        mid,
                        refusals,
                        now,
                        timestamp_now,
                        q,
                        cx,
                        result,
                    )
                    &&& r == responses::components_answer(result)
                    &&& if r is None {
                        &&& cx1 == SyncNetworkContext {
                            block_components_by_range_requests: cx1.block_components_by_range_requests,
                            ..cx
                        }
                        &&& cx1.block_components_by_range_requests@
                            == cx.block_components_by_range_requests@.insert(id.number(), q)
                    } else {
                        cx1 == cx
                    }
                };
            assert(cx.block_components_by_range_requests == mid.block_components_by_range_requests);
            assert(q.id == q0.id && q.request == q0.request && q.peers == q0.peers);
        }
    }
    match component {
        RangeBlockComponent::Block(req_id, Ok((data, _)), peer_id) => {
            law_blocks_are_taken_in(q0.state, req_id, data, peer_id);
        },
        RangeBlockComponent::Blob(req_id, Ok((data, _)), peer_id) => {
            law_blobs_are_taken_in(q0.state, req_id, data, peer_id);
        },
        RangeBlockComponent::CustodyColumns(req_id, Ok((data, _)), peers) => {
            law_columns_are_taken_in(q0.state, req_id, data, peers);
        },
        _ => {},
    }
}

/// Answers of steps that ended their request.
pub open spec fn gave_an_answer<R>(given: Seq<Option<R>>) -> spec_fn(int) -> bool {
    |i: int| given[i] is Some
}

/// Every answer that a step gives is returned, once and in the order of the steps, with the
/// identifier of its request; nothing else is returned.
pub proof fn law_every_custody_answer_is_returned(
    m: Map<u64, CustodyView>,
    order: Seq<u64>,
    given: Seq<Option<CustodyRequestResult>>,
)
    ensures
        positions::is_picked(
            Seq::new(given.len(), |i: int| (m[order[i]].id, given[i]->0)),
            gave_an_answer(given),
            responses::answers(m, order, given),
        ),
    decreases given.len(),
{
    let list = Seq::new(given.len(), |i: int| (m[order[i]].id, given[i]->0));
    let pick = gave_an_answer(given);
    if given.len() == 0 {
        positions::lemma_picked_step(pick, 0);
    } else {
        let short = given.drop_last();
        let earlier = responses::answers(m, order, short);
        law_every_custody_answer_is_returned(m, order, short);
        let before = Seq::new(short.len(), |i: int| (m[order[i]].id, short[i]->0));
        assert(list.drop_last() =~= before);
        positions::lemma_same_picks(before, gave_an_answer(short), pick, earlier);
        positions::lemma_is_picked_push(list, pick, earlier, responses::answers(m, order, given));
    }
}

/// Every answer that the custody request of a block gets is returned, once and in order, with its
/// requester; nothing else is returned.
pub proof fn law_every_answer_by_root_is_returned(
    results: Seq<(CustodyRequester, Option<CustodyRequestResult>)>,
    given: Seq<Option<CustodyRequestResult>>,
)
    requires
        given.len() == results.len(),
    ensures
        positions::is_picked(
            Seq::new(given.len(), |i: int| (results[i].0, given[i]->0)),
            gave_an_answer(given),
            responses::root_answers(results, given),
        ),
    decreases given.len(),
{
    lemma_root_answers(results, given);
}

proof fn lemma_root_answers(
    results: Seq<(CustodyRequester, Option<CustodyRequestResult>)>,
    given: Seq<Option<CustodyRequestResult>>,
)
    ensures
        positions::is_picked(
            Seq::new(given.len(), |i: int| (results[i].0, given[i]->0)),
            gave_an_answer(given),
            responses::root_answers(results, given),
        ),
    decreases given.len(),
{
    let list = Seq::new(given.len(), |i: int| (results[i].0, given[i]->0));
    let pick = gave_an_answer(given);
    if given.len() == 0 {
        positions::lemma_picked_step(pick, 0);
    } else {
        let short = given.drop_last();
        let earlier = responses::root_answers(results, short);
        lemma_root_answers(results, short);
        let before = Seq::new(short.len(), |i: int| (results[i].0, short[i]->0));
        assert(list.drop_last() =~= before);
        positions::lemma_same_picks(before, gave_an_answer(short), pick, earlier);
        positions::lemma_is_picked_push(list, pick, earlier, responses::root_answers(results, given));
    }
}

/// The result of a step of the custody request of a block is handed on exactly where the request is
/// active and the step ended it; the request is then active no longer, and no other is touched.
pub proof fn law_answer_by_root_ends_its_request(
    cx0: SyncNetworkContext,
    requester: CustodyRequester,
    result: Option<CustodyRequestResult>,
    cx1: SyncNetworkContext,
    r: Option<CustodyRequestResult>,
)
    requires
        responses::custody_by_root_handled(cx0, requester, result, cx1, r),
    ensures
        ({
            let m0 = cx0.custody_by_root_requests@;
            let m1 = cx1.custody_by_root_requests@;
            let n = requester.id.number();
            let active = m0.contains_key(n) && m0[n].0 == requester;
            &&& active ==> r == result
            &&& !active ==> r is None
            &&& m1.contains_key(n) <==> m0.contains_key(n) && !(active && result is Some)
            &&& forall|k: u64| k != n ==> (#[trigger] m1.contains_key(k) <==> m0.contains_key(k))
            &&& forall|k: u64| #[trigger] m1.contains_key(k) ==> m1[k] == m0[k]
            &&& cx1.network_send == cx0.network_send
        }),
{
}

/// Where the custody request of a block is active and one of the results ends it, the first such result
/// is returned to its requester, and the request is then active no longer.
pub proof fn law_ended_requests_by_root_are_answered(
    cx0: SyncNetworkContext,
    results: Seq<(CustodyRequester, Option<CustodyRequestResult>)>,
    trace: Seq<SyncNetworkContext>,
    given: Seq<Option<CustodyRequestResult>>,
    cx1: SyncNetworkContext,
    r: Seq<(CustodyRequester, CustodyRequestResult)>,
    i: int,
)
    requires
        responses::by_root_handled(cx0, results, trace, given, cx1, r),
        0 <= i < results.len(),
        results[i].1 is Some,
        is_active_by_root(cx0, results[i].0),
        forall|j: int|
            0 <= j < i && (#[trigger] results[j]).0 == results[i].0 ==> results[j].1 is None,
    ensures
        r.contains((results[i].0, results[i].1->0)),
        !is_active_by_root(trace[i + 1], results[i].0),
{
    let requester = results[i].0;
    lemma_stays_active(cx0, results, trace, given, cx1, r, i, i);
    assert(responses::custody_by_root_handled(
        trace[i],
        results[i].0,
        results[i].1,
        trace[i + 1],
        given[i],
    ));
    assert(given[i] == results[i].1);
    law_every_answer_by_root_is_returned(results, given);
    let list = Seq::new(given.len(), |k: int| (results[k].0, given[k]->0));
    let pick = gave_an_answer(given);
    positions::lemma_picked_contains(list, pick, r, (requester, results[i].1->0));
    assert(pick(i) && list[i] == (requester, results[i].1->0));
}

/// Whether the custody request of a block is active.
pub open spec fn is_active_by_root(cx: SyncNetworkContext, requester: CustodyRequester) -> bool {
    let m = cx.custody_by_root_requests@;
    let n = requester.id.number();
    m.contains_key(n) && m[n].0 == requester
}

proof fn lemma_stays_active(
    cx0: SyncNetworkContext,
    results: Seq<(CustodyRequester, Option<CustodyRequestResult>)>,
    trace: Seq<SyncNetworkContext>,
    given: Seq<Option<CustodyRequestResult>>,
    cx1: SyncNetworkContext,
    r: Seq<(CustodyRequester, CustodyRequestResult)>,
    i: int,
    k: int,
)
    requires
        responses::by_root_handled(cx0, results, trace, given, cx1, r),
        0 <= k <= i < results.len(),
        is_active_by_root(cx0, results[i].0),
        forall|j: int|
            0 <= j < i && (#[trigger] results[j]).0 == results[i].0 ==> results[j].1 is None,
    ensures
        is_active_by_root(trace[k], results[i].0),
    decreases k,
{
    if k > 0 {
        lemma_stays_active(cx0, results, trace, given, cx1, r, i, k - 1);
        assert(responses::custody_by_root_handled(
            trace[k - 1],
            results[k - 1].0,
            results[k - 1].1,
            trace[k],
            given[k - 1],
        ));
    }
}

/// The blocks that a step offers to be built are, once everything has arrived, all that have arrived
/// with their columns; they are what it hands out. Before that nothing is offered.
pub proof fn law_offered_blocks_are_handed_out(
    q0: BlockComponentsByRangeRequest,
    cx0: SyncNetworkContext,
    refusals: Seq<Option<String>>,
    now: Nanos,
    timestamp_now: Nanos,
    q1: BlockComponentsByRangeRequest,
    cx1: SyncNetworkContext,
    r: BlockComponentsByRangeRequestResult,
)
    requires
        block_components_by_range::components_progress(
            q0,
            cx0,
            refusals,
            now,
            timestamp_now,
            q1,
            cx1,
            r,
        ),
    ensures
        ({
            let offered = block_components_by_range::offered_blocks(q0.state, cx0.sampling_columns@);
            &&& !(q0.state is FuluEnabled && all_arrived(q0.state)) ==> offered.len() == 0
            &&& q0.state is FuluEnabled && all_arrived(q0.state) ==> offered.len() == arrived_blocks(
                q0.state,
            ).len()
            &&& q0.state is FuluEnabled ==> (r matches Ok(Some((handed, _))) ==> coupling::rpc_views(
                handed@,
            ) == offered)
        }),
{
    if let Some((blocks, _)) = blocks_in(q0.state) {
        law_columns_are_fetched_for_blocks_with_data(blocks);
    }
}

/// Every request for the components of a range is listed once, with whether it waits for columns or
/// for blocks.
pub proof fn law_every_range_request_is_listed(
    m: Map<u64, BlockComponentsByRangeRequest>,
    order: Seq<u64>,
    list: Seq<(ComponentsByRangeRequestId, BlockComponentsByRangeRequestStep)>,
    number: u64,
) -> (i: int)
    requires
        network_context::lists_steps(m, order, list),
        m.contains_key(number),
    ensures
        0 <= i < list.len(),
        list[i].0 == m[number].id,
        list[i].1 is CustodyRequest <==> m[number].state is FuluEnabled
            && m[number].state->FuluEnabled_0 is CustodyRequest,
        list.len() == m.dom().len(),
{
    assert(m.dom().contains(number));
    assert(order.contains(number));
    fnv_map::lemma_order_len(order, m.dom());
    let i = choose|i: int| 0 <= i < order.len() && order[i] == number;
    assert(network_context::lists_step(m[order[i]], list[i]));
    i
}

} // verus!
