//! Fetching the blocks of a range together with their data.
use crate::fnv_map;
use crate::hash;
use crate::sync::coupling;
use crate::sync::coupling::{
    couple_blocks_base, couple_blocks_deneb, couple_blocks_fulu, pair_blocks_with_columns, BatchPeers,
    Error, RpcBlock,
    RpcBlockView,
};
use crate::sync::errors::RpcRequestSendError;
use crate::sync::ids::{
    BlobsByRangeRequestId, BlocksByRangeRequestId, ComponentsByRangeRequestId,
    CustodyByRangeRequestId, RequestId,
};
use crate::sync::messages::{
    BlobSidecar, BlobsByRangeRequest, BlocksByRangeRequest, DataColumnSidecar, SignedBeaconBlock,
    SignedBeaconBlockHeader,
};
use crate::sync::network_context;
use crate::sync::network_context::SyncNetworkContext;
use crate::sync::peer_choice;
use crate::sync::peer_choice::PeerRank;
use crate::sync::peer_group;
use crate::sync::peer_group::PeerGroup;
use crate::types::fork_active;
use crate::types::{ColumnIndex, Nanos, PeerId};
use std::collections::{HashMap, HashSet};
use vstd::prelude::*;
use vstd::string::*;

verus! {

broadcast use vstd::std_specs::hash::group_hash_axioms;

/// A request for one kind of component: in flight, or complete with the data and who sent it.
pub enum ByRangeRequest<I, T, P> {
    Active(I),
    Complete(T, P),
}

/// Whether a result carries the error text `text`.
pub open spec fn is_internal<T>(r: Result<T, Error>, text: Seq<char>) -> bool {
    r matches Err(Error::InternalError(e)) && e@ == text
}

impl<I: RequestId, T, P> ByRangeRequest<I, T, P> {
    /// Completes the request, unless the response belongs to another one or came before.
    pub fn finish(&mut self, id: I, data: T, peer_id: P) -> (r: Result<(), Error>)
        ensures
            match *old(self) {
                ByRangeRequest::Active(expected) => if expected == id {
                    r is Ok && *final(self) == ByRangeRequest::<I, T, P>::Complete(data, peer_id)
                } else {
                    is_internal(r, unexpected_id(expected, id)) && *final(self) == *old(self)
                },
                ByRangeRequest::Complete(_, _) => is_internal(r, already_complete(id)) && *final(self)
                    == *old(self),
            },
    {
        match self {
            ByRangeRequest::Active(expected_id) => {
                if !expected_id.same_as(&id) {
                    let mut text = "unexpected req_id expected ".to_owned();
                    text.append(expected_id.to_text().as_str());
                    text.append(" got ");
                    text.append(id.to_text().as_str());
                    return Err(Error::InternalError(text));
                }
            },
            ByRangeRequest::Complete(_, _) => {
                let mut text = "request already complete ".to_owned();
                text.append(id.to_text().as_str());
                return Err(Error::InternalError(text));
            },
        }
        *self = ByRangeRequest::Complete(data, peer_id);
        Ok(())
    }

    /// The data and who sent it, where the request is complete.
    pub fn to_finished(&self) -> (r: Option<(&T, &P)>)
        ensures
            r == (match *self {
                ByRangeRequest::Active(_) => None,
                ByRangeRequest::Complete(data, peer_id) => Some((&data, &peer_id)),
            }),
    {
        match self {
            ByRangeRequest::Active(_) => None,
            ByRangeRequest::Complete(data, peer_id) => Some((data, peer_id)),
        }
    }
}

/// The error text of a response that belongs to another request.
pub open spec fn unexpected_id<I: RequestId>(expected: I, got: I) -> Seq<char> {
    "unexpected req_id expected "@ + expected.text() + " got "@ + got.text()
}

/// The error text of a response that came twice.
pub open spec fn already_complete<I: RequestId>(got: I) -> Seq<char> {
    "request already complete "@ + got.text()
}

/// A request for blocks.
pub type BlocksRequest = ByRangeRequest<BlocksByRangeRequestId, Vec<SignedBeaconBlock>, PeerId>;

/// A request for blobs.
pub type BlobsRequest = ByRangeRequest<BlobsByRangeRequestId, Vec<BlobSidecar>, PeerId>;

/// A request for custody columns.
pub type CustodyRequest = ByRangeRequest<CustodyByRangeRequestId, Vec<DataColumnSidecar>, PeerGroup>;

/// What is requested, by the fork of the range.
pub enum State {
    /// Blocks without data.
    Base { blocks_by_range_request: BlocksRequest },
    /// Blocks and blobs at the same time.
    DenebEnabled { blocks_by_range_request: BlocksRequest, blobs_by_range_request: BlobsRequest },
    /// First the blocks, then their columns.
    FuluEnabled(FuluEnabledState),
}

/// How far a request for blocks with columns is.
pub enum FuluEnabledState {
    BlockRequest { blocks_by_range_request: BlocksRequest },
    CustodyRequest {
        blocks: Vec<SignedBeaconBlock>,
        block_peer: PeerId,
        custody_by_range_request: CustodyRequest,
    },
}

/// A request for the blocks of a range with all their data.
pub struct BlockComponentsByRangeRequest {
    pub id: ComponentsByRangeRequestId,
    pub peers: HashSet<PeerId>,
    pub request: BlocksByRangeRequest,
    pub state: State,
}

/// The outcome of a step: failed, still active, or done with the coupled blocks and their peers.
pub type BlockComponentsByRangeRequestResult = Result<Option<(Vec<RpcBlock>, BatchPeers)>, Error>;

/// Which part of a request is in flight.
#[derive(Clone, Copy, PartialEq, Eq, Structural, Debug)]
pub enum BlockComponentsByRangeRequestStep {
    BlocksRequest,
    CustodyRequest,
}

/// Whether the step gave these blocks, from this block peer and these column peers.
pub open spec fn is_done(
    r: BlockComponentsByRangeRequestResult,
    blocks: Seq<RpcBlockView>,
    block_peer: PeerId,
    column_peers: spec_fn(Map<u64, PeerId>) -> bool,
) -> bool {
    r matches Ok(Some((b, p))) && coupling::rpc_views(b@) == blocks && p.block_peer == block_peer
        && column_peers(p.column_peers@)
}

/// Whether the request is still active after the step.
pub open spec fn is_active(r: BlockComponentsByRangeRequestResult) -> bool {
    r matches Ok(None)
}

/// The headers of the blocks that have data.
pub open spec fn headers_with_data(blocks: Seq<SignedBeaconBlock>) -> Seq<SignedBeaconBlockHeader> {
    blocks.filter(|b: SignedBeaconBlock| b.has_data).map_values(
        |b: SignedBeaconBlock| b.signed_block_header(),
    )
}

/// No peer served any column.
pub open spec fn no_column_peers() -> spec_fn(Map<u64, PeerId>) -> bool {
    |m: Map<u64, PeerId>| m == Map::<u64, PeerId>::empty()
}

/// Whether the step coupled the blocks with the columns, or failed because columns were refused.
pub open spec fn is_coupled(
    r: BlockComponentsByRangeRequestResult,
    blocks: Seq<SignedBeaconBlock>,
    columns: Seq<DataColumnSidecar>,
    custody: Seq<ColumnIndex>,
    refusals: Seq<Option<String>>,
    block_peer: PeerId,
    column_peers: spec_fn(Map<u64, PeerId>) -> bool,
) -> bool {
    match coupling::first_refusal(refusals, blocks.len()) {
        Some(reason) => is_internal(r, reason),
        None => is_done(
            r,
            coupling::coupled_fulu(blocks, columns, custody),
            block_peer,
            column_peers,
        ),
    }
}

/// The blocks with their columns that a step from the state `state` couples, where it couples
/// columns.
pub open spec fn offered_blocks(state: State, custody: Seq<ColumnIndex>) -> Seq<RpcBlockView> {
    match state {
        State::FuluEnabled(
            FuluEnabledState::BlockRequest {
                blocks_by_range_request: ByRangeRequest::Complete(blocks, _),
            },
        ) => if headers_with_data(blocks@).len() == 0 {
            coupling::coupled_fulu(blocks@, Seq::empty(), custody)
        } else {
            Seq::empty()
        },
        State::FuluEnabled(
            FuluEnabledState::CustodyRequest {
                blocks,
                block_peer: _,
                custody_by_range_request: ByRangeRequest::Complete(columns, _),
            },
        ) => coupling::coupled_fulu(blocks@, columns@, custody),
        _ => Seq::empty(),
    }
}

/// What a step that makes progress on the request `q0` does.
pub open spec fn components_progress(
    q0: BlockComponentsByRangeRequest,
    cx0: SyncNetworkContext,
    refusals: Seq<Option<String>>,
    now: Nanos,
    timestamp_now: Nanos,
    q1: BlockComponentsByRangeRequest,
    cx1: SyncNetworkContext,
    r: BlockComponentsByRangeRequestResult,
) -> bool {
    let same = q1 == q0 && cx1 == cx0;
    match q0.state {
        State::Base { blocks_by_range_request } => match blocks_by_range_request {
            ByRangeRequest::Active(_) => is_active(r) && same,
            ByRangeRequest::Complete(blocks, block_peer) => is_done(
                r,
                coupling::coupled_base(blocks@, cx0.sampling_columns.len()),
                block_peer,
                no_column_peers(),
            ) && same,
        },
        State::DenebEnabled { blocks_by_range_request, blobs_by_range_request } => match (
            blocks_by_range_request,
            blobs_by_range_request,
        ) {
            (
                ByRangeRequest::Complete(blocks, block_peer),
                ByRangeRequest::Complete(blobs, _),
            ) => same && if coupling::too_many_blobs(blocks@, blobs@, cx0.network_globals.spec) {
                is_internal(r, "Blobs returned exceeds max length"@)
            } else {
                is_done(
                    r,
                    coupling::coupled_deneb(blocks@, blobs@),
                    block_peer,
                    no_column_peers(),
                )
            },
            _ => is_active(r) && same,
        },
        State::FuluEnabled(FuluEnabledState::BlockRequest { blocks_by_range_request }) => {
            match blocks_by_range_request {
                ByRangeRequest::Active(_) => is_active(r) && same,
                ByRangeRequest::Complete(blocks, block_peer) => if headers_with_data(blocks@).len()
                    == 0 {
                    is_coupled(
                        r,
                        blocks@,
                        Seq::empty(),
                        cx0.sampling_columns@,
                        refusals,
                        block_peer,
                        no_column_peers(),
                    ) && same
                } else {
                    exists|sent: Result<CustodyByRangeRequestId, RpcRequestSendError>|
                        {
                            &&& #[trigger] network_context::custody_started(
                                cx0,
                                custody_of(q0, cx0, blocks@, now),
                                now,
                                timestamp_now,
                                cx1,
                                sent,
                            )
                            &&& match sent {
                                Ok(id) => is_active(r) && custody_phase(q0, q1, blocks@, block_peer, id),
                                Err(e) => is_internal(r, e.text()) && q1 == q0,
                            }
                        }
                },
            }
        },
        State::FuluEnabled(
            FuluEnabledState::CustodyRequest { blocks, block_peer, custody_by_range_request },
        ) => match custody_by_range_request {
            ByRangeRequest::Active(_) => is_active(r) && same,
            ByRangeRequest::Complete(columns, column_peers) => is_coupled(
                r,
                blocks@,
                columns@,
                cx0.sampling_columns@,
                refusals,
                block_peer,
                |m: Map<u64, PeerId>| peer_group::is_reversed(column_peers@, m),
            ) && same,
        },
    }
}

/// The custody request for the blocks that have data.
pub open spec fn custody_of(
    q: BlockComponentsByRangeRequest,
    cx: SyncNetworkContext,
    blocks: Seq<SignedBeaconBlock>,
    now: Nanos,
) -> crate::sync::custody_by_range::CustodyView {
    network_context::fresh_custody(
        CustodyByRangeRequestId { id: cx.request_id, parent_request_id: q.id },
        cx.epoch_request(cx.network_globals.spec.spec_epoch_of(q.request.start_slot)),
        headers_with_data(blocks),
        cx.sampling_columns@,
        q.peers@,
        now,
    )
}

/// Whether `q1` is `q0` gone over to waiting for the custody request `id`.
pub open spec fn custody_phase(
    q0: BlockComponentsByRangeRequest,
    q1: BlockComponentsByRangeRequest,
    blocks: Seq<SignedBeaconBlock>,
    block_peer: PeerId,
    id: CustodyByRangeRequestId,
) -> bool {
    &&& q1 == BlockComponentsByRangeRequest { state: q1.state, ..q0 }
    &&& q1.state matches State::FuluEnabled(
        FuluEnabledState::CustodyRequest { blocks: b, block_peer: p, custody_by_range_request: c },
    ) && b@ == blocks && p == block_peer && c == CustodyRequest::Active(id)
}

/// The ranks of the candidates for the blocks: peers that are not to be held back first, then those
/// with fewer requests so far; random numbers break ties.
pub open spec fn block_ranks(
    order: Seq<PeerId>,
    factors: Seq<u32>,
    held_back: Set<PeerId>,
    totals: Map<PeerId, usize>,
) -> Seq<PeerRank> {
    Seq::new(
        order.len(),
        |i: int|
            PeerRank {
                held_back: held_back.contains(order[i]),
                load: if totals.contains_key(order[i]) {
                    totals[order[i]] as u128
                } else {
                    0
                },
                factor: factors[i],
                peer_id: order[i],
            },
    )
}

/// What starting a request gives, given the order in which the peers are gone through and the
/// random numbers that break ties.
pub open spec fn components_started(
    id: ComponentsByRangeRequestId,
    request: BlocksByRangeRequest,
    order: Seq<PeerId>,
    factors: Seq<u32>,
    held_back: Set<PeerId>,
    totals: Map<PeerId, usize>,
    cx0: SyncNetworkContext,
    cx1: SyncNetworkContext,
    r: Result<BlockComponentsByRangeRequest, RpcRequestSendError>,
) -> bool {
    let epoch = cx0.network_globals.spec.spec_epoch_of(request.start_slot);
    let fulu = fork_active(cx0.network_globals.spec.fulu_fork_epoch, epoch);
    let deneb = fork_active(cx0.network_globals.spec.deneb_fork_epoch, epoch);
    match peer_choice::first_peer(block_ranks(order, factors, held_back, totals)) {
        None => network_context::is_send_error(r, "A batch peer set should never be empty"@) && cx1
            == cx0,
        Some(peer) => if !cx0.network_send.is_open() {
            &&& network_context::is_send_error(r, "network send error"@)
            &&& cx1 == (SyncNetworkContext { request_id: (cx0.request_id + 1) as u32, ..cx0 })
        } else if !fulu && deneb {
            exists|mid: SyncNetworkContext,
                blocks_id: BlocksByRangeRequestId,
                blobs_id: BlobsByRangeRequestId,
            |
                {
                    &&& #[trigger] network_context::blocks_requested(
                        cx0,
                        mid,
                        peer,
                        request,
                        id,
                        Ok(blocks_id),
                    )
                    &&& #[trigger] network_context::blobs_requested(
                        mid,
                        cx1,
                        peer,
                        BlobsByRangeRequest { start_slot: request.start_slot, count: request.count },
                        id,
                        Ok(blobs_id),
                    )
                    &&& r matches Ok(q) && q.id == id && q.request == request && q.peers@
                        == order.to_set() && q.state == (State::DenebEnabled {
                        blocks_by_range_request: ByRangeRequest::Active(blocks_id),
                        blobs_by_range_request: ByRangeRequest::Active(blobs_id),
                    })
                }
        } else {
            exists|blocks_id: BlocksByRangeRequestId|
                {
                    &&& #[trigger] network_context::blocks_requested(
                        cx0,
                        cx1,
                        peer,
                        request,
                        id,
                        Ok(blocks_id),
                    )
                    &&& r matches Ok(q) && q.id == id && q.request == request && q.peers@
                        == order.to_set() && q.state == (if fulu {
                        State::FuluEnabled(
                            FuluEnabledState::BlockRequest {
                                blocks_by_range_request: ByRangeRequest::Active(blocks_id),
                            },
                        )
                    } else {
                        State::Base { blocks_by_range_request: ByRangeRequest::Active(blocks_id) }
                    })
                }
        },
    }
}

/// The headers of the blocks that have data.
fn collect_headers(blocks: &Vec<SignedBeaconBlock>) -> (r: Vec<SignedBeaconBlockHeader>)
    ensures
        r@ == headers_with_data(blocks@),
{
    let ghost keep = |b: SignedBeaconBlock| b.has_data;
    let mut r: Vec<SignedBeaconBlockHeader> = Vec::new();
    let mut i: usize = 0;
    proof {
        reveal(Seq::filter);
        assert(headers_with_data(blocks@.take(0)) =~= Seq::empty());
    }
    while i < blocks.len()
        invariant
            i <= blocks@.len(),
            keep == (|b: SignedBeaconBlock| b.has_data),
            r@ == headers_with_data(blocks@.take(i as int)),
        decreases blocks@.len() - i,
    {
        proof {
            reveal(Seq::filter);
            assert(blocks@.take(i + 1).drop_last() =~= blocks@.take(i as int));
        }
        if blocks[i].has_data {
            r.push(blocks[i].signed_block_header());
        }
        assert(r@ =~= headers_with_data(blocks@.take(i + 1)));
        i += 1;
    }
    assert(blocks@.take(i as int) =~= blocks@);
    r
}

impl BlockComponentsByRangeRequest {
    /// Chooses the peer for the blocks and starts the request, going through the peers in the given
    /// order and breaking ties with the given random numbers.
    pub fn new_with(
        id: ComponentsByRangeRequestId,
        request: BlocksByRangeRequest,
        order: &Vec<PeerId>,
        factors: &Vec<u32>,
        peers_to_deprioritize: &HashSet<PeerId>,
        total_requests_per_peer: &HashMap<PeerId, usize>,
        cx: &mut SyncNetworkContext,
    ) -> (r: Result<Self, RpcRequestSendError>)
        requires
            old(cx).wf(),
            old(cx).has_ids(2),
            order@.no_duplicates(),
            factors@.len() == order@.len(),
        ensures
            final(cx).wf(),
            components_started(
                id,
                request,
                order@,
                factors@,
                peers_to_deprioritize@,
                total_requests_per_peer@,
                *old(cx),
                *final(cx),
                r,
            ),
    {
        let batch_epoch: u64 = cx.network_globals.spec.epoch_of(request.start_slot);
        let fulu = fork_active(cx.network_globals.spec.fulu_fork_epoch, batch_epoch);
        let deneb = fork_active(cx.network_globals.spec.deneb_fork_epoch, batch_epoch);
        let ghost ranks0 = block_ranks(
            order@,
            factors@,
            peers_to_deprioritize@,
            total_requests_per_peer@,
        );
        let mut ranks: Vec<PeerRank> = Vec::new();
        let mut peers: HashSet<PeerId> = HashSet::new();
        let mut i: usize = 0;
        while i < order.len()
            invariant
                i <= order@.len(),
                factors@.len() == order@.len(),
                ranks0 == block_ranks(
                    order@,
                    factors@,
                    peers_to_deprioritize@,
                    total_requests_per_peer@,
                ),
                ranks@.len() == i,
                forall|j: int| 0 <= j < i ==> #[trigger] ranks@[j] == ranks0[j],
                peers@ == order@.take(i as int).to_set(),
            decreases order@.len() - i,
        {
            let peer_id: u64 = order[i];
            let load: u128 = match total_requests_per_peer.get(&peer_id) {
                Some(count) => *count as u128,
                None => 0,
            };
            ranks.push(
                PeerRank {
                    held_back: peers_to_deprioritize.contains(&peer_id),
                    load,
                    factor: factors[i],
                    peer_id,
                },
            );
            peers.insert(peer_id);
            proof {
                assert(order@.take(i + 1) =~= order@.take(i as int).push(peer_id));
                assert(order@.take(i + 1).to_set() =~= order@.take(i as int).to_set().insert(peer_id)) by {
                    assert forall|p: PeerId| order@.take(i + 1).contains(p) == (order@.take(
                        i as int,
                    ).contains(p) || p == peer_id) by {
                        lemma_push_contains(order@.take(i as int), peer_id, p);
                    }
                }
            }
            i += 1;
        }
        proof {
            assert(ranks@ =~= ranks0);
            assert(order@.take(i as int) =~= order@);
        }
        let block_peer: u64 = match peer_choice::pick_peer(&ranks) {
            Some(peer) => peer,
            None => return Err(
                RpcRequestSendError::InternalError(
                    "A batch peer set should never be empty".to_owned(),
                ),
            ),
        };
        let blocks_req_id = match cx.send_blocks_by_range_request(block_peer, request, id) {
            Ok(blocks_req_id) => blocks_req_id,
            Err(e) => return Err(e),
        };
        let ghost mid = *cx;
        let state = if fulu {
            State::FuluEnabled(
                FuluEnabledState::BlockRequest {
                    blocks_by_range_request: ByRangeRequest::Active(blocks_req_id),
                },
            )
        } else if deneb {
            let blobs_request = BlobsByRangeRequest {
                start_slot: request.start_slot,
                count: request.count,
            };
            let blobs_req_id = match cx.send_blobs_by_range_request(block_peer, blobs_request, id) {
                Ok(blobs_req_id) => blobs_req_id,
                Err(e) => return Err(e),
            };
            assert(network_context::blocks_requested(
                *old(cx),
                mid,
                block_peer,
                request,
                id,
                Ok(blocks_req_id),
            ));
            assert(network_context::blobs_requested(
                mid,
                *cx,
                block_peer,
                blobs_request,
                id,
                Ok(blobs_req_id),
            ));
            State::DenebEnabled {
                blocks_by_range_request: ByRangeRequest::Active(blocks_req_id),
                blobs_by_range_request: ByRangeRequest::Active(blobs_req_id),
            }
        } else {
            State::Base { blocks_by_range_request: ByRangeRequest::Active(blocks_req_id) }
        };
        assert(network_context::blocks_requested(
            *old(cx),
            mid,
            block_peer,
            request,
            id,
            Ok(blocks_req_id),
        ));
        Ok(BlockComponentsByRangeRequest { id, peers, request, state })
    }

    /// Chooses a peer for the blocks and starts the request.
    ///
    /// Random numbers break ties between peers that are equally good.
    pub fn new(
        id: ComponentsByRangeRequestId,
        request: BlocksByRangeRequest,
        peers: &HashSet<PeerId>,
        peers_to_deprioritize: &HashSet<PeerId>,
        total_requests_per_peer: &HashMap<PeerId, usize>,
        cx: &mut SyncNetworkContext,
    ) -> (r: Result<Self, RpcRequestSendError>)
        requires
            old(cx).wf(),
            old(cx).has_ids(2),
        ensures
            final(cx).wf(),
            exists|order: Seq<PeerId>, factors: Seq<u32>|
                fnv_map::is_order(order, peers@) && factors.len() == order.len()
                    && #[trigger] components_started(
                    id,
                    request,
                    order,
                    factors,
                    peers_to_deprioritize@,
                    total_requests_per_peer@,
                    *old(cx),
                    *final(cx),
                    r,
                ),
    {
        let order = hash::elements(peers);
        let factors = peer_choice::random_factors(order.len());
        Self::new_with(
            id,
            request,
            &order,
            &factors,
            peers_to_deprioritize,
            total_requests_per_peer,
            cx,
        )
    }

    /// Makes progress: couples the components once all have arrived, and asks for the columns once
    /// the blocks have.
    ///
    /// `refusals` says which of the blocks that a step couples with columns cannot be built, and
    /// why: see [`couple_blocks_fulu`].
    pub fn continue_requests(
        &mut self,
        cx: &mut SyncNetworkContext,
        refusals: &Vec<Option<String>>,
        now: Nanos,
        timestamp_now: Nanos,
    ) -> (r: BlockComponentsByRangeRequestResult)
        requires
            old(cx).wf(),
            old(cx).has_ids(old(cx).sampling_columns@.len() + 1int),
        ensures
            final(cx).wf(),
            components_progress(
                *old(self),
                *old(cx),
                refusals@,
                now,
                timestamp_now,
                *final(self),
                *final(cx),
                r,
            ),
    {
        match &self.state {
            State::Base { blocks_by_range_request } => {
                match blocks_by_range_request.to_finished() {
                    Some((blocks, block_peer)) => {
                        let peer_group = BatchPeers::new_from_block_peer(*block_peer);
                        let rpc_blocks = couple_blocks_base(blocks, cx.sampling_columns.len());
                        Ok(Some((rpc_blocks, peer_group)))
                    },
                    None => Ok(None),
                }
            },
            State::DenebEnabled { blocks_by_range_request, blobs_by_range_request } => {
                match (blocks_by_range_request.to_finished(), blobs_by_range_request.to_finished()) {
                    (Some((blocks, block_peer)), Some((blobs, _))) => {
                        let peer_group = BatchPeers::new_from_block_peer(*block_peer);
                        match couple_blocks_deneb(blocks, blobs, &cx.network_globals.spec) {
                            Ok(rpc_blocks) => Ok(Some((rpc_blocks, peer_group))),
                            Err(e) => Err(e),
                        }
                    },
                    _ => Ok(None),
                }
            },
            State::FuluEnabled(FuluEnabledState::BlockRequest { blocks_by_range_request }) => {
                match blocks_by_range_request.to_finished() {
                    Some((blocks, block_peer)) => {
                        let blocks_with_data = collect_headers(blocks);
                        if blocks_with_data.len() == 0 {
                            let peer_group = BatchPeers::new_from_block_peer(*block_peer);
                            let no_columns: Vec<DataColumnSidecar> = Vec::new();
                            assert(no_columns@ =~= Seq::empty());
                            return match couple_blocks_fulu(
                                blocks,
                                &no_columns,
                                &cx.sampling_columns,
                                refusals,
                            ) {
                                Ok(rpc_blocks) => Ok(Some((rpc_blocks, peer_group))),
                                Err(e) => Err(e),
                            };
                        }
                        let epoch: u64 = cx.network_globals.spec.epoch_of(self.request.start_slot);
                        let column_indices = cx.sampling_columns.clone();
                        let lookup_peers = hash::copy_set(&self.peers);
                        let ghost cx0 = *cx;
                        let sent = cx.send_custody_by_range_request(
                            self.id,
                            blocks_with_data,
                            epoch,
                            &column_indices,
                            lookup_peers,
                            now,
                            timestamp_now,
                        );
                        assert(network_context::custody_started(
                            cx0,
                            custody_of(*old(self), cx0, blocks@, now),
                            now,
                            timestamp_now,
                            *cx,
                            sent,
                        ));
                        match sent {
                            Ok(req_id) => {
                                let state = FuluEnabledState::CustodyRequest {
                                    blocks: blocks.clone(),
                                    block_peer: *block_peer,
                                    custody_by_range_request: ByRangeRequest::Active(req_id),
                                };
                                self.state = State::FuluEnabled(state);
                                Ok(None)
                            },
                            Err(RpcRequestSendError::InternalError(e)) => Err(
                                Error::InternalError(e),
                            ),
                        }
                    },
                    None => Ok(None),
                }
            },
            State::FuluEnabled(
                FuluEnabledState::CustodyRequest { blocks, block_peer, custody_by_range_request },
            ) => {
                match custody_by_range_request.to_finished() {
                    Some((columns, column_peers)) => {
                        let peer_group = BatchPeers::new(*block_peer, column_peers.as_reversed_map());
                        match couple_blocks_fulu(blocks, columns, &cx.sampling_columns, refusals) {
                            Ok(rpc_blocks) => Ok(Some((rpc_blocks, peer_group))),
                            Err(e) => Err(e),
                        }
                    },
                    None => Ok(None),
                }
            },
        }
    }

    /// Which part of the request is in flight.
    pub fn state_step(&self) -> (r: BlockComponentsByRangeRequestStep)
        ensures
            r == (match self.state {
                State::FuluEnabled(
                    FuluEnabledState::CustodyRequest { .. },
                ) => BlockComponentsByRangeRequestStep::CustodyRequest,
                _ => BlockComponentsByRangeRequestStep::BlocksRequest,
            }),
    {
        match &self.state {
            State::Base { .. } => BlockComponentsByRangeRequestStep::BlocksRequest,
            State::DenebEnabled { .. } => BlockComponentsByRangeRequestStep::BlocksRequest,
            State::FuluEnabled(FuluEnabledState::BlockRequest { .. }) => {
                BlockComponentsByRangeRequestStep::BlocksRequest
            },
            State::FuluEnabled(FuluEnabledState::CustodyRequest { .. }) => {
                BlockComponentsByRangeRequestStep::CustodyRequest
            },
        }
    }
}

proof fn lemma_push_contains(s: Seq<PeerId>, x: PeerId, y: PeerId)
    ensures
        s.push(x).contains(y) <==> s.contains(y) || x == y,
{
    if s.contains(y) {
        let i = choose|i: int| 0 <= i < s.len() && s[i] == y;
        assert(s.push(x)[i] == y);
    }
    if x == y {
        assert(s.push(x)[s.len() as int] == y);
    }
}

/// The request after a response, or the text of the error.
pub open spec fn finished<I: RequestId, T, P>(
    request: ByRangeRequest<I, T, P>,
    id: I,
    data: T,
    peer_id: P,
) -> Result<ByRangeRequest<I, T, P>, Seq<char>> {
    match request {
        ByRangeRequest::Active(expected) => if expected == id {
            Ok(ByRangeRequest::Complete(data, peer_id))
        } else {
            Err(unexpected_id(expected, id))
        },
        ByRangeRequest::Complete(_, _) => Err(already_complete(id)),
    }
}

/// The state after blocks arrived, or the text of the error.
pub open spec fn blocks_finished(
    state: State,
    id: BlocksByRangeRequestId,
    data: Vec<SignedBeaconBlock>,
    peer_id: PeerId,
) -> Result<State, Seq<char>> {
    match state {
        State::Base { blocks_by_range_request } => match finished(
            blocks_by_range_request,
            id,
            data,
            peer_id,
        ) {
            Ok(next) => Ok(State::Base { blocks_by_range_request: next }),
            Err(text) => Err(text),
        },
        State::DenebEnabled { blocks_by_range_request, blobs_by_range_request } => match finished(
            blocks_by_range_request,
            id,
            data,
            peer_id,
        ) {
            Ok(next) => Ok(
                State::DenebEnabled { blocks_by_range_request: next, blobs_by_range_request },
            ),
            Err(text) => Err(text),
        },
        State::FuluEnabled(FuluEnabledState::BlockRequest { blocks_by_range_request }) => match finished(
            blocks_by_range_request,
            id,
            data,
            peer_id,
        ) {
            Ok(next) => Ok(
                State::FuluEnabled(FuluEnabledState::BlockRequest { blocks_by_range_request: next }),
            ),
            Err(text) => Err(text),
        },
        State::FuluEnabled(FuluEnabledState::CustodyRequest { .. }) => Err(
            "Received blocks_by_range response expecting custody_by_range"@,
        ),
    }
}

/// The state after blobs arrived, or the text of the error.
pub open spec fn blobs_finished(
    state: State,
    id: BlobsByRangeRequestId,
    data: Vec<BlobSidecar>,
    peer_id: PeerId,
) -> Result<State, Seq<char>> {
    match state {
        State::Base { .. } => Err("Received blobs_by_range response before Deneb"@),
        State::DenebEnabled { blocks_by_range_request, blobs_by_range_request } => match finished(
            blobs_by_range_request,
            id,
            data,
            peer_id,
        ) {
            Ok(next) => Ok(
                State::DenebEnabled { blocks_by_range_request, blobs_by_range_request: next },
            ),
            Err(text) => Err(text),
        },
        State::FuluEnabled(_) => Err("Received blobs_by_range response after PeerDAS"@),
    }
}

/// The state after custody columns arrived, or the text of the error.
pub open spec fn custody_finished(
    state: State,
    id: CustodyByRangeRequestId,
    data: Vec<DataColumnSidecar>,
    peers: PeerGroup,
) -> Result<State, Seq<char>> {
    match state {
        State::Base { .. } => Err("Received custody_by_range response before PeerDAS"@),
        State::DenebEnabled { .. } => Err("Received custody_by_range response before PeerDAS"@),
        State::FuluEnabled(FuluEnabledState::BlockRequest { .. }) => Err(
            "Received custody_by_range expecting blocks_by_range"@,
        ),
        State::FuluEnabled(
            FuluEnabledState::CustodyRequest { blocks, block_peer, custody_by_range_request },
        ) => match finished(custody_by_range_request, id, data, peers) {
            Ok(next) => Ok(
                State::FuluEnabled(
                    FuluEnabledState::CustodyRequest {
                        blocks,
                        block_peer,
                        custody_by_range_request: next,
                    },
                ),
            ),
            Err(text) => Err(text),
        },
    }
}

/// What a response does, given the state that it leads to: an error changes nothing, otherwise the
/// request makes progress from the new state.
pub open spec fn response_progress(
    q0: BlockComponentsByRangeRequest,
    next: Result<State, Seq<char>>,
    cx0: SyncNetworkContext,
    refusals: Seq<Option<String>>,
    now: Nanos,
    timestamp_now: Nanos,
    q1: BlockComponentsByRangeRequest,
    cx1: SyncNetworkContext,
    r: BlockComponentsByRangeRequestResult,
) -> bool {
    match next {
        Err(text) => is_internal(r, text) && q1 == q0 && cx1 == cx0,
        Ok(state) => components_progress(
            BlockComponentsByRangeRequest { state, ..q0 },
            cx0,
            refusals,
            now,
            timestamp_now,
            q1,
            cx1,
            r,
        ),
    }
}

impl BlockComponentsByRangeRequest {
    /// Takes in the blocks of the range.
    pub fn on_blocks_by_range_result(
        &mut self,
        id: BlocksByRangeRequestId,
        data: Vec<SignedBeaconBlock>,
        peer_id: PeerId,
        cx: &mut SyncNetworkContext,
        refusals: &Vec<Option<String>>,
        now: Nanos,
        timestamp_now: Nanos,
    ) -> (r: BlockComponentsByRangeRequestResult)
        requires
            old(cx).wf(),
            old(cx).has_ids(old(cx).sampling_columns@.len() + 1int),
        ensures
            final(cx).wf(),
            response_progress(
                *old(self),
                blocks_finished(old(self).state, id, data, peer_id),
                *old(cx),
                refusals@,
                now,
                timestamp_now,
                *final(self),
                *final(cx),
                r,
            ),
    {
        let finished = match &mut self.state {
            State::Base { blocks_by_range_request } => blocks_by_range_request.finish(
                id,
                data,
                peer_id,
            ),
            State::DenebEnabled { blocks_by_range_request, .. } => blocks_by_range_request.finish(
                id,
                data,
                peer_id,
            ),
            State::FuluEnabled(FuluEnabledState::BlockRequest { blocks_by_range_request }) => {
                blocks_by_range_request.finish(id, data, peer_id)
            },
            State::FuluEnabled(FuluEnabledState::CustodyRequest { .. }) => Err(
                Error::InternalError(
                    "Received blocks_by_range response expecting custody_by_range".to_owned(),
                ),
            ),
        };
        match finished {
            Ok(()) => self.continue_requests(cx, refusals, now, timestamp_now),
            Err(e) => Err(e),
        }
    }

    /// The blocks that taking in `data` couples with columns: those of the range, where none has
    /// data and the response belongs to this request.
    pub fn offered_with_blocks(
        &self,
        id: BlocksByRangeRequestId,
        data: &Vec<SignedBeaconBlock>,
        custody: &Vec<ColumnIndex>,
    ) -> (r: Vec<RpcBlock>)
        ensures
            forall|peer_id: PeerId|
                coupling::rpc_views(r@) == (match #[trigger] blocks_finished(
                    self.state,
                    id,
                    *data,
                    peer_id,
                ) {
                    Ok(state) => offered_blocks(state, custody@),
                    Err(_) => Seq::empty(),
                }),
    {
        if let State::FuluEnabled(FuluEnabledState::BlockRequest { blocks_by_range_request }) =
            &self.state {
            if let ByRangeRequest::Active(expected) = blocks_by_range_request {
                if expected.same_as(&id) {
                    let blocks_with_data = collect_headers(data);
                    if blocks_with_data.len() == 0 {
                        let no_columns: Vec<DataColumnSidecar> = Vec::new();
                        assert(no_columns@ =~= Seq::empty());
                        return pair_blocks_with_columns(data, &no_columns, custody);
                    }
                }
            }
        }
        let none: Vec<RpcBlock> = Vec::new();
        assert(coupling::rpc_views(none@) =~= Seq::empty());
        none
    }

    /// The blocks that taking in the columns `data` couples with them, where the response belongs
    /// to this request.
    pub fn offered_with_columns(
        &self,
        id: CustodyByRangeRequestId,
        data: &Vec<DataColumnSidecar>,
        custody: &Vec<ColumnIndex>,
    ) -> (r: Vec<RpcBlock>)
        ensures
            forall|peers: PeerGroup|
                coupling::rpc_views(r@) == (match #[trigger] custody_finished(
                    self.state,
                    id,
                    *data,
                    peers,
                ) {
                    Ok(state) => offered_blocks(state, custody@),
                    Err(_) => Seq::empty(),
                }),
    {
        if let State::FuluEnabled(
            FuluEnabledState::CustodyRequest { blocks, block_peer: _, custody_by_range_request },
        ) = &self.state {
            if let ByRangeRequest::Active(expected) = custody_by_range_request {
                if expected.same_as(&id) {
                    return pair_blocks_with_columns(blocks, data, custody);
                }
            }
        }
        let none: Vec<RpcBlock> = Vec::new();
        assert(coupling::rpc_views(none@) =~= Seq::empty());
        none
    }

    /// Takes in the blobs of the range.
    pub fn on_blobs_by_range_result(
        &mut self,
        id: BlobsByRangeRequestId,
        data: Vec<BlobSidecar>,
        peer_id: PeerId,
        cx: &mut SyncNetworkContext,
        refusals: &Vec<Option<String>>,
        now: Nanos,
        timestamp_now: Nanos,
    ) -> (r: BlockComponentsByRangeRequestResult)
        requires
            old(cx).wf(),
            old(cx).has_ids(old(cx).sampling_columns@.len() + 1int),
        ensures
            final(cx).wf(),
            response_progress(
                *old(self),
                blobs_finished(old(self).state, id, data, peer_id),
                *old(cx),
                refusals@,
                now,
                timestamp_now,
                *final(self),
                *final(cx),
                r,
            ),
    {
        let finished = match &mut self.state {
            State::Base { .. } => Err(
                Error::InternalError("Received blobs_by_range response before Deneb".to_owned()),
            ),
            State::DenebEnabled { blobs_by_range_request, .. } => blobs_by_range_request.finish(
                id,
                data,
                peer_id,
            ),
            State::FuluEnabled(_) => Err(
                Error::InternalError("Received blobs_by_range response after PeerDAS".to_owned()),
            ),
        };
        match finished {
            Ok(()) => self.continue_requests(cx, refusals, now, timestamp_now),
            Err(e) => Err(e),
        }
    }

    /// Takes in the custody columns of the range.
    pub fn on_custody_by_range_result(
        &mut self,
        id: CustodyByRangeRequestId,
        data: Vec<DataColumnSidecar>,
        peers: PeerGroup,
        cx: &mut SyncNetworkContext,
        refusals: &Vec<Option<String>>,
        now: Nanos,
        timestamp_now: Nanos,
    ) -> (r: BlockComponentsByRangeRequestResult)
        requires
            old(cx).wf(),
            old(cx).has_ids(old(cx).sampling_columns@.len() + 1int),
        ensures
            final(cx).wf(),
            response_progress(
                *old(self),
                custody_finished(old(self).state, id, data, peers),
                *old(cx),
                refusals@,
                now,
                timestamp_now,
                *final(self),
                *final(cx),
                r,
            ),
    {
        let finished = match &mut self.state {
            State::Base { .. } => Err(
                Error::InternalError("Received custody_by_range response before PeerDAS".to_owned()),
            ),
            State::DenebEnabled { .. } => Err(
                Error::InternalError("Received custody_by_range response before PeerDAS".to_owned()),
            ),
            State::FuluEnabled(FuluEnabledState::BlockRequest { .. }) => Err(
                Error::InternalError(
                    "Received custody_by_range expecting blocks_by_range".to_owned(),
                ),
            ),
            State::FuluEnabled(
                FuluEnabledState::CustodyRequest { custody_by_range_request, .. },
            ) => custody_by_range_request.finish(id, data, peers),
        };
        match finished {
            Ok(()) => self.continue_requests(cx, refusals, now, timestamp_now),
            Err(e) => Err(e),
        }
    }
}

} // verus!
