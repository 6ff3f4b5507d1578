//! The network side of sync: sends requests to peers and keeps track of them.
use crate::fnv_map;
use crate::globals::{Client, NetworkGlobals};
use crate::sync::active_requests;
use crate::sync::active_requests::{ActiveRequestView, ActiveRequests, RequestStateView};
use crate::sync::block_components_by_range;
use crate::sync::block_components_by_range::{
    BlockComponentsByRangeRequest, BlockComponentsByRangeRequestStep,
};
use crate::sync::column_request::{ColumnRequestView, StatusView};
use crate::sync::custody_by_range;
use crate::sync::custody_by_range::{
    ActiveCustodyByRangeRequest, BatchView, CustodyByRangeRequestResult, CustodyErrorView,
    CustodyOutcome, CustodyView,
};
use crate::sync::errors::{CustodyError, RpcRequestSendError, RpcResponseError};
use crate::sync::ids::{
    BlobsByRangeRequestId, BlocksByRangeRequestId, ComponentsByRangeRequestId,
    CustodyByRangeRequestId, CustodyRequester, DataColumnsByRangeRequestId,
    DataColumnsByRootRequestId, RangeRequestId, RequestId, SingleLookupReqId, SyncRequestId,
};
use crate::sync::messages::{
    AppRequestId, BlobSidecar, BlobsByRangeRequest, BlocksByRangeRequest, DataColumnSidecar,
    GoodbyeReason, MessageView, NetworkMessage, NetworkSender, PeerAction, ReportSource,
    RequestType, RequestView, SignedBeaconBlock, SignedBeaconBlockHeader,
};
use crate::strings;
use crate::strings::decimal_string;
use crate::types::{ChainSpec, ColumnIndex, Epoch, Id, Nanos, PeerId, Slot};
use std::collections::{HashMap, HashSet};
use vstd::prelude::*;
use vstd::string::*;

verus! {

broadcast use vstd::std_specs::hash::group_hash_axioms;

/// Whether the execution engine can be reached.
#[derive(Clone, Copy, PartialEq, Eq, Structural, Debug)]
pub enum EngineState {
    Online,
    Offline,
}

/// The channel to the network service, the requests in flight, and the counter that numbers them.
pub struct SyncNetworkContext {
    pub network_send: NetworkSender,
    /// The number of the next request.
    pub request_id: Id,
    pub blocks_by_root_requests: ActiveRequests<SingleLookupReqId, SignedBeaconBlock>,
    pub blobs_by_root_requests: ActiveRequests<SingleLookupReqId, BlobSidecar>,
    pub data_columns_by_root_requests: ActiveRequests<DataColumnsByRootRequestId, DataColumnSidecar>,
    pub blocks_by_range_requests: ActiveRequests<BlocksByRangeRequestId, SignedBeaconBlock>,
    pub blobs_by_range_requests: ActiveRequests<BlobsByRangeRequestId, BlobSidecar>,
    pub data_columns_by_range_requests: ActiveRequests<
        DataColumnsByRangeRequestId,
        DataColumnSidecar,
    >,
    /// Custody requests for single blocks, each with the caller's key for it.
    pub custody_by_root_requests: fnv::FnvHashMap<u64, (CustodyRequester, u64)>,
    pub custody_by_range_requests: fnv::FnvHashMap<u64, ActiveCustodyByRangeRequest>,
    pub block_components_by_range_requests: fnv::FnvHashMap<u64, BlockComponentsByRangeRequest>,
    pub execution_engine_state: EngineState,
    pub network_globals: NetworkGlobals,
    /// The columns that this node samples.
    pub sampling_columns: Vec<ColumnIndex>,
    /// How many failures of a column download are tolerated.
    pub max_column_failures: usize,
}

/// A request that has just been made.
pub open spec fn fresh_request<I, T>(id: I, peer_id: PeerId, expect_max_responses: bool) -> ActiveRequestView<
    I,
    T,
> {
    ActiveRequestView {
        id,
        peer_id,
        expect_max_responses,
        state: RequestStateView::Active(Seq::empty()),
    }
}

/// The message that asks a peer for a batch of columns.
pub open spec fn columns_message(
    batch: BatchView,
    id: DataColumnsByRangeRequestId,
    request: BlocksByRangeRequest,
) -> MessageView {
    MessageView::SendRequest {
        peer_id: batch.peer_id,
        request: RequestView::DataColumnsByRange {
            start_slot: request.start_slot,
            count: request.count,
            columns: batch.columns,
        },
        app_request_id: AppRequestId::Sync(SyncRequestId::DataColumnsByRange(id)),
    }
}

/// The requests of `m` and one for each of the first `n` batches.
pub open spec fn with_batch_requests(
    m: Map<u64, ActiveRequestView<DataColumnsByRangeRequestId, DataColumnSidecar>>,
    batches: Seq<BatchView>,
    n: nat,
    first: u32,
    parent: CustodyByRangeRequestId,
) -> Map<u64, ActiveRequestView<DataColumnsByRangeRequestId, DataColumnSidecar>>
    decreases n,
{
    if n == 0 {
        m
    } else {
        let id = custody_by_range::batch_id(first, n - 1, parent);
        with_batch_requests(m, batches, (n - 1) as nat, first, parent).insert(
            id.number(),
            fresh_request(id, batches[n - 1].peer_id, false),
        )
    }
}

/// Whether `cx1` is `cx0` after the first `n` batches were requested: one message for each, one
/// request number for each, and one active request for each.
pub open spec fn columns_requested(
    cx0: SyncNetworkContext,
    cx1: SyncNetworkContext,
    batches: Seq<BatchView>,
    n: nat,
    parent: CustodyByRangeRequestId,
    request: BlocksByRangeRequest,
) -> bool {
    &&& cx1 == SyncNetworkContext {
        network_send: cx1.network_send,
        request_id: (cx0.request_id + n) as u32,
        data_columns_by_range_requests: cx1.data_columns_by_range_requests,
        ..cx0
    }
    &&& n == 0 ==> cx1 == cx0
    &&& cx1.network_send.is_open() == cx0.network_send.is_open()
    &&& cx1.network_send.sent() == cx0.network_send.sent() + Seq::new(
        n,
        |i: int|
            columns_message(
                batches[i],
                custody_by_range::batch_id(cx0.request_id, i, parent),
                request,
            ),
    )
    &&& cx1.data_columns_by_range_requests@ == with_batch_requests(
        cx0.data_columns_by_range_requests@,
        batches,
        n,
        cx0.request_id,
        parent,
    )
}

impl SyncNetworkContext {
    /// The tables of requests and the globals are in order.
    pub open spec fn wf(self) -> bool {
        &&& self.blocks_by_root_requests.wf()
        &&& self.blobs_by_root_requests.wf()
        &&& self.data_columns_by_root_requests.wf()
        &&& self.blocks_by_range_requests.wf()
        &&& self.blobs_by_range_requests.wf()
        &&& self.data_columns_by_range_requests.wf()
        &&& self.network_globals.wf()
    }

    /// Whether the counter can number `n` more requests.
    pub open spec fn has_ids(self, n: int) -> bool {
        self.request_id + n <= u32::MAX
    }

    /// The number of active requests to `peer`.
    pub open spec fn load_of(self, peer: PeerId) -> nat {
        active_requests::count_of_peer(self.blocks_by_root_requests@, peer)
            + active_requests::count_of_peer(self.blobs_by_root_requests@, peer)
            + active_requests::count_of_peer(self.data_columns_by_root_requests@, peer)
            + active_requests::count_of_peer(self.blocks_by_range_requests@, peer)
            + active_requests::count_of_peer(self.blobs_by_range_requests@, peer)
            + active_requests::count_of_peer(self.data_columns_by_range_requests@, peer)
    }

    /// The number of the next request; each call gives another one.
    pub fn next_id(&mut self) -> (r: Id)
        requires
            old(self).has_ids(1),
        ensures
            r == old(self).request_id,
            *final(self) == (SyncNetworkContext {
                request_id: (old(self).request_id + 1) as u32,
                ..*old(self)
            }),
    {
        let id: u32 = self.request_id;
        self.request_id += 1;
        id
    }

    /// The peers that custody the column.
    pub fn get_custodial_peers(&self, column_index: ColumnIndex) -> (r: Vec<PeerId>)
        requires
            self.wf(),
        ensures
            r@ == self.network_globals.spec_custody_peers(column_index),
    {
        self.network_globals.custody_peers_for_column(column_index)
    }

    /// Reports the behaviour of a peer. Where the channel is closed, nothing happens.
    pub fn report_peer(&mut self, peer_id: PeerId, action: PeerAction, msg: &'static str)
        ensures
            *final(self) == (SyncNetworkContext { network_send: final(self).network_send, ..*old(self) }),
            reported(old(self).network_send, final(self).network_send, peer_id, action, msg@),
    {
        let _ = self.network_send.send(
            NetworkMessage::ReportPeer { peer_id, action, source: ReportSource::SyncService, msg },
        );
    }

    /// Asks one peer for some columns of a range.
    pub fn send_data_columns_by_range_request(
        &mut self,
        peer_id: PeerId,
        start_slot: Slot,
        count: u64,
        columns: Vec<ColumnIndex>,
        parent_request_id: CustodyByRangeRequestId,
    ) -> (r: Result<DataColumnsByRangeRequestId, &'static str>)
        requires
            old(self).wf(),
            old(self).has_ids(1),
        ensures
            final(self).wf(),
            ({
                let id = DataColumnsByRangeRequestId { id: old(self).request_id, parent_request_id };
                if old(self).network_send.is_open() {
                    &&& r == Ok::<DataColumnsByRangeRequestId, &'static str>(id)
                    &&& *final(self) == SyncNetworkContext {
                        network_send: final(self).network_send,
                        request_id: (old(self).request_id + 1) as u32,
                        data_columns_by_range_requests: final(self).data_columns_by_range_requests,
                        ..*old(self)
                    }
                    &&& final(self).network_send.is_open()
                    &&& final(self).network_send.sent() == old(self).network_send.sent().push(
                        columns_message(
                            BatchView { peer_id, columns: columns@ },
                            id,
                            BlocksByRangeRequest { start_slot, count },
                        ),
                    )
                    &&& final(self).data_columns_by_range_requests@
                        == old(self).data_columns_by_range_requests@.insert(
                        id.number(),
                        fresh_request(id, peer_id, false),
                    )
                } else {
                    &&& r matches Err(e) && e@ == "network send error"@
                    &&& *final(self) == SyncNetworkContext {
                        request_id: (old(self).request_id + 1) as u32,
                        ..*old(self)
                    }
                }
            }),
    {
        let id = DataColumnsByRangeRequestId { id: self.next_id(), parent_request_id };
        let message = NetworkMessage::SendRequest {
            peer_id,
            request: RequestType::DataColumnsByRange { start_slot, count, columns },
            app_request_id: AppRequestId::Sync(SyncRequestId::DataColumnsByRange(id)),
        };
        if self.network_send.send(message).is_err() {
            return Err("network send error");
        }
        self.data_columns_by_range_requests.insert(id, peer_id, false);
        Ok(id)
    }
}

/// Whether `after` is the channel `before` with a report on `peer_id`, or unchanged where it is
/// closed.
pub open spec fn reported(
    before: NetworkSender,
    after: NetworkSender,
    peer_id: PeerId,
    action: PeerAction,
    msg: Seq<char>,
) -> bool {
    if before.is_open() {
        &&& after.is_open()
        &&& after.sent() == before.sent().push(
            MessageView::ReportPeer { peer_id, action, source: ReportSource::SyncService, msg },
        )
    } else {
        after == before
    }
}

/// The count of `peer`, zero where there is no entry.
pub open spec fn count_in(counts: Map<PeerId, u128>, peer: PeerId) -> nat {
    if counts.contains_key(peer) {
        counts[peer] as nat
    } else {
        0
    }
}

proof fn lemma_occurrences_bound(list: Seq<PeerId>, peer: PeerId)
    ensures
        active_requests::occurrences(list, peer) <= list.len(),
    decreases list.len(),
{
    if list.len() > 0 {
        lemma_occurrences_bound(list.drop_last(), peer);
    }
}

/// Adds the peers of `requests` to the counts.
fn add_counts<I: RequestId, T>(
    counts: &mut HashMap<PeerId, u128>,
    requests: &ActiveRequests<I, T>,
    Ghost(bound): Ghost<nat>,
)
    requires
        requests.wf(),
        bound + usize::MAX <= u128::MAX,
        forall|p: PeerId| #[trigger] count_in(old(counts)@, p) <= bound,
        forall|p: PeerId| #[trigger] old(counts)@.contains_key(p) ==> old(counts)@[p] > 0,
    ensures
        forall|p: PeerId| #[trigger]
            count_in(final(counts)@, p) == count_in(old(counts)@, p) + active_requests::count_of_peer(
                requests@,
                p,
            ),
        forall|p: PeerId| #[trigger] count_in(final(counts)@, p) <= bound + usize::MAX,
        forall|p: PeerId| #[trigger] final(counts)@.contains_key(p) ==> final(counts)@[p] > 0,
{
    let list = requests.active_requests();
    let ghost peers = active_requests::peers_of(list@);
    let ghost before = counts@;
    assert(peers.take(0) =~= Seq::empty());
    let n: usize = list.len();
    let mut i: usize = 0;
    while i < n
        invariant
            i <= n,
            n == list@.len(),
            peers == active_requests::peers_of(list@),
            bound + usize::MAX <= u128::MAX,
            forall|p: PeerId| #[trigger] count_in(before, p) <= bound,
            forall|p: PeerId| #[trigger]
                count_in(counts@, p) == count_in(before, p) + active_requests::occurrences(
                    peers.take(i as int),
                    p,
                ),
            forall|p: PeerId| #[trigger] counts@.contains_key(p) ==> counts@[p] > 0,
        decreases n - i,
    {
        let peer: u64 = list[i].1;
        let ghost earlier = counts@;
        proof {
            lemma_occurrences_bound(peers.take(i as int), peer);
            assert(peers.take(i + 1).drop_last() =~= peers.take(i as int));
            assert(peers.take(i + 1).last() == peer);
            assert(count_in(earlier, peer) == count_in(before, peer) + active_requests::occurrences(
                peers.take(i as int),
                peer,
            ));
            assert(count_in(before, peer) <= bound);
        }
        let count: u128 = match counts.get(&peer) {
            Some(count) => *count,
            None => 0,
        };
        counts.insert(peer, count + 1);
        proof {
            assert forall|p: PeerId| #[trigger] count_in(counts@, p) == count_in(before, p)
                + active_requests::occurrences(peers.take(i + 1), p) by {
                assert(count_in(earlier, p) == count_in(before, p) + active_requests::occurrences(
                    peers.take(i as int),
                    p,
                ));
            }
        }
        i += 1;
    }
    proof {
        assert(peers.take(i as int) =~= peers);
        assert forall|p: PeerId| #[trigger] count_in(counts@, p) == count_in(before, p)
            + active_requests::count_of_peer(requests@, p) && count_in(counts@, p) <= bound
            + usize::MAX by {
            lemma_occurrences_bound(peers, p);
            assert(active_requests::occurrences(peers, p) == active_requests::count_of_peer(
                requests@,
                p,
            ));
            assert(count_in(before, p) <= bound);
        }
    }
}

impl SyncNetworkContext {
    /// The number of active requests to each peer that has any.
    pub fn active_request_count_by_peer(&self) -> (r: HashMap<PeerId, u128>)
        requires
            self.wf(),
        ensures
            forall|p: PeerId| #[trigger] count_in(r@, p) == self.load_of(p),
            forall|p: PeerId| #[trigger] r@.contains_key(p) <==> self.load_of(p) > 0,
            forall|p: PeerId| #[trigger] self.load_of(p) < u128::MAX,
    {
        let mut counts: HashMap<PeerId, u128> = HashMap::new();
        let ghost m: nat = usize::MAX as nat;
        add_counts(&mut counts, &self.blocks_by_root_requests, Ghost(0));
        add_counts(&mut counts, &self.blobs_by_root_requests, Ghost(m));
        add_counts(&mut counts, &self.data_columns_by_root_requests, Ghost(m + m));
        add_counts(&mut counts, &self.blocks_by_range_requests, Ghost(m + m + m));
        add_counts(&mut counts, &self.blobs_by_range_requests, Ghost(m + m + m + m));
        add_counts(&mut counts, &self.data_columns_by_range_requests, Ghost(m + m + m + m + m));
        proof {
            assert forall|p: PeerId| #[trigger] self.load_of(p) < u128::MAX && count_in(counts@, p)
                == self.load_of(p) by {
                assert(count_in(counts@, p) <= m + m + m + m + m + m);
            }
            assert forall|p: PeerId| #[trigger] counts@.contains_key(p) <==> self.load_of(p) > 0 by {
                assert(count_in(counts@, p) == self.load_of(p));
            }
        }
        counts
    }
}

/// Whether `cx1` is `cx0` after a request to a peer was made: one message, one request number.
/// The table that the request went into is not part of this.
pub open spec fn message_and_number(
    cx0: SyncNetworkContext,
    cx1: SyncNetworkContext,
    message: MessageView,
) -> bool {
    &&& cx1.request_id == cx0.request_id + 1
    &&& cx1.network_send.is_open() == cx0.network_send.is_open()
    &&& cx1.network_send.sent() == cx0.network_send.sent().push(message)
}

/// Whether a result carries the error text `text`.
pub open spec fn is_send_error<T>(r: Result<T, RpcRequestSendError>, text: Seq<char>) -> bool {
    r matches Err(e) && e.text() == text
}

/// The text of the error that a failed custody request gives its requester.
pub open spec fn custody_send_error(e: CustodyErrorView) -> Seq<char> {
    match e {
        CustodyErrorView::Internal(text) => text,
        CustodyErrorView::TooManyDownloadErrors(_) => "Download error in request send"@,
        CustodyErrorView::ExpiredNoCustodyPeers(_) => "Expired: No custody peers"@,
    }
}

fn to_send_error(e: CustodyError) -> (r: RpcRequestSendError)
    ensures
        r.text() == custody_send_error(custody_by_range::error_view(e)),
{
    match e {
        CustodyError::InternalError(text) => RpcRequestSendError::InternalError(text),
        CustodyError::TooManyDownloadErrors(_) => RpcRequestSendError::InternalError(
            "Download error in request send".to_owned(),
        ),
        CustodyError::ExpiredNoCustodyPeers(_) => RpcRequestSendError::InternalError(
            "Expired: No custody peers".to_owned(),
        ),
    }
}

/// A list of indices, as text.
pub open spec fn list_text(list: Seq<u64>) -> Seq<char>
    decreases list.len(),
{
    if list.len() == 0 {
        Seq::empty()
    } else if list.len() == 1 {
        strings::decimal(list[0] as nat)
    } else {
        list_text(list.drop_last()) + ", "@ + strings::decimal(list.last() as nat)
    }
}

fn list_string(list: &Vec<u64>) -> (r: String)
    ensures
        r@ == list_text(list@),
{
    let mut r = String::new();
    let mut i: usize = 0;
    assert(list@.take(0) =~= Seq::empty());
    while i < list.len()
        invariant
            i <= list@.len(),
            r@ == list_text(list@.take(i as int)),
        decreases list@.len() - i,
    {
        assert(list@.take(i + 1).drop_last() =~= list@.take(i as int));
        if i > 0 {
            r.append(", ");
        }
        r.append(decimal_string(list[i] as u128).as_str());
        assert(r@ =~= list_text(list@.take(i + 1)));
        i += 1;
    }
    assert(list@.take(i as int) =~= list@);
    r
}

/// What a failed custody request is answered with.
pub open spec fn is_custody_failure(e: RpcResponseError, cause: CustodyErrorView) -> bool {
    match cause {
        CustodyErrorView::Internal(text) => e matches RpcResponseError::InternalError(t) && t@ == text,
        CustodyErrorView::TooManyDownloadErrors(last) => e == last,
        CustodyErrorView::ExpiredNoCustodyPeers(columns) => e matches RpcResponseError::RequestExpired(t)
            && t@ == "Expired waiting for custody peers ["@ + list_text(columns) + "]"@,
    }
}

pub(crate) fn to_response_error(e: CustodyError) -> (r: RpcResponseError)
    ensures
        is_custody_failure(r, custody_by_range::error_view(e)),
{
    match e {
        CustodyError::InternalError(text) => RpcResponseError::InternalError(text),
        CustodyError::TooManyDownloadErrors(last) => last,
        CustodyError::ExpiredNoCustodyPeers(columns) => {
            let mut text = "Expired waiting for custody peers [".to_owned();
            text.append(list_string(&columns).as_str());
            text.append("]");
            RpcResponseError::RequestExpired(text)
        },
    }
}

/// A custody request that has just been made.
pub open spec fn fresh_custody(
    id: CustodyByRangeRequestId,
    request: BlocksByRangeRequest,
    blocks: Seq<SignedBeaconBlockHeader>,
    columns: Seq<ColumnIndex>,
    lookup_peers: Set<PeerId>,
    now: Nanos,
) -> CustodyView {
    CustodyView {
        start_time: now,
        id,
        request,
        blocks,
        columns: Map::new(
            |c: ColumnIndex| columns.contains(c),
            |c: ColumnIndex|
                ColumnRequestView { status: StatusView::NotStarted, failures: Seq::empty() },
        ),
        batches: Map::empty(),
        failed: Map::empty(),
        lookup_peers,
    }
}

/// The custody requests for ranges, as views.
pub open spec fn custody_views(m: Map<u64, ActiveCustodyByRangeRequest>) -> Map<u64, CustodyView> {
    m.map_values(|r: ActiveCustodyByRangeRequest| r@)
}

/// Whether `cx1`, `r` is what starting the custody request `fresh` from `cx0` gives: the request
/// makes progress once, and is kept unless it fails.
pub open spec fn custody_started(
    cx0: SyncNetworkContext,
    fresh: CustodyView,
    now: Nanos,
    timestamp_now: Nanos,
    cx1: SyncNetworkContext,
    r: Result<CustodyByRangeRequestId, RpcRequestSendError>,
) -> bool {
    exists|v: CustodyView, cx: SyncNetworkContext, result: CustodyByRangeRequestResult|
        {
            &&& #[trigger] custody_by_range::progresses(
                fresh,
                SyncNetworkContext { request_id: (cx0.request_id + 1) as u32, ..cx0 },
                now,
                timestamp_now,
                v,
                cx,
                result,
            )
            &&& match custody_by_range::outcome(result) {
                CustodyOutcome::Failed(e) => cx1 == cx && is_send_error(r, custody_send_error(e)),
                _ => {
                    &&& r == Ok::<CustodyByRangeRequestId, RpcRequestSendError>(fresh.id)
                    &&& cx1 == SyncNetworkContext {
                        custody_by_range_requests: cx1.custody_by_range_requests,
                        ..cx
                    }
                    &&& custody_views(cx1.custody_by_range_requests@) == custody_views(
                        cx.custody_by_range_requests@,
                    ).insert(fresh.id.number(), v)
                },
            }
        }
}

proof fn lemma_fresh_columns_len(columns: Seq<ColumnIndex>)
    ensures
        Set::new(|c: ColumnIndex| columns.contains(c)).len() <= columns.len(),
        Set::new(|c: ColumnIndex| columns.contains(c)).finite(),
{
    assert(Set::new(|c: ColumnIndex| columns.contains(c)) =~= columns.to_set());
    columns.lemma_cardinality_of_set();
    vstd::seq_lib::seq_to_set_is_finite(columns);
}

impl SyncNetworkContext {
    /// Asks a peer for the blocks of a range.
    pub fn send_blocks_by_range_request(
        &mut self,
        peer_id: PeerId,
        request: BlocksByRangeRequest,
        parent_request_id: ComponentsByRangeRequestId,
    ) -> (r: Result<BlocksByRangeRequestId, RpcRequestSendError>)
        requires
            old(self).wf(),
            old(self).has_ids(1),
        ensures
            final(self).wf(),
            blocks_requested(*old(self), *final(self), peer_id, request, parent_request_id, r),
    {
        let id = BlocksByRangeRequestId { id: self.next_id(), parent_request_id };
        let message = NetworkMessage::SendRequest {
            peer_id,
            request: RequestType::BlocksByRange(request),
            app_request_id: AppRequestId::Sync(SyncRequestId::BlocksByRange(id)),
        };
        if self.network_send.send(message).is_err() {
            return Err(RpcRequestSendError::InternalError("network send error".to_owned()));
        }
        self.blocks_by_range_requests.insert(id, peer_id, false);
        Ok(id)
    }

    /// Asks a peer for the blobs of a range.
    pub fn send_blobs_by_range_request(
        &mut self,
        peer_id: PeerId,
        request: BlobsByRangeRequest,
        parent_request_id: ComponentsByRangeRequestId,
    ) -> (r: Result<BlobsByRangeRequestId, RpcRequestSendError>)
        requires
            old(self).wf(),
            old(self).has_ids(1),
        ensures
            final(self).wf(),
            blobs_requested(*old(self), *final(self), peer_id, request, parent_request_id, r),
    {
        let id = BlobsByRangeRequestId { id: self.next_id(), parent_request_id };
        let message = NetworkMessage::SendRequest {
            peer_id,
            request: RequestType::BlobsByRange(request),
            app_request_id: AppRequestId::Sync(SyncRequestId::BlobsByRange(id)),
        };
        if self.network_send.send(message).is_err() {
            return Err(RpcRequestSendError::InternalError("network send error".to_owned()));
        }
        self.blobs_by_range_requests.insert(id, peer_id, false);
        Ok(id)
    }

    /// Starts to fetch the custody columns of the blocks of an epoch. As many requests to peers are
    /// sent as it takes, which may be none.
    pub fn send_custody_by_range_request(
        &mut self,
        parent_id: ComponentsByRangeRequestId,
        blocks_with_data: Vec<SignedBeaconBlockHeader>,
        epoch: Epoch,
        column_indices: &Vec<ColumnIndex>,
        lookup_peers: HashSet<PeerId>,
        now: Nanos,
        timestamp_now: Nanos,
    ) -> (r: Result<CustodyByRangeRequestId, RpcRequestSendError>)
        requires
            old(self).wf(),
            old(self).has_ids(column_indices@.len() + 1int),
        ensures
            final(self).wf(),
            custody_started(
                *old(self),
                fresh_custody(
                    CustodyByRangeRequestId {
                        id: old(self).request_id,
                        parent_request_id: parent_id,
                    },
                    old(self).epoch_request(epoch),
                    blocks_with_data@,
                    column_indices@,
                    lookup_peers@,
                    now,
                ),
                now,
                timestamp_now,
                *final(self),
                r,
            ),
    {
        let ghost cx0 = *self;
        let id = CustodyByRangeRequestId { id: self.next_id(), parent_request_id: parent_id };
        let range = BlocksByRangeRequest {
            start_slot: self.network_globals.spec.start_slot(epoch),
            count: self.network_globals.spec.slots_per_epoch,
        };
        let mut request = ActiveCustodyByRangeRequest::new(
            id,
            range,
            blocks_with_data,
            column_indices,
            lookup_peers,
            now,
        );
        let ghost fresh = request@;
        proof {
            lemma_fresh_columns_len(column_indices@);
            assert(fresh == fresh_custody(
                id,
                cx0.epoch_request(epoch),
                blocks_with_data@,
                column_indices@,
                lookup_peers@,
                now,
            ));
            assert(fresh.columns.dom() =~= Set::new(|c: ColumnIndex| column_indices@.contains(c)));
        }
        let result = request.continue_requests(self, now, timestamp_now);
        let ghost cx = *self;
        let ghost v = request@;
        assert(custody_by_range::progresses(
            fresh,
            SyncNetworkContext { request_id: (cx0.request_id + 1) as u32, ..cx0 },
            now,
            timestamp_now,
            v,
            cx,
            result,
        ));
        match result {
            Ok(_) => {
                fnv_map::insert(&mut self.custody_by_range_requests, id.get_number(), request);
                assert(custody_views(self.custody_by_range_requests@) =~= custody_views(
                    cx.custody_by_range_requests@,
                ).insert(id.number(), v));
                Ok(id)
            },
            Err(e) => Err(to_send_error(e)),
        }
    }

    /// The blocks of one epoch.
    pub open spec fn epoch_request(self, epoch: Epoch) -> BlocksByRangeRequest {
        BlocksByRangeRequest {
            start_slot: self.network_globals.spec.spec_start_slot(epoch),
            count: self.network_globals.spec.slots_per_epoch,
        }
    }
}

/// Whether `cx1`, `r` is what asking a peer for blocks from `cx0` gives.
pub open spec fn blocks_requested(
    cx0: SyncNetworkContext,
    cx1: SyncNetworkContext,
    peer_id: PeerId,
    request: BlocksByRangeRequest,
    parent_request_id: ComponentsByRangeRequestId,
    r: Result<BlocksByRangeRequestId, RpcRequestSendError>,
) -> bool {
    let id = BlocksByRangeRequestId { id: cx0.request_id, parent_request_id };
    if cx0.network_send.is_open() {
        &&& r == Ok::<BlocksByRangeRequestId, RpcRequestSendError>(id)
        &&& cx1 == SyncNetworkContext {
            network_send: cx1.network_send,
            request_id: cx1.request_id,
            blocks_by_range_requests: cx1.blocks_by_range_requests,
            ..cx0
        }
        &&& message_and_number(
            cx0,
            cx1,
            MessageView::SendRequest {
                peer_id,
                request: RequestView::BlocksByRange(request),
                app_request_id: AppRequestId::Sync(SyncRequestId::BlocksByRange(id)),
            },
        )
        &&& cx1.blocks_by_range_requests@ == cx0.blocks_by_range_requests@.insert(
            id.number(),
            fresh_request(id, peer_id, false),
        )
    } else {
        &&& is_send_error(r, "network send error"@)
        &&& cx1 == SyncNetworkContext { request_id: (cx0.request_id + 1) as u32, ..cx0 }
    }
}

/// Whether `cx1`, `r` is what asking a peer for blobs from `cx0` gives.
pub open spec fn blobs_requested(
    cx0: SyncNetworkContext,
    cx1: SyncNetworkContext,
    peer_id: PeerId,
    request: BlobsByRangeRequest,
    parent_request_id: ComponentsByRangeRequestId,
    r: Result<BlobsByRangeRequestId, RpcRequestSendError>,
) -> bool {
    let id = BlobsByRangeRequestId { id: cx0.request_id, parent_request_id };
    if cx0.network_send.is_open() {
        &&& r == Ok::<BlobsByRangeRequestId, RpcRequestSendError>(id)
        &&& cx1 == SyncNetworkContext {
            network_send: cx1.network_send,
            request_id: cx1.request_id,
            blobs_by_range_requests: cx1.blobs_by_range_requests,
            ..cx0
        }
        &&& message_and_number(
            cx0,
            cx1,
            MessageView::SendRequest {
                peer_id,
                request: RequestView::BlobsByRange(request),
                app_request_id: AppRequestId::Sync(SyncRequestId::BlobsByRange(id)),
            },
        )
        &&& cx1.blobs_by_range_requests@ == cx0.blobs_by_range_requests@.insert(
            id.number(),
            fresh_request(id, peer_id, false),
        )
    } else {
        &&& is_send_error(r, "network send error"@)
        &&& cx1 == SyncNetworkContext { request_id: (cx0.request_id + 1) as u32, ..cx0 }
    }
}

/// Whether `m` holds the request `id`, made to `peer`.
pub open spec fn holds_request<I: RequestId, T>(
    m: Map<u64, ActiveRequestView<I, T>>,
    id: I,
    peer: PeerId,
) -> bool {
    m.contains_key(id.number()) && m[id.number()].id == id && m[id.number()].peer_id == peer
}

/// A kind of request, and how its identifiers become identifiers of any request.
trait RequestKind<I> {
    spec fn spec_wrap(id: I) -> SyncRequestId;

    fn wrap(id: I) -> (r: SyncRequestId)
        ensures
            r == Self::spec_wrap(id),
    ;

    proof fn injective(a: I, b: I)
        requires
            Self::spec_wrap(a) == Self::spec_wrap(b),
        ensures
            a == b,
    ;
}

/// Requests for single blocks.
struct BlocksByRootKind;

impl RequestKind<SingleLookupReqId> for BlocksByRootKind {
    spec fn spec_wrap(id: SingleLookupReqId) -> SyncRequestId {
        SyncRequestId::SingleBlock { id }
    }

    fn wrap(id: SingleLookupReqId) -> (r: SyncRequestId) {
        SyncRequestId::SingleBlock { id }
    }

    proof fn injective(a: SingleLookupReqId, b: SingleLookupReqId) {
    }
}

/// Requests for the blobs of single blocks.
struct BlobsByRootKind;

impl RequestKind<SingleLookupReqId> for BlobsByRootKind {
    spec fn spec_wrap(id: SingleLookupReqId) -> SyncRequestId {
        SyncRequestId::SingleBlob { id }
    }

    fn wrap(id: SingleLookupReqId) -> (r: SyncRequestId) {
        SyncRequestId::SingleBlob { id }
    }

    proof fn injective(a: SingleLookupReqId, b: SingleLookupReqId) {
    }
}

/// Requests for columns of single blocks.
struct ColumnsByRootKind;

impl RequestKind<DataColumnsByRootRequestId> for ColumnsByRootKind {
    spec fn spec_wrap(id: DataColumnsByRootRequestId) -> SyncRequestId {
        SyncRequestId::DataColumnsByRoot(id)
    }

    fn wrap(id: DataColumnsByRootRequestId) -> (r: SyncRequestId) {
        SyncRequestId::DataColumnsByRoot(id)
    }

    proof fn injective(a: DataColumnsByRootRequestId, b: DataColumnsByRootRequestId) {
    }
}

/// Requests for the blocks of a range.
struct BlocksByRangeKind;

impl RequestKind<BlocksByRangeRequestId> for BlocksByRangeKind {
    spec fn spec_wrap(id: BlocksByRangeRequestId) -> SyncRequestId {
        SyncRequestId::BlocksByRange(id)
    }

    fn wrap(id: BlocksByRangeRequestId) -> (r: SyncRequestId) {
        SyncRequestId::BlocksByRange(id)
    }

    proof fn injective(a: BlocksByRangeRequestId, b: BlocksByRangeRequestId) {
    }
}

/// Requests for the blobs of a range.
struct BlobsByRangeKind;

impl RequestKind<BlobsByRangeRequestId> for BlobsByRangeKind {
    spec fn spec_wrap(id: BlobsByRangeRequestId) -> SyncRequestId {
        SyncRequestId::BlobsByRange(id)
    }

    fn wrap(id: BlobsByRangeRequestId) -> (r: SyncRequestId) {
        SyncRequestId::BlobsByRange(id)
    }

    proof fn injective(a: BlobsByRangeRequestId, b: BlobsByRangeRequestId) {
    }
}

/// Requests for columns of a range.
struct ColumnsByRangeKind;

impl RequestKind<DataColumnsByRangeRequestId> for ColumnsByRangeKind {
    spec fn spec_wrap(id: DataColumnsByRangeRequestId) -> SyncRequestId {
        SyncRequestId::DataColumnsByRange(id)
    }

    fn wrap(id: DataColumnsByRangeRequestId) -> (r: SyncRequestId) {
        SyncRequestId::DataColumnsByRange(id)
    }

    proof fn injective(a: DataColumnsByRangeRequestId, b: DataColumnsByRangeRequestId) {
    }
}

/// Appends the requests, with their identifiers wrapped.
fn append_requests<I: RequestId, T, K: RequestKind<I>>(
    out: &mut Vec<(SyncRequestId, PeerId)>,
    requests: &ActiveRequests<I, T>,
    kind: K,
) -> (added: Ghost<Seq<(SyncRequestId, PeerId)>>)
    requires
        requests.wf(),
    ensures
        final(out)@ == old(out)@ + added@,
        added@.no_duplicates(),
        forall|e: (SyncRequestId, PeerId)| #[trigger]
            added@.contains(e) ==> exists|i: I| e.0 == #[trigger] K::spec_wrap(i),
        forall|i: I, peer: PeerId| #[trigger]
            added@.contains((K::spec_wrap(i), peer)) <==> holds_request(requests@, i, peer),
{
    let list = requests.active_requests();
    let ghost before = out@;
    let ghost wrapped = list@.map_values(|e: (I, PeerId)| (K::spec_wrap(e.0), e.1));
    let mut i: usize = 0;
    assert(wrapped.take(0) =~= Seq::empty());
    assert(before + Seq::<(SyncRequestId, PeerId)>::empty() =~= before);
    while i < list.len()
        invariant
            i <= list@.len(),
            wrapped == list@.map_values(|e: (I, PeerId)| (K::spec_wrap(e.0), e.1)),
            out@ == before + wrapped.take(i as int),
        decreases list@.len() - i,
    {
        let (id, peer) = list[i];
        out.push((K::wrap(id), peer));
        assert(out@ =~= before + wrapped.take(i + 1));
        i += 1;
    }
    proof {
        assert(wrapped.take(i as int) =~= wrapped);
        assert forall|a: int, b: int| 0 <= a < b < wrapped.len() implies wrapped[a] != wrapped[b] by {
            assert(list@[a] != list@[b]);
            if wrapped[a] == wrapped[b] {
                K::injective(list@[a].0, list@[b].0);
            }
        }
        assert forall|e: (SyncRequestId, PeerId)| #[trigger] wrapped.contains(e) implies exists|i: I|
            e.0 == #[trigger] K::spec_wrap(i) by {
            let k = choose|k: int| 0 <= k < wrapped.len() && wrapped[k] == e;
            assert(e.0 == K::spec_wrap(list@[k].0));
        }
        assert forall|id: I, peer: PeerId| #[trigger] wrapped.contains((K::spec_wrap(id), peer))
            <==> holds_request(requests@, id, peer) by {
            if wrapped.contains((K::spec_wrap(id), peer)) {
                let k = choose|k: int| 0 <= k < wrapped.len() && wrapped[k] == (K::spec_wrap(id), peer);
                K::injective(list@[k].0, id);
                assert(list@[k] == (id, peer));
                assert(list@.contains((id, peer)));
            }
            if holds_request(requests@, id, peer) {
                assert(list@.contains((id, peer)));
                let k = choose|k: int| 0 <= k < list@.len() && list@[k] == (id, peer);
                assert(wrapped[k] == (K::spec_wrap(id), peer));
            }
        }
    }
    Ghost(wrapped)
}

proof fn lemma_concat<A>(a: Seq<A>, b: Seq<A>)
    requires
        a.no_duplicates(),
        b.no_duplicates(),
        forall|e: A| !(#[trigger] a.contains(e) && b.contains(e)),
    ensures
        (a + b).no_duplicates(),
        forall|e: A| #[trigger] (a + b).contains(e) <==> a.contains(e) || b.contains(e),
{
    assert forall|e: A| #[trigger] (a + b).contains(e) <==> a.contains(e) || b.contains(e) by {
        if (a + b).contains(e) {
            let i = choose|i: int| 0 <= i < (a + b).len() && (a + b)[i] == e;
            if i < a.len() {
                assert(a[i] == e);
            } else {
                assert(b[i - a.len()] == e);
            }
        }
        if a.contains(e) {
            let i = choose|i: int| 0 <= i < a.len() && a[i] == e;
            assert((a + b)[i] == e);
        }
        if b.contains(e) {
            let i = choose|i: int| 0 <= i < b.len() && b[i] == e;
            assert((a + b)[a.len() + i] == e);
        }
    }
    assert forall|i: int, j: int| 0 <= i < j < (a + b).len() implies (a + b)[i] != (a + b)[j] by {
        if i < a.len() && j >= a.len() {
            assert(a.contains(a[i]));
            assert(b.contains(b[j - a.len()]));
        }
    }
}

impl SyncNetworkContext {
    /// Whether `id` is an active request, made to `peer`.
    pub open spec fn is_active(self, id: SyncRequestId, peer: PeerId) -> bool {
        match id {
            SyncRequestId::SingleBlock { id } => holds_request(self.blocks_by_root_requests@, id, peer),
            SyncRequestId::SingleBlob { id } => holds_request(self.blobs_by_root_requests@, id, peer),
            SyncRequestId::DataColumnsByRoot(id) => holds_request(
                self.data_columns_by_root_requests@,
                id,
                peer,
            ),
            SyncRequestId::BlocksByRange(id) => holds_request(
                self.blocks_by_range_requests@,
                id,
                peer,
            ),
            SyncRequestId::BlobsByRange(id) => holds_request(self.blobs_by_range_requests@, id, peer),
            SyncRequestId::DataColumnsByRange(id) => holds_request(
                self.data_columns_by_range_requests@,
                id,
                peer,
            ),
        }
    }

    /// All active requests with their peers, each once.
    pub fn active_requests(&self) -> (r: Vec<(SyncRequestId, PeerId)>)
        requires
            self.wf(),
        ensures
            r@.no_duplicates(),
            forall|e: (SyncRequestId, PeerId)| #[trigger] r@.contains(e) <==> self.is_active(e.0, e.1),
    {
        let mut r: Vec<(SyncRequestId, PeerId)> = Vec::new();
        let Ghost(s1) = append_requests(&mut r, &self.blocks_by_root_requests, BlocksByRootKind);
        let Ghost(s2) = append_requests(&mut r, &self.blobs_by_root_requests, BlobsByRootKind);
        let Ghost(s3) = append_requests(&mut r, &self.data_columns_by_root_requests, ColumnsByRootKind);
        let Ghost(s4) = append_requests(&mut r, &self.blocks_by_range_requests, BlocksByRangeKind);
        let Ghost(s5) = append_requests(&mut r, &self.blobs_by_range_requests, BlobsByRangeKind);
        let Ghost(s6) = append_requests(&mut r, &self.data_columns_by_range_requests, ColumnsByRangeKind);
        proof {
            assert(r@ =~= s1 + s2 + s3 + s4 + s5 + s6);
            lemma_concat(s1, s2);
            lemma_concat(s1 + s2, s3);
            lemma_concat(s1 + s2 + s3, s4);
            lemma_concat(s1 + s2 + s3 + s4, s5);
            lemma_concat(s1 + s2 + s3 + s4 + s5, s6);
            assert forall|e: (SyncRequestId, PeerId)| #[trigger] r@.contains(e) <==> self.is_active(
                e.0,
                e.1,
            ) by {
                match e.0 {
                    SyncRequestId::SingleBlock { id } => {
                        assert(s1.contains((BlocksByRootKind::spec_wrap(id), e.1)) <==> holds_request(
                            self.blocks_by_root_requests@,
                            id,
                            e.1,
                        ));
                    },
                    SyncRequestId::SingleBlob { id } => {
                        assert(s2.contains((BlobsByRootKind::spec_wrap(id), e.1)) <==> holds_request(
                            self.blobs_by_root_requests@,
                            id,
                            e.1,
                        ));
                    },
                    SyncRequestId::DataColumnsByRoot(id) => {
                        assert(s3.contains((ColumnsByRootKind::spec_wrap(id), e.1)) <==> holds_request(
                            self.data_columns_by_root_requests@,
                            id,
                            e.1,
                        ));
                    },
                    SyncRequestId::BlocksByRange(id) => {
                        assert(s4.contains((BlocksByRangeKind::spec_wrap(id), e.1)) <==> holds_request(
                            self.blocks_by_range_requests@,
                            id,
                            e.1,
                        ));
                    },
                    SyncRequestId::BlobsByRange(id) => {
                        assert(s5.contains((BlobsByRangeKind::spec_wrap(id), e.1)) <==> holds_request(
                            self.blobs_by_range_requests@,
                            id,
                            e.1,
                        ));
                    },
                    SyncRequestId::DataColumnsByRange(id) => {
                        assert(s6.contains((ColumnsByRangeKind::spec_wrap(id), e.1)) <==> holds_request(
                            self.data_columns_by_range_requests@,
                            id,
                            e.1,
                        ));
                    },
                }
            }
        }
        r
    }

    /// The requests that were made to the peer, each once.
    pub fn peer_disconnected(&self, peer_id: PeerId) -> (r: Vec<SyncRequestId>)
        requires
            self.wf(),
        ensures
            r@.no_duplicates(),
            forall|id: SyncRequestId| #[trigger] r@.contains(id) <==> self.is_active(id, peer_id),
    {
        let all = self.active_requests();
        let mut r: Vec<SyncRequestId> = Vec::new();
        let mut i: usize = 0;
        while i < all.len()
            invariant
                i <= all@.len(),
                all@.no_duplicates(),
                r@.no_duplicates(),
                forall|id: SyncRequestId| #[trigger]
                    r@.contains(id) <==> all@.take(i as int).contains((id, peer_id)),
            decreases all@.len() - i,
        {
            let (id, peer) = all[i];
            let ghost short = all@.take(i as int);
            let ghost before = r@;
            assert(all@.take(i + 1) =~= short.push((id, peer)));
            assert(!short.contains((id, peer)));
            if peer == peer_id {
                assert(!before.contains(id));
                r.push(id);
            }
            proof {
                assert forall|x: SyncRequestId| #[trigger] r@.contains(x) <==> all@.take(
                    i + 1,
                ).contains((x, peer_id)) by {
                    lemma_contains_push(short, (id, peer), (x, peer_id));
                    lemma_contains_push(before, id, x);
                    assert(before.contains(x) <==> short.contains((x, peer_id)));
                }
            }
            i += 1;
        }
        proof {
            assert(all@.take(i as int) =~= all@);
            assert forall|id: SyncRequestId| #[trigger] r@.contains(id) <==> self.is_active(id, peer_id) by {
                assert(all@.contains((id, peer_id)) <==> self.is_active(id, peer_id));
            }
        }
        r
    }
}

proof fn lemma_contains_push<A>(s: Seq<A>, x: A, y: A)
    ensures
        s.push(x).contains(y) <==> s.contains(y) || x == y,
{
    if s.contains(y) {
        let i = choose|i: int| 0 <= i < s.len() && s[i] == y;
        assert(s.push(x)[i] == y);
    }
    if x == y {
        assert(s.push(x)[s.len() as int] == y);
    }
}

impl SyncNetworkContext {
    /// A context without any requests; the execution engine is taken to be online.
    pub fn new(
        network_send: NetworkSender,
        network_globals: NetworkGlobals,
        sampling_columns: Vec<ColumnIndex>,
        max_column_failures: usize,
    ) -> (r: Self)
        requires
            network_globals.wf(),
        ensures
            r.wf(),
            r.network_send == network_send,
            r.network_globals == network_globals,
            r.sampling_columns == sampling_columns,
            r.max_column_failures == max_column_failures,
            r.request_id == 1,
            r.execution_engine_state == EngineState::Online,
            forall|p: PeerId| #[trigger] r.load_of(p) == 0,
            forall|id: SyncRequestId, p: PeerId| !#[trigger] r.is_active(id, p),
            r.custody_by_root_requests@ == Map::<u64, (CustodyRequester, u64)>::empty(),
            r.custody_by_range_requests@ == Map::<u64, ActiveCustodyByRangeRequest>::empty(),
            r.block_components_by_range_requests@ == Map::<
                u64,
                BlockComponentsByRangeRequest,
            >::empty(),
    {
        let custody_by_root_requests: fnv::FnvHashMap<u64, (CustodyRequester, u64)> =
            Default::default();
        let custody_by_range_requests: fnv::FnvHashMap<u64, ActiveCustodyByRangeRequest> =
            Default::default();
        let block_components_by_range_requests: fnv::FnvHashMap<
            u64,
            BlockComponentsByRangeRequest,
        > = Default::default();
        let r = SyncNetworkContext {
            network_send,
            request_id: 1,
            blocks_by_root_requests: ActiveRequests::new("blocks_by_root"),
            blobs_by_root_requests: ActiveRequests::new("blobs_by_root"),
            data_columns_by_root_requests: ActiveRequests::new("data_columns_by_root"),
            blocks_by_range_requests: ActiveRequests::new("blocks_by_range"),
            blobs_by_range_requests: ActiveRequests::new("blobs_by_range"),
            data_columns_by_range_requests: ActiveRequests::new("data_columns_by_range"),
            custody_by_root_requests,
            custody_by_range_requests,
            block_components_by_range_requests,
            execution_engine_state: EngineState::Online,
            network_globals,
            sampling_columns,
            max_column_failures,
        };
        proof {
            assert forall|p: PeerId| #[trigger] r.load_of(p) == 0 by {
                lemma_no_requests(r.blocks_by_root_requests@, p);
                lemma_no_requests(r.blobs_by_root_requests@, p);
                lemma_no_requests(r.data_columns_by_root_requests@, p);
                lemma_no_requests(r.blocks_by_range_requests@, p);
                lemma_no_requests(r.blobs_by_range_requests@, p);
                lemma_no_requests(r.data_columns_by_range_requests@, p);
            }
        }
        r
    }

    pub fn network_globals(&self) -> (r: &NetworkGlobals)
        ensures
            *r == self.network_globals,
    {
        &self.network_globals
    }

    pub fn spec(&self) -> (r: &ChainSpec)
        ensures
            *r == self.network_globals.spec,
    {
        &self.network_globals.spec
    }

    /// The software of the peer, where it is known.
    pub fn client_type(&self, peer_id: PeerId) -> (r: Client)
        requires
            self.wf(),
        ensures
            r == (match self.network_globals.peers.position(peer_id) {
                Some(i) => self.network_globals.peers@[i].client,
                None => Client::Unknown,
            }),
    {
        self.network_globals.client(peer_id)
    }

    /// Sends the status message, which the caller keeps under `status`, to each of the peers.
    pub fn status_peers(&mut self, status: u64, peers: &Vec<PeerId>)
        ensures
            custody_by_range::messages_sent(
                *old(self),
                *final(self),
                Seq::new(peers@.len(), |i: int| status_message(status, peers@[i])),
            ),
    {
        let ghost f = |i: int| status_message(status, peers@[i]);
        let ghost sent0 = self.network_send.sent();
        assert(Seq::new(0, f) =~= Seq::empty());
        assert(sent0 + Seq::<MessageView>::empty() =~= sent0);
        let mut i: usize = 0;
        while i < peers.len()
            invariant
                i <= peers@.len(),
                f == (|i: int| status_message(status, peers@[i])),
                sent0 == old(self).network_send.sent(),
                custody_by_range::messages_sent(*old(self), *self, Seq::new(i as nat, f)),
            decreases peers@.len() - i,
        {
            let ghost before = self.network_send.sent();
            let message = NetworkMessage::SendRequest {
                peer_id: peers[i],
                request: RequestType::Status(status),
                app_request_id: AppRequestId::Router,
            };
            assert(message@ == f(i as int));
            let _ = self.send_network_msg(message);
            proof {
                assert(Seq::new((i + 1) as nat, f) =~= Seq::new(i as nat, f).push(f(i as int)));
                if old(self).network_send.is_open() {
                    assert(self.network_send.sent() =~= sent0 + Seq::new((i + 1) as nat, f));
                }
            }
            i += 1;
        }
    }

    /// Sends any message to the network service.
    pub fn send_network_msg(&mut self, msg: NetworkMessage) -> (r: Result<(), &'static str>)
        ensures
            *final(self) == (SyncNetworkContext { network_send: final(self).network_send, ..*old(self) }),
            final(self).network_send.is_open() == old(self).network_send.is_open(),
            old(self).network_send.is_open() ==> r is Ok && final(self).network_send.sent()
                == old(self).network_send.sent().push(msg@),
            !old(self).network_send.is_open() ==> (r matches Err(e) && e@
                == "Network channel send Failed"@) && *final(self) == *old(self),
    {
        match self.network_send.send(msg) {
            Ok(()) => Ok(()),
            Err(_) => Err("Network channel send Failed"),
        }
    }

    pub fn is_execution_engine_online(&self) -> (r: bool)
        ensures
            r == (self.execution_engine_state == EngineState::Online),
    {
        self.execution_engine_state == EngineState::Online
    }

    pub fn update_execution_engine_state(&mut self, engine_state: EngineState)
        ensures
            *final(self) == (SyncNetworkContext { execution_engine_state: engine_state, ..*old(self) }),
    {
        self.execution_engine_state = engine_state;
    }

    /// Terminates the connection with the peer and bans it. Where the channel is closed, nothing
    /// happens.
    pub fn goodbye_peer(&mut self, peer_id: PeerId, reason: GoodbyeReason)
        ensures
            custody_by_range::messages_sent(
                *old(self),
                *final(self),
                seq![
                    MessageView::GoodbyePeer { peer_id, reason, source: ReportSource::SyncService },
                ],
            ),
    {
        let ghost sent0 = self.network_send.sent();
        let _ = self.network_send.send(
            NetworkMessage::GoodbyePeer { peer_id, reason, source: ReportSource::SyncService },
        );
        proof {
            let message = MessageView::GoodbyePeer {
                peer_id,
                reason,
                source: ReportSource::SyncService,
            };
            assert(sent0.push(message) =~= sent0 + seq![message]);
        }
    }

    /// Subscribes to the core topics. Where the channel is closed, nothing happens.
    pub fn subscribe_core_topics(&mut self)
        ensures
            custody_by_range::messages_sent(
                *old(self),
                *final(self),
                seq![MessageView::SubscribeCoreTopics],
            ),
    {
        let ghost sent0 = self.network_send.sent();
        let _ = self.network_send.send(NetworkMessage::SubscribeCoreTopics);
        assert(sent0.push(MessageView::SubscribeCoreTopics) =~= sent0
            + seq![MessageView::SubscribeCoreTopics]);
    }

    /// Starts to fetch the blocks of a range with all their data.
    pub fn block_components_by_range_request(
        &mut self,
        request: BlocksByRangeRequest,
        requester: RangeRequestId,
        peers: &HashSet<PeerId>,
        peers_to_deprioritize: &HashSet<PeerId>,
        total_requests_per_peer: &HashMap<PeerId, usize>,
    ) -> (r: Result<Id, RpcRequestSendError>)
        requires
            old(self).wf(),
            old(self).has_ids(3),
        ensures
            final(self).wf(),
            components_requested(
                *old(self),
                ComponentsByRangeRequestId { id: old(self).request_id, requester },
                request,
                peers@,
                peers_to_deprioritize@,
                total_requests_per_peer@,
                *final(self),
                r,
            ),
    {
        let ghost cx0 = *self;
        let id = ComponentsByRangeRequestId { id: self.next_id(), requester };
        let made = BlockComponentsByRangeRequest::new(
            id,
            request,
            peers,
            peers_to_deprioritize,
            total_requests_per_peer,
            self,
        );
        let ghost cx = *self;
        proof {
            let (order, factors) = choose|order: Seq<PeerId>, factors: Seq<u32>|
                fnv_map::is_order(order, peers@) && factors.len() == order.len()
                    && #[trigger] block_components_by_range::components_started(
                    id,
                    request,
                    order,
                    factors,
                    peers_to_deprioritize@,
                    total_requests_per_peer@,
                    SyncNetworkContext { request_id: (cx0.request_id + 1) as u32, ..cx0 },
                    cx,
                    made,
                );
            assert(block_components_by_range::components_started(
                id,
                request,
                order,
                factors,
                peers_to_deprioritize@,
                total_requests_per_peer@,
                SyncNetworkContext { request_id: (cx0.request_id + 1) as u32, ..cx0 },
                cx,
                made,
            ));
        }
        match made {
            Ok(req) => {
                fnv_map::insert(
                    &mut self.block_components_by_range_requests,
                    id.get_number(),
                    req,
                );
                Ok(id.id)
            },
            Err(e) => Err(e),
        }
    }

    /// The active requests for blocks with data, each with the part of it that is in flight.
    pub fn active_block_components_by_range_requests(&self) -> (r: Vec<
        (ComponentsByRangeRequestId, BlockComponentsByRangeRequestStep),
    >)
        ensures
            exists|order: Seq<u64>| #[trigger]
                lists_steps(self.block_components_by_range_requests@, order, r@),
    {
        let keys = fnv_map::keys(&self.block_components_by_range_requests);
        let ghost m = self.block_components_by_range_requests@;
        let mut r: Vec<(ComponentsByRangeRequestId, BlockComponentsByRangeRequestStep)> = Vec::new();
        let mut i: usize = 0;
        while i < keys.len()
            invariant
                i <= keys@.len(),
                m == self.block_components_by_range_requests@,
                fnv_map::is_order(keys@, m.dom()),
                r@.len() == i,
                forall|j: int| 0 <= j < i ==> lists_step(m[#[trigger] keys@[j]], r@[j]),
            decreases keys@.len() - i,
        {
            assert(keys@.contains(keys@[i as int]));
            assert(m.dom().contains(keys@[i as int]));
            match fnv_map::get(&self.block_components_by_range_requests, keys[i]) {
                Some(request) => {
                    r.push((request.id, request.state_step()));
                },
                None => {},
            }
            i += 1;
        }
        assert(lists_steps(m, keys@, r@));
        r
    }
}

/// Whether `entry` names the request and the part of it that is in flight.
pub open spec fn lists_step(
    request: BlockComponentsByRangeRequest,
    entry: (ComponentsByRangeRequestId, BlockComponentsByRangeRequestStep),
) -> bool {
    entry.0 == request.id && entry.1 == (match request.state {
        block_components_by_range::State::FuluEnabled(
            block_components_by_range::FuluEnabledState::CustodyRequest { .. },
        ) => BlockComponentsByRangeRequestStep::CustodyRequest,
        _ => BlockComponentsByRangeRequestStep::BlocksRequest,
    })
}

/// Whether `list` names the requests of `m` in the given order of their numbers.
pub open spec fn lists_steps(
    m: Map<u64, BlockComponentsByRangeRequest>,
    order: Seq<u64>,
    list: Seq<(ComponentsByRangeRequestId, BlockComponentsByRangeRequestStep)>,
) -> bool {
    &&& fnv_map::is_order(order, m.dom())
    &&& list.len() == order.len()
    &&& forall|i: int| 0 <= i < order.len() ==> lists_step(m[#[trigger] order[i]], list[i])
}

/// The message that sends the status, which the caller keeps under `status`, to `peer`.
pub open spec fn status_message(status: u64, peer_id: PeerId) -> MessageView {
    MessageView::SendRequest {
        peer_id,
        request: RequestView::Status(status),
        app_request_id: AppRequestId::Router,
    }
}

/// What starting to fetch the blocks of a range with all their data does, for some order of the
/// peers and some random numbers: a request that could be started is kept.
pub open spec fn components_requested(
    cx0: SyncNetworkContext,
    id: ComponentsByRangeRequestId,
    request: BlocksByRangeRequest,
    peers: Set<PeerId>,
    held_back: Set<PeerId>,
    totals: Map<PeerId, usize>,
    cx1: SyncNetworkContext,
    r: Result<Id, RpcRequestSendError>,
) -> bool {
    exists|
        order: Seq<PeerId>,
        factors: Seq<u32>,
        cx: SyncNetworkContext,
        made: Result<BlockComponentsByRangeRequest, RpcRequestSendError>,
    |
        {
            &&& fnv_map::is_order(order, peers)
            &&& factors.len() == order.len()
            &&& #[trigger] block_components_by_range::components_started(
                id,
                request,
                order,
                factors,
                held_back,
                totals,
                SyncNetworkContext { request_id: (cx0.request_id + 1) as u32, ..cx0 },
                cx,
                made,
            )
            &&& match made {
                Ok(q) => {
                    &&& r == Ok::<Id, RpcRequestSendError>(id.id)
                    &&& cx1 == SyncNetworkContext {
                        block_components_by_range_requests: cx1.block_components_by_range_requests,
                        ..cx
                    }
                    &&& cx1.block_components_by_range_requests@
                        == cx.block_components_by_range_requests@.insert(id.number(), q)
                },
                Err(e) => r == Err::<Id, RpcRequestSendError>(e) && cx1 == cx,
            }
        }
}

proof fn lemma_no_requests<I, T>(m: Map<u64, ActiveRequestView<I, T>>, peer: PeerId)
    requires
        m == Map::<u64, ActiveRequestView<I, T>>::empty(),
    ensures
        active_requests::count_of_peer(m, peer) == 0,
{
    assert(m.dom().filter(|k: u64| m[k].peer_id == peer) =~= Set::empty());
}

} // verus!
