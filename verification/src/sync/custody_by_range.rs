//! Fetching the custody columns of a range of blocks, from as many peers as it takes.
use crate::fnv_map;
use crate::ordered_map::OrderedMap;
use crate::strings;
use crate::sync::column_request;
use crate::sync::column_request::{ColumnRequest, ColumnRequestView, StatusView};
use crate::sync::errors::{CustodyError, RpcResponseError, RpcResponseResult};
use crate::sync::ids::{CustodyByRangeRequestId, DataColumnsByRangeRequestId, RequestId};
use crate::sync::messages::{
    BlocksByRangeRequest, DataColumnSidecar, MessageView, PeerAction, SignedBeaconBlockHeader,
};
use crate::sync::network_context;
use crate::sync::network_context::SyncNetworkContext;
use crate::sync::peer_choice;
use crate::sync::peer_choice::PeerRank;
use crate::sync::peer_group;
use crate::sync::peer_group::PeerGroup;
use crate::types::{ColumnIndex, ColumnSlot, Hash256, Nanos, PeerId, Slot};
use std::collections::{HashMap, HashSet};
use vstd::prelude::*;
use vstd::string::*;

verus! {

broadcast use vstd::std_specs::hash::group_hash_axioms;

/// How long a peer that failed is not asked again: fifteen seconds.
pub const FAILED_PEERS_EXPIRY: Nanos = 15_000_000_000;

/// How long a request may wait for peers: five minutes.
pub const REQUEST_EXPIRY: Nanos = 300_000_000_000;

/// Columns that are requested from one peer at once.
pub struct ColumnBatch {
    pub peer_id: PeerId,
    pub columns: Vec<ColumnIndex>,
}

/// The contents of a batch.
pub struct BatchView {
    pub peer_id: PeerId,
    pub columns: Seq<ColumnIndex>,
}

impl ColumnBatch {
    pub open spec fn view(self) -> BatchView {
        BatchView { peer_id: self.peer_id, columns: self.columns@ }
    }
}

/// The contents of batches.
pub open spec fn batch_views(batches: Seq<ColumnBatch>) -> Seq<BatchView> {
    batches.map_values(|b: ColumnBatch| b@)
}

struct ActiveBatchColumnsRequest {
    id: DataColumnsByRangeRequestId,
    indices: Vec<ColumnIndex>,
}

/// A batch that was sent and waits for its response.
pub struct SentBatchView {
    pub id: DataColumnsByRangeRequestId,
    pub indices: Seq<ColumnIndex>,
}

impl ActiveBatchColumnsRequest {
    closed spec fn view(self) -> SentBatchView {
        SentBatchView { id: self.id, indices: self.indices@ }
    }
}

/// A request for the custody columns of a range of blocks.
pub struct ActiveCustodyByRangeRequest {
    start_time: Nanos,
    id: CustodyByRangeRequestId,
    request: BlocksByRangeRequest,
    blocks_with_data: Vec<SignedBeaconBlockHeader>,
    column_requests: fnv::FnvHashMap<ColumnIndex, ColumnRequest>,
    active_batch_columns_requests: fnv::FnvHashMap<u64, ActiveBatchColumnsRequest>,
    failed_peers: HashMap<PeerId, Nanos>,
    lookup_peers: HashSet<PeerId>,
}

/// The contents of a custody request.
pub struct CustodyView {
    pub start_time: Nanos,
    pub id: CustodyByRangeRequestId,
    pub request: BlocksByRangeRequest,
    /// The blocks that have data, which every column must be served for.
    pub blocks: Seq<SignedBeaconBlockHeader>,
    pub columns: Map<ColumnIndex, ColumnRequestView>,
    pub batches: Map<u64, SentBatchView>,
    /// When each peer failed last.
    pub failed: Map<PeerId, Nanos>,
    /// The peers that claim to have the blocks.
    pub lookup_peers: Set<PeerId>,
}

/// Why a custody request failed.
pub enum CustodyErrorView {
    Internal(Seq<char>),
    TooManyDownloadErrors(RpcResponseError),
    ExpiredNoCustodyPeers(Seq<ColumnIndex>),
}

/// Where a custody request stands after a step.
pub enum CustodyOutcome {
    Active,
    Failed(CustodyErrorView),
    Done(Seq<DataColumnSidecar>, Map<PeerId, Seq<usize>>, Nanos),
}

/// The outcome of a step: failed, still active, or done with the columns, the peers that served
/// them and the latest time at which one was seen.
pub type CustodyByRangeRequestResult = Result<
    Option<(Vec<DataColumnSidecar>, PeerGroup, Nanos)>,
    CustodyError,
>;

pub open spec fn error_view(e: CustodyError) -> CustodyErrorView {
    match e {
        CustodyError::InternalError(text) => CustodyErrorView::Internal(text@),
        CustodyError::TooManyDownloadErrors(e) => CustodyErrorView::TooManyDownloadErrors(e),
        CustodyError::ExpiredNoCustodyPeers(columns) => CustodyErrorView::ExpiredNoCustodyPeers(
            columns@,
        ),
    }
}

pub open spec fn outcome(r: CustodyByRangeRequestResult) -> CustodyOutcome {
    match r {
        Err(e) => CustodyOutcome::Failed(error_view(e)),
        Ok(None) => CustodyOutcome::Active,
        Ok(Some((columns, peers, seen))) => CustodyOutcome::Done(columns@, peers@, seen),
    }
}

/// Whether `peer` failed less than the expiry time ago.
pub open spec fn recently_failed(failed: Map<PeerId, Nanos>, peer: PeerId, now: Nanos) -> bool {
    failed.contains_key(peer) && now < failed[peer] + FAILED_PEERS_EXPIRY
}

/// Whether a batch goes to `peer`.
pub open spec fn has_batch(batches: Seq<BatchView>, peer: PeerId) -> bool {
    exists|i: int| 0 <= i < batches.len() && (#[trigger] batches[i]).peer_id == peer
}

/// The batches with `column` added to that of `peer`.
pub open spec fn with_column(batches: Seq<BatchView>, peer: PeerId, column: ColumnIndex) -> Seq<
    BatchView,
> {
    if has_batch(batches, peer) {
        let i = choose|i: int| 0 <= i < batches.len() && (#[trigger] batches[i]).peer_id == peer;
        batches.update(i, BatchView { peer_id: peer, columns: batches[i].columns.push(column) })
    } else {
        batches.push(BatchView { peer_id: peer, columns: seq![column] })
    }
}

/// The ranks of those of `peers` that did not fail recently. Peers that claim to have the blocks
/// come first, then those with fewer requests, where a batch in the making counts as one; random
/// numbers break ties.
pub open spec fn candidates(
    v: CustodyView,
    cx: SyncNetworkContext,
    batches: Seq<BatchView>,
    peers: Seq<PeerId>,
    factors: Seq<u32>,
    now: Nanos,
) -> Seq<PeerRank>
    decreases peers.len(),
{
    if peers.len() == 0 {
        Seq::empty()
    } else {
        let earlier = candidates(v, cx, batches, peers.drop_last(), factors, now);
        let peer = peers.last();
        if recently_failed(v.failed, peer, now) {
            earlier
        } else {
            earlier.push(
                PeerRank {
                    held_back: !v.lookup_peers.contains(peer),
                    load: (cx.load_of(peer) + (if has_batch(batches, peer) {
                        1int
                    } else {
                        0int
                    })) as u128,
                    factor: factors[peers.len() - 1],
                    peer_id: peer,
                },
            )
        }
    }
}

/// The batches to send for the columns of `order`, one after the other: each column that waits for
/// its download goes to the first of its candidates, if it has any. A column that failed too often
/// fails the whole with its last failure.
pub open spec fn planned(
    v: CustodyView,
    cx: SyncNetworkContext,
    order: Seq<ColumnIndex>,
    factors: Seq<Seq<u32>>,
    now: Nanos,
) -> Result<Seq<BatchView>, RpcResponseError>
    decreases order.len(),
{
    if order.len() == 0 {
        Ok(Seq::empty())
    } else {
        match planned(v, cx, order.drop_last(), factors, now) {
            Err(e) => Err(e),
            Ok(batches) => {
                let column = order.last();
                let request = v.columns[column];
                if !(request.status is NotStarted) {
                    Ok(batches)
                } else if request.failures.len() > cx.max_column_failures {
                    Err(request.failures.last())
                } else {
                    let ranks = candidates(
                        v,
                        cx,
                        batches,
                        cx.network_globals.spec_custody_peers(column),
                        factors[order.len() - 1],
                        now,
                    );
                    match peer_choice::first_peer(ranks) {
                        None => Ok(batches),
                        Some(peer) => Ok(with_column(batches, peer, column)),
                    }
                }
            },
        }
    }
}

/// The identifier of the `i`th request sent after the counter stood at `first`.
pub open spec fn batch_id(first: u32, i: int, parent: CustodyByRangeRequestId) -> DataColumnsByRangeRequestId {
    DataColumnsByRangeRequestId { id: (first + i) as u32, parent_request_id: parent }
}

/// The columns after those of `list` went into request `id`.
pub open spec fn marked(
    columns: Map<ColumnIndex, ColumnRequestView>,
    list: Seq<ColumnIndex>,
    id: DataColumnsByRangeRequestId,
) -> Map<ColumnIndex, ColumnRequestView> {
    columns.map_entries(
        |c: ColumnIndex, r: ColumnRequestView|
            if list.contains(c) {
                ColumnRequestView { status: StatusView::Downloading(id), ..r }
            } else {
                r
            },
    )
}

/// The request after its first `n` batches were sent.
pub open spec fn after_sends(v: CustodyView, batches: Seq<BatchView>, n: nat, first: u32) -> CustodyView
    decreases n,
{
    if n == 0 {
        v
    } else {
        let earlier = after_sends(v, batches, (n - 1) as nat, first);
        let id = batch_id(first, n - 1, v.id);
        let columns = batches[n - 1].columns;
        CustodyView {
            columns: marked(earlier.columns, columns, id),
            batches: earlier.batches.insert(id.number(), SentBatchView { id, indices: columns }),
            ..earlier
        }
    }
}

/// The columns of `order` that wait for their download, in that order.
pub open spec fn awaiting(columns: Map<ColumnIndex, ColumnRequestView>, order: Seq<ColumnIndex>) -> Seq<
    ColumnIndex,
> {
    order.filter(|c: ColumnIndex| columns[c].status is NotStarted)
}

/// Whether every column has arrived.
pub open spec fn all_downloaded(columns: Map<ColumnIndex, ColumnRequestView>) -> bool {
    forall|c: ColumnIndex| #[trigger] columns.contains_key(c) ==> columns[c].status is Downloaded
}

/// Whether some column is being downloaded.
pub open spec fn any_downloading(columns: Map<ColumnIndex, ColumnRequestView>) -> bool {
    exists|c: ColumnIndex| #[trigger] columns.contains_key(c) && columns[c].status is Downloading
}

/// The data of the columns of `order`, one column after the other.
pub open spec fn collected(columns: Map<ColumnIndex, ColumnRequestView>, order: Seq<ColumnIndex>) -> Seq<
    DataColumnSidecar,
>
    decreases order.len(),
{
    if order.len() == 0 {
        Seq::empty()
    } else {
        collected(columns, order.drop_last()) + columns[order.last()].status->Downloaded_1
    }
}

/// The served indices with those of `data` added for `peer`, each index once.
pub open spec fn with_served(
    served: Map<PeerId, Seq<usize>>,
    peer: PeerId,
    data: Seq<DataColumnSidecar>,
) -> Map<PeerId, Seq<usize>>
    decreases data.len(),
{
    if data.len() == 0 {
        served
    } else {
        let earlier = with_served(served, peer, data.drop_last());
        let indices = if earlier.contains_key(peer) {
            earlier[peer]
        } else {
            Seq::empty()
        };
        let index = data.last().index as usize;
        earlier.insert(
            peer,
            if indices.contains(index) {
                indices
            } else {
                indices.push(index)
            },
        )
    }
}

/// Which peer served which column indices.
pub open spec fn served_by(columns: Map<ColumnIndex, ColumnRequestView>, order: Seq<ColumnIndex>) -> Map<
    PeerId,
    Seq<usize>,
>
    decreases order.len(),
{
    if order.len() == 0 {
        Map::empty()
    } else {
        let status = columns[order.last()].status;
        with_served(served_by(columns, order.drop_last()), status->Downloaded_0, status->Downloaded_1)
    }
}

/// The latest time at which a column was seen; `now` where there are no columns.
pub open spec fn last_seen(
    columns: Map<ColumnIndex, ColumnRequestView>,
    order: Seq<ColumnIndex>,
    now: Nanos,
) -> Nanos
    decreases order.len(),
{
    if order.len() == 0 {
        now
    } else {
        let seen = columns[order.last()].status->Downloaded_2;
        if order.len() == 1 {
            seen
        } else {
            let earlier = last_seen(columns, order.drop_last(), now);
            if seen > earlier {
                seen
            } else {
                earlier
            }
        }
    }
}

/// Whether there is one list of random numbers for each column, and in it one for each peer that
/// custodies the column.
pub open spec fn factors_fit(
    cx: SyncNetworkContext,
    order: Seq<ColumnIndex>,
    factors: Seq<Seq<u32>>,
) -> bool {
    &&& factors.len() == order.len()
    &&& forall|i: int|
        0 <= i < order.len() ==> (#[trigger] factors[i]).len() == cx.network_globals.spec_custody_peers(
            order[i],
        ).len()
}

/// What a step that makes progress on request `v0` does, given the order in which the columns are
/// gone through and the random numbers that break ties.
pub open spec fn progress(
    v0: CustodyView,
    cx0: SyncNetworkContext,
    order: Seq<ColumnIndex>,
    factors: Seq<Seq<u32>>,
    now: Nanos,
    timestamp_now: Nanos,
    v1: CustodyView,
    cx1: SyncNetworkContext,
    r: CustodyByRangeRequestResult,
) -> bool {
    if all_downloaded(v0.columns) {
        &&& outcome(r) == CustodyOutcome::Done(
            collected(v0.columns, order),
            served_by(v0.columns, order),
            last_seen(v0.columns, order, timestamp_now),
        )
        &&& v1 == (CustodyView { columns: Map::empty(), ..v0 })
        &&& cx1 == cx0
    } else {
        match planned(v0, cx0, order, factors, now) {
            Err(e) => {
                &&& outcome(r) == CustodyOutcome::Failed(CustodyErrorView::TooManyDownloadErrors(e))
                &&& v1 == v0
                &&& cx1 == cx0
            },
            Ok(batches) => if batches.len() > 0 && !cx0.network_send.is_open() {
                &&& outcome(r) == CustodyOutcome::Failed(
                    CustodyErrorView::Internal("send failed "@ + "network send error"@),
                )
                &&& v1 == v0
                &&& cx1 == (SyncNetworkContext { request_id: (cx0.request_id + 1) as u32, ..cx0 })
            } else {
                &&& v1 == after_sends(v0, batches, batches.len(), cx0.request_id)
                &&& network_context::columns_requested(cx0, cx1, batches, batches.len(), v0.id, v0.request)
                &&& outcome(r) == (if now > v0.start_time + REQUEST_EXPIRY && !any_downloading(
                    v1.columns,
                ) {
                    CustodyOutcome::Failed(
                        CustodyErrorView::ExpiredNoCustodyPeers(awaiting(v1.columns, order)),
                    )
                } else {
                    CustodyOutcome::Active
                })
            },
        }
    }
}

/// The random numbers, as mathematical sequences.
pub open spec fn factor_views(factors: Seq<Vec<u32>>) -> Seq<Seq<u32>> {
    factors.map_values(|f: Vec<u32>| f@)
}

/// Whether no peer has two batches.
spec fn distinct_peers(batches: Seq<BatchView>) -> bool {
    forall|i: int, j: int|
        0 <= i < j < batches.len() ==> (#[trigger] batches[i]).peer_id != (#[trigger] batches[j]).peer_id
}

/// Whether the batches can be sent: each column waits for its download, is one of `order`, and is
/// in one batch only.
spec fn sendable(v: CustodyView, order: Seq<ColumnIndex>, batches: Seq<BatchView>) -> bool {
    &&& distinct_peers(batches)
    &&& batches.len() <= order.len()
    &&& forall|i: int, j: int|
        0 <= i < batches.len() && 0 <= j < batches[i].columns.len() ==> {
            let c = #[trigger] batches[i].columns[j];
            order.contains(c) && v.columns[c].status is NotStarted
        }
    &&& forall|i: int, j: int, k: int, l: int|
        0 <= i < batches.len() && 0 <= j < batches[i].columns.len() && 0 <= k < batches.len() && 0 <= l
            < batches[k].columns.len() && #[trigger] batches[i].columns[j]
            == #[trigger] batches[k].columns[l] ==> i == k && j == l
}

proof fn lemma_with_column_sendable(
    v: CustodyView,
    order: Seq<ColumnIndex>,
    batches: Seq<BatchView>,
    peer: PeerId,
    column: ColumnIndex,
)
    requires
        sendable(v, order, batches),
        !order.contains(column),
        v.columns[column].status is NotStarted,
    ensures
        sendable(v, order.push(column), with_column(batches, peer, column)),
{
    let longer = order.push(column);
    let next = with_column(batches, peer, column);
    assert forall|c: ColumnIndex| order.contains(c) implies longer.contains(c) by {
        let i = choose|i: int| 0 <= i < order.len() && order[i] == c;
        assert(longer[i] == c);
    }
    assert(longer.contains(column)) by {
        assert(longer[order.len() as int] == column);
    }
    let at = if has_batch(batches, peer) {
        choose|i: int| 0 <= i < batches.len() && (#[trigger] batches[i]).peer_id == peer
    } else {
        batches.len() as int
    };
    let old_len = if at < batches.len() {
        batches[at].columns.len() as int
    } else {
        0
    };
    assert(0 <= at < next.len());
    assert forall|i: int, j: int|
        0 <= i < next.len() && 0 <= j < next[i].columns.len() && !(i == at && j == old_len) implies i
        < batches.len() && j < batches[i].columns.len() && #[trigger] next[i].columns[j]
        == batches[i].columns[j] by {}
    assert(next[at].columns[old_len] == column);
    assert forall|i: int, j: int|
        0 <= i < next.len() && 0 <= j < next[i].columns.len() implies longer.contains(
        #[trigger] next[i].columns[j],
    ) && v.columns[next[i].columns[j]].status is NotStarted by {
        if !(i == at && j == old_len) {
            assert(next[i].columns[j] == batches[i].columns[j]);
        }
    }
    assert forall|i: int, j: int, k: int, l: int|
        0 <= i < next.len() && 0 <= j < next[i].columns.len() && 0 <= k < next.len() && 0 <= l
            < next[k].columns.len() && #[trigger] next[i].columns[j] == #[trigger] next[k].columns[l] implies i
        == k && j == l by {
        if !(i == at && j == old_len) {
            assert(next[i].columns[j] == batches[i].columns[j]);
            assert(order.contains(batches[i].columns[j]));
        }
        if !(k == at && l == old_len) {
            assert(next[k].columns[l] == batches[k].columns[l]);
            assert(order.contains(batches[k].columns[l]));
        }
    }
}

proof fn lemma_sendable_longer(
    v: CustodyView,
    order: Seq<ColumnIndex>,
    batches: Seq<BatchView>,
    column: ColumnIndex,
)
    requires
        sendable(v, order, batches),
    ensures
        sendable(v, order.push(column), batches),
{
    assert forall|c: ColumnIndex| order.contains(c) implies order.push(column).contains(c) by {
        let i = choose|i: int| 0 <= i < order.len() && order[i] == c;
        assert(order.push(column)[i] == c);
    }
}

proof fn lemma_planned_err(
    v: CustodyView,
    cx: SyncNetworkContext,
    order: Seq<ColumnIndex>,
    factors: Seq<Seq<u32>>,
    now: Nanos,
    n: int,
    e: RpcResponseError,
)
    requires
        0 <= n <= order.len(),
        planned(v, cx, order.take(n), factors, now) == Err::<Seq<BatchView>, RpcResponseError>(e),
    ensures
        planned(v, cx, order, factors, now) == Err::<Seq<BatchView>, RpcResponseError>(e),
    decreases order.len(),
{
    if n == order.len() {
        assert(order.take(n) =~= order);
    } else {
        assert(order.drop_last().take(n) =~= order.take(n));
        lemma_planned_err(v, cx, order.drop_last(), factors, now, n, e);
    }
}

/// Adds `column` to the batch of `peer`.
fn add_column(batches: &mut Vec<ColumnBatch>, peer_id: PeerId, column: ColumnIndex)
    requires
        distinct_peers(batch_views(old(batches)@)),
    ensures
        batch_views(final(batches)@) == with_column(batch_views(old(batches)@), peer_id, column),
{
    let ghost before = batch_views(batches@);
    let mut i: usize = 0;
    while i < batches.len()
        invariant
            i <= batches@.len(),
            *batches == *old(batches),
            before == batch_views(batches@),
            distinct_peers(before),
            forall|j: int| 0 <= j < i ==> (#[trigger] before[j]).peer_id != peer_id,
        decreases batches@.len() - i,
    {
        if batches[i].peer_id == peer_id {
            assert(before[i as int].peer_id == peer_id);
            let mut batch = batches.remove(i);
            batch.columns.push(column);
            batches.insert(i, batch);
            assert(batch_views(batches@) =~= with_column(before, peer_id, column));
            return;
        }
        assert(before[i as int].peer_id != peer_id);
        i += 1;
    }
    let mut columns: Vec<ColumnIndex> = Vec::new();
    columns.push(column);
    assert(columns@ =~= seq![column]);
    batches.push(ColumnBatch { peer_id, columns });
    assert(batch_views(batches@) =~= with_column(before, peer_id, column));
}

/// Whether a batch goes to `peer`.
fn batch_exists(batches: &Vec<ColumnBatch>, peer_id: PeerId) -> (r: bool)
    ensures
        r == has_batch(batch_views(batches@), peer_id),
{
    let ghost views = batch_views(batches@);
    let mut i: usize = 0;
    while i < batches.len()
        invariant
            i <= batches@.len(),
            views == batch_views(batches@),
            forall|j: int| 0 <= j < i ==> (#[trigger] views[j]).peer_id != peer_id,
        decreases batches@.len() - i,
    {
        if batches[i].peer_id == peer_id {
            assert(views[i as int].peer_id == peer_id);
            return true;
        }
        assert(views[i as int].peer_id != peer_id);
        i += 1;
    }
    false
}

impl ActiveCustodyByRangeRequest {
    pub closed spec fn view(self) -> CustodyView {
        CustodyView {
            start_time: self.start_time,
            id: self.id,
            request: self.request,
            blocks: self.blocks_with_data@,
            columns: self.column_requests@.map_values(|c: ColumnRequest| c@),
            batches: self.active_batch_columns_requests@.map_values(
                |b: ActiveBatchColumnsRequest| b@,
            ),
            failed: self.failed_peers@,
            lookup_peers: self.lookup_peers@,
        }
    }

    /// The identifier of the request.
    pub fn request_id(&self) -> (r: CustodyByRangeRequestId)
        ensures
            r == self@.id,
    {
        self.id
    }

    /// A request for the given columns of the given blocks; nothing has been asked for yet.
    pub fn new(
        id: CustodyByRangeRequestId,
        request: BlocksByRangeRequest,
        blocks_with_data: Vec<SignedBeaconBlockHeader>,
        column_indices: &Vec<ColumnIndex>,
        lookup_peers: HashSet<PeerId>,
        now: Nanos,
    ) -> (r: Self)
        ensures
            r@ == (CustodyView {
                start_time: now,
                id,
                request,
                blocks: blocks_with_data@,
                columns: Map::new(
                    |c: ColumnIndex| column_indices@.contains(c),
                    |c: ColumnIndex|
                        ColumnRequestView { status: StatusView::NotStarted, failures: Seq::empty() },
                ),
                batches: Map::empty(),
                failed: Map::empty(),
                lookup_peers: lookup_peers@,
            }),
    {
        let ghost fresh = ColumnRequestView { status: StatusView::NotStarted, failures: Seq::empty() };
        let mut column_requests: fnv::FnvHashMap<ColumnIndex, ColumnRequest> = Default::default();
        let mut i: usize = 0;
        while i < column_indices.len()
            invariant
                i <= column_indices@.len(),
                fresh == (ColumnRequestView { status: StatusView::NotStarted, failures: Seq::empty() }),
                forall|c: ColumnIndex| #[trigger]
                    column_requests@.contains_key(c) <==> column_indices@.take(i as int).contains(c),
                forall|c: ColumnIndex| #[trigger]
                    column_requests@.contains_key(c) ==> column_requests@[c]@ == fresh,
            decreases column_indices@.len() - i,
        {
            let ghost before = column_requests@;
            let column: u64 = column_indices[i];
            let column_request = ColumnRequest::new();
            fnv_map::insert(&mut column_requests, column, column_request);
            proof {
                let short = column_indices@.take(i as int);
                let long = column_indices@.take(i + 1);
                assert(long =~= short.push(column));
                assert forall|c: ColumnIndex| #[trigger] column_requests@.contains_key(c) <==> long.contains(
                    c,
                ) by {
                    lemma_push_contains(short, column, c);
                    assert(before.contains_key(c) <==> short.contains(c));
                }
            }
            i += 1;
        }
        let active_batch_columns_requests: fnv::FnvHashMap<u64, ActiveBatchColumnsRequest> =
            Default::default();
        let failed_peers: HashMap<PeerId, Nanos> = HashMap::new();
        let r = ActiveCustodyByRangeRequest {
            start_time: now,
            id,
            request,
            blocks_with_data,
            column_requests,
            active_batch_columns_requests,
            failed_peers,
            lookup_peers,
        };
        proof {
            assert(column_indices@.take(i as int) =~= column_indices@);
            assert(r@.columns =~= Map::new(
                |c: ColumnIndex| column_indices@.contains(c),
                |c: ColumnIndex| fresh,
            ));
            assert(r@.batches =~= Map::empty());
        }
        r
    }

    /// The candidates among `peers`.
    fn rank_peers(
        &self,
        cx: &SyncNetworkContext,
        counts: &HashMap<PeerId, u128>,
        batches: &Vec<ColumnBatch>,
        peers: &Vec<PeerId>,
        factors: &Vec<u32>,
        now: Nanos,
    ) -> (r: Vec<PeerRank>)
        requires
            factors@.len() == peers@.len(),
            forall|p: PeerId| #[trigger] network_context::count_in(counts@, p) == cx.load_of(p),
            forall|p: PeerId| #[trigger] cx.load_of(p) < u128::MAX,
        ensures
            r@ == candidates(self@, *cx, batch_views(batches@), peers@, factors@, now),
    {
        let mut r: Vec<PeerRank> = Vec::new();
        let mut j: usize = 0;
        while j < peers.len()
            invariant
                j <= peers@.len(),
                factors@.len() == peers@.len(),
                forall|p: PeerId| #[trigger] network_context::count_in(counts@, p) == cx.load_of(p),
                forall|p: PeerId| #[trigger] cx.load_of(p) < u128::MAX,
                r@ == candidates(
                    self@,
                    *cx,
                    batch_views(batches@),
                    peers@.take(j as int),
                    factors@,
                    now,
                ),
            decreases peers@.len() - j,
        {
            let peer_id: u64 = peers[j];
            assert(peers@.take(j + 1).drop_last() =~= peers@.take(j as int));
            let recently = match self.failed_peers.get(&peer_id) {
                Some(time) => now < *time || now - *time < FAILED_PEERS_EXPIRY,
                None => false,
            };
            if !recently {
                let held_back = !self.lookup_peers.contains(&peer_id);
                let count: u128 = match counts.get(&peer_id) {
                    Some(count) => *count,
                    None => 0,
                };
                assert(count == network_context::count_in(counts@, peer_id));
                assert(cx.load_of(peer_id) < u128::MAX);
                let load: u128 = if batch_exists(batches, peer_id) {
                    count + 1
                } else {
                    count
                };
                r.push(PeerRank { held_back, load, factor: factors[j], peer_id });
            }
            j += 1;
        }
        assert(peers@.take(j as int) =~= peers@);
        r
    }

    /// Decides which columns to request from which peers.
    fn choose_peers(
        &self,
        cx: &SyncNetworkContext,
        order: &Vec<ColumnIndex>,
        factors: &Vec<Vec<u32>>,
        now: Nanos,
    ) -> (r: Result<Vec<ColumnBatch>, CustodyError>)
        requires
            cx.wf(),
            fnv_map::is_order(order@, self@.columns.dom()),
            factors_fit(*cx, order@, factor_views(factors@)),
        ensures
            match planned(self@, *cx, order@, factor_views(factors@), now) {
                Ok(batches) => r matches Ok(v) && batch_views(v@) == batches && sendable(
                    self@,
                    order@,
                    batches,
                ),
                Err(e) => r == Err::<Vec<ColumnBatch>, CustodyError>(
                    CustodyError::TooManyDownloadErrors(e),
                ),
            },
    {
        let counts = cx.active_request_count_by_peer();
        let ghost fs = factor_views(factors@);
        let mut batches: Vec<ColumnBatch> = Vec::new();
        assert(batch_views(batches@) =~= Seq::empty());
        let mut i: usize = 0;
        while i < order.len()
            invariant
                i <= order@.len(),
                cx.wf(),
                fnv_map::is_order(order@, self@.columns.dom()),
                fs == factor_views(factors@),
                factors_fit(*cx, order@, fs),
                forall|p: PeerId| #[trigger] network_context::count_in(counts@, p) == cx.load_of(p),
                forall|p: PeerId| #[trigger] cx.load_of(p) < u128::MAX,
                planned(self@, *cx, order@.take(i as int), fs, now) == Ok::<
                    Seq<BatchView>,
                    RpcResponseError,
                >(batch_views(batches@)),
                sendable(self@, order@.take(i as int), batch_views(batches@)),
            decreases order@.len() - i,
        {
            let column: u64 = order[i];
            let ghost short = order@.take(i as int);
            let ghost long = order@.take(i + 1);
            let ghost before = batch_views(batches@);
            proof {
                assert(long.drop_last() =~= short);
                assert(long =~= short.push(column));
                assert(order@.contains(column));
                assert(self@.columns.dom().contains(column));
                assert(!short.contains(column));
                lemma_sendable_longer(self@, short, before, column);
            }
            match fnv_map::get(&self.column_requests, column) {
                Some(request) => {
                    assert(self@.columns[column] == request@);
                    if request.is_awaiting_download() {
                        if let Some(last_error) = request.too_many_failures(cx.max_column_failures) {
                            proof {
                                lemma_planned_err(
                                    self@,
                                    *cx,
                                    order@,
                                    fs,
                                    now,
                                    i + 1,
                                    last_error,
                                );
                            }
                            return Err(CustodyError::TooManyDownloadErrors(last_error));
                        }
                        let peers = cx.get_custodial_peers(column);
                        assert(fs[i as int] == factors@[i as int]@);
                        let ranks = self.rank_peers(cx, &counts, &batches, &peers, &factors[i], now);
                        if let Some(peer_id) = peer_choice::pick_peer(&ranks) {
                            proof {
                                lemma_with_column_sendable(self@, short, before, peer_id, column);
                            }
                            add_column(&mut batches, peer_id, column);
                        }
                    }
                },
                None => {},
            }
            i += 1;
        }
        assert(order@.take(i as int) =~= order@);
        Ok(batches)
    }
}

proof fn lemma_push_contains(s: Seq<u64>, x: u64, y: u64)
    ensures
        s.push(x).contains(y) <==> s.contains(y) || x == y,
{
    if s.contains(y) {
        let i = choose|i: int| 0 <= i < s.len() && s[i] == y;
        assert(s.push(x)[i] == y);
    }
    if x == y {
        assert(s.push(x)[s.len() as int] == y);
    }
}

proof fn lemma_after_sends_frame(v: CustodyView, batches: Seq<BatchView>, n: nat, first: u32)
    requires
        n <= batches.len(),
    ensures
        ({
            let w = after_sends(v, batches, n, first);
            &&& w == CustodyView { columns: w.columns, batches: w.batches, ..v }
            &&& w.columns.dom() == v.columns.dom()
            &&& forall|c: ColumnIndex|
                (forall|i: int| 0 <= i < n ==> !(#[trigger] batches[i]).columns.contains(c))
                    && v.columns.contains_key(c) ==> #[trigger] w.columns[c] == v.columns[c]
        }),
    decreases n,
{
    if n > 0 {
        lemma_after_sends_frame(v, batches, (n - 1) as nat, first);
        let earlier = after_sends(v, batches, (n - 1) as nat, first);
        let w = after_sends(v, batches, n, first);
        assert(w.columns.dom() =~= earlier.columns.dom());
        assert forall|c: ColumnIndex|
            (forall|i: int| 0 <= i < n ==> !(#[trigger] batches[i]).columns.contains(c))
                && v.columns.contains_key(c) implies #[trigger] w.columns[c] == v.columns[c] by {
            assert(!batches[n - 1].columns.contains(c));
            assert(earlier.columns[c] == v.columns[c]);
        }
    }
}

impl ActiveCustodyByRangeRequest {
    /// Notes that the columns of one batch are being downloaded by request `id`.
    fn start_columns(&mut self, columns: &Vec<ColumnIndex>, id: DataColumnsByRangeRequestId) -> (r: Result<
        (),
        CustodyError,
    >)
        requires
            columns@.no_duplicates(),
            forall|j: int|
                0 <= j < columns@.len() ==> old(self)@.columns.contains_key(#[trigger] columns@[j])
                    && old(self)@.columns[columns@[j]].status is NotStarted,
        ensures
            r is Ok,
            final(self)@ == (CustodyView {
                columns: marked(old(self)@.columns, columns@, id),
                ..old(self)@
            }),
    {
        let ghost v = self@;
        assert(marked(v.columns, columns@.take(0), id) =~= v.columns);
        let mut j: usize = 0;
        while j < columns.len()
            invariant
                j <= columns@.len(),
                columns@.no_duplicates(),
                forall|k: int|
                    0 <= k < columns@.len() ==> v.columns.contains_key(#[trigger] columns@[k])
                        && v.columns[columns@[k]].status is NotStarted,
                self@ == (CustodyView {
                    columns: marked(v.columns, columns@.take(j as int), id),
                    ..v
                }),
            decreases columns@.len() - j,
        {
            let column: u64 = columns[j];
            let ghost now_view = self@;
            let ghost short = columns@.take(j as int);
            let ghost long = columns@.take(j + 1);
            proof {
                assert(long =~= short.push(column));
                assert(!short.contains(column));
                assert(v.columns.contains_key(columns@[j as int]));
                assert(self.column_requests@.contains_key(column) == now_view.columns.contains_key(column));
            }
            match fnv_map::remove(&mut self.column_requests, column) {
                Some(mut request) => {
                    assert(request@ == now_view.columns[column]);
                    match request.on_download_start(id) {
                        Ok(()) => {},
                        Err(e) => return Err(e),
                    }
                    let ghost next = request@;
                    fnv_map::insert(&mut self.column_requests, column, request);
                    proof {
                        assert(self@.columns =~= marked(v.columns, long, id)) by {
                            assert forall|c: ColumnIndex| #[trigger] self@.columns.contains_key(c)
                                == v.columns.contains_key(c) && (v.columns.contains_key(c)
                                ==> self@.columns[c] == marked(v.columns, long, id)[c]) by {
                                lemma_push_contains(short, column, c);
                                if c != column && v.columns.contains_key(c) {
                                    assert(self@.columns[c] == now_view.columns[c]);
                                }
                            }
                        }
                    }
                },
                None => {},
            }
            j += 1;
        }
        assert(columns@.take(j as int) =~= columns@);
        Ok(())
    }

    /// Sends the batches.
    fn send_batches(&mut self, cx: &mut SyncNetworkContext, batches: &Vec<ColumnBatch>, Ghost(
        order,
    ): Ghost<Seq<ColumnIndex>>) -> (r: Result<(), CustodyError>)
        requires
            old(cx).wf(),
            old(cx).has_ids(batches@.len() as int),
            sendable(old(self)@, order, batch_views(batches@)),
            forall|c: ColumnIndex| order.contains(c) ==> old(self)@.columns.contains_key(c),
        ensures
            final(cx).wf(),
            batches@.len() > 0 && !old(cx).network_send.is_open() ==> {
                &&& column_request::is_internal(r, "send failed "@ + "network send error"@)
                &&& final(self)@ == old(self)@
                &&& *final(cx) == (SyncNetworkContext {
                    request_id: (old(cx).request_id + 1) as u32,
                    ..*old(cx)
                })
            },
            !(batches@.len() > 0 && !old(cx).network_send.is_open()) ==> {
                &&& r is Ok
                &&& final(self)@ == after_sends(
                    old(self)@,
                    batch_views(batches@),
                    batches@.len(),
                    old(cx).request_id,
                )
                &&& network_context::columns_requested(
                    *old(cx),
                    *final(cx),
                    batch_views(batches@),
                    batches@.len(),
                    old(self)@.id,
                    old(self)@.request,
                )
            },
    {
        let ghost v0 = self@;
        let ghost cx0 = *cx;
        let ghost views = batch_views(batches@);
        let ghost first = cx.request_id;
        assert(cx.network_send.sent() + Seq::<MessageView>::empty() =~= cx.network_send.sent());
        assert(Seq::new(
            0,
            |i: int|
                network_context::columns_message(
                    views[i],
                    batch_id(cx0.request_id, i, v0.id),
                    v0.request,
                ),
        ) =~= Seq::empty());
        let mut i: usize = 0;
        while i < batches.len()
            invariant
                i <= batches@.len(),
                views == batch_views(batches@),
                first == cx0.request_id,
                cx.wf(),
                cx0.has_ids(batches@.len() as int),
                sendable(v0, order, views),
                forall|c: ColumnIndex| order.contains(c) ==> v0.columns.contains_key(c),
                self@ == after_sends(v0, views, i as nat, first),
                network_context::columns_requested(cx0, *cx, views, i as nat, v0.id, v0.request),
                i > 0 ==> cx0.network_send.is_open(),
                v0 == old(self)@,
                cx0 == *old(cx),
            decreases batches@.len() - i,
        {
            let ghost cx_now = *cx;
            let ghost v_now = self@;
            let ghost columns = views[i as int].columns;
            assert(columns == batches@[i as int].columns@);
            proof {
                lemma_after_sends_frame(v0, views, i as nat, first);
            }
            match cx.send_data_columns_by_range_request(
                batches[i].peer_id,
                self.request.start_slot,
                self.request.count,
                batches[i].columns.clone(),
                self.id,
            ) {
                Ok(req_id) => {
                    assert(req_id == batch_id(first, i as int, v0.id));
                    proof {
                        assert forall|j: int| 0 <= j < columns.len() implies v_now.columns.contains_key(
                            #[trigger] columns[j],
                        ) && v_now.columns[columns[j]].status is NotStarted by {
                            let c = views[i as int].columns[j];
                            assert(order.contains(c));
                            assert forall|k: int| 0 <= k < i implies !(
                            #[trigger] views[k]).columns.contains(c) by {
                                if views[k].columns.contains(c) {
                                    let l = choose|l: int|
                                        0 <= l < views[k].columns.len() && views[k].columns[l] == c;
                                    assert(views[k].columns[l] == views[i as int].columns[j]);
                                }
                            }
                            assert(v_now.columns[c] == v0.columns[c]);
                        }
                        assert(columns.no_duplicates()) by {
                            assert forall|a: int, b: int| 0 <= a < b < columns.len() implies columns[a]
                                != columns[b] by {
                                if columns[a] == columns[b] {
                                    assert(views[i as int].columns[a] == views[i as int].columns[b]);
                                }
                            }
                        }
                    }
                    match self.start_columns(&batches[i].columns, req_id) {
                        Ok(()) => {},
                        Err(e) => return Err(e),
                    }
                    let ghost v_started = self@;
                    let sent = ActiveBatchColumnsRequest {
                        id: req_id,
                        indices: batches[i].columns.clone(),
                    };
                    let ghost sent_view = sent@;
                    let number: u64 = req_id.get_number();
                    fnv_map::insert(&mut self.active_batch_columns_requests, number, sent);
                    proof {
                        assert(sent_view == SentBatchView { id: req_id, indices: columns });
                        assert(self@.batches =~= v_started.batches.insert(number, sent_view));
                        assert(self@ == after_sends(v0, views, (i + 1) as nat, first));
                        let message = network_context::columns_message(
                            BatchView { peer_id: views[i as int].peer_id, columns },
                            req_id,
                            BlocksByRangeRequest {
                                start_slot: v0.request.start_slot,
                                count: v0.request.count,
                            },
                        );
                        let f = |k: int|
                            network_context::columns_message(
                                views[k],
                                batch_id(cx0.request_id, k, v0.id),
                                v0.request,
                            );
                        assert(cx.network_send.sent() == cx_now.network_send.sent().push(message));
                        assert(message == f(i as int));
                        assert(Seq::new(i as nat, f).push(f(i as int)) =~= Seq::new((i + 1) as nat, f));
                        assert(cx.network_send.sent() =~= cx0.network_send.sent() + Seq::new(
                            (i + 1) as nat,
                            f,
                        ));
                    }
                },
                Err(e) => {
                    assert(cx_now == cx0);
                    let mut text = "send failed ".to_owned();
                    text.append(e);
                    return Err(CustodyError::InternalError(text));
                },
            }
            i += 1;
        }
        Ok(())
    }
}

/// Adds the indices of `data` to those that `peer` served.
fn add_served(peers: &mut HashMap<PeerId, Vec<usize>>, peer: PeerId, data: &Vec<DataColumnSidecar>)
    ensures
        peer_group::served(final(peers)@) == with_served(peer_group::served(old(peers)@), peer, data@),
{
    let ghost before = peer_group::served(peers@);
    assert(data@.take(0) =~= Seq::empty());
    let mut i: usize = 0;
    while i < data.len()
        invariant
            i <= data@.len(),
            peer_group::served(peers@) == with_served(before, peer, data@.take(i as int)),
        decreases data@.len() - i,
    {
        let ghost earlier = peer_group::served(peers@);
        assert(data@.take(i + 1).drop_last() =~= data@.take(i as int));
        assert(peers@.contains_key(peer) == earlier.contains_key(peer));
        let index: usize = data[i].index as usize;
        let mut indices: Vec<usize> = match peers.remove(&peer) {
            Some(indices) => indices,
            None => Vec::new(),
        };
        let ghost old_indices = indices@;
        if !peer_group::contains_usize(&indices, index) {
            indices.push(index);
        }
        let ghost new_indices = indices@;
        peers.insert(peer, indices);
        proof {
            assert(peer_group::served(peers@) =~= earlier.insert(peer, new_indices));
            assert(old_indices =~= (if earlier.contains_key(peer) {
                earlier[peer]
            } else {
                Seq::empty()
            }));
        }
        i += 1;
    }
    assert(data@.take(i as int) =~= data@);
}

impl ActiveCustodyByRangeRequest {
    fn every_column_downloaded(&self, order: &Vec<ColumnIndex>) -> (r: bool)
        requires
            fnv_map::is_order(order@, self@.columns.dom()),
        ensures
            r == all_downloaded(self@.columns),
    {
        let mut i: usize = 0;
        while i < order.len()
            invariant
                i <= order@.len(),
                fnv_map::is_order(order@, self@.columns.dom()),
                forall|j: int|
                    0 <= j < i ==> self@.columns[#[trigger] order@[j]].status is Downloaded,
            decreases order@.len() - i,
        {
            assert(order@.contains(order@[i as int]));
            assert(self@.columns.dom().contains(order@[i as int]));
            let downloaded = match fnv_map::get(&self.column_requests, order[i]) {
                Some(request) => request.is_downloaded(),
                None => false,
            };
            if !downloaded {
                assert(self@.columns.contains_key(order@[i as int]));
                return false;
            }
            i += 1;
        }
        proof {
            assert forall|c: ColumnIndex| #[trigger] self@.columns.contains_key(c) implies self@.columns[c].status is Downloaded by {
                assert(self@.columns.dom().contains(c));
                assert(order@.contains(c));
                let j = choose|j: int| 0 <= j < order@.len() && order@[j] == c;
                assert(self@.columns[order@[j]].status is Downloaded);
            }
        }
        true
    }

    fn some_column_downloading(&self, order: &Vec<ColumnIndex>) -> (r: bool)
        requires
            fnv_map::is_order(order@, self@.columns.dom()),
        ensures
            r == any_downloading(self@.columns),
    {
        let mut i: usize = 0;
        while i < order.len()
            invariant
                i <= order@.len(),
                fnv_map::is_order(order@, self@.columns.dom()),
                forall|j: int|
                    0 <= j < i ==> !(self@.columns[#[trigger] order@[j]].status is Downloading),
            decreases order@.len() - i,
        {
            assert(order@.contains(order@[i as int]));
            assert(self@.columns.dom().contains(order@[i as int]));
            let downloading = match fnv_map::get(&self.column_requests, order[i]) {
                Some(request) => request.is_downloading(),
                None => false,
            };
            if downloading {
                assert(self@.columns.contains_key(order@[i as int]));
                return true;
            }
            i += 1;
        }
        proof {
            assert forall|c: ColumnIndex| #[trigger] self@.columns.contains_key(c) implies !(
            self@.columns[c].status is Downloading) by {
                assert(self@.columns.dom().contains(c));
                assert(order@.contains(c));
                let j = choose|j: int| 0 <= j < order@.len() && order@[j] == c;
                assert(!(self@.columns[order@[j]].status is Downloading));
            }
        }
        false
    }

    fn awaiting_columns(&self, order: &Vec<ColumnIndex>) -> (r: Vec<ColumnIndex>)
        requires
            fnv_map::is_order(order@, self@.columns.dom()),
        ensures
            r@ == awaiting(self@.columns, order@),
    {
        let ghost columns = self@.columns;
        let ghost keep = |c: ColumnIndex| columns[c].status is NotStarted;
        let mut r: Vec<ColumnIndex> = Vec::new();
        let mut i: usize = 0;
        proof {
            reveal(Seq::filter);
            assert(order@.take(0).filter(keep) =~= Seq::empty());
        }
        while i < order.len()
            invariant
                i <= order@.len(),
                fnv_map::is_order(order@, self@.columns.dom()),
                columns == self@.columns,
                keep == (|c: ColumnIndex| columns[c].status is NotStarted),
                r@ == order@.take(i as int).filter(keep),
            decreases order@.len() - i,
        {
            assert(order@.contains(order@[i as int]));
            assert(self@.columns.dom().contains(order@[i as int]));
            proof {
                reveal(Seq::filter);
                assert(order@.take(i + 1).drop_last() =~= order@.take(i as int));
            }
            match fnv_map::get(&self.column_requests, order[i]) {
                Some(request) => {
                    assert(columns[order@[i as int]] == request@);
                    if request.is_awaiting_download() {
                        r.push(order[i]);
                    }
                },
                None => {},
            }
            i += 1;
        }
        assert(order@.take(i as int) =~= order@);
        r
    }

    /// Hands out the columns, which have all arrived.
    fn collect_columns(&mut self, order: &Vec<ColumnIndex>, timestamp_now: Nanos) -> (r: CustodyByRangeRequestResult)
        requires
            fnv_map::is_order(order@, old(self)@.columns.dom()),
            all_downloaded(old(self)@.columns),
        ensures
            outcome(r) == CustodyOutcome::Done(
                collected(old(self)@.columns, order@),
                served_by(old(self)@.columns, order@),
                last_seen(old(self)@.columns, order@, timestamp_now),
            ),
            final(self)@ == (CustodyView { columns: Map::empty(), ..old(self)@ }),
    {
        let ghost v = self@;
        let ghost columns0 = v.columns;
        let mut columns: Vec<DataColumnSidecar> = Vec::new();
        let mut peers: HashMap<PeerId, Vec<usize>> = HashMap::new();
        let mut latest: Nanos = timestamp_now;
        assert(peer_group::served(peers@) =~= Map::empty());
        let mut i: usize = 0;
        while i < order.len()
            invariant
                i <= order@.len(),
                v == old(self)@,
                columns0 == v.columns,
                fnv_map::is_order(order@, columns0.dom()),
                all_downloaded(columns0),
                columns@ == collected(columns0, order@.take(i as int)),
                peer_group::served(peers@) == served_by(columns0, order@.take(i as int)),
                latest == last_seen(columns0, order@.take(i as int), timestamp_now),
                self@ == (CustodyView { columns: self@.columns, ..v }),
                forall|c: ColumnIndex| #[trigger]
                    self@.columns.contains_key(c) <==> columns0.contains_key(c) && !order@.take(
                        i as int,
                    ).contains(c),
                forall|c: ColumnIndex| #[trigger]
                    self@.columns.contains_key(c) ==> self@.columns[c] == columns0[c],
            decreases order@.len() - i,
        {
            let column: u64 = order[i];
            let ghost before = self@.columns;
            let ghost short = order@.take(i as int);
            let ghost long = order@.take(i + 1);
            proof {
                assert(long.drop_last() =~= short);
                assert(long =~= short.push(column));
                assert(order@.contains(column));
                assert(columns0.dom().contains(column));
                assert(!short.contains(column));
                assert(before.contains_key(column));
                assert(before[column] == columns0[column]);
                assert(columns0[column].status is Downloaded);
            }
            match fnv_map::remove(&mut self.column_requests, column) {
                Some(request) => {
                    assert(request@ == columns0[column]);
                    proof {
                        assert(self@.columns =~= before.remove(column));
                        assert forall|c: ColumnIndex| #[trigger] self@.columns.contains_key(c)
                            <==> columns0.contains_key(c) && !long.contains(c) by {
                            lemma_push_contains(short, column, c);
                            assert(before.contains_key(c) <==> columns0.contains_key(c) && !short.contains(c));
                        }
                    }
                    match request.complete() {
                        Ok((peer, mut data_columns, seen_timestamp)) => {
                            add_served(&mut peers, peer, &data_columns);
                            columns.append(&mut data_columns);
                            if i == 0 || seen_timestamp > latest {
                                latest = seen_timestamp;
                            }
                        },
                        Err(e) => return Err(e),
                    }
                },
                None => {},
            }
            i += 1;
        }
        proof {
            assert(order@.take(i as int) =~= order@);
            assert(self@.columns =~= Map::empty()) by {
                assert forall|c: ColumnIndex| !self@.columns.contains_key(c) by {
                    assert(order@.contains(c) <==> columns0.dom().contains(c));
                }
            }
        }
        Ok(Some((columns, PeerGroup::from_set(peers), latest)))
    }

    /// Makes progress on the request, going through the columns in the given order and breaking
    /// ties with the given random numbers.
    pub fn continue_with(
        &mut self,
        cx: &mut SyncNetworkContext,
        order: &Vec<ColumnIndex>,
        factors: &Vec<Vec<u32>>,
        now: Nanos,
        timestamp_now: Nanos,
    ) -> (r: CustodyByRangeRequestResult)
        requires
            old(cx).wf(),
            fnv_map::is_order(order@, old(self)@.columns.dom()),
            factors_fit(*old(cx), order@, factor_views(factors@)),
            old(cx).has_ids(order@.len() as int),
        ensures
            final(cx).wf(),
            progress(
                old(self)@,
                *old(cx),
                order@,
                factor_views(factors@),
                now,
                timestamp_now,
                final(self)@,
                *final(cx),
                r,
            ),
    {
        if self.every_column_downloaded(order) {
            return self.collect_columns(order, timestamp_now);
        }
        let batches = match self.choose_peers(cx, order, factors, now) {
            Ok(batches) => batches,
            Err(e) => return Err(e),
        };
        proof {
            assert forall|c: ColumnIndex| order@.contains(c) implies self@.columns.contains_key(c) by {
                assert(self@.columns.dom().contains(c));
            }
        }
        let ghost v0 = self@;
        match self.send_batches(cx, &batches, Ghost(order@)) {
            Ok(()) => {},
            Err(e) => return Err(e),
        }
        proof {
            lemma_after_sends_frame(v0, batch_views(batches@), batches@.len(), old(cx).request_id);
        }
        let waited: Nanos = now.saturating_sub(self.start_time);
        if waited > REQUEST_EXPIRY && !self.some_column_downloading(order) {
            return Err(CustodyError::ExpiredNoCustodyPeers(self.awaiting_columns(order)));
        }
        Ok(None)
    }

    /// Makes progress on the request: completes it where all columns have arrived, else requests
    /// the columns that wait for their download.
    ///
    /// The order of the columns is that of a hash table, and random numbers break ties between
    /// peers; the outcome is one of those that `progress` allows for some order and some numbers.
    pub fn continue_requests(
        &mut self,
        cx: &mut SyncNetworkContext,
        now: Nanos,
        timestamp_now: Nanos,
    ) -> (r: CustodyByRangeRequestResult)
        requires
            old(cx).wf(),
            old(cx).has_ids(old(self)@.columns.len() as int),
        ensures
            final(cx).wf(),
            exists|order: Seq<ColumnIndex>, factors: Seq<Seq<u32>>|
                fnv_map::is_order(order, old(self)@.columns.dom()) && factors_fit(
                    *old(cx),
                    order,
                    factors,
                ) && #[trigger] progress(
                    old(self)@,
                    *old(cx),
                    order,
                    factors,
                    now,
                    timestamp_now,
                    final(self)@,
                    *final(cx),
                    r,
                ),
    {
        let order = fnv_map::keys(&self.column_requests);
        proof {
            assert(self@.columns.dom() =~= self.column_requests@.dom());
            fnv_map::lemma_order_len(order@, self@.columns.dom());
        }
        let mut factors: Vec<Vec<u32>> = Vec::new();
        let mut i: usize = 0;
        while i < order.len()
            invariant
                i <= order@.len(),
                cx.wf(),
                *cx == *old(cx),
                factors@.len() == i,
                forall|j: int|
                    0 <= j < i ==> (#[trigger] factors@[j])@.len()
                        == cx.network_globals.spec_custody_peers(order@[j]).len(),
            decreases order@.len() - i,
        {
            let peers = cx.get_custodial_peers(order[i]);
            factors.push(peer_choice::random_factors(peers.len()));
            i += 1;
        }
        proof {
            assert forall|j: int| 0 <= j < order@.len() implies (
            #[trigger] factor_views(factors@)[j]).len() == cx.network_globals.spec_custody_peers(
                order@[j],
            ).len() by {
                assert(factors@[j]@.len() == cx.network_globals.spec_custody_peers(order@[j]).len());
            }
        }
        self.continue_with(cx, &order, &factors, now, timestamp_now)
    }
}

/// Why a column that a peer sent for a block is not usable.
#[derive(Clone, Copy, PartialEq, Eq, Structural, Debug)]
pub enum ColumnResponseError {
    NonMatchingColumn { slot: Slot, actual_block_root: Hash256, expected_block_root: Hash256 },
    MissingColumn(Slot),
}

/// The received columns by index and slot; of two with the same place the later one counts.
pub open spec fn by_place(columns: Seq<DataColumnSidecar>) -> Map<ColumnSlot, DataColumnSidecar>
    decreases columns.len(),
{
    if columns.len() == 0 {
        Map::empty()
    } else {
        let c = columns.last();
        by_place(columns.drop_last()).insert(ColumnSlot { index: c.index, slot: c.slot }, c)
    }
}

/// Takes column `index` of each block out of `available`, up to the first block for which it is
/// missing or belongs to another block.
pub open spec fn taken(
    available: Map<ColumnSlot, DataColumnSidecar>,
    index: ColumnIndex,
    blocks: Seq<SignedBeaconBlockHeader>,
) -> (Map<ColumnSlot, DataColumnSidecar>, Result<Seq<DataColumnSidecar>, ColumnResponseError>)
    decreases blocks.len(),
{
    if blocks.len() == 0 {
        (available, Ok(Seq::empty()))
    } else {
        let (left, found) = taken(available, index, blocks.drop_last());
        let block = blocks.last();
        let place = ColumnSlot { index, slot: block.slot };
        match found {
            Err(e) => (left, Err(e)),
            Ok(data) => if !left.contains_key(place) {
                (left, Err(ColumnResponseError::MissingColumn(block.slot)))
            } else if left[place].block_root != block.root {
                (
                    left.remove(place),
                    Err(
                        ColumnResponseError::NonMatchingColumn {
                            slot: block.slot,
                            actual_block_root: left[place].block_root,
                            expected_block_root: block.root,
                        },
                    ),
                )
            } else {
                (left.remove(place), Ok(data.push(left[place])))
            },
        }
    }
}

/// How far the import of a response is.
pub struct ImportView {
    pub columns: Map<ColumnIndex, ColumnRequestView>,
    /// The received columns that have not been used yet.
    pub available: Map<ColumnSlot, DataColumnSidecar>,
    /// Whether some column belonged to another block.
    pub incorrect: bool,
    /// Whether some column was missing.
    pub missing: bool,
    pub error: Option<Seq<char>>,
}

/// The error text for a column that the request does not have.
pub open spec fn unknown_column(index: ColumnIndex) -> Seq<char> {
    "unknown column_index "@ + strings::decimal(index as nat)
}

/// The import after one more column.
pub open spec fn import_step(
    s: ImportView,
    index: ColumnIndex,
    blocks: Seq<SignedBeaconBlockHeader>,
    req_id: DataColumnsByRangeRequestId,
    peer_id: PeerId,
    seen: Nanos,
) -> ImportView {
    if s.error is Some {
        s
    } else if !s.columns.contains_key(index) {
        ImportView { error: Some(unknown_column(index)), ..s }
    } else {
        let (available, found) = taken(s.available, index, blocks);
        match found {
            Ok(data) => match column_request::succeeded(s.columns[index], req_id, peer_id, data, seen) {
                Ok(next) => ImportView { columns: s.columns.insert(index, next), available, ..s },
                Err(text) => ImportView { available, error: Some(text), ..s },
            },
            Err(e) => match column_request::failed(s.columns[index], req_id) {
                Ok(next) => ImportView {
                    columns: s.columns.insert(index, next),
                    available,
                    incorrect: s.incorrect || e is NonMatchingColumn,
                    missing: s.missing || e is MissingColumn,
                    ..s
                },
                Err(text) => ImportView { available, error: Some(text), ..s },
            },
        }
    }
}

/// The import of a response, column by column in the order in which they were requested.
pub open spec fn imported(
    v: CustodyView,
    indices: Seq<ColumnIndex>,
    received: Seq<DataColumnSidecar>,
    req_id: DataColumnsByRangeRequestId,
    peer_id: PeerId,
    seen: Nanos,
) -> ImportView
    decreases indices.len(),
{
    if indices.len() == 0 {
        ImportView {
            columns: v.columns,
            available: by_place(received),
            incorrect: false,
            missing: false,
            error: None,
        }
    } else {
        import_step(
            imported(v, indices.drop_last(), received, req_id, peer_id, seen),
            indices.last(),
            v.blocks,
            req_id,
            peer_id,
            seen,
        )
    }
}

/// The columns after a failed response, and the error where one of them does not fit.
pub open spec fn all_failed(
    columns: Map<ColumnIndex, ColumnRequestView>,
    indices: Seq<ColumnIndex>,
    req_id: DataColumnsByRangeRequestId,
    err: RpcResponseError,
) -> (Map<ColumnIndex, ColumnRequestView>, Option<Seq<char>>)
    decreases indices.len(),
{
    if indices.len() == 0 {
        (columns, None)
    } else {
        let (earlier, error) = all_failed(columns, indices.drop_last(), req_id, err);
        let index = indices.last();
        if error is Some {
            (earlier, error)
        } else if !earlier.contains_key(index) {
            (earlier, Some("unknown column_index"@))
        } else {
            let counted = ColumnRequestView {
                failures: earlier[index].failures.push(err),
                ..earlier[index]
            };
            match column_request::failed(counted, req_id) {
                Ok(next) => (earlier.insert(index, next), None),
                Err(text) => (earlier.insert(index, counted), Some(text)),
            }
        }
    }
}

proof fn lemma_imported_dom(
    v: CustodyView,
    indices: Seq<ColumnIndex>,
    received: Seq<DataColumnSidecar>,
    req_id: DataColumnsByRangeRequestId,
    peer_id: PeerId,
    seen: Nanos,
)
    ensures
        imported(v, indices, received, req_id, peer_id, seen).columns.dom() == v.columns.dom(),
    decreases indices.len(),
{
    if indices.len() > 0 {
        lemma_imported_dom(v, indices.drop_last(), received, req_id, peer_id, seen);
        assert(imported(v, indices, received, req_id, peer_id, seen).columns.dom()
            =~= v.columns.dom());
    }
}

proof fn lemma_imported_error_stays(
    v: CustodyView,
    indices: Seq<ColumnIndex>,
    received: Seq<DataColumnSidecar>,
    req_id: DataColumnsByRangeRequestId,
    peer_id: PeerId,
    seen: Nanos,
    n: int,
)
    requires
        0 <= n <= indices.len(),
        imported(v, indices.take(n), received, req_id, peer_id, seen).error is Some,
    ensures
        imported(v, indices, received, req_id, peer_id, seen) == imported(
            v,
            indices.take(n),
            received,
            req_id,
            peer_id,
            seen,
        ),
    decreases indices.len(),
{
    if n == indices.len() {
        assert(indices.take(n) =~= indices);
    } else {
        assert(indices.drop_last().take(n) =~= indices.take(n));
        lemma_imported_error_stays(v, indices.drop_last(), received, req_id, peer_id, seen, n);
    }
}

proof fn lemma_all_failed_dom(
    columns: Map<ColumnIndex, ColumnRequestView>,
    indices: Seq<ColumnIndex>,
    req_id: DataColumnsByRangeRequestId,
    err: RpcResponseError,
)
    ensures
        all_failed(columns, indices, req_id, err).0.dom() == columns.dom(),
    decreases indices.len(),
{
    if indices.len() > 0 {
        lemma_all_failed_dom(columns, indices.drop_last(), req_id, err);
        assert(all_failed(columns, indices, req_id, err).0.dom() =~= columns.dom());
    }
}

proof fn lemma_all_failed_error_stays(
    columns: Map<ColumnIndex, ColumnRequestView>,
    indices: Seq<ColumnIndex>,
    req_id: DataColumnsByRangeRequestId,
    err: RpcResponseError,
    n: int,
)
    requires
        0 <= n <= indices.len(),
        all_failed(columns, indices.take(n), req_id, err).1 is Some,
    ensures
        all_failed(columns, indices, req_id, err) == all_failed(columns, indices.take(n), req_id, err),
    decreases indices.len(),
{
    if n == indices.len() {
        assert(indices.take(n) =~= indices);
    } else {
        assert(indices.drop_last().take(n) =~= indices.take(n));
        lemma_all_failed_error_stays(columns, indices.drop_last(), req_id, err, n);
    }
}

/// Takes column `index` of each block out of `available`.
fn take_columns(
    available: &mut OrderedMap<ColumnSlot, DataColumnSidecar>,
    index: ColumnIndex,
    blocks: &Vec<SignedBeaconBlockHeader>,
) -> (r: Result<Vec<DataColumnSidecar>, ColumnResponseError>)
    requires
        old(available).wf(),
    ensures
        final(available).wf(),
        ({
            let (left, found) = taken(old(available)@, index, blocks@);
            &&& final(available)@ == left
            &&& match found {
                Ok(data) => r matches Ok(d) && d@ == data,
                Err(e) => r == Err::<Vec<DataColumnSidecar>, ColumnResponseError>(e),
            }
        }),
{
    let ghost before = available@;
    let mut data: Vec<DataColumnSidecar> = Vec::new();
    let mut i: usize = 0;
    while i < blocks.len()
        invariant
            i <= blocks@.len(),
            available.wf(),
            before == old(available)@,
            taken(before, index, blocks@.take(i as int)) == (
                available@,
                Ok::<Seq<DataColumnSidecar>, ColumnResponseError>(data@),
            ),
        decreases blocks@.len() - i,
    {
        let block = blocks[i];
        let place = ColumnSlot { index, slot: block.slot };
        let ghost left = available@;
        assert(blocks@.take(i + 1).drop_last() =~= blocks@.take(i as int));
        match available.remove(&place) {
            Some(column) => {
                if column.block_root != block.root {
                    let e = ColumnResponseError::NonMatchingColumn {
                        slot: block.slot,
                        actual_block_root: column.block_root,
                        expected_block_root: block.root,
                    };
                    proof {
                        lemma_taken_error_stays(before, index, blocks@, i + 1);
                    }
                    return Err(e);
                }
                data.push(column);
            },
            None => {
                proof {
                    assert(left.remove(place) =~= left);
                    lemma_taken_error_stays(before, index, blocks@, i + 1);
                }
                return Err(ColumnResponseError::MissingColumn(block.slot));
            },
        }
        i += 1;
    }
    assert(blocks@.take(i as int) =~= blocks@);
    Ok(data)
}

proof fn lemma_taken_error_stays(
    available: Map<ColumnSlot, DataColumnSidecar>,
    index: ColumnIndex,
    blocks: Seq<SignedBeaconBlockHeader>,
    n: int,
)
    requires
        0 <= n <= blocks.len(),
        taken(available, index, blocks.take(n)).1 is Err,
    ensures
        taken(available, index, blocks) == taken(available, index, blocks.take(n)),
    decreases blocks.len(),
{
    if n == blocks.len() {
        assert(blocks.take(n) =~= blocks);
    } else {
        assert(blocks.drop_last().take(n) =~= blocks.take(n));
        lemma_taken_error_stays(available, index, blocks.drop_last(), n);
    }
}

/// The received columns by index and slot.
fn place_columns(columns: &Vec<DataColumnSidecar>) -> (r: OrderedMap<ColumnSlot, DataColumnSidecar>)
    ensures
        r.wf(),
        r@ == by_place(columns@),
{
    let mut r: OrderedMap<ColumnSlot, DataColumnSidecar> = OrderedMap::new();
    let mut i: usize = 0;
    assert(columns@.take(0) =~= Seq::empty());
    while i < columns.len()
        invariant
            i <= columns@.len(),
            r.wf(),
            r@ == by_place(columns@.take(i as int)),
        decreases columns@.len() - i,
    {
        let column = columns[i];
        assert(columns@.take(i + 1).drop_last() =~= columns@.take(i as int));
        r.insert(ColumnSlot { index: column.index, slot: column.slot }, column);
        i += 1;
    }
    assert(columns@.take(i as int) =~= columns@);
    r
}

/// What the import of a response found wrong with it.
struct ImportFaults {
    /// Whether some column belonged to another block.
    incorrect: bool,
    /// Whether some column was missing.
    missing: bool,
}

impl ActiveCustodyByRangeRequest {
    /// Applies a step to one column; `None` where the request does not have the column.
    fn with_column_request(&mut self, index: ColumnIndex, step: ColumnStep) -> (r: Option<
        Result<(), CustodyError>,
    >)
        ensures
            !old(self)@.columns.contains_key(index) ==> r is None && final(self)@ == old(self)@,
            old(self)@.columns.contains_key(index) ==> {
                let (next, error) = stepped(old(self)@.columns[index], step);
                &&& final(self)@ == (CustodyView {
                    columns: old(self)@.columns.insert(index, next),
                    ..old(self)@
                })
                &&& match error {
                    Some(text) => r matches Some(result) && column_request::is_internal(result, text),
                    None => r matches Some(result) && result is Ok,
                }
            },
    {
        let ghost v = self@;
        assert(self.column_requests@.contains_key(index) == v.columns.contains_key(index));
        match fnv_map::remove(&mut self.column_requests, index) {
            Some(mut request) => {
                assert(request@ == v.columns[index]);
                let result = match step {
                    ColumnStep::Succeed(req_id, peer_id, data, seen) => request.on_download_success(
                        req_id,
                        peer_id,
                        data,
                        seen,
                    ),
                    ColumnStep::Retry(req_id) => request.on_download_error(req_id),
                    ColumnStep::Fail(req_id, err) => request.on_download_error_and_mark_failure(
                        req_id,
                        err,
                    ),
                };
                let ghost next = request@;
                fnv_map::insert(&mut self.column_requests, index, request);
                assert(self@.columns =~= v.columns.insert(index, next));
                Some(result)
            },
            None => {
                assert(self@.columns =~= v.columns);
                None
            },
        }
    }

    /// Takes in a response to a batch.
    fn import_columns(
        &mut self,
        indices: &Vec<ColumnIndex>,
        data_columns: &Vec<DataColumnSidecar>,
        req_id: DataColumnsByRangeRequestId,
        peer_id: PeerId,
        seen_timestamp: Nanos,
    ) -> (r: Result<ImportFaults, CustodyError>)
        ensures
            ({
                let s = imported(old(self)@, indices@, data_columns@, req_id, peer_id, seen_timestamp);
                &&& final(self)@ == (CustodyView { columns: s.columns, ..old(self)@ })
                &&& match s.error {
                    Some(text) => column_request::is_internal(r, text),
                    None => r matches Ok(faults) && faults.incorrect == s.incorrect && faults.missing
                        == s.missing,
                }
            }),
    {
        let ghost v = self@;
        let mut available = place_columns(data_columns);
        let mut faults = ImportFaults { incorrect: false, missing: false };
        assert(indices@.take(0) =~= Seq::empty());
        let mut i: usize = 0;
        while i < indices.len()
            invariant
                i <= indices@.len(),
                v == old(self)@,
                available.wf(),
                imported(v, indices@.take(i as int), data_columns@, req_id, peer_id, seen_timestamp) == (
                ImportView {
                    columns: self@.columns,
                    available: available@,
                    incorrect: faults.incorrect,
                    missing: faults.missing,
                    error: None,
                }),
                self@ == (CustodyView { columns: self@.columns, ..v }),
            decreases indices@.len() - i,
        {
            let index: u64 = indices[i];
            let ghost columns_now = self@.columns;
            let ghost next = imported(
                v,
                indices@.take(i + 1),
                data_columns@,
                req_id,
                peer_id,
                seen_timestamp,
            );
            proof {
                assert(indices@.take(i + 1).drop_last() =~= indices@.take(i as int));
                if next.error is Some {
                    lemma_imported_error_stays(
                        v,
                        indices@,
                        data_columns@,
                        req_id,
                        peer_id,
                        seen_timestamp,
                        i + 1,
                    );
                }
            }
            let known = fnv_map::get(&self.column_requests, index).is_some();
            assert(known == self@.columns.contains_key(index));
            if !known {
                let mut text = "unknown column_index ".to_owned();
                text.append(crate::strings::decimal_string(index as u128).as_str());
                return Err(CustodyError::InternalError(text));
            }
            let columns_at_index = take_columns(&mut available, index, &self.blocks_with_data);
            let (step, fault) = match columns_at_index {
                Ok(data) => (ColumnStep::Succeed(req_id, peer_id, data, seen_timestamp), None),
                Err(e) => (ColumnStep::Retry(req_id), Some(e)),
            };
            match self.with_column_request(index, step) {
                Some(Ok(())) => {},
                Some(Err(e)) => {
                    assert(self@.columns =~= columns_now);
                    return Err(e);
                },
                None => {},
            }
            match fault {
                Some(ColumnResponseError::NonMatchingColumn { .. }) => {
                    faults.incorrect = true;
                },
                Some(ColumnResponseError::MissingColumn(_)) => {
                    faults.missing = true;
                },
                None => {},
            }
            i += 1;
        }
        assert(indices@.take(i as int) =~= indices@);
        Ok(faults)
    }

    /// Takes in that the request of a batch failed.
    fn fail_columns(
        &mut self,
        indices: &Vec<ColumnIndex>,
        req_id: DataColumnsByRangeRequestId,
        err: &RpcResponseError,
    ) -> (r: Result<(), CustodyError>)
        ensures
            ({
                let (columns, error) = all_failed(old(self)@.columns, indices@, req_id, *err);
                &&& final(self)@ == (CustodyView { columns, ..old(self)@ })
                &&& match error {
                    Some(text) => column_request::is_internal(r, text),
                    None => r is Ok,
                }
            }),
    {
        let ghost v = self@;
        assert(indices@.take(0) =~= Seq::empty());
        let mut i: usize = 0;
        while i < indices.len()
            invariant
                i <= indices@.len(),
                v == old(self)@,
                all_failed(v.columns, indices@.take(i as int), req_id, *err) == (
                    self@.columns,
                    None::<Seq<char>>,
                ),
                self@ == (CustodyView { columns: self@.columns, ..v }),
            decreases indices@.len() - i,
        {
            let index: u64 = indices[i];
            proof {
                assert(indices@.take(i + 1).drop_last() =~= indices@.take(i as int));
                if all_failed(v.columns, indices@.take(i + 1), req_id, *err).1 is Some {
                    lemma_all_failed_error_stays(v.columns, indices@, req_id, *err, i + 1);
                }
            }
            match self.with_column_request(index, ColumnStep::Fail(req_id, err.copy())) {
                Some(Ok(())) => {},
                Some(Err(e)) => return Err(e),
                None => return Err(
                    CustodyError::InternalError("unknown column_index".to_owned()),
                ),
            }
            i += 1;
        }
        assert(indices@.take(i as int) =~= indices@);
        Ok(())
    }
}

/// A step in the download of one column.
enum ColumnStep {
    Succeed(DataColumnsByRangeRequestId, PeerId, Vec<DataColumnSidecar>, Nanos),
    Retry(DataColumnsByRangeRequestId),
    Fail(DataColumnsByRangeRequestId, RpcResponseError),
}

/// The column after the step, and the error where the step does not fit.
spec fn stepped(c: ColumnRequestView, step: ColumnStep) -> (ColumnRequestView, Option<Seq<char>>) {
    match step {
        ColumnStep::Succeed(req_id, peer_id, data, seen) => match column_request::succeeded(
            c,
            req_id,
            peer_id,
            data@,
            seen,
        ) {
            Ok(next) => (next, None),
            Err(text) => (c, Some(text)),
        },
        ColumnStep::Retry(req_id) => match column_request::failed(c, req_id) {
            Ok(next) => (next, None),
            Err(text) => (c, Some(text)),
        },
        ColumnStep::Fail(req_id, err) => {
            let counted = ColumnRequestView { failures: c.failures.push(err), ..c };
            match column_request::failed(counted, req_id) {
                Ok(next) => (next, None),
                Err(text) => (counted, Some(text)),
            }
        },
    }
}

/// Whether the request waits for the response to `req_id`.
pub open spec fn expects(v: CustodyView, req_id: DataColumnsByRangeRequestId) -> bool {
    v.batches.contains_key(req_id.number()) && v.batches[req_id.number()].id == req_id
}

/// The request after an import without error: a peer that sent a wrong response counts as failed.
pub open spec fn after_import(v: CustodyView, s: ImportView, peer_id: PeerId, now: Nanos) -> CustodyView {
    CustodyView {
        columns: s.columns,
        failed: if s.incorrect || s.missing {
            v.failed.insert(peer_id, now)
        } else {
            v.failed
        },
        ..v
    }
}

/// The reports that an import without error makes of the peer.
pub open spec fn import_reports(s: ImportView, peer_id: PeerId) -> Seq<MessageView> {
    let report = |msg: Seq<char>|
        MessageView::ReportPeer {
            peer_id,
            action: PeerAction::MidToleranceError,
            source: crate::sync::messages::ReportSource::SyncService,
            msg,
        };
    (if s.incorrect {
        seq![report("non-matching data column"@)]
    } else {
        Seq::empty()
    }) + (if s.missing {
        seq![report("custody_failure"@)]
    } else {
        Seq::empty()
    })
}

/// Whether `cx1` is `cx0` with the messages sent, where its channel is open.
pub open spec fn messages_sent(
    cx0: SyncNetworkContext,
    cx1: SyncNetworkContext,
    messages: Seq<MessageView>,
) -> bool {
    &&& cx1 == (SyncNetworkContext { network_send: cx1.network_send, ..cx0 })
    &&& cx1.network_send.is_open() == cx0.network_send.is_open()
    &&& cx1.network_send.sent() == (if cx0.network_send.is_open() {
        cx0.network_send.sent() + messages
    } else {
        cx0.network_send.sent()
    })
    &&& messages.len() == 0 ==> cx1 == cx0
}

/// Whether going on from `v`, `cx` leads to the given result, for some order of the columns and
/// some random numbers.
pub open spec fn progresses(
    v: CustodyView,
    cx: SyncNetworkContext,
    now: Nanos,
    timestamp_now: Nanos,
    v1: CustodyView,
    cx1: SyncNetworkContext,
    r: CustodyByRangeRequestResult,
) -> bool {
    exists|order: Seq<ColumnIndex>, factors: Seq<Seq<u32>>|
        fnv_map::is_order(order, v.columns.dom()) && factors_fit(cx, order, factors)
            && #[trigger] progress(v, cx, order, factors, now, timestamp_now, v1, cx1, r)
}

/// What the response to a request for columns does.
pub open spec fn download_step(
    v0: CustodyView,
    cx0: SyncNetworkContext,
    peer_id: PeerId,
    req_id: DataColumnsByRangeRequestId,
    resp: RpcResponseResult<Vec<DataColumnSidecar>>,
    now: Nanos,
    timestamp_now: Nanos,
    v1: CustodyView,
    cx1: SyncNetworkContext,
    r: CustodyByRangeRequestResult,
) -> bool {
    let indices = v0.batches[req_id.number()].indices;
    if !expects(v0, req_id) {
        outcome(r) == CustodyOutcome::Active && v1 == v0 && cx1 == cx0
    } else {
        match resp {
            Ok((data_columns, seen)) => {
                let s = imported(v0, indices, data_columns@, req_id, peer_id, seen);
                match s.error {
                    Some(text) => outcome(r) == CustodyOutcome::Failed(
                        CustodyErrorView::Internal(text),
                    ) && v1 == (CustodyView { columns: s.columns, ..v0 }) && cx1 == cx0,
                    None => exists|mid: SyncNetworkContext| #[trigger]
                        messages_sent(cx0, mid, import_reports(s, peer_id)) && progresses(
                            after_import(v0, s, peer_id, now),
                            mid,
                            now,
                            timestamp_now,
                            v1,
                            cx1,
                            r,
                        ),
                }
            },
            Err(err) => {
                let (columns, error) = all_failed(v0.columns, indices, req_id, err);
                match error {
                    Some(text) => outcome(r) == CustodyOutcome::Failed(
                        CustodyErrorView::Internal(text),
                    ) && v1 == (CustodyView { columns, ..v0 }) && cx1 == cx0,
                    None => progresses(
                        CustodyView { columns, failed: v0.failed.insert(peer_id, now), ..v0 },
                        cx0,
                        now,
                        timestamp_now,
                        v1,
                        cx1,
                        r,
                    ),
                }
            },
        }
    }
}

impl ActiveCustodyByRangeRequest {
    /// Takes in the response to one of the requests that were sent, and makes progress.
    ///
    /// A column whose data is complete and matches the blocks counts as downloaded. For the others
    /// the peer is reported and not asked again for some time, and they wait for another peer. A
    /// response to a request that is not known changes nothing.
    pub fn on_data_column_downloaded(
        &mut self,
        peer_id: PeerId,
        req_id: DataColumnsByRangeRequestId,
        resp: RpcResponseResult<Vec<DataColumnSidecar>>,
        cx: &mut SyncNetworkContext,
        now: Nanos,
        timestamp_now: Nanos,
    ) -> (r: CustodyByRangeRequestResult)
        requires
            old(cx).wf(),
            old(cx).has_ids(old(self)@.columns.len() as int),
        ensures
            final(cx).wf(),
            download_step(
                old(self)@,
                *old(cx),
                peer_id,
                req_id,
                resp,
                now,
                timestamp_now,
                final(self)@,
                *final(cx),
                r,
            ),
    {
        let ghost v0 = self@;
        let ghost cx0 = *cx;
        let number: u64 = req_id.get_number();
        assert(self.active_batch_columns_requests@.contains_key(number) == v0.batches.contains_key(
            number,
        ));
        let indices = match fnv_map::get(&self.active_batch_columns_requests, number) {
            Some(batch) => {
                if batch.id != req_id {
                    return Ok(None);
                }
                batch.indices.clone()
            },
            None => return Ok(None),
        };
        match resp {
            Ok((data_columns, seen_timestamp)) => {
                let ghost s = imported(v0, indices@, data_columns@, req_id, peer_id, seen_timestamp);
                proof {
                    lemma_imported_dom(v0, indices@, data_columns@, req_id, peer_id, seen_timestamp);
                }
                let faults = match self.import_columns(
                    &indices,
                    &data_columns,
                    req_id,
                    peer_id,
                    seen_timestamp,
                ) {
                    Ok(faults) => faults,
                    Err(e) => return Err(e),
                };
                if faults.incorrect {
                    self.failed_peers.insert(peer_id, now);
                    cx.report_peer(
                        peer_id,
                        PeerAction::MidToleranceError,
                        "non-matching data column",
                    );
                }
                if faults.missing {
                    self.failed_peers.insert(peer_id, now);
                    cx.report_peer(peer_id, PeerAction::MidToleranceError, "custody_failure");
                }
                let ghost mid = *cx;
                proof {
                    assert(self@.failed =~= after_import(v0, s, peer_id, now).failed);
                    assert(mid.network_send.sent() =~= (if cx0.network_send.is_open() {
                        cx0.network_send.sent() + import_reports(s, peer_id)
                    } else {
                        cx0.network_send.sent()
                    }));
                    assert(messages_sent(cx0, mid, import_reports(s, peer_id)));
                }
                let r = self.continue_requests(cx, now, timestamp_now);
                assert(progresses(
                    after_import(v0, s, peer_id, now),
                    mid,
                    now,
                    timestamp_now,
                    self@,
                    *cx,
                    r,
                ));
                r
            },
            Err(err) => {
                proof {
                    lemma_all_failed_dom(v0.columns, indices@, req_id, err);
                }
                match self.fail_columns(&indices, req_id, &err) {
                    Ok(()) => {},
                    Err(e) => return Err(e),
                }
                self.failed_peers.insert(peer_id, now);
                self.continue_requests(cx, now, timestamp_now)
            },
        }
    }
}

proof fn lemma_planned_len(
    v: CustodyView,
    cx: SyncNetworkContext,
    order: Seq<ColumnIndex>,
    factors: Seq<Seq<u32>>,
    now: Nanos,
)
    ensures
        planned(v, cx, order, factors, now) matches Ok(batches) ==> batches.len() <= order.len(),
    decreases order.len(),
{
    if order.len() > 0 {
        lemma_planned_len(v, cx, order.drop_last(), factors, now);
    }
}

/// A step of a custody request uses at most one request number for each of its columns, and
/// changes nothing else of the context than the channel, the counter and the requests for columns.
pub proof fn law_step_touches_only_column_requests(
    v: CustodyView,
    cx: SyncNetworkContext,
    now: Nanos,
    timestamp_now: Nanos,
    v1: CustodyView,
    cx1: SyncNetworkContext,
    r: CustodyByRangeRequestResult,
)
    requires
        progresses(v, cx, now, timestamp_now, v1, cx1, r),
        cx.has_ids(v.columns.len() as int),
    ensures
        cx.request_id <= cx1.request_id <= cx.request_id + v.columns.len(),
        cx1 == (SyncNetworkContext {
            network_send: cx1.network_send,
            request_id: cx1.request_id,
            data_columns_by_range_requests: cx1.data_columns_by_range_requests,
            ..cx
        }),
{
    let (order, factors) = choose|order: Seq<ColumnIndex>, factors: Seq<Seq<u32>>|
        fnv_map::is_order(order, v.columns.dom()) && factors_fit(cx, order, factors)
            && #[trigger] progress(v, cx, order, factors, now, timestamp_now, v1, cx1, r);
    fnv_map::lemma_order_len(order, v.columns.dom());
    lemma_planned_len(v, cx, order, factors, now);
    if !all_downloaded(v.columns) {
        assert(order.len() > 0) by {
            if order.len() == 0 {
                assert forall|c: ColumnIndex| #[trigger] v.columns.contains_key(c) implies false by {
                    assert(v.columns.dom().contains(c));
                    assert(order.contains(c));
                }
            }
        }
    }
}

} // verus!
