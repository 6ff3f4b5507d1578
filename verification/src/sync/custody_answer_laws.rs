//! What a custody request hands out, and what a response does to it.
use crate::fnv_map;
use crate::sync::column_request::{ColumnRequestView, StatusView};
use crate::sync::custody_by_range;
use crate::sync::custody_by_range::{
    ColumnResponseError, CustodyByRangeRequestResult, CustodyOutcome, CustodyView,
};
use crate::sync::custody_laws;
use crate::sync::errors::{RpcResponseError, RpcResponseResult};
use crate::sync::ids::{CustodyByRangeRequestId, DataColumnsByRangeRequestId, RequestId};
use crate::sync::messages::{
    BlocksByRangeRequest, DataColumnSidecar, MessageView, PeerAction, ReportSource,
    SignedBeaconBlockHeader,
};
use crate::sync::network_context;
use crate::sync::network_context::SyncNetworkContext;
use crate::sync::peer_group::PeerGroup;
use crate::sync::responses;
use crate::sync::responses::CustodyRequestResult;
use crate::types::{ColumnIndex, ColumnSlot, Nanos, PeerId};
use vstd::prelude::*;

verus! {

/// Whether `sidecar` is column `index` of `block`.
pub open spec fn is_column_of(
    sidecar: DataColumnSidecar,
    index: ColumnIndex,
    block: SignedBeaconBlockHeader,
) -> bool {
    sidecar.index == index && sidecar.slot == block.slot && sidecar.block_root == block.root
}

/// Whether `data` is column `index` of each of the blocks, in their order.
pub open spec fn fits(
    data: Seq<DataColumnSidecar>,
    index: ColumnIndex,
    blocks: Seq<SignedBeaconBlockHeader>,
) -> bool {
    &&& data.len() == blocks.len()
    &&& forall|i: int| 0 <= i < blocks.len() ==> is_column_of(#[trigger] data[i], index, blocks[i])
}

/// Whether every column that has arrived is there for each block.
pub open spec fn arrived_data_fits(
    columns: Map<ColumnIndex, ColumnRequestView>,
    blocks: Seq<SignedBeaconBlockHeader>,
) -> bool {
    forall|c: ColumnIndex| #[trigger]
        columns.contains_key(c) && columns[c].status is Downloaded ==> fits(
            columns[c].status->Downloaded_1,
            c,
            blocks,
        )
}

/// Whether `handed` has column `index` of `block`.
pub open spec fn hands_out(
    handed: Seq<DataColumnSidecar>,
    index: ColumnIndex,
    block: SignedBeaconBlockHeader,
) -> bool {
    exists|k: int| 0 <= k < handed.len() && is_column_of(#[trigger] handed[k], index, block)
}

/// Whether `sidecar` is one of the requested columns of one of the blocks.
pub open spec fn is_asked_for(
    sidecar: DataColumnSidecar,
    requested: Set<ColumnIndex>,
    blocks: Seq<SignedBeaconBlockHeader>,
) -> bool {
    requested.contains(sidecar.index) && exists|i: int|
        0 <= i < blocks.len() && is_column_of(sidecar, sidecar.index, #[trigger] blocks[i])
}

/// Whether `handed` is every requested column of every block, and nothing else.
pub open spec fn is_complete(
    handed: Seq<DataColumnSidecar>,
    requested: Set<ColumnIndex>,
    blocks: Seq<SignedBeaconBlockHeader>,
) -> bool {
    &&& handed.len() == requested.len() * blocks.len()
    &&& forall|c: ColumnIndex, i: int|
        requested.contains(c) && 0 <= i < blocks.len() ==> #[trigger] hands_out(handed, c, blocks[i])
    &&& forall|k: int|
        0 <= k < handed.len() ==> is_asked_for(#[trigger] handed[k], requested, blocks)
}

/// Whether `peer` is listed as having served column `x`.
pub open spec fn is_listed(served: Map<PeerId, Seq<usize>>, peer: PeerId, x: usize) -> bool {
    served.contains_key(peer) && served[peer].contains(x)
}

/// Whether the data of column `c` came from `peer`.
pub open spec fn came_from(
    columns: Map<ColumnIndex, ColumnRequestView>,
    c: ColumnIndex,
    peer: PeerId,
) -> bool {
    columns.contains_key(c) && columns[c].status->Downloaded_0 == peer
        && columns[c].status->Downloaded_1.len() > 0
}

/// Whether the peers and the time that go with the columns are those of the downloads: each column
/// was served by the peer that it was downloaded from, nothing else was served, and the time is the
/// latest at which a column was seen.
pub open spec fn credits_servers(
    columns: Map<ColumnIndex, ColumnRequestView>,
    served: Map<PeerId, Seq<usize>>,
    seen: Nanos,
) -> bool {
    &&& forall|c: ColumnIndex| #[trigger]
        columns.contains_key(c) ==> columns[c].status->Downloaded_2 <= seen
    &&& forall|c: ColumnIndex, p: PeerId| #[trigger]
        came_from(columns, c, p) ==> is_listed(served, p, c as usize)
    &&& forall|p: PeerId, x: usize| #[trigger]
        is_listed(served, p, x) ==> exists|c: ColumnIndex| #[trigger]
            came_from(columns, c, p) && c as usize == x
    &&& columns.dom().len() > 0 ==> exists|c: ColumnIndex| #[trigger]
        columns.contains_key(c) && columns[c].status->Downloaded_2 == seen
}

proof fn lemma_collected(
    columns: Map<ColumnIndex, ColumnRequestView>,
    order: Seq<ColumnIndex>,
    blocks: Seq<SignedBeaconBlockHeader>,
)
    requires
        arrived_data_fits(columns, blocks),
        forall|k: int|
            0 <= k < order.len() ==> columns.contains_key(#[trigger] order[k])
                && columns[order[k]].status is Downloaded,
    ensures
        ({
            let handed = custody_by_range::collected(columns, order);
            &&& handed.len() == order.len() * blocks.len()
            &&& forall|k: int, i: int|
                0 <= k < order.len() && 0 <= i < blocks.len() ==> #[trigger] hands_out(
                    handed,
                    order[k],
                    blocks[i],
                )
            &&& forall|k: int|
                0 <= k < handed.len() ==> is_asked_for(#[trigger] handed[k], order.to_set(), blocks)
        }),
    decreases order.len(),
{
    let handed = custody_by_range::collected(columns, order);
    if order.len() > 0 {
        let short = order.drop_last();
        let last = order.last();
        assert(order[order.len() - 1] == last);
        assert forall|k: int| 0 <= k < short.len() implies columns.contains_key(#[trigger] short[k])
            && columns[short[k]].status is Downloaded by {
            assert(order[k] == short[k]);
        }
        lemma_collected(columns, short, blocks);
        let earlier = custody_by_range::collected(columns, short);
        let data = columns[last].status->Downloaded_1;
        assert(columns.contains_key(last));
        assert(fits(data, last, blocks));
        assert(handed =~= earlier + data);
        assert(short.len() * blocks.len() + blocks.len() == order.len() * blocks.len())
            by (nonlinear_arith)
            requires
                short.len() + 1 == order.len(),
        ;
        assert forall|k: int, i: int| 0 <= k < order.len() && 0 <= i < blocks.len() implies #[trigger] hands_out(
            handed,
            order[k],
            blocks[i],
        ) by {
            if k < short.len() {
                assert(short[k] == order[k]);
                assert(hands_out(earlier, short[k], blocks[i]));
                let x = choose|x: int|
                    0 <= x < earlier.len() && is_column_of(#[trigger] earlier[x], short[k], blocks[i]);
                assert(handed[x] == earlier[x]);
            } else {
                assert(handed[earlier.len() + i] == data[i]);
            }
        }
        assert forall|k: int| 0 <= k < handed.len() implies is_asked_for(
            #[trigger] handed[k],
            order.to_set(),
            blocks,
        ) by {
            if k < earlier.len() {
                assert(handed[k] == earlier[k]);
                assert(is_asked_for(earlier[k], short.to_set(), blocks));
                let c = earlier[k].index;
                let x = choose|x: int| 0 <= x < short.len() && short[x] == c;
                assert(order[x] == c);
                assert(order.contains(c));
            } else {
                let i = k - earlier.len();
                assert(handed[k] == data[i]);
                assert(is_column_of(data[i], last, blocks[i]));
                assert(order.contains(last));
            }
        }
    }
}

proof fn lemma_with_served(
    served: Map<PeerId, Seq<usize>>,
    peer: PeerId,
    data: Seq<DataColumnSidecar>,
    index: ColumnIndex,
)
    requires
        forall|i: int| 0 <= i < data.len() ==> (#[trigger] data[i]).index == index,
    ensures
        forall|p: PeerId, x: usize| #[trigger]
            is_listed(custody_by_range::with_served(served, peer, data), p, x) <==> is_listed(
                served,
                p,
                x,
            ) || (data.len() > 0 && p == peer && x == index as usize),
    decreases data.len(),
{
    if data.len() > 0 {
        let short = data.drop_last();
        assert forall|i: int| 0 <= i < short.len() implies (#[trigger] short[i]).index == index by {
            assert(short[i] == data[i]);
        }
        lemma_with_served(served, peer, short, index);
        let earlier = custody_by_range::with_served(served, peer, short);
        let after = custody_by_range::with_served(served, peer, data);
        let indices = if earlier.contains_key(peer) {
            earlier[peer]
        } else {
            Seq::empty()
        };
        let new = data.last().index as usize;
        assert(data[data.len() - 1].index == index);
        let next = if indices.contains(new) {
            indices
        } else {
            indices.push(new)
        };
        assert(after == earlier.insert(peer, next));
        assert forall|p: PeerId, x: usize| #[trigger] is_listed(after, p, x) <==> is_listed(served, p, x)
            || (data.len() > 0 && p == peer && x == index as usize) by {
            assert(is_listed(earlier, p, x) <==> is_listed(served, p, x) || (short.len() > 0 && p
                == peer && x == index as usize));
            if indices.contains(x) {
                let k = choose|k: int| 0 <= k < indices.len() && indices[k] == x;
                assert(next[k] == x);
            }
            if x == new && !indices.contains(new) {
                assert(next[indices.len() as int] == x);
            }
        }
    }
}

proof fn lemma_servers(
    columns: Map<ColumnIndex, ColumnRequestView>,
    order: Seq<ColumnIndex>,
    blocks: Seq<SignedBeaconBlockHeader>,
    now: Nanos,
)
    requires
        arrived_data_fits(columns, blocks),
        forall|k: int|
            0 <= k < order.len() ==> columns.contains_key(#[trigger] order[k])
                && columns[order[k]].status is Downloaded,
    ensures
        ({
            let served = custody_by_range::served_by(columns, order);
            let seen = custody_by_range::last_seen(columns, order, now);
            &&& forall|k: int|
                0 <= k < order.len() ==> columns[#[trigger] order[k]].status->Downloaded_2 <= seen
            &&& forall|c: ColumnIndex, p: PeerId| #[trigger]
                came_from(columns, c, p) && order.contains(c) ==> is_listed(served, p, c as usize)
            &&& forall|p: PeerId, x: usize| #[trigger]
                is_listed(served, p, x) ==> exists|c: ColumnIndex| #[trigger]
                    came_from(columns, c, p) && c as usize == x
            &&& order.len() > 0 ==> exists|k: int|
                0 <= k < order.len() && columns[#[trigger] order[k]].status->Downloaded_2 == seen
        }),
    decreases order.len(),
{
    if order.len() > 0 {
        let short = order.drop_last();
        let last = order.last();
        assert(order[order.len() - 1] == last);
        assert forall|k: int| 0 <= k < short.len() implies columns.contains_key(#[trigger] short[k])
            && columns[short[k]].status is Downloaded by {
            assert(order[k] == short[k]);
        }
        lemma_servers(columns, short, blocks, now);
        let earlier = custody_by_range::served_by(columns, short);
        let served = custody_by_range::served_by(columns, order);
        let data = columns[last].status->Downloaded_1;
        let peer = columns[last].status->Downloaded_0;
        assert(columns.contains_key(last));
        assert(fits(data, last, blocks));
        lemma_with_served(earlier, peer, data, last);
        assert(served == custody_by_range::with_served(earlier, peer, data));
        assert forall|c: ColumnIndex, p: PeerId| #[trigger]
            came_from(columns, c, p) && order.contains(c) implies is_listed(served, p, c as usize) by {
            let k = choose|k: int| 0 <= k < order.len() && order[k] == c;
            if k < short.len() {
                assert(short[k] == c);
                assert(is_listed(earlier, p, c as usize));
            }
        }
        assert forall|p: PeerId, x: usize| #[trigger] is_listed(served, p, x) implies exists|
            c: ColumnIndex,
        | #[trigger]
            came_from(columns, c, p) && c as usize == x by {
            if !is_listed(earlier, p, x) {
                assert(came_from(columns, last, p));
            }
        }
        let seen = custody_by_range::last_seen(columns, order, now);
        assert forall|k: int| 0 <= k < order.len() implies columns[#[trigger] order[k]].status->Downloaded_2
            <= seen by {
            if k < short.len() {
                assert(short[k] == order[k]);
            }
        }
        if seen == columns[last].status->Downloaded_2 {
            assert(columns[order[order.len() - 1]].status->Downloaded_2 == seen);
        } else {
            let k = choose|k: int|
                0 <= k < short.len() && columns[#[trigger] short[k]].status->Downloaded_2 == seen;
            assert(order[k] == short[k]);
        }
    }
}

/// A step that completes a request hands out every requested column of every block with data, and
/// nothing else, with the peers that served them and the latest time at which one was seen.
pub proof fn law_done_request_hands_out_all_columns(
    v: CustodyView,
    cx: SyncNetworkContext,
    now: Nanos,
    timestamp_now: Nanos,
    v1: CustodyView,
    cx1: SyncNetworkContext,
    columns: Vec<DataColumnSidecar>,
    peers: PeerGroup,
    seen: Nanos,
)
    requires
        arrived_data_fits(v.columns, v.blocks),
        custody_by_range::progresses(
            v,
            cx,
            now,
            timestamp_now,
            v1,
            cx1,
            Ok(Some((columns, peers, seen))),
        ),
    ensures
        is_complete(columns@, v.columns.dom(), v.blocks),
        credits_servers(v.columns, peers@, seen),
        forall|c: ColumnIndex| #[trigger] v.columns.contains_key(c) ==> v.columns[c].status is Downloaded,
        cx1 == cx,
{
    let r: CustodyByRangeRequestResult = Ok(Some((columns, peers, seen)));
    let (order, factors) = choose|order: Seq<ColumnIndex>, factors: Seq<Seq<u32>>|
        fnv_map::is_order(order, v.columns.dom()) && custody_by_range::factors_fit(cx, order, factors)
            && #[trigger] custody_by_range::progress(
            v,
            cx,
            order,
            factors,
            now,
            timestamp_now,
            v1,
            cx1,
            r,
        );
    fnv_map::lemma_order_len(order, v.columns.dom());
    assert forall|k: int| 0 <= k < order.len() implies v.columns.contains_key(#[trigger] order[k])
        && v.columns[order[k]].status is Downloaded by {
        assert(order.contains(order[k]));
        assert(v.columns.dom().contains(order[k]));
    }
    lemma_collected(v.columns, order, v.blocks);
    lemma_servers(v.columns, order, v.blocks, timestamp_now);
    assert(order.to_set() =~= v.columns.dom());
    assert forall|c: ColumnIndex, i: int|
        v.columns.dom().contains(c) && 0 <= i < v.blocks.len() implies #[trigger] hands_out(
        columns@,
        c,
        v.blocks[i],
    ) by {
        assert(order.contains(c));
        let k = choose|k: int| 0 <= k < order.len() && order[k] == c;
        assert(hands_out(columns@, order[k], v.blocks[i]));
    }
    assert forall|c: ColumnIndex| #[trigger] v.columns.contains_key(c) implies v.columns[c].status->Downloaded_2
        <= seen by {
        assert(order.contains(c));
        let k = choose|k: int| 0 <= k < order.len() && order[k] == c;
        assert(v.columns[order[k]].status->Downloaded_2 <= seen);
    }
    assert forall|c: ColumnIndex, p: PeerId| #[trigger] came_from(v.columns, c, p) implies is_listed(
        peers@,
        p,
        c as usize,
    ) by {
        assert(order.contains(c));
    }
    if v.columns.dom().len() > 0 {
        let k = choose|k: int|
            0 <= k < order.len() && v.columns[#[trigger] order[k]].status->Downloaded_2 == seen;
        assert(v.columns.contains_key(order[k]));
    }
}

proof fn lemma_imported_fits(
    v: CustodyView,
    indices: Seq<ColumnIndex>,
    received: Seq<DataColumnSidecar>,
    req_id: DataColumnsByRangeRequestId,
    peer: PeerId,
    seen: Nanos,
)
    requires
        arrived_data_fits(v.columns, v.blocks),
    ensures
        ({
            let s = custody_by_range::imported(v, indices, received, req_id, peer, seen);
            &&& s.columns.dom() == v.columns.dom()
            &&& arrived_data_fits(s.columns, v.blocks)
            &&& custody_laws::well_placed(s.available)
        }),
    decreases indices.len(),
{
    custody_laws::law_received_columns_are_well_placed(received);
    if indices.len() > 0 {
        let short = indices.drop_last();
        let index = indices.last();
        lemma_imported_fits(v, short, received, req_id, peer, seen);
        let before = custody_by_range::imported(v, short, received, req_id, peer, seen);
        let s = custody_by_range::imported(v, indices, received, req_id, peer, seen);
        custody_laws::law_accepted_data_matches_the_blocks(before.available, index, v.blocks);
        assert(s.columns.dom() =~= v.columns.dom());
        assert forall|c: ColumnIndex| #[trigger]
            s.columns.contains_key(c) && s.columns[c].status is Downloaded implies fits(
            s.columns[c].status->Downloaded_1,
            c,
            v.blocks,
        ) by {
            assert(before.columns.contains_key(c));
        }
    }
}

proof fn lemma_all_failed_fits(
    columns: Map<ColumnIndex, ColumnRequestView>,
    blocks: Seq<SignedBeaconBlockHeader>,
    indices: Seq<ColumnIndex>,
    req_id: DataColumnsByRangeRequestId,
    err: RpcResponseError,
)
    requires
        arrived_data_fits(columns, blocks),
    ensures
        custody_by_range::all_failed(columns, indices, req_id, err).0.dom() == columns.dom(),
        arrived_data_fits(custody_by_range::all_failed(columns, indices, req_id, err).0, blocks),
    decreases indices.len(),
{
    if indices.len() > 0 {
        lemma_all_failed_fits(columns, blocks, indices.drop_last(), req_id, err);
        let before = custody_by_range::all_failed(columns, indices.drop_last(), req_id, err).0;
        let after = custody_by_range::all_failed(columns, indices, req_id, err).0;
        assert(after.dom() =~= columns.dom());
        assert forall|c: ColumnIndex| #[trigger]
            after.contains_key(c) && after[c].status is Downloaded implies fits(
            after[c].status->Downloaded_1,
            c,
            blocks,
        ) by {
            assert(before.contains_key(c));
        }
    }
}

proof fn lemma_sends_fit(
    v: CustodyView,
    batches: Seq<custody_by_range::BatchView>,
    n: nat,
    first: u32,
)
    requires
        arrived_data_fits(v.columns, v.blocks),
    ensures
        ({
            let after = custody_by_range::after_sends(v, batches, n, first);
            &&& after.columns.dom() == v.columns.dom()
            &&& after.blocks == v.blocks
            &&& arrived_data_fits(after.columns, v.blocks)
        }),
    decreases n,
{
    if n > 0 {
        lemma_sends_fit(v, batches, (n - 1) as nat, first);
        let before = custody_by_range::after_sends(v, batches, (n - 1) as nat, first);
        let after = custody_by_range::after_sends(v, batches, n, first);
        assert(after.columns.dom() =~= v.columns.dom());
        assert forall|c: ColumnIndex| #[trigger]
            after.columns.contains_key(c) && after.columns[c].status is Downloaded implies fits(
            after.columns[c].status->Downloaded_1,
            c,
            v.blocks,
        ) by {
            assert(before.columns.contains_key(c));
        }
    }
}

/// A new request has nothing that has arrived, asks for exactly the given columns, and every
/// column of it waits for its download.
pub proof fn law_new_request_asks_for_its_columns(
    id: CustodyByRangeRequestId,
    request: BlocksByRangeRequest,
    blocks: Seq<SignedBeaconBlockHeader>,
    columns: Seq<ColumnIndex>,
    lookup_peers: Set<PeerId>,
    now: Nanos,
)
    ensures
        ({
            let v = network_context::fresh_custody(
                id,
                request,
                blocks,
                columns,
                lookup_peers,
                now,
            );
            &&& v.columns.dom() == columns.to_set()
            &&& forall|c: ColumnIndex|
                columns.contains(c) ==> (#[trigger] v.columns[c]).status is NotStarted
                    && v.columns[c].failures.len() == 0
            &&& arrived_data_fits(v.columns, v.blocks)
            &&& v.blocks == blocks
            &&& v.id == id
            &&& v.request == request
            &&& v.start_time == now
            &&& v.lookup_peers == lookup_peers
            &&& forall|peer: PeerId, t: Nanos| !#[trigger] custody_by_range::recently_failed(
                v.failed,
                peer,
                t,
            )
        }),
{
    let v = network_context::fresh_custody(
        id,
        request,
        blocks,
        columns,
        lookup_peers,
        now,
    );
    assert(v.columns.dom() =~= columns.to_set());
}

/// A step keeps what has arrived complete, and the blocks; until the request is done it keeps the
/// columns that are asked for.
pub proof fn law_progress_keeps_arrived_data(
    v: CustodyView,
    cx: SyncNetworkContext,
    now: Nanos,
    timestamp_now: Nanos,
    v1: CustodyView,
    cx1: SyncNetworkContext,
    r: CustodyByRangeRequestResult,
)
    requires
        arrived_data_fits(v.columns, v.blocks),
        custody_by_range::progresses(v, cx, now, timestamp_now, v1, cx1, r),
    ensures
        arrived_data_fits(v1.columns, v1.blocks),
        v1.blocks == v.blocks,
        v1.id == v.id,
        v1.request == v.request,
        v1.start_time == v.start_time,
        v1.lookup_peers == v.lookup_peers,
        v1.failed == v.failed,
        !(custody_by_range::outcome(r) is Done) ==> v1.columns.dom() == v.columns.dom(),
{
    let (order, factors) = choose|order: Seq<ColumnIndex>, factors: Seq<Seq<u32>>|
        fnv_map::is_order(order, v.columns.dom()) && custody_by_range::factors_fit(cx, order, factors)
            && #[trigger] custody_by_range::progress(
            v,
            cx,
            order,
            factors,
            now,
            timestamp_now,
            v1,
            cx1,
            r,
        );
    if let Ok(batches) = custody_by_range::planned(v, cx, order, factors, now) {
        lemma_sends_fit(v, batches, batches.len(), cx.request_id);
        lemma_sends_frame(v, batches, batches.len(), cx.request_id);
    }
}

proof fn lemma_sends_frame(
    v: CustodyView,
    batches: Seq<custody_by_range::BatchView>,
    n: nat,
    first: u32,
)
    ensures
        ({
            let after = custody_by_range::after_sends(v, batches, n, first);
            after == (CustodyView { columns: after.columns, batches: after.batches, ..v })
        }),
    decreases n,
{
    if n > 0 {
        lemma_sends_frame(v, batches, (n - 1) as nat, first);
    }
}

/// Whatever a peer responds, what has arrived stays complete and the request keeps its blocks and,
/// until it is done, its columns.
pub proof fn law_response_keeps_arrived_data(
    v0: CustodyView,
    cx0: SyncNetworkContext,
    peer_id: PeerId,
    req_id: DataColumnsByRangeRequestId,
    resp: RpcResponseResult<Vec<DataColumnSidecar>>,
    now: Nanos,
    timestamp_now: Nanos,
    v1: CustodyView,
    cx1: SyncNetworkContext,
    r: CustodyByRangeRequestResult,
)
    requires
        arrived_data_fits(v0.columns, v0.blocks),
        custody_by_range::download_step(
            v0,
            cx0,
            peer_id,
            req_id,
            resp,
            now,
            timestamp_now,
            v1,
            cx1,
            r,
        ),
    ensures
        arrived_data_fits(v1.columns, v1.blocks),
        v1.blocks == v0.blocks,
        v1.id == v0.id,
        !(custody_by_range::outcome(r) is Done) ==> v1.columns.dom() == v0.columns.dom(),
        custody_by_range::outcome(r) matches CustodyOutcome::Done(columns, _, _) ==> is_complete(
            columns,
            v0.columns.dom(),
            v0.blocks,
        ),
{
    let indices = v0.batches[req_id.number()].indices;
    if custody_by_range::expects(v0, req_id) {
        match resp {
            Ok((data_columns, seen)) => {
                let s = custody_by_range::imported(
                    v0,
                    indices,
                    data_columns@,
                    req_id,
                    peer_id,
                    seen,
                );
                lemma_imported_fits(v0, indices, data_columns@, req_id, peer_id, seen);
                if s.error is None {
                    let v = custody_by_range::after_import(v0, s, peer_id, now);
                    let mid = choose|mid: SyncNetworkContext| #[trigger]
                        custody_by_range::messages_sent(
                            cx0,
                            mid,
                            custody_by_range::import_reports(s, peer_id),
                        ) && custody_by_range::progresses(v, mid, now, timestamp_now, v1, cx1, r);
                    law_progress_keeps_arrived_data(v, mid, now, timestamp_now, v1, cx1, r);
                    if let Ok(Some((columns, peers, t))) = r {
                        law_done_request_hands_out_all_columns(
                            v,
                            mid,
                            now,
                            timestamp_now,
                            v1,
                            cx1,
                            columns,
                            peers,
                            t,
                        );
                    }
                }
            },
            Err(err) => {
                let (columns, error) = custody_by_range::all_failed(v0.columns, indices, req_id, err);
                lemma_all_failed_fits(v0.columns, v0.blocks, indices, req_id, err);
                if error is None {
                    let v = CustodyView { columns, failed: v0.failed.insert(peer_id, now), ..v0 };
                    law_progress_keeps_arrived_data(v, cx0, now, timestamp_now, v1, cx1, r);
                    if let Ok(Some((columns, peers, t))) = r {
                        law_done_request_hands_out_all_columns(
                            v,
                            cx0,
                            now,
                            timestamp_now,
                            v1,
                            cx1,
                            columns,
                            peers,
                            t,
                        );
                    }
                }
            },
        }
    }
}

/// The columns that a custody request of the context answers with are all that were asked for, of
/// all its blocks, and the request is then gone.
pub proof fn law_custody_answer_is_complete(
    cx0: SyncNetworkContext,
    id: CustodyByRangeRequestId,
    req_id: DataColumnsByRangeRequestId,
    peer_id: PeerId,
    resp: RpcResponseResult<Vec<DataColumnSidecar>>,
    now: Nanos,
    timestamp_now: Nanos,
    cx1: SyncNetworkContext,
    r: Option<CustodyRequestResult>,
)
    requires
        responses::has_custody(cx0, id),
        ({
            let v = network_context::custody_views(
                cx0.custody_by_range_requests@,
            )[id.number()];
            arrived_data_fits(v.columns, v.blocks)
        }),
        responses::custody_responded(
            cx0,
            id,
            req_id,
            peer_id,
            resp,
            now,
            timestamp_now,
            cx1,
            r,
        ),
    ensures
        ({
            let v = network_context::custody_views(
                cx0.custody_by_range_requests@,
            )[id.number()];
            &&& r matches Some(Ok((columns, _, _))) ==> is_complete(
                columns@,
                v.columns.dom(),
                v.blocks,
            )
            &&& r is None <==> responses::has_custody(cx1, id)
        }),
{
    let number = id.number();
    let v0 = network_context::custody_views(cx0.custody_by_range_requests@)[number];
    let (mid, v, cx, result) = choose|
        mid: SyncNetworkContext,
        v: CustodyView,
        cx: SyncNetworkContext,
        result: CustodyByRangeRequestResult,
    |
        {
            &&& responses::without_custody(cx0, number, mid)
            &&& #[trigger] custody_by_range::download_step(
                v0,
                mid,
                peer_id,
                req_id,
                resp,
                now,
                timestamp_now,
                v,
                cx,
                result,
            )
            &&& responses::custody_settled(cx, number, v, result, cx1)
            &&& responses::is_custody_answer(result, r)
        };
    law_response_keeps_arrived_data(
        v0,
        mid,
        peer_id,
        req_id,
        resp,
        now,
        timestamp_now,
        v,
        cx,
        result,
    );
    lemma_step_leaves_other_requests(
        v0,
        mid,
        peer_id,
        req_id,
        resp,
        now,
        timestamp_now,
        v,
        cx,
        result,
    );
}

/// A step on a custody request leaves the table of custody requests as it is.
proof fn lemma_step_leaves_other_requests(
    v0: CustodyView,
    cx0: SyncNetworkContext,
    peer_id: PeerId,
    req_id: DataColumnsByRangeRequestId,
    resp: RpcResponseResult<Vec<DataColumnSidecar>>,
    now: Nanos,
    timestamp_now: Nanos,
    v1: CustodyView,
    cx1: SyncNetworkContext,
    r: CustodyByRangeRequestResult,
)
    requires
        custody_by_range::download_step(
            v0,
            cx0,
            peer_id,
            req_id,
            resp,
            now,
            timestamp_now,
            v1,
            cx1,
            r,
        ),
    ensures
        cx1.custody_by_range_requests == cx0.custody_by_range_requests,
{
}

/// Whether `received[j]` is the last of the received columns with this index and slot.
pub open spec fn is_latest(
    received: Seq<DataColumnSidecar>,
    j: int,
    index: ColumnIndex,
    slot: u64,
) -> bool {
    &&& 0 <= j < received.len()
    &&& received[j].index == index
    &&& received[j].slot == slot
    &&& forall|k: int|
        j < k < received.len() ==> !((#[trigger] received[k]).index == index && received[k].slot == slot)
}

/// Whether some received column has this index and slot.
pub open spec fn is_received(received: Seq<DataColumnSidecar>, index: ColumnIndex, slot: u64) -> bool {
    exists|j: int| #[trigger] is_latest(received, j, index, slot)
}

/// Whether the response serves column `index` of `block`: the last of the received columns with this
/// index and slot is of that block.
pub open spec fn serves_block(
    received: Seq<DataColumnSidecar>,
    index: ColumnIndex,
    block: SignedBeaconBlockHeader,
) -> bool {
    exists|j: int| #[trigger]
        is_latest(received, j, index, block.slot) && received[j].block_root == block.root
}

/// Whether the response serves column `index` of every block.
pub open spec fn serves_all(
    received: Seq<DataColumnSidecar>,
    index: ColumnIndex,
    blocks: Seq<SignedBeaconBlockHeader>,
) -> bool {
    forall|i: int| 0 <= i < blocks.len() ==> serves_block(received, index, #[trigger] blocks[i])
}

/// Whether no two blocks are at the same slot.
pub open spec fn distinct_slots(blocks: Seq<SignedBeaconBlockHeader>) -> bool {
    forall|i: int, j: int|
        0 <= i < j < blocks.len() ==> (#[trigger] blocks[i]).slot != (#[trigger] blocks[j]).slot
}

proof fn lemma_by_place(received: Seq<DataColumnSidecar>)
    ensures
        forall|j: int, index: ColumnIndex, slot: u64| #[trigger]
            is_latest(received, j, index, slot) ==> custody_by_range::by_place(
                received,
            ).contains_key(ColumnSlot { index, slot }) && custody_by_range::by_place(
                received,
            )[ColumnSlot { index, slot }] == received[j],
        forall|place: ColumnSlot| #[trigger]
            custody_by_range::by_place(received).contains_key(place) ==> is_received(
                received,
                place.index,
                place.slot,
            ),
    decreases received.len(),
{
    if received.len() > 0 {
        let short = received.drop_last();
        let n = received.len() - 1;
        lemma_by_place(short);
        let all = custody_by_range::by_place(received);
        assert forall|j: int, index: ColumnIndex, slot: u64| #[trigger]
            is_latest(received, j, index, slot) implies all.contains_key(ColumnSlot { index, slot })
            && all[ColumnSlot { index, slot }] == received[j] by {
            if j < n {
                assert(!(received[n].index == index && received[n].slot == slot));
                assert forall|k: int| j < k < short.len() implies !((#[trigger] short[k]).index == index
                    && short[k].slot == slot) by {
                    assert(short[k] == received[k]);
                }
                assert(is_latest(short, j, index, slot));
            }
        }
        assert forall|place: ColumnSlot| #[trigger] all.contains_key(place) implies is_received(
            received,
            place.index,
            place.slot,
        ) by {
            let last = received[n];
            if last.index == place.index && last.slot == place.slot {
                assert(is_latest(received, n, place.index, place.slot));
            } else {
                assert(custody_by_range::by_place(short).contains_key(place));
                let j = choose|j: int| #[trigger] is_latest(short, j, place.index, place.slot);
                assert forall|k: int| j < k < received.len() implies !((
                #[trigger] received[k]).index == place.index && received[k].slot == place.slot) by {
                    if k < n {
                        assert(short[k] == received[k]);
                    }
                }
                assert(is_latest(received, j, place.index, place.slot));
            }
        }
    }
}

/// Whether column `index` of `block` is at its place in `available`.
spec fn is_at_hand(
    available: Map<ColumnSlot, DataColumnSidecar>,
    index: ColumnIndex,
    block: SignedBeaconBlockHeader,
) -> bool {
    let place = ColumnSlot { index, slot: block.slot };
    available.contains_key(place) && available[place].block_root == block.root
}

proof fn lemma_taken(
    available: Map<ColumnSlot, DataColumnSidecar>,
    index: ColumnIndex,
    blocks: Seq<SignedBeaconBlockHeader>,
)
    requires
        distinct_slots(blocks),
    ensures
        ({
            let (left, found) = custody_by_range::taken(available, index, blocks);
            &&& forall|p: ColumnSlot|
                (p.index != index || forall|i: int|
                    0 <= i < blocks.len() ==> (#[trigger] blocks[i]).slot != p.slot) ==> (
                #[trigger] left.contains_key(p) <==> available.contains_key(p)) && left[p]
                    == available[p]
            &&& found is Ok <==> forall|i: int|
                0 <= i < blocks.len() ==> is_at_hand(available, index, #[trigger] blocks[i])
            &&& found matches Err(ColumnResponseError::MissingColumn(slot)) ==> exists|i: int|
                0 <= i < blocks.len() && (#[trigger] blocks[i]).slot == slot && !available.contains_key(
                    ColumnSlot { index, slot },
                )
            &&& found matches Err(ColumnResponseError::NonMatchingColumn {
                slot,
                actual_block_root,
                expected_block_root,
            }) ==> exists|i: int|
                0 <= i < blocks.len() && (#[trigger] blocks[i]).slot == slot && blocks[i].root
                    == expected_block_root && available.contains_key(ColumnSlot { index, slot })
                    && available[ColumnSlot { index, slot }].block_root == actual_block_root
                    && actual_block_root != expected_block_root
        }),
    decreases blocks.len(),
{
    if blocks.len() > 0 {
        let short = blocks.drop_last();
        let n = blocks.len() - 1;
        let block = blocks[n];
        assert forall|i: int, j: int| 0 <= i < j < short.len() implies (#[trigger] short[i]).slot != (
        #[trigger] short[j]).slot by {
            assert(blocks[i].slot != blocks[j].slot);
        }
        lemma_taken(available, index, short);
        let (before, earlier) = custody_by_range::taken(available, index, short);
        let (left, found) = custody_by_range::taken(available, index, blocks);
        let place = ColumnSlot { index, slot: block.slot };
        assert forall|i: int| 0 <= i < short.len() implies (#[trigger] short[i]).slot != place.slot by {
            assert(blocks[i].slot != blocks[n].slot);
        }
        assert(before.contains_key(place) <==> available.contains_key(place));
        assert(before[place] == available[place]);
        assert forall|p: ColumnSlot|
            (p.index != index || forall|i: int|
                0 <= i < blocks.len() ==> (#[trigger] blocks[i]).slot != p.slot) implies (
        #[trigger] left.contains_key(p) <==> available.contains_key(p)) && left[p] == available[p] by {
            if p.index == index {
                assert(blocks[n].slot != p.slot);
                assert forall|i: int| 0 <= i < short.len() implies (#[trigger] short[i]).slot != p.slot by {
                    assert(blocks[i].slot != p.slot);
                }
            }
            assert(before.contains_key(p) <==> available.contains_key(p));
        }
        if found is Ok {
            assert forall|i: int| 0 <= i < blocks.len() implies is_at_hand(
                available,
                index,
                #[trigger] blocks[i],
            ) by {
                if i < n {
                    assert(short[i] == blocks[i]);
                }
            }
        }
        if forall|i: int| 0 <= i < blocks.len() ==> is_at_hand(available, index, #[trigger] blocks[i]) {
            assert forall|i: int| 0 <= i < short.len() implies is_at_hand(
                available,
                index,
                #[trigger] short[i],
            ) by {
                assert(is_at_hand(available, index, blocks[i]));
            }
            assert(is_at_hand(available, index, blocks[n]));
        }
        if let Err(ColumnResponseError::MissingColumn(slot)) = found {
            if earlier is Err {
                let i = choose|i: int|
                    0 <= i < short.len() && (#[trigger] short[i]).slot == slot
                        && !available.contains_key(ColumnSlot { index, slot });
                assert(blocks[i] == short[i]);
            } else {
                assert(blocks[n].slot == slot);
            }
        }
        if let Err(
            ColumnResponseError::NonMatchingColumn { slot, actual_block_root, expected_block_root },
        ) = found {
            if earlier is Err {
                let i = choose|i: int|
                    0 <= i < short.len() && (#[trigger] short[i]).slot == slot && short[i].root
                        == expected_block_root && available.contains_key(ColumnSlot { index, slot })
                        && available[ColumnSlot { index, slot }].block_root == actual_block_root
                        && actual_block_root != expected_block_root;
                assert(blocks[i] == short[i]);
            } else {
                assert(blocks[n].slot == slot);
            }
        }
    }
}

/// Whether the response lacks column `index` of some block.
pub open spec fn lacks_some(
    received: Seq<DataColumnSidecar>,
    index: ColumnIndex,
    blocks: Seq<SignedBeaconBlockHeader>,
) -> bool {
    exists|i: int|
        0 <= i < blocks.len() && !is_received(received, index, (#[trigger] blocks[i]).slot)
}

/// Whether the response has column `index` of another block in the place of some block.
pub open spec fn mistakes_some(
    received: Seq<DataColumnSidecar>,
    index: ColumnIndex,
    blocks: Seq<SignedBeaconBlockHeader>,
) -> bool {
    exists|i: int|
        0 <= i < blocks.len() && is_received(received, index, (#[trigger] blocks[i]).slot)
            && !serves_block(received, index, blocks[i])
}

/// What the response to a request for the columns `indices` does to each column of the request: one
/// that it serves for every block counts as downloaded from the peer; any other that was requested
/// waits for another download; the rest stay as they are. The response counts as incomplete only
/// where it lacks a column of a block, as wrong only where it has one of another block, and as
/// neither only where it serves every requested column of every block.
pub proof fn law_response_is_imported_column_by_column(
    v: CustodyView,
    indices: Seq<ColumnIndex>,
    received: Seq<DataColumnSidecar>,
    req_id: DataColumnsByRangeRequestId,
    peer: PeerId,
    seen: Nanos,
)
    requires
        distinct_slots(v.blocks),
        indices.no_duplicates(),
        forall|k: int|
            0 <= k < indices.len() ==> v.columns.contains_key(#[trigger] indices[k])
                && v.columns[indices[k]].status == StatusView::Downloading(req_id),
    ensures
        ({
            let s = custody_by_range::imported(v, indices, received, req_id, peer, seen);
            &&& s.error is None
            &&& s.columns.dom() == v.columns.dom()
            &&& forall|c: ColumnIndex|
                indices.contains(c) ==> (#[trigger] s.columns[c]).failures == v.columns[c].failures
            &&& forall|c: ColumnIndex|
                indices.contains(c) && serves_all(received, c, v.blocks) ==> ((
                #[trigger] s.columns[c]).status matches StatusView::Downloaded(p, data, t) && p == peer
                    && t == seen && fits(data, c, v.blocks))
            &&& forall|c: ColumnIndex|
                indices.contains(c) && !serves_all(received, c, v.blocks) ==> (
                #[trigger] s.columns[c]).status is NotStarted
            &&& forall|c: ColumnIndex|
                !indices.contains(c) ==> #[trigger] s.columns[c] == v.columns[c]
            &&& (!s.incorrect && !s.missing) <==> forall|c: ColumnIndex| #[trigger]
                indices.contains(c) ==> serves_all(received, c, v.blocks)
            &&& s.missing ==> exists|c: ColumnIndex| #[trigger]
                indices.contains(c) && lacks_some(received, c, v.blocks)
            &&& s.incorrect ==> exists|c: ColumnIndex| #[trigger]
                indices.contains(c) && mistakes_some(received, c, v.blocks)
        }),
{
    lemma_import(v, indices, received, req_id, peer, seen);
}

proof fn lemma_import(
    v: CustodyView,
    indices: Seq<ColumnIndex>,
    received: Seq<DataColumnSidecar>,
    req_id: DataColumnsByRangeRequestId,
    peer: PeerId,
    seen: Nanos,
)
    requires
        distinct_slots(v.blocks),
        indices.no_duplicates(),
        forall|k: int|
            0 <= k < indices.len() ==> v.columns.contains_key(#[trigger] indices[k])
                && v.columns[indices[k]].status == StatusView::Downloading(req_id),
    ensures
        ({
            let s = custody_by_range::imported(v, indices, received, req_id, peer, seen);
            let all = custody_by_range::by_place(received);
            &&& s.error is None
            &&& s.columns.dom() == v.columns.dom()
            &&& custody_laws::well_placed(s.available)
            &&& forall|p: ColumnSlot|
                !indices.contains(p.index) ==> (#[trigger] s.available.contains_key(p)
                    <==> all.contains_key(p)) && s.available[p] == all[p]
            &&& forall|c: ColumnIndex|
                indices.contains(c) ==> (#[trigger] s.columns[c]).failures == v.columns[c].failures
            &&& forall|c: ColumnIndex|
                indices.contains(c) && serves_all(received, c, v.blocks) ==> ((
                #[trigger] s.columns[c]).status matches StatusView::Downloaded(p, data, t) && p == peer
                    && t == seen && fits(data, c, v.blocks))
            &&& forall|c: ColumnIndex|
                indices.contains(c) && !serves_all(received, c, v.blocks) ==> (
                #[trigger] s.columns[c]).status is NotStarted
            &&& forall|c: ColumnIndex|
                !indices.contains(c) ==> #[trigger] s.columns[c] == v.columns[c]
            &&& (!s.incorrect && !s.missing) <==> forall|c: ColumnIndex| #[trigger]
                indices.contains(c) ==> serves_all(received, c, v.blocks)
            &&& s.missing ==> exists|c: ColumnIndex| #[trigger]
                indices.contains(c) && lacks_some(received, c, v.blocks)
            &&& s.incorrect ==> exists|c: ColumnIndex| #[trigger]
                indices.contains(c) && mistakes_some(received, c, v.blocks)
        }),
    decreases indices.len(),
{
    custody_laws::law_received_columns_are_well_placed(received);
    lemma_by_place(received);
    let all = custody_by_range::by_place(received);
    if indices.len() > 0 {
        let short = indices.drop_last();
        let n = indices.len() - 1;
        let index = indices[n];
        assert forall|k: int| 0 <= k < short.len() implies v.columns.contains_key(#[trigger] short[k])
            && v.columns[short[k]].status == StatusView::Downloading(req_id) && short[k] != index by {
            assert(indices[k] == short[k]);
        }
        lemma_import(v, short, received, req_id, peer, seen);
        assert forall|c: ColumnIndex| #[trigger] indices.contains(c) <==> short.contains(c) || c == index by {
            if short.contains(c) {
                let k = choose|k: int| 0 <= k < short.len() && short[k] == c;
                assert(indices[k] == c);
            }
            if indices.contains(c) {
                let k = choose|k: int| 0 <= k < indices.len() && indices[k] == c;
                if k < n {
                    assert(short[k] == c);
                }
            }
        }
        assert(!short.contains(index));
        let before = custody_by_range::imported(v, short, received, req_id, peer, seen);
        let s = custody_by_range::imported(v, indices, received, req_id, peer, seen);
        assert(before.columns[index] == v.columns[index]);
        assert(v.columns.contains_key(indices[n]));
        custody_laws::law_accepted_data_matches_the_blocks(before.available, index, v.blocks);
        lemma_taken(before.available, index, v.blocks);
        let (left, found) = custody_by_range::taken(before.available, index, v.blocks);
        assert(s.available == left);
        assert(s.columns.dom() =~= v.columns.dom());
        // What is at hand for this column is what was received.
        assert forall|block: SignedBeaconBlockHeader| #[trigger]
            is_at_hand(before.available, index, block) <==> serves_block(received, index, block) by {
            let place = ColumnSlot { index, slot: block.slot };
            assert(before.available.contains_key(place) <==> all.contains_key(place));
            if all.contains_key(place) {
                let j = choose|j: int| #[trigger] is_latest(received, j, index, block.slot);
                assert(all[place] == received[j]);
            }
        }
        assert(found is Ok <==> serves_all(received, index, v.blocks)) by {
            if found is Ok {
                assert forall|i: int| 0 <= i < v.blocks.len() implies serves_block(
                    received,
                    index,
                    #[trigger] v.blocks[i],
                ) by {
                    assert(is_at_hand(before.available, index, v.blocks[i]));
                }
            }
            if serves_all(received, index, v.blocks) {
                assert forall|i: int| 0 <= i < v.blocks.len() implies is_at_hand(
                    before.available,
                    index,
                    #[trigger] v.blocks[i],
                ) by {
                    assert(serves_block(received, index, v.blocks[i]));
                }
            }
        }
        if let Ok(data) = found {
            assert(fits(data, index, v.blocks));
        }
        if let Err(ColumnResponseError::MissingColumn(slot)) = found {
            let i = choose|i: int|
                0 <= i < v.blocks.len() && (#[trigger] v.blocks[i]).slot == slot
                    && !before.available.contains_key(ColumnSlot { index, slot });
            assert(!all.contains_key(ColumnSlot { index, slot }));
            assert(!is_received(received, index, v.blocks[i].slot)) by {
                if is_received(received, index, slot) {
                    let j = choose|j: int| #[trigger] is_latest(received, j, index, slot);
                    assert(all.contains_key(ColumnSlot { index, slot }));
                }
            }
            assert(lacks_some(received, index, v.blocks));
        }
        if let Err(
            ColumnResponseError::NonMatchingColumn { slot, actual_block_root, expected_block_root },
        ) = found {
            let i = choose|i: int|
                0 <= i < v.blocks.len() && (#[trigger] v.blocks[i]).slot == slot && v.blocks[i].root
                    == expected_block_root && before.available.contains_key(ColumnSlot { index, slot })
                    && before.available[ColumnSlot { index, slot }].block_root == actual_block_root
                    && actual_block_root != expected_block_root;
            assert(!is_at_hand(before.available, index, v.blocks[i]));
            assert(all.contains_key(ColumnSlot { index, slot }));
            assert(is_received(received, index, v.blocks[i].slot));
            assert(mistakes_some(received, index, v.blocks));
        }
        assert(indices.contains(index));
        assert forall|p: ColumnSlot| !indices.contains(p.index) implies (
        #[trigger] s.available.contains_key(p) <==> all.contains_key(p)) && s.available[p] == all[p] by {
            assert(before.available.contains_key(p) <==> all.contains_key(p));
        }
        if s.missing {
            if !before.missing {
                assert(indices.contains(index) && lacks_some(received, index, v.blocks));
            } else {
                let c = choose|c: ColumnIndex| #[trigger]
                    short.contains(c) && lacks_some(received, c, v.blocks);
                assert(indices.contains(c));
            }
        }
        if s.incorrect {
            if !before.incorrect {
                assert(indices.contains(index) && mistakes_some(received, index, v.blocks));
            } else {
                let c = choose|c: ColumnIndex| #[trigger]
                    short.contains(c) && mistakes_some(received, c, v.blocks);
                assert(indices.contains(c));
            }
        }
        if forall|c: ColumnIndex| #[trigger] indices.contains(c) ==> serves_all(received, c, v.blocks) {
            assert forall|c: ColumnIndex| #[trigger] short.contains(c) implies serves_all(
                received,
                c,
                v.blocks,
            ) by {
                assert(indices.contains(c));
            }
        }
    }
}

/// A failed response leaves every requested column waiting for another download, with the failure
/// recorded, and the other columns as they are.
pub proof fn law_failed_response_is_counted(
    columns: Map<ColumnIndex, ColumnRequestView>,
    indices: Seq<ColumnIndex>,
    req_id: DataColumnsByRangeRequestId,
    err: RpcResponseError,
)
    requires
        indices.no_duplicates(),
        forall|k: int|
            0 <= k < indices.len() ==> columns.contains_key(#[trigger] indices[k])
                && columns[indices[k]].status == StatusView::Downloading(req_id),
    ensures
        ({
            let (after, error) = custody_by_range::all_failed(columns, indices, req_id, err);
            &&& error is None
            &&& after.dom() == columns.dom()
            &&& forall|c: ColumnIndex|
                indices.contains(c) ==> (#[trigger] after[c]).status is NotStarted && after[c].failures
                    == columns[c].failures.push(err)
            &&& forall|c: ColumnIndex| !indices.contains(c) ==> #[trigger] after[c] == columns[c]
        }),
    decreases indices.len(),
{
    if indices.len() > 0 {
        let short = indices.drop_last();
        let n = indices.len() - 1;
        let index = indices[n];
        assert forall|k: int| 0 <= k < short.len() implies columns.contains_key(#[trigger] short[k])
            && columns[short[k]].status == StatusView::Downloading(req_id) && short[k] != index by {
            assert(indices[k] == short[k]);
        }
        law_failed_response_is_counted(columns, short, req_id, err);
        assert forall|c: ColumnIndex| #[trigger] indices.contains(c) <==> short.contains(c) || c == index by {
            if short.contains(c) {
                let k = choose|k: int| 0 <= k < short.len() && short[k] == c;
                assert(indices[k] == c);
            }
            if indices.contains(c) {
                let k = choose|k: int| 0 <= k < indices.len() && indices[k] == c;
                if k < n {
                    assert(short[k] == c);
                }
            }
        }
        assert(!short.contains(index));
        let (before, earlier) = custody_by_range::all_failed(columns, short, req_id, err);
        assert(before[index] == columns[index]);
        assert(columns.contains_key(indices[n]));
        let (after, error) = custody_by_range::all_failed(columns, indices, req_id, err);
        assert(after.dom() =~= columns.dom());
    }
}

/// A step that makes progress sends nothing but requests.
proof fn lemma_progress_sends_requests(
    v: CustodyView,
    cx: SyncNetworkContext,
    now: Nanos,
    timestamp_now: Nanos,
    v1: CustodyView,
    cx1: SyncNetworkContext,
    r: CustodyByRangeRequestResult,
)
    requires
        custody_by_range::progresses(v, cx, now, timestamp_now, v1, cx1, r),
    ensures
        cx.network_send.sent().is_prefix_of(cx1.network_send.sent()),
        forall|k: int|
            cx.network_send.sent().len() <= k < cx1.network_send.sent().len() ==> (
            #[trigger] cx1.network_send.sent()[k]) is SendRequest,
{
}

/// Whether the message reports `peer` with the text `msg`.
pub open spec fn is_report(message: MessageView, peer: PeerId, msg: Seq<char>) -> bool {
    message == (MessageView::ReportPeer {
        peer_id: peer,
        action: PeerAction::MidToleranceError,
        source: ReportSource::SyncService,
        msg,
    })
}

/// Whether the response serves every requested column of every block.
pub open spec fn serves_request(
    received: Seq<DataColumnSidecar>,
    indices: Seq<ColumnIndex>,
    blocks: Seq<SignedBeaconBlockHeader>,
) -> bool {
    forall|c: ColumnIndex| #[trigger] indices.contains(c) ==> serves_all(received, c, blocks)
}

/// A peer that serves all that it was asked for is not reported and does not count as failed. One
/// that does not is reported first of all, and counts as failed: for a custody failure where it sent
/// no column of another block, and for a non-matching column where it left none out.
pub proof fn law_faulty_peer_is_reported(
    v0: CustodyView,
    cx0: SyncNetworkContext,
    peer: PeerId,
    req_id: DataColumnsByRangeRequestId,
    data_columns: Vec<DataColumnSidecar>,
    seen: Nanos,
    now: Nanos,
    timestamp_now: Nanos,
    v1: CustodyView,
    cx1: SyncNetworkContext,
    r: CustodyByRangeRequestResult,
)
    requires
        custody_by_range::download_step(
            v0,
            cx0,
            peer,
            req_id,
            Ok((data_columns, seen)),
            now,
            timestamp_now,
            v1,
            cx1,
            r,
        ),
        custody_by_range::expects(v0, req_id),
        cx0.network_send.is_open(),
        arrived_data_fits(v0.columns, v0.blocks),
        distinct_slots(v0.blocks),
        v0.batches[req_id.number()].indices.no_duplicates(),
        forall|k: int|
            0 <= k < v0.batches[req_id.number()].indices.len() ==> v0.columns.contains_key(
                #[trigger] v0.batches[req_id.number()].indices[k],
            ) && v0.columns[v0.batches[req_id.number()].indices[k]].status
                == StatusView::Downloading(req_id),
    ensures
        ({
            let indices = v0.batches[req_id.number()].indices;
            let old_len = cx0.network_send.sent().len();
            &&& cx0.network_send.sent().is_prefix_of(cx1.network_send.sent())
            &&& serves_request(data_columns@, indices, v0.blocks) ==> {
                &&& v1.failed == v0.failed
                &&& forall|k: int|
                    old_len <= k < cx1.network_send.sent().len() ==> (
                    #[trigger] cx1.network_send.sent()[k]) is SendRequest
            }
            &&& !serves_request(data_columns@, indices, v0.blocks) ==> {
                &&& v1.failed == v0.failed.insert(peer, now)
                &&& cx1.network_send.sent().len() > old_len
                &&& is_report(cx1.network_send.sent()[old_len as int], peer, "custody_failure"@)
                    || is_report(
                    cx1.network_send.sent()[old_len as int],
                    peer,
                    "non-matching data column"@,
                )
                &&& (forall|c: ColumnIndex| #[trigger]
                    indices.contains(c) ==> !mistakes_some(data_columns@, c, v0.blocks)) ==> is_report(
                    cx1.network_send.sent()[old_len as int],
                    peer,
                    "custody_failure"@,
                )
                &&& (forall|c: ColumnIndex| #[trigger]
                    indices.contains(c) ==> !lacks_some(data_columns@, c, v0.blocks)) ==> is_report(
                    cx1.network_send.sent()[old_len as int],
                    peer,
                    "non-matching data column"@,
                )
            }
            &&& !(custody_by_range::outcome(r) is Done) ==> forall|c: ColumnIndex|
                indices.contains(c) && serves_all(data_columns@, c, v0.blocks) ==> ((
                #[trigger] v1.columns[c]).status matches StatusView::Downloaded(p, data, t) && p == peer
                    && t == seen && fits(data, c, v0.blocks))
        }),
{
    let indices = v0.batches[req_id.number()].indices;
    let s = custody_by_range::imported(v0, indices, data_columns@, req_id, peer, seen);
    law_response_is_imported_column_by_column(v0, indices, data_columns@, req_id, peer, seen);
    let v = custody_by_range::after_import(v0, s, peer, now);
    let mid = choose|mid: SyncNetworkContext| #[trigger]
        custody_by_range::messages_sent(cx0, mid, custody_by_range::import_reports(s, peer))
            && custody_by_range::progresses(v, mid, now, timestamp_now, v1, cx1, r);
    lemma_progress_sends_requests(v, mid, now, timestamp_now, v1, cx1, r);
    lemma_imported_fits(v0, indices, data_columns@, req_id, peer, seen);
    law_progress_keeps_arrived_data(v, mid, now, timestamp_now, v1, cx1, r);
    let old_len = cx0.network_send.sent().len();
    let reports = custody_by_range::import_reports(s, peer);
    assert(mid.network_send.sent() =~= cx0.network_send.sent() + reports);
    assert(s.incorrect || s.missing <==> reports.len() > 0);
    if reports.len() > 0 {
        assert(cx1.network_send.sent()[old_len as int] == mid.network_send.sent()[old_len as int]);
        assert(mid.network_send.sent()[old_len as int] == reports[0]);
    }
    assert(serves_request(data_columns@, indices, v0.blocks) <==> !s.incorrect && !s.missing);
    assert forall|c: ColumnIndex|
        !(custody_by_range::outcome(r) is Done) && indices.contains(c) && serves_all(
            data_columns@,
            c,
            v0.blocks,
        ) implies #[trigger] v1.columns[c] == s.columns[c] by {
        let k = choose|k: int| 0 <= k < indices.len() && indices[k] == c;
        assert(v0.columns.contains_key(indices[k]));
        assert(s.columns.contains_key(c));
        lemma_progress_keeps_downloaded(v, mid, now, timestamp_now, v1, cx1, r, c);
    }
}

/// A step that does not complete the request leaves a column that has arrived as it is.
proof fn lemma_progress_keeps_downloaded(
    v: CustodyView,
    cx: SyncNetworkContext,
    now: Nanos,
    timestamp_now: Nanos,
    v1: CustodyView,
    cx1: SyncNetworkContext,
    r: CustodyByRangeRequestResult,
    c: ColumnIndex,
)
    requires
        custody_by_range::progresses(v, cx, now, timestamp_now, v1, cx1, r),
        !(custody_by_range::outcome(r) is Done),
        v.columns.contains_key(c),
        v.columns[c].status is Downloaded,
    ensures
        v1.columns[c] == v.columns[c],
{
    let (order, factors) = choose|order: Seq<ColumnIndex>, factors: Seq<Seq<u32>>|
        fnv_map::is_order(order, v.columns.dom()) && custody_by_range::factors_fit(cx, order, factors)
            && #[trigger] custody_by_range::progress(
            v,
            cx,
            order,
            factors,
            now,
            timestamp_now,
            v1,
            cx1,
            r,
        );
    if let Ok(batches) = custody_by_range::planned(v, cx, order, factors, now) {
        custody_laws::law_columns_go_to_their_custodians(v, cx, order, factors, now, batches);
        assert forall|i: int| 0 <= i < batches.len() implies !(#[trigger] batches[i]).columns.contains(c) by {
            if batches[i].columns.contains(c) {
                let j = choose|j: int| 0 <= j < batches[i].columns.len() && batches[i].columns[j] == c;
                assert(custody_laws::may_request(v, cx, now, batches[i].peer_id, batches[i].columns[j]));
            }
        }
        lemma_sends_keep(v, batches, batches.len(), cx.request_id, c);
    }
}

proof fn lemma_sends_keep(
    v: CustodyView,
    batches: Seq<custody_by_range::BatchView>,
    n: nat,
    first: u32,
    c: ColumnIndex,
)
    requires
        n <= batches.len(),
        v.columns.contains_key(c),
        forall|i: int| 0 <= i < batches.len() ==> !(#[trigger] batches[i]).columns.contains(c),
    ensures
        custody_by_range::after_sends(v, batches, n, first).columns.contains_key(c),
        custody_by_range::after_sends(v, batches, n, first).columns[c] == v.columns[c],
    decreases n,
{
    if n > 0 {
        lemma_sends_keep(v, batches, (n - 1) as nat, first, c);
        assert(!batches[n - 1].columns.contains(c));
    }
}

/// A peer whose response failed counts as failed.
pub proof fn law_failed_response_marks_the_peer(
    v0: CustodyView,
    cx0: SyncNetworkContext,
    peer: PeerId,
    req_id: DataColumnsByRangeRequestId,
    err: RpcResponseError,
    now: Nanos,
    timestamp_now: Nanos,
    v1: CustodyView,
    cx1: SyncNetworkContext,
    r: CustodyByRangeRequestResult,
    later: Nanos,
)
    requires
        custody_by_range::download_step(
            v0,
            cx0,
            peer,
            req_id,
            Err(err),
            now,
            timestamp_now,
            v1,
            cx1,
            r,
        ),
        custody_by_range::expects(v0, req_id),
        arrived_data_fits(v0.columns, v0.blocks),
        v0.batches[req_id.number()].indices.no_duplicates(),
        forall|k: int|
            0 <= k < v0.batches[req_id.number()].indices.len() ==> v0.columns.contains_key(
                #[trigger] v0.batches[req_id.number()].indices[k],
            ) && v0.columns[v0.batches[req_id.number()].indices[k]].status
                == StatusView::Downloading(req_id),
        later < now + 15 * 1_000_000_000,
    ensures
        custody_by_range::recently_failed(v1.failed, peer, later),
        v1.failed == v0.failed.insert(peer, now),
{
    let indices = v0.batches[req_id.number()].indices;
    law_failed_response_is_counted(v0.columns, indices, req_id, err);
    let (columns, error) = custody_by_range::all_failed(v0.columns, indices, req_id, err);
    lemma_all_failed_fits(v0.columns, v0.blocks, indices, req_id, err);
    let v = CustodyView { columns, failed: v0.failed.insert(peer, now), ..v0 };
    law_progress_keeps_arrived_data(v, cx0, now, timestamp_now, v1, cx1, r);
}

/// A custody request of the context that makes progress stays until it gives its answer, and what it
/// then answers with is complete; no other request is touched.
pub proof fn law_continued_request_stays_until_answered(
    cx0: SyncNetworkContext,
    number: u64,
    now: Nanos,
    timestamp_now: Nanos,
    cx1: SyncNetworkContext,
    r: Option<CustodyRequestResult>,
    other: u64,
)
    requires
        ({
            let m = network_context::custody_views(cx0.custody_by_range_requests@);
            m.contains_key(number) && arrived_data_fits(m[number].columns, m[number].blocks)
        }),
        responses::custody_continued(cx0, number, now, timestamp_now, cx1, r),
        other != number,
    ensures
        ({
            let m0 = network_context::custody_views(cx0.custody_by_range_requests@);
            let m1 = network_context::custody_views(cx1.custody_by_range_requests@);
            &&& r is None <==> m1.contains_key(number)
            &&& r is None ==> m1[number].id == m0[number].id && m1[number].blocks == m0[number].blocks
            &&& r matches Some(Ok((columns, _, _))) ==> is_complete(
                columns@,
                m0[number].columns.dom(),
                m0[number].blocks,
            )
            &&& m1.contains_key(other) <==> m0.contains_key(other)
            &&& m0.contains_key(other) ==> m1[other] == m0[other]
        }),
{
    let m0 = network_context::custody_views(cx0.custody_by_range_requests@);
    let v0 = m0[number];
    let (mid, v, cx, result) = choose|
        mid: SyncNetworkContext,
        v: CustodyView,
        cx: SyncNetworkContext,
        result: CustodyByRangeRequestResult,
    |
        {
            &&& responses::without_custody(cx0, number, mid)
            &&& #[trigger] custody_by_range::progresses(v0, mid, now, timestamp_now, v, cx, result)
            &&& responses::custody_settled(cx, number, v, result, cx1)
            &&& responses::is_custody_answer(result, r)
        };
    law_progress_keeps_arrived_data(v0, mid, now, timestamp_now, v, cx, result);
    assert(cx.custody_by_range_requests == mid.custody_by_range_requests);
    let m = network_context::custody_views(mid.custody_by_range_requests@);
    assert(m.contains_key(other) <==> m0.contains_key(other));
    if let Ok(Some((columns, peers, t))) = result {
        law_done_request_hands_out_all_columns(
            v0,
            mid,
            now,
            timestamp_now,
            v,
            cx,
            columns,
            peers,
            t,
        );
    }
}

/// Every custody request of the context makes progress, and what any of them answers with is returned
/// under its identifier.
pub proof fn law_every_custody_request_is_continued(
    cx0: SyncNetworkContext,
    order: Seq<u64>,
    trace: Seq<SyncNetworkContext>,
    given: Seq<Option<CustodyRequestResult>>,
    now: Nanos,
    timestamp_now: Nanos,
    cx1: SyncNetworkContext,
    r: Seq<(CustodyByRangeRequestId, CustodyRequestResult)>,
    number: u64,
) -> (i: int)
    requires
        responses::all_continued(cx0, order, trace, given, now, timestamp_now, cx1, r),
        network_context::custody_views(cx0.custody_by_range_requests@).contains_key(number),
    ensures
        0 <= i < given.len(),
        responses::custody_continued(trace[i], number, now, timestamp_now, trace[i + 1], given[i]),
        given[i] matches Some(answer) ==> r.contains(
            (network_context::custody_views(cx0.custody_by_range_requests@)[number].id, answer),
        ),
        trace[0] == cx0,
        trace.last() == cx1,
{
    let m = network_context::custody_views(cx0.custody_by_range_requests@);
    assert(m.dom().contains(number));
    assert(order.contains(number));
    let i = choose|i: int| 0 <= i < order.len() && order[i] == number;
    assert(responses::custody_continued(trace[i], order[i], now, timestamp_now, trace[i + 1], given[i]));
    lemma_answers_contain(m, order, given, i);
    i
}

proof fn lemma_answers_contain(
    m: Map<u64, CustodyView>,
    order: Seq<u64>,
    given: Seq<Option<CustodyRequestResult>>,
    i: int,
)
    requires
        0 <= i < given.len(),
    ensures
        given[i] matches Some(answer) ==> responses::answers(m, order, given).contains(
            (m[order[i]].id, answer),
        ),
    decreases given.len(),
{
    let short = given.drop_last();
    let earlier = responses::answers(m, order, short);
    let all = responses::answers(m, order, given);
    if let Some(answer) = given[i] {
        let entry = (m[order[i]].id, answer);
        if i < short.len() {
            lemma_answers_contain(m, order, short, i);
            assert(short[i] == given[i]);
            let k = choose|k: int| 0 <= k < earlier.len() && earlier[k] == entry;
            assert(all[k] == entry);
        } else {
            assert(all.last() == entry);
        }
    }
}

} // verus!
