//! What holds of custody requests as a whole.
use crate::sync::custody_by_range;
use crate::sync::custody_by_range::{
    BatchView, CustodyByRangeRequestResult, CustodyView, ImportView,
};
use crate::sync::errors::RpcResponseError;
use crate::sync::ids::DataColumnsByRangeRequestId;
use crate::sync::messages::{DataColumnSidecar, SignedBeaconBlockHeader};
use crate::sync::network_context::SyncNetworkContext;
use crate::sync::peer_choice;
use crate::types::{ColumnIndex, ColumnSlot, Nanos, PeerId};
use vstd::prelude::*;

verus! {

/// Whether `column` may be requested from `peer`: it waits for its download, the peer custodies it,
/// and the peer did not fail recently.
pub open spec fn may_request(
    v: CustodyView,
    cx: SyncNetworkContext,
    now: Nanos,
    peer: PeerId,
    column: ColumnIndex,
) -> bool {
    &&& v.columns[column].status is NotStarted
    &&& v.columns[column].failures.len() <= cx.max_column_failures
    &&& cx.network_globals.spec_custody_peers(column).contains(peer)
    &&& !custody_by_range::recently_failed(v.failed, peer, now)
}

proof fn lemma_candidates(
    v: CustodyView,
    cx: SyncNetworkContext,
    batches: Seq<BatchView>,
    peers: Seq<PeerId>,
    factors: Seq<u32>,
    now: Nanos,
)
    ensures
        forall|k: int|
            0 <= k < custody_by_range::candidates(v, cx, batches, peers, factors, now).len()
                ==> peers.contains(
                (#[trigger] custody_by_range::candidates(v, cx, batches, peers, factors, now)[k]).peer_id,
            ) && !custody_by_range::recently_failed(
                v.failed,
                custody_by_range::candidates(v, cx, batches, peers, factors, now)[k].peer_id,
                now,
            ),
    decreases peers.len(),
{
    if peers.len() > 0 {
        let short = peers.drop_last();
        lemma_candidates(v, cx, batches, short, factors, now);
        let earlier = custody_by_range::candidates(v, cx, batches, short, factors, now);
        let all = custody_by_range::candidates(v, cx, batches, peers, factors, now);
        assert forall|k: int| 0 <= k < all.len() implies peers.contains((#[trigger] all[k]).peer_id)
            && !custody_by_range::recently_failed(v.failed, all[k].peer_id, now) by {
            if k < earlier.len() {
                assert(all[k] == earlier[k]);
                let p = earlier[k].peer_id;
                assert(short.contains(p));
                let i = choose|i: int| 0 <= i < short.len() && short[i] == p;
                assert(peers[i] == p);
            } else {
                assert(all[k].peer_id == peers[peers.len() - 1]);
            }
        }
    }
}

/// Every column that is requested waits for its download and goes to a peer that custodies it and
/// did not fail recently, and no column is requested twice.
pub proof fn law_columns_go_to_their_custodians(
    v: CustodyView,
    cx: SyncNetworkContext,
    order: Seq<ColumnIndex>,
    factors: Seq<Seq<u32>>,
    now: Nanos,
    batches: Seq<BatchView>,
)
    requires
        order.no_duplicates(),
        custody_by_range::planned(v, cx, order, factors, now) == Ok::<
            Seq<BatchView>,
            RpcResponseError,
        >(batches),
    ensures
        forall|i: int, j: int|
            0 <= i < batches.len() && 0 <= j < batches[i].columns.len() ==> order.contains(
                #[trigger] batches[i].columns[j],
            ) && may_request(v, cx, now, batches[i].peer_id, batches[i].columns[j]),
        forall|i: int, j: int, k: int, l: int|
            0 <= i < batches.len() && 0 <= j < batches[i].columns.len() && 0 <= k < batches.len() && 0
                <= l < batches[k].columns.len() && #[trigger] batches[i].columns[j]
                == #[trigger] batches[k].columns[l] ==> i == k && j == l,
    decreases order.len(),
{
    if order.len() > 0 {
        let short = order.drop_last();
        let column = order.last();
        let earlier = custody_by_range::planned(v, cx, short, factors, now)->Ok_0;
        law_columns_go_to_their_custodians(v, cx, short, factors, now, earlier);
        assert forall|c: ColumnIndex| short.contains(c) implies order.contains(c) by {
            let i = choose|i: int| 0 <= i < short.len() && short[i] == c;
            assert(order[i] == c);
        }
        assert(!short.contains(column)) by {
            if short.contains(column) {
                let i = choose|i: int| 0 <= i < short.len() && short[i] == column;
                assert(order[i] == order[order.len() - 1]);
            }
        }
        assert(order.contains(column)) by {
            assert(order[order.len() - 1] == column);
        }
        let peers = cx.network_globals.spec_custody_peers(column);
        let ranks = custody_by_range::candidates(
            v,
            cx,
            earlier,
            peers,
            factors[order.len() - 1],
            now,
        );
        if v.columns[column].status is NotStarted && peer_choice::first_peer(ranks) is Some {
            let peer = peer_choice::first_peer(ranks)->0;
            peer_choice::law_chosen_peer_has_least_load(ranks, peer);
            lemma_candidates(v, cx, earlier, peers, factors[order.len() - 1], now);
            assert(may_request(v, cx, now, peer, column));
            let at = if custody_by_range::has_batch(earlier, peer) {
                choose|i: int| 0 <= i < earlier.len() && (#[trigger] earlier[i]).peer_id == peer
            } else {
                earlier.len() as int
            };
            let old_len = if at < earlier.len() {
                earlier[at].columns.len() as int
            } else {
                0
            };
            assert(batches == custody_by_range::with_column(earlier, peer, column));
            assert forall|i: int, j: int|
                0 <= i < batches.len() && 0 <= j < batches[i].columns.len() && !(i == at && j
                    == old_len) implies i < earlier.len() && j < earlier[i].columns.len()
                && #[trigger] batches[i].columns[j] == earlier[i].columns[j] && batches[i].peer_id
                == earlier[i].peer_id by {}
            assert(batches[at].columns[old_len] == column);
            assert forall|i: int, j: int|
                0 <= i < batches.len() && 0 <= j < batches[i].columns.len() implies order.contains(
                #[trigger] batches[i].columns[j],
            ) && may_request(v, cx, now, batches[i].peer_id, batches[i].columns[j]) by {
                if !(i == at && j == old_len) {
                    assert(batches[i].columns[j] == earlier[i].columns[j]);
                }
            }
            assert forall|i: int, j: int, k: int, l: int|
                0 <= i < batches.len() && 0 <= j < batches[i].columns.len() && 0 <= k < batches.len()
                    && 0 <= l < batches[k].columns.len() && #[trigger] batches[i].columns[j]
                    == #[trigger] batches[k].columns[l] implies i == k && j == l by {
                if !(i == at && j == old_len) {
                    assert(batches[i].columns[j] == earlier[i].columns[j]);
                    assert(short.contains(earlier[i].columns[j]));
                }
                if !(k == at && l == old_len) {
                    assert(batches[k].columns[l] == earlier[k].columns[l]);
                    assert(short.contains(earlier[k].columns[l]));
                }
            }
        } else {
            assert(batches == earlier);
        }
    }
}

/// A peer that failed is not asked again until the expiry time has passed.
pub proof fn law_failed_peer_is_not_asked(
    v: CustodyView,
    cx: SyncNetworkContext,
    order: Seq<ColumnIndex>,
    factors: Seq<Seq<u32>>,
    now: Nanos,
    batches: Seq<BatchView>,
    peer: PeerId,
)
    requires
        custody_by_range::recently_failed(v.failed, peer, now),
        custody_by_range::planned(v, cx, order, factors, now) == Ok::<
            Seq<BatchView>,
            RpcResponseError,
        >(batches),
    ensures
        !custody_by_range::has_batch(batches, peer),
    decreases order.len(),
{
    if order.len() > 0 {
        let short = order.drop_last();
        let column = order.last();
        let earlier = custody_by_range::planned(v, cx, short, factors, now)->Ok_0;
        law_failed_peer_is_not_asked(v, cx, short, factors, now, earlier, peer);
        let peers = cx.network_globals.spec_custody_peers(column);
        let ranks = custody_by_range::candidates(
            v,
            cx,
            earlier,
            peers,
            factors[order.len() - 1],
            now,
        );
        if v.columns[column].status is NotStarted && peer_choice::first_peer(ranks) is Some {
            let chosen = peer_choice::first_peer(ranks)->0;
            peer_choice::law_chosen_peer_has_least_load(ranks, chosen);
            lemma_candidates(v, cx, earlier, peers, factors[order.len() - 1], now);
            assert(chosen != peer);
            if custody_by_range::has_batch(batches, peer) {
                let i = choose|i: int| 0 <= i < batches.len() && (#[trigger] batches[i]).peer_id == peer;
                assert(earlier[i].peer_id == peer);
            }
        }
    }
}

/// A peer whose response was incomplete or wrong counts as failed from then on.
pub proof fn law_faulty_response_marks_the_peer(
    v: CustodyView,
    s: ImportView,
    peer: PeerId,
    now: Nanos,
    later: Nanos,
)
    requires
        s.incorrect || s.missing,
        later < now + custody_by_range::FAILED_PEERS_EXPIRY,
    ensures
        custody_by_range::recently_failed(
            custody_by_range::after_import(v, s, peer, now).failed,
            peer,
            later,
        ),
{
}

/// Whether every received column stands at its own place.
pub open spec fn well_placed(available: Map<ColumnSlot, DataColumnSidecar>) -> bool {
    forall|p: ColumnSlot| #[trigger]
        available.contains_key(p) ==> available[p].index == p.index && available[p].slot == p.slot
}

/// Received columns stand at their own places.
pub proof fn law_received_columns_are_well_placed(columns: Seq<DataColumnSidecar>)
    ensures
        well_placed(custody_by_range::by_place(columns)),
    decreases columns.len(),
{
    if columns.len() > 0 {
        law_received_columns_are_well_placed(columns.drop_last());
    }
}

/// The data that is accepted for a column has exactly one entry for each block, of that index, slot
/// and block root.
pub proof fn law_accepted_data_matches_the_blocks(
    available: Map<ColumnSlot, DataColumnSidecar>,
    index: ColumnIndex,
    blocks: Seq<SignedBeaconBlockHeader>,
)
    requires
        well_placed(available),
    ensures
        well_placed(custody_by_range::taken(available, index, blocks).0),
        custody_by_range::taken(available, index, blocks).1 matches Ok(data) ==> data.len()
            == blocks.len() && forall|i: int|
            0 <= i < blocks.len() ==> (#[trigger] data[i]).index == index && data[i].slot
                == blocks[i].slot && data[i].block_root == blocks[i].root,
    decreases blocks.len(),
{
    if blocks.len() > 0 {
        law_accepted_data_matches_the_blocks(available, index, blocks.drop_last());
        if let Ok(data) = custody_by_range::taken(available, index, blocks).1 {
            let earlier = custody_by_range::taken(available, index, blocks.drop_last()).1->Ok_0;
            assert forall|i: int| 0 <= i < blocks.len() implies (#[trigger] data[i]).index == index
                && data[i].slot == blocks[i].slot && data[i].block_root == blocks[i].root by {
                if i < blocks.len() - 1 {
                    assert(data[i] == earlier[i]);
                    assert(blocks.drop_last()[i] == blocks[i]);
                }
            }
        }
    }
}

/// A response never changes which columns the request has, and never touches one that has arrived.
pub proof fn law_arrived_columns_stay(
    v: CustodyView,
    indices: Seq<ColumnIndex>,
    received: Seq<DataColumnSidecar>,
    req_id: DataColumnsByRangeRequestId,
    peer: PeerId,
    seen: Nanos,
    column: ColumnIndex,
)
    requires
        v.columns.contains_key(column),
        v.columns[column].status is Downloaded,
    ensures
        custody_by_range::imported(v, indices, received, req_id, peer, seen).columns.dom()
            == v.columns.dom(),
        custody_by_range::imported(v, indices, received, req_id, peer, seen).columns[column]
            == v.columns[column],
    decreases indices.len(),
{
    if indices.len() > 0 {
        law_arrived_columns_stay(v, indices.drop_last(), received, req_id, peer, seen, column);
        assert(custody_by_range::imported(v, indices, received, req_id, peer, seen).columns.dom()
            =~= v.columns.dom());
    }
}

/// A request is done exactly when all its columns have arrived.
pub proof fn law_done_when_all_arrived(
    v: CustodyView,
    cx: SyncNetworkContext,
    now: Nanos,
    timestamp_now: Nanos,
    v1: CustodyView,
    cx1: SyncNetworkContext,
    r: CustodyByRangeRequestResult,
)
    requires
        custody_by_range::progresses(v, cx, now, timestamp_now, v1, cx1, r),
    ensures
        custody_by_range::outcome(r) is Done <==> custody_by_range::all_downloaded(v.columns),
{
}

} // verus!
