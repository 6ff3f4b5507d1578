//! Which peer each column of a custody request is asked from.
use crate::fnv_map;
use crate::sync::column_request::StatusView;
use crate::sync::custody_by_range;
use crate::sync::custody_by_range::{
    BatchView, CustodyByRangeRequestResult, CustodyErrorView, CustodyOutcome, CustodyView,
    SentBatchView,
};
use crate::sync::custody_laws;
use crate::sync::errors::RpcResponseError;
use crate::sync::ids::RequestId;
use crate::sync::messages::{AppRequestId, MessageView, RequestView};
use crate::sync::network_context;
use crate::sync::network_context::SyncNetworkContext;
use crate::sync::peer_choice;
use crate::sync::peer_choice::PeerRank;
use crate::types::{ColumnIndex, Nanos, PeerId};
use vstd::prelude::*;

verus! {

/// Whether `peer` is left alone: it failed less than 15 seconds ago.
pub open spec fn rests(failed: Map<PeerId, Nanos>, peer: PeerId, now: Nanos) -> bool {
    failed.contains_key(peer) && now < failed[peer] + 15 * 1_000_000_000
}

/// Whether `column` can be asked from `peer`: the peer custodies it and is not left alone.
pub open spec fn can_ask(
    v: CustodyView,
    cx: SyncNetworkContext,
    now: Nanos,
    peer: PeerId,
    column: ColumnIndex,
) -> bool {
    cx.network_globals.spec_custody_peers(column).contains(peer)
        && !rests(v.failed, peer, now)
}

/// Whether `column` is in one of the batches.
pub open spec fn is_planned(batches: Seq<BatchView>, column: ColumnIndex) -> bool {
    exists|i: int, j: int|
        0 <= i < batches.len() && 0 <= j < batches[i].columns.len() && #[trigger] batches[i].columns[j]
            == column
}

/// Whether no peer has as many requests as can be counted.
pub open spec fn loads_can_be_counted(cx: SyncNetworkContext) -> bool {
    forall|peer: PeerId| #[trigger] cx.load_of(peer) < u128::MAX
}

/// Whether the column at position `j` of batch `i` goes to a best peer: one that claims to have the
/// blocks where there is such a peer, and among those that are alike in this, one that has no more
/// requests than another even when the batch counts as one. A second column goes to the same peer
/// only where a peer without a batch would have more requests.
pub open spec fn goes_to_a_best_peer(
    v: CustodyView,
    cx: SyncNetworkContext,
    now: Nanos,
    batches: Seq<BatchView>,
    i: int,
    j: int,
) -> bool {
    let chosen = batches[i].peer_id;
    forall|other: PeerId| #[trigger]
        can_ask(v, cx, now, other, batches[i].columns[j]) ==> {
            &&& v.lookup_peers.contains(other) ==> v.lookup_peers.contains(chosen)
            &&& v.lookup_peers.contains(other) == v.lookup_peers.contains(chosen) ==> {
                &&& cx.load_of(chosen) <= cx.load_of(other) + 1
                &&& !custody_by_range::has_batch(batches, other) && j == 0 ==> cx.load_of(chosen)
                    <= cx.load_of(other)
                &&& !custody_by_range::has_batch(batches, other) && j > 0 ==> cx.load_of(chosen) + 1
                    <= cx.load_of(other)
            }
        }
}

spec fn rank_of(
    v: CustodyView,
    cx: SyncNetworkContext,
    batches: Seq<BatchView>,
    rank: PeerRank,
) -> bool {
    &&& rank.held_back == !v.lookup_peers.contains(rank.peer_id)
    &&& rank.load == cx.load_of(rank.peer_id) + (if custody_by_range::has_batch(batches, rank.peer_id) {
        1int
    } else {
        0int
    })
}

spec fn is_ranked(ranks: Seq<PeerRank>, peer: PeerId) -> bool {
    exists|k: int| 0 <= k < ranks.len() && (#[trigger] ranks[k]).peer_id == peer
}

proof fn lemma_ranks(
    v: CustodyView,
    cx: SyncNetworkContext,
    batches: Seq<BatchView>,
    peers: Seq<PeerId>,
    factors: Seq<u32>,
    now: Nanos,
)
    requires
        loads_can_be_counted(cx),
    ensures
        ({
            let ranks = custody_by_range::candidates(v, cx, batches, peers, factors, now);
            &&& forall|k: int|
                0 <= k < ranks.len() ==> rank_of(v, cx, batches, #[trigger] ranks[k])
                    && peers.contains(ranks[k].peer_id) && !custody_by_range::recently_failed(
                    v.failed,
                    ranks[k].peer_id,
                    now,
                )
            &&& forall|peer: PeerId|
                peers.contains(peer) && !custody_by_range::recently_failed(v.failed, peer, now)
                    ==> #[trigger] is_ranked(ranks, peer)
        }),
    decreases peers.len(),
{
    if peers.len() > 0 {
        let short = peers.drop_last();
        let n = peers.len() - 1;
        lemma_ranks(v, cx, batches, short, factors, now);
        let earlier = custody_by_range::candidates(v, cx, batches, short, factors, now);
        let ranks = custody_by_range::candidates(v, cx, batches, peers, factors, now);
        assert(cx.load_of(peers[n]) < u128::MAX);
        assert forall|k: int| 0 <= k < ranks.len() implies rank_of(v, cx, batches, #[trigger] ranks[k])
            && peers.contains(ranks[k].peer_id) && !custody_by_range::recently_failed(
            v.failed,
            ranks[k].peer_id,
            now,
        ) by {
            if k < earlier.len() {
                assert(ranks[k] == earlier[k]);
                let x = choose|x: int| 0 <= x < short.len() && short[x] == earlier[k].peer_id;
                assert(peers[x] == earlier[k].peer_id);
            } else {
                assert(ranks[k].peer_id == peers[n]);
            }
        }
        assert forall|peer: PeerId|
            peers.contains(peer) && !custody_by_range::recently_failed(v.failed, peer, now) implies #[trigger] is_ranked(
        ranks, peer) by {
            let x = choose|x: int| 0 <= x < peers.len() && peers[x] == peer;
            if x < n {
                assert(short[x] == peer);
                assert(is_ranked(earlier, peer));
                let k = choose|k: int| 0 <= k < earlier.len() && (#[trigger] earlier[k]).peer_id == peer;
                assert(ranks[k] == earlier[k]);
            } else {
                assert(ranks[earlier.len() as int].peer_id == peer);
            }
        }
    }
}

/// Whether no peer has two batches, and no batch is empty.
pub open spec fn one_batch_per_peer(batches: Seq<BatchView>) -> bool {
    &&& forall|i: int, j: int|
        0 <= i < j < batches.len() ==> (#[trigger] batches[i]).peer_id != (
        #[trigger] batches[j]).peer_id
    &&& forall|i: int| 0 <= i < batches.len() ==> (#[trigger] batches[i]).columns.len() > 0
}

/// Whether the batches are a good plan for the columns of `order`: every column that waits for its
/// download and can be asked from some peer is planned, each goes to a best peer, and no peer gets
/// two batches.
pub open spec fn is_good_plan(
    v: CustodyView,
    cx: SyncNetworkContext,
    order: Seq<ColumnIndex>,
    now: Nanos,
    batches: Seq<BatchView>,
) -> bool {
    &&& one_batch_per_peer(batches)
    &&& forall|i: int, j: int|
        0 <= i < batches.len() && 0 <= j < batches[i].columns.len() ==> #[trigger] goes_to_a_best_peer(
            v,
            cx,
            now,
            batches,
            i,
            j,
        )
    &&& forall|k: int, peer: PeerId|
        0 <= k < order.len() && v.columns[order[k]].status is NotStarted && #[trigger] can_ask(
            v,
            cx,
            now,
            peer,
            order[k],
        ) ==> is_planned(batches, order[k])
}

/// The plan of a custody request asks for every column that waits for its download and that some
/// peer can be asked for, each from a best peer, with one batch for each peer.
pub proof fn law_waiting_columns_are_planned(
    v: CustodyView,
    cx: SyncNetworkContext,
    order: Seq<ColumnIndex>,
    factors: Seq<Seq<u32>>,
    now: Nanos,
    batches: Seq<BatchView>,
)
    requires
        loads_can_be_counted(cx),
        custody_by_range::planned(v, cx, order, factors, now) == Ok::<
            Seq<BatchView>,
            RpcResponseError,
        >(batches),
    ensures
        is_good_plan(v, cx, order, now, batches),
    decreases order.len(),
{
    if order.len() > 0 {
        let short = order.drop_last();
        let n = order.len() - 1;
        let column = order[n];
        let earlier = custody_by_range::planned(v, cx, short, factors, now)->Ok_0;
        law_waiting_columns_are_planned(v, cx, short, factors, now, earlier);
        let peers = cx.network_globals.spec_custody_peers(column);
        let ranks = custody_by_range::candidates(v, cx, earlier, peers, factors[n], now);
        lemma_ranks(v, cx, earlier, peers, factors[n], now);
        let waits = v.columns[column].status is NotStarted;
        if waits && peer_choice::first_peer(ranks) is Some {
            let chosen = peer_choice::first_peer(ranks)->0;
            peer_choice::law_chosen_peer_has_least_load(ranks, chosen);
            let at = if custody_by_range::has_batch(earlier, chosen) {
                choose|i: int| 0 <= i < earlier.len() && (#[trigger] earlier[i]).peer_id == chosen
            } else {
                earlier.len() as int
            };
            let old_len = if at < earlier.len() {
                earlier[at].columns.len() as int
            } else {
                0
            };
            assert(batches == custody_by_range::with_column(earlier, chosen, column));
            assert(batches[at].columns[old_len] == column);
            assert(batches[at].peer_id == chosen);
            assert forall|peer: PeerId| custody_by_range::has_batch(earlier, peer) implies custody_by_range::has_batch(
            batches, peer) by {
                let i = choose|i: int| 0 <= i < earlier.len() && (#[trigger] earlier[i]).peer_id == peer;
                assert(batches[i].peer_id == peer);
            }
            assert forall|i: int, j: int|
                0 <= i < batches.len() && 0 <= j < batches[i].columns.len() implies #[trigger] goes_to_a_best_peer(
            v, cx, now, batches, i, j) by {
                if i == at && j == old_len {
                    let b = choose|b: int|
                        #![trigger ranks[b]]
                        0 <= b < ranks.len() && ranks[b].peer_id == chosen && forall|k: int|
                            0 <= k < ranks.len() ==> (ranks[b].held_back ==> (
                            #[trigger] ranks[k]).held_back) && (ranks[k].held_back == ranks[b].held_back
                                ==> ranks[b].load <= ranks[k].load);
                    assert forall|other: PeerId| #[trigger]
                        can_ask(v, cx, now, other, batches[i].columns[j]) implies {
                        &&& v.lookup_peers.contains(other) ==> v.lookup_peers.contains(chosen)
                        &&& v.lookup_peers.contains(other) == v.lookup_peers.contains(chosen) ==> {
                            &&& cx.load_of(chosen) <= cx.load_of(other) + 1
                            &&& !custody_by_range::has_batch(batches, other) && j == 0 ==> cx.load_of(
                                chosen,
                            ) <= cx.load_of(other)
                            &&& !custody_by_range::has_batch(batches, other) && j > 0 ==> cx.load_of(
                                chosen,
                            ) + 1 <= cx.load_of(other)
                        }
                    } by {
                        assert(is_ranked(ranks, other));
                        let k = choose|k: int|
                            0 <= k < ranks.len() && (#[trigger] ranks[k]).peer_id == other;
                        assert(rank_of(v, cx, earlier, ranks[k]));
                        assert(rank_of(v, cx, earlier, ranks[b]));
                    }
                } else {
                    assert(i < earlier.len() && j < earlier[i].columns.len());
                    assert(batches[i].columns[j] == earlier[i].columns[j]);
                    assert(batches[i].peer_id == earlier[i].peer_id);
                    assert(goes_to_a_best_peer(v, cx, now, earlier, i, j));
                    assert forall|other: PeerId| #[trigger]
                        can_ask(v, cx, now, other, batches[i].columns[j]) implies can_ask(
                        v,
                        cx,
                        now,
                        other,
                        earlier[i].columns[j],
                    ) by {}
                }
            }
            assert forall|k: int, peer: PeerId|
                0 <= k < order.len() && v.columns[order[k]].status is NotStarted && #[trigger] can_ask(
                    v,
                    cx,
                    now,
                    peer,
                    order[k],
                ) implies is_planned(batches, order[k]) by {
                if k < n {
                    assert(short[k] == order[k]);
                    assert(can_ask(v, cx, now, peer, short[k]));
                    let (i, j) = choose|i: int, j: int|
                        0 <= i < earlier.len() && 0 <= j < earlier[i].columns.len()
                            && #[trigger] earlier[i].columns[j] == order[k];
                    assert(batches[i].columns[j] == order[k]);
                } else {
                    assert(batches[at].columns[old_len] == order[k]);
                }
            }
            assert(one_batch_per_peer(batches)) by {
                assert forall|i: int, j: int| 0 <= i < j < batches.len() implies (
                #[trigger] batches[i]).peer_id != (#[trigger] batches[j]).peer_id by {
                    assert(i < earlier.len());
                    if j < earlier.len() {
                        assert(earlier[i].peer_id != earlier[j].peer_id);
                    } else {
                        assert(earlier[i].peer_id == batches[i].peer_id);
                    }
                }
            }
        } else {
            assert(batches == earlier);
            assert forall|k: int, peer: PeerId|
                0 <= k < order.len() && v.columns[order[k]].status is NotStarted && #[trigger] can_ask(
                    v,
                    cx,
                    now,
                    peer,
                    order[k],
                ) implies is_planned(batches, order[k]) by {
                if k < n {
                    assert(short[k] == order[k]);
                    assert(can_ask(v, cx, now, peer, short[k]));
                } else {
                    assert(is_ranked(ranks, peer));
                }
            }
        }
    }
}

/// A column that failed too often fails the request: with the last failure of such a column, and
/// only where there is one that waits for its download.
pub proof fn law_plan_fails_where_a_column_failed_too_often(
    v: CustodyView,
    cx: SyncNetworkContext,
    order: Seq<ColumnIndex>,
    factors: Seq<Seq<u32>>,
    now: Nanos,
)
    ensures
        custody_by_range::planned(v, cx, order, factors, now) is Err <==> exists|k: int|
            0 <= k < order.len() && v.columns[#[trigger] order[k]].status is NotStarted
                && v.columns[order[k]].failures.len() > cx.max_column_failures,
        custody_by_range::planned(v, cx, order, factors, now) matches Err(e) ==> exists|k: int|
            0 <= k < order.len() && v.columns[#[trigger] order[k]].status is NotStarted
                && v.columns[order[k]].failures.len() > cx.max_column_failures
                && v.columns[order[k]].failures.last() == e,
    decreases order.len(),
{
    if order.len() > 0 {
        let short = order.drop_last();
        let n = order.len() - 1;
        law_plan_fails_where_a_column_failed_too_often(v, cx, short, factors, now);
        let too_often = |c: ColumnIndex|
            v.columns[c].status is NotStarted && v.columns[c].failures.len() > cx.max_column_failures;
        if let Err(e) = custody_by_range::planned(v, cx, order, factors, now) {
            if custody_by_range::planned(v, cx, short, factors, now) is Err {
                let k = choose|k: int|
                    0 <= k < short.len() && v.columns[#[trigger] short[k]].status is NotStarted
                        && v.columns[short[k]].failures.len() > cx.max_column_failures
                        && v.columns[short[k]].failures.last() == e;
                assert(order[k] == short[k]);
            } else {
                assert(too_often(order[n]));
            }
        }
        if exists|k: int|
            0 <= k < order.len() && v.columns[#[trigger] order[k]].status is NotStarted
                && v.columns[order[k]].failures.len() > cx.max_column_failures {
            let k = choose|k: int|
                0 <= k < order.len() && v.columns[#[trigger] order[k]].status is NotStarted
                    && v.columns[order[k]].failures.len() > cx.max_column_failures;
            if k < n {
                assert(short[k] == order[k]);
            }
        }
    }
}

/// Whether no column is in two of the batches or twice in one.
spec fn planned_once(batches: Seq<BatchView>) -> bool {
    forall|i: int, j: int, k: int, l: int|
        0 <= i < batches.len() && 0 <= j < batches[i].columns.len() && 0 <= k < batches.len() && 0 <= l
            < batches[k].columns.len() && #[trigger] batches[i].columns[j]
            == #[trigger] batches[k].columns[l] ==> i == k && j == l
}

spec fn is_in_first(batches: Seq<BatchView>, n: int, c: ColumnIndex) -> bool {
    exists|i: int, j: int|
        0 <= i < n && 0 <= j < batches[i].columns.len() && #[trigger] batches[i].columns[j] == c
}

proof fn lemma_sends(v: CustodyView, batches: Seq<BatchView>, n: nat, first: u32)
    requires
        n <= batches.len(),
        first + batches.len() <= u32::MAX,
        planned_once(batches),
        forall|i: int, j: int|
            0 <= i < batches.len() && 0 <= j < batches[i].columns.len() ==> v.columns.contains_key(
                #[trigger] batches[i].columns[j],
            ),
    ensures
        ({
            let after = custody_by_range::after_sends(v, batches, n, first);
            &&& after.columns.dom() == v.columns.dom()
            &&& forall|i: int, j: int|
                0 <= i < n && 0 <= j < batches[i].columns.len() ==> after.columns[#[trigger] batches[i].columns[j]].status
                    == StatusView::Downloading(custody_by_range::batch_id(first, i, v.id))
            &&& forall|c: ColumnIndex|
                v.columns.contains_key(c) && !is_in_first(batches, n as int, c)
                    ==> #[trigger] after.columns[c] == v.columns[c]
            &&& forall|c: ColumnIndex|
                v.columns.contains_key(c) ==> (#[trigger] after.columns[c]).failures
                    == v.columns[c].failures
            &&& forall|i: int|
                0 <= i < n ==> {
                    let id = custody_by_range::batch_id(first, i, v.id);
                    after.batches.contains_key(id.number()) && after.batches[id.number()]
                        == (SentBatchView { id, indices: (#[trigger] batches[i]).columns })
                }
        }),
    decreases n,
{
    if n > 0 {
        let m = (n - 1) as nat;
        lemma_sends(v, batches, m, first);
        let before = custody_by_range::after_sends(v, batches, m, first);
        let after = custody_by_range::after_sends(v, batches, n, first);
        let id = custody_by_range::batch_id(first, m as int, v.id);
        let list = batches[m as int].columns;
        lemma_sends_id(v, batches, m, first);
        assert(after.columns.dom() =~= v.columns.dom());
        assert forall|i: int, j: int| 0 <= i < n && 0 <= j < batches[i].columns.len() implies after.columns[#[trigger] batches[i].columns[j]].status
            == StatusView::Downloading(custody_by_range::batch_id(first, i, v.id)) by {
            let c = batches[i].columns[j];
            assert(before.columns.contains_key(c));
            if i == m {
                assert(list.contains(c));
            } else {
                assert(!list.contains(c)) by {
                    if list.contains(c) {
                        let l = choose|l: int| 0 <= l < list.len() && list[l] == c;
                        assert(batches[m as int].columns[l] == batches[i].columns[j]);
                    }
                }
            }
        }
        assert forall|c: ColumnIndex|
            v.columns.contains_key(c) && !is_in_first(batches, n as int, c) implies #[trigger] after.columns[c]
            == v.columns[c] by {
            assert(!is_in_first(batches, m as int, c)) by {
                if is_in_first(batches, m as int, c) {
                    let (i, j) = choose|i: int, j: int|
                        0 <= i < m && 0 <= j < batches[i].columns.len()
                            && #[trigger] batches[i].columns[j] == c;
                    assert(batches[i].columns[j] == c && i < n);
                }
            }
            assert(!list.contains(c)) by {
                if list.contains(c) {
                    let l = choose|l: int| 0 <= l < list.len() && list[l] == c;
                    assert(batches[m as int].columns[l] == c);
                }
            }
            assert(before.columns.contains_key(c));
        }
        assert forall|c: ColumnIndex| v.columns.contains_key(c) implies (
        #[trigger] after.columns[c]).failures == v.columns[c].failures by {
            assert(before.columns.contains_key(c));
        }
    }
}

proof fn lemma_sends_id(v: CustodyView, batches: Seq<BatchView>, n: nat, first: u32)
    ensures
        custody_by_range::after_sends(v, batches, n, first).id == v.id,
    decreases n,
{
    if n > 0 {
        lemma_sends_id(v, batches, (n - 1) as nat, first);
    }
}

/// Whether column `c` was asked for in the step from `cx` to `cx1`: a new message asks a peer that
/// can be asked for it, the request is active there, and the response is waited for.
pub open spec fn is_asked_for(
    v: CustodyView,
    cx: SyncNetworkContext,
    now: Nanos,
    v1: CustodyView,
    cx1: SyncNetworkContext,
    c: ColumnIndex,
    k: int,
) -> bool {
    &&& cx.network_send.sent().len() <= k < cx1.network_send.sent().len()
    &&& cx1.network_send.sent()[k] matches MessageView::SendRequest {
        peer_id,
        request: RequestView::DataColumnsByRange { start_slot, count, columns },
        app_request_id: AppRequestId::Sync(crate::sync::ids::SyncRequestId::DataColumnsByRange(id)),
    } && {
        &&& can_ask(v, cx, now, peer_id, c)
        &&& columns.contains(c)
        &&& start_slot == v.request.start_slot
        &&& count == v.request.count
        &&& id.parent_request_id == v.id
        &&& v1.columns[c].status == StatusView::Downloading(id)
        &&& custody_by_range::expects(v1, id)
        &&& v1.batches[id.number()].indices == columns
    }
}

/// Whether the message at position `k` asks for a column that waited for its download.
pub open spec fn asks_for_a_waiting_column(
    v: CustodyView,
    cx: SyncNetworkContext,
    now: Nanos,
    v1: CustodyView,
    cx1: SyncNetworkContext,
    k: int,
) -> bool {
    exists|c: ColumnIndex|
        v.columns.contains_key(c) && v.columns[c].status is NotStarted && #[trigger] is_asked_for(
            v,
            cx,
            now,
            v1,
            cx1,
            c,
            k,
        )
}

/// A step of a request that is not done yet asks, where the channel is open and no column failed too
/// often, for every column that waits for its download and that some peer can be asked for. All
/// other columns stay as they are, and every new message asks for a column.
pub proof fn law_step_asks_for_waiting_columns(
    v: CustodyView,
    cx: SyncNetworkContext,
    now: Nanos,
    timestamp_now: Nanos,
    v1: CustodyView,
    cx1: SyncNetworkContext,
    r: CustodyByRangeRequestResult,
)
    requires
        custody_by_range::progresses(v, cx, now, timestamp_now, v1, cx1, r),
        exists|c: ColumnIndex| #[trigger]
            v.columns.contains_key(c) && !(v.columns[c].status is Downloaded),
        forall|c: ColumnIndex| #[trigger]
            v.columns.contains_key(c) && v.columns[c].status is NotStarted
                ==> v.columns[c].failures.len() <= cx.max_column_failures,
        cx.network_send.is_open(),
        cx.has_ids(v.columns.len() as int),
        loads_can_be_counted(cx),
    ensures
        forall|c: ColumnIndex, peer: PeerId|
            v.columns.contains_key(c) && v.columns[c].status is NotStarted && #[trigger] can_ask(
                v,
                cx,
                now,
                peer,
                c,
            ) ==> v1.columns[c].status is Downloading,
        forall|c: ColumnIndex|
            v.columns.contains_key(c) && !(#[trigger] v.columns[c].status is NotStarted)
                ==> v1.columns[c] == v.columns[c],
        forall|c: ColumnIndex|
            v.columns.contains_key(c) && v.columns[c].status is NotStarted && (
            #[trigger] v1.columns[c]).status is Downloading ==> exists|k: int| #[trigger]
                is_asked_for(v, cx, now, v1, cx1, c, k),
        forall|k: int|
            cx.network_send.sent().len() <= k < cx1.network_send.sent().len()
                ==> #[trigger] asks_for_a_waiting_column(v, cx, now, v1, cx1, k),
        cx.network_send.sent().is_prefix_of(cx1.network_send.sent()),
{
    let (order, factors) = choose|order: Seq<ColumnIndex>, factors: Seq<Seq<u32>>|
        fnv_map::is_order(order, v.columns.dom()) && custody_by_range::factors_fit(cx, order, factors)
            && #[trigger] custody_by_range::progress(
            v,
            cx,
            order,
            factors,
            now,
            timestamp_now,
            v1,
            cx1,
            r,
        );
    fnv_map::lemma_order_len(order, v.columns.dom());
    law_plan_fails_where_a_column_failed_too_often(v, cx, order, factors, now);
    assert(custody_by_range::planned(v, cx, order, factors, now) is Ok) by {
        if custody_by_range::planned(v, cx, order, factors, now) is Err {
            let k = choose|k: int|
                0 <= k < order.len() && v.columns[#[trigger] order[k]].status is NotStarted
                    && v.columns[order[k]].failures.len() > cx.max_column_failures;
            assert(order.contains(order[k]));
            assert(v.columns.contains_key(order[k]));
        }
    }
    let batches = custody_by_range::planned(v, cx, order, factors, now)->Ok_0;
    law_waiting_columns_are_planned(v, cx, order, factors, now, batches);
    custody_laws::law_columns_go_to_their_custodians(v, cx, order, factors, now, batches);
    lemma_plan_len(v, cx, order, factors, now);
    assert forall|i: int, j: int|
        0 <= i < batches.len() && 0 <= j < batches[i].columns.len() implies v.columns.contains_key(
        #[trigger] batches[i].columns[j],
    ) by {
        assert(order.contains(batches[i].columns[j]));
    }
    lemma_sends(v, batches, batches.len(), cx.request_id);
    let old_len = cx.network_send.sent().len();
    assert forall|i: int, j: int|
        0 <= i < batches.len() && 0 <= j < batches[i].columns.len() implies is_asked_for(
        v,
        cx,
        now,
        v1,
        cx1,
        #[trigger] batches[i].columns[j],
        old_len + i,
    ) by {
        let c = batches[i].columns[j];
        let id = custody_by_range::batch_id(cx.request_id, i, v.id);
        assert(cx1.network_send.sent()[old_len + i] == network_context::columns_message(
            batches[i],
            id,
            v.request,
        ));
        assert(custody_laws::may_request(v, cx, now, batches[i].peer_id, c));
        assert(batches[i].columns.contains(c));
        assert(v1.batches[id.number()] == (SentBatchView { id, indices: batches[i].columns }));
    }
    assert forall|c: ColumnIndex, peer: PeerId|
        v.columns.contains_key(c) && v.columns[c].status is NotStarted && #[trigger] can_ask(
            v,
            cx,
            now,
            peer,
            c,
        ) implies v1.columns[c].status is Downloading by {
        assert(order.contains(c));
        let k = choose|k: int| 0 <= k < order.len() && order[k] == c;
        assert(can_ask(v, cx, now, peer, order[k]));
        let (i, j) = choose|i: int, j: int|
            0 <= i < batches.len() && 0 <= j < batches[i].columns.len()
                && #[trigger] batches[i].columns[j] == c;
        assert(v1.columns[batches[i].columns[j]].status is Downloading);
    }
    assert forall|c: ColumnIndex|
        v.columns.contains_key(c) && !(#[trigger] v.columns[c].status is NotStarted) implies v1.columns[c]
        == v.columns[c] by {
        if is_in_first(batches, batches.len() as int, c) {
            let (i, j) = choose|i: int, j: int|
                0 <= i < batches.len() && 0 <= j < batches[i].columns.len()
                    && #[trigger] batches[i].columns[j] == c;
            assert(custody_laws::may_request(v, cx, now, batches[i].peer_id, batches[i].columns[j]));
        }
        assert(v1.columns[c] == v.columns[c]);
    }
    assert forall|c: ColumnIndex|
        v.columns.contains_key(c) && v.columns[c].status is NotStarted && (
        #[trigger] v1.columns[c]).status is Downloading implies exists|k: int| #[trigger]
        is_asked_for(v, cx, now, v1, cx1, c, k) by {
        if is_in_first(batches, batches.len() as int, c) {
            let (i, j) = choose|i: int, j: int|
                0 <= i < batches.len() && 0 <= j < batches[i].columns.len()
                    && #[trigger] batches[i].columns[j] == c;
            assert(is_asked_for(v, cx, now, v1, cx1, batches[i].columns[j], old_len + i));
        }
    }
    assert forall|k: int| old_len <= k < cx1.network_send.sent().len() implies #[trigger] asks_for_a_waiting_column(
    v, cx, now, v1, cx1, k) by {
        let i = k - old_len;
        assert(batches[i].columns.len() > 0);
        let c = batches[i].columns[0];
        assert(is_asked_for(v, cx, now, v1, cx1, batches[i].columns[0], old_len + i));
        assert(custody_laws::may_request(v, cx, now, batches[i].peer_id, batches[i].columns[0]));
    }
}

proof fn lemma_plan_len(
    v: CustodyView,
    cx: SyncNetworkContext,
    order: Seq<ColumnIndex>,
    factors: Seq<Seq<u32>>,
    now: Nanos,
)
    ensures
        custody_by_range::planned(v, cx, order, factors, now) matches Ok(batches) ==> batches.len()
            <= order.len(),
    decreases order.len(),
{
    if order.len() > 0 {
        lemma_plan_len(v, cx, order.drop_last(), factors, now);
    }
}

/// When a step ends a request without its columns: a column that waits for its download failed too
/// often; or there is something to send and the channel is closed; or the request is older than
/// five minutes and waits for no response. An expired request names the columns that it waits for.
pub proof fn law_when_a_request_fails(
    v: CustodyView,
    cx: SyncNetworkContext,
    now: Nanos,
    timestamp_now: Nanos,
    v1: CustodyView,
    cx1: SyncNetworkContext,
    r: CustodyByRangeRequestResult,
)
    requires
        custody_by_range::progresses(v, cx, now, timestamp_now, v1, cx1, r),
    ensures
        custody_by_range::outcome(r) matches CustodyOutcome::Failed(
            CustodyErrorView::TooManyDownloadErrors(e),
        ) ==> exists|c: ColumnIndex| #[trigger]
            v.columns.contains_key(c) && v.columns[c].status is NotStarted && v.columns[c].failures.len()
                > cx.max_column_failures && v.columns[c].failures.last() == e,
        (exists|c: ColumnIndex| #[trigger]
            v.columns.contains_key(c) && v.columns[c].status is NotStarted && v.columns[c].failures.len()
                > cx.max_column_failures) ==> (custody_by_range::outcome(r) matches CustodyOutcome::Failed(
            e,
        ) && e is TooManyDownloadErrors),
        custody_by_range::outcome(r) matches CustodyOutcome::Failed(CustodyErrorView::Internal(_))
            ==> !cx.network_send.is_open(),
        custody_by_range::outcome(r) matches CustodyOutcome::Failed(
            CustodyErrorView::ExpiredNoCustodyPeers(waiting),
        ) ==> {
            &&& now > v.start_time + 300 * 1_000_000_000
            &&& forall|c: ColumnIndex| #[trigger]
                v1.columns.contains_key(c) ==> !(v1.columns[c].status is Downloading)
            &&& forall|c: ColumnIndex| #[trigger]
                waiting.contains(c) <==> v1.columns.contains_key(c) && v1.columns[c].status is NotStarted
            &&& waiting.no_duplicates()
        },
        custody_by_range::outcome(r) is Active ==> {
            ||| now <= v.start_time + 300 * 1_000_000_000
            ||| exists|c: ColumnIndex| #[trigger]
                v1.columns.contains_key(c) && v1.columns[c].status is Downloading
        },
{
    let (order, factors) = choose|order: Seq<ColumnIndex>, factors: Seq<Seq<u32>>|
        fnv_map::is_order(order, v.columns.dom()) && custody_by_range::factors_fit(cx, order, factors)
            && #[trigger] custody_by_range::progress(
            v,
            cx,
            order,
            factors,
            now,
            timestamp_now,
            v1,
            cx1,
            r,
        );
    law_plan_fails_where_a_column_failed_too_often(v, cx, order, factors, now);
    if custody_by_range::planned(v, cx, order, factors, now) is Err && !custody_by_range::all_downloaded(
        v.columns,
    ) {
        let e = custody_by_range::planned(v, cx, order, factors, now)->Err_0;
        let k = choose|k: int|
            0 <= k < order.len() && v.columns[#[trigger] order[k]].status is NotStarted
                && v.columns[order[k]].failures.len() > cx.max_column_failures
                && v.columns[order[k]].failures.last() == e;
        assert(order.contains(order[k]));
        assert(v.columns.contains_key(order[k]));
    }
    if exists|c: ColumnIndex| #[trigger]
        v.columns.contains_key(c) && v.columns[c].status is NotStarted && v.columns[c].failures.len()
            > cx.max_column_failures {
        let c = choose|c: ColumnIndex| #[trigger]
            v.columns.contains_key(c) && v.columns[c].status is NotStarted
                && v.columns[c].failures.len() > cx.max_column_failures;
        assert(order.contains(c));
        let k = choose|k: int| 0 <= k < order.len() && order[k] == c;
        assert(v.columns[order[k]].status is NotStarted);
    }
    if let CustodyOutcome::Failed(CustodyErrorView::ExpiredNoCustodyPeers(waiting)) =
        custody_by_range::outcome(r) {
        let batches = custody_by_range::planned(v, cx, order, factors, now)->Ok_0;
        lemma_sends_dom(v, batches, batches.len(), cx.request_id);
        let keep = |c: ColumnIndex| v1.columns[c].status is NotStarted;
        assert(waiting == order.filter(keep));
        assert forall|c: ColumnIndex| #[trigger] waiting.contains(c) <==> v1.columns.contains_key(c)
            && v1.columns[c].status is NotStarted by {
            if waiting.contains(c) {
                let k = choose|k: int| 0 <= k < waiting.len() && waiting[k] == c;
                order.lemma_filter_pred(keep, k);
                order.lemma_filter_contains_rev(keep, c);
                assert(order.contains(c));
            }
            if v1.columns.contains_key(c) && v1.columns[c].status is NotStarted {
                assert(v.columns.dom().contains(c));
                assert(order.contains(c));
                let k = choose|k: int| 0 <= k < order.len() && order[k] == c;
                assert(keep(order[k]));
                order.lemma_filter_contains(keep, k);
            }
        }
        lemma_filter_no_duplicates(order, keep);
    }
}

proof fn lemma_sends_dom(v: CustodyView, batches: Seq<BatchView>, n: nat, first: u32)
    ensures
        custody_by_range::after_sends(v, batches, n, first).columns.dom() == v.columns.dom(),
    decreases n,
{
    if n > 0 {
        lemma_sends_dom(v, batches, (n - 1) as nat, first);
        assert(custody_by_range::after_sends(v, batches, n, first).columns.dom() =~= v.columns.dom());
    }
}

proof fn lemma_filter_no_duplicates(list: Seq<u64>, keep: spec_fn(u64) -> bool)
    requires
        list.no_duplicates(),
    ensures
        list.filter(keep).no_duplicates(),
    decreases list.len(),
{
    reveal(Seq::filter);
    if list.len() > 0 {
        let short = list.drop_last();
        lemma_filter_no_duplicates(short, keep);
        let earlier = short.filter(keep);
        if keep(list.last()) {
            if earlier.contains(list.last()) {
                short.lemma_filter_contains_rev(keep, list.last());
                let k = choose|k: int| 0 <= k < short.len() && short[k] == list.last();
                assert(list[k] == list[list.len() - 1]);
            }
        }
    }
}

} // verus!
