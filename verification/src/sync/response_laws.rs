//! What responses to requests by root and by range give, and whom they penalize.
use crate::strings;
use crate::sync::custody_by_range;
use crate::sync::custody_by_range::CustodyErrorView;
use crate::sync::errors::{LookupVerifyError, RpcResponseError, RpcResponseResult};
use crate::sync::messages::{
    AppRequestId, BlobSidecar, MessageView, NetworkSender, PeerAction, ReportSource, RequestView,
    SignedBeaconBlock,
};
use crate::sync::network_context;
use crate::sync::network_context::SyncNetworkContext;
use crate::sync::responses;
use crate::types::{ChainSpec, Nanos, PeerId};
use vstd::prelude::*;

verus! {

/// Only a peer whose response failed its checks is reported, once and with the name of the failure;
/// nothing else is sent.
pub proof fn law_only_failed_checks_are_penalized<R>(
    before: NetworkSender,
    after: NetworkSender,
    peer: PeerId,
    r: Option<RpcResponseResult<R>>,
)
    requires
        responses::penalized(before, after, peer, r),
        before.is_open(),
    ensures
        r matches Some(Err(RpcResponseError::VerifyError(e))) ==> after.sent() == before.sent().push(
            MessageView::ReportPeer {
                peer_id: peer,
                action: PeerAction::LowToleranceError,
                source: ReportSource::SyncService,
                msg: e.spec_name(),
            },
        ),
        !(r matches Some(Err(RpcResponseError::VerifyError(_)))) ==> after.sent() == before.sent(),
{
}

/// A response with one block gives that block and the time at which it was seen; one without any is
/// not valid, and errors are passed on.
pub proof fn law_single_block_is_the_one_received(block: SignedBeaconBlock, seen: Nanos, e: RpcResponseError)
    ensures
        responses::single_block(Some(Ok((seq![block], seen)))) == Some(
            Ok::<(SignedBeaconBlock, Nanos), RpcResponseError>((block, seen)),
        ),
        responses::single_block(Some(Ok((Seq::empty(), seen)))) == Some(
            Err::<(SignedBeaconBlock, Nanos), RpcResponseError>(
                RpcResponseError::VerifyError(
                    LookupVerifyError::NotEnoughResponsesReturned { actual: 0 },
                ),
            ),
        ),
        responses::single_block(Some(Err(e))) == Some(
            Err::<(SignedBeaconBlock, Nanos), RpcResponseError>(e),
        ),
        responses::single_block(None) is None,
{
}

/// Whether blob `i` is the last listed one with its index.
pub open spec fn is_last_of_index(blobs: Seq<BlobSidecar>, i: int) -> bool {
    &&& 0 <= i < blobs.len()
    &&& forall|j: int| i < j < blobs.len() ==> (#[trigger] blobs[j]).index != blobs[i].index
}

proof fn lemma_last_of_index(blobs: Seq<BlobSidecar>, index: int)
    ensures
        match responses::last_of_index(blobs, index) {
            Some(blob) => exists|i: int| #[trigger]
                is_last_of_index(blobs, i) && blobs[i] == blob && blob.index == index,
            None => forall|i: int| 0 <= i < blobs.len() ==> (#[trigger] blobs[i]).index != index,
        },
    decreases blobs.len(),
{
    if blobs.len() > 0 {
        let short = blobs.drop_last();
        let n = blobs.len() - 1;
        lemma_last_of_index(short, index);
        if blobs[n].index == index {
            assert(is_last_of_index(blobs, n));
        } else {
            match responses::last_of_index(blobs, index) {
                Some(blob) => {
                    let i = choose|i: int| #[trigger]
                        is_last_of_index(short, i) && short[i] == blob && blob.index == index;
                    assert forall|j: int| i < j < blobs.len() implies (#[trigger] blobs[j]).index
                        != blobs[i].index by {
                        if j < n {
                            assert(short[j].index != short[i].index);
                        }
                    }
                    assert(is_last_of_index(blobs, i));
                },
                None => {
                    assert forall|i: int| 0 <= i < blobs.len() implies (#[trigger] blobs[i]).index
                        != index by {
                        if i < n {
                            assert(short[i].index != index);
                        }
                    }
                },
            }
        }
    }
}

/// The blobs of a response are put in the places of their indices: at each index the last blob with it
/// or nothing, in a list as long as a block of the slot can have blobs. The list is given exactly where
/// there are blobs and all their indices are in bounds; otherwise the first index out of bounds is
/// named.
pub proof fn law_blobs_stand_at_their_index(
    blobs: Seq<BlobSidecar>,
    seen: Nanos,
    spec: ChainSpec,
    r: Option<RpcResponseResult<Vec<Option<BlobSidecar>>>>,
)
    requires
        responses::is_blob_list(Some(Ok((blobs, seen))), spec, r),
    ensures
        ({
            let limit = spec.spec_max_blobs_per_block(
                (blobs[0].slot / spec.slots_per_epoch),
            );
            let in_bounds = forall|i: int| 0 <= i < blobs.len() ==> (#[trigger] blobs[i]).index < limit;
            &&& r is Some
            &&& (r matches Some(Ok(_))) <==> blobs.len() > 0 && in_bounds
            &&& r matches Some(Ok((list, time))) ==> {
                &&& time == seen
                &&& list@.len() == limit
                &&& forall|i: int| #[trigger]
                    is_last_of_index(blobs, i) ==> list@[blobs[i].index as int] == Some(blobs[i])
                &&& forall|k: int|
                    0 <= k < list@.len() ==> ((#[trigger] list@[k]) matches Some(blob) ==> blob.index == k
                        && blobs.contains(blob))
            }
            &&& blobs.len() > 0 ==> (r matches Some(Err(e)) ==> exists|i: int|
                0 <= i < blobs.len() && (#[trigger] blobs[i]).index >= limit && e
                    == RpcResponseError::VerifyError(
                    LookupVerifyError::UnrequestedIndex(blobs[i].index),
                ) && forall|j: int| 0 <= j < i ==> (#[trigger] blobs[j]).index < limit)
        }),
{
    let limit = spec.spec_max_blobs_per_block((blobs[0].slot / spec.slots_per_epoch));
    if blobs.len() > 0 {
        if let Some(Ok((list, time))) = r {
            assert forall|i: int| #[trigger] is_last_of_index(blobs, i) implies list@[blobs[i].index as int]
                == Some(blobs[i]) by {
                let k = blobs[i].index as int;
                assert(blobs[i].index < limit);
                lemma_last_of_index(blobs, k);
                assert(list@[k] == responses::last_of_index(blobs, k));
                if let Some(blob) = responses::last_of_index(blobs, k) {
                    let x = choose|x: int| #[trigger]
                        is_last_of_index(blobs, x) && blobs[x] == blob && blob.index == k;
                    if x < i {
                        assert(blobs[i].index != blobs[x].index);
                    }
                    if i < x {
                        assert(blobs[x].index != blobs[i].index);
                    }
                }
            }
            assert forall|k: int| 0 <= k < list@.len() implies ((#[trigger] list@[k]) matches Some(blob)
                ==> blob.index == k && blobs.contains(blob)) by {
                lemma_last_of_index(blobs, k);
                assert(list@[k] == responses::last_of_index(blobs, k));
            }
        }
        if let Some(Err(e)) = r {
            let i = choose|i: int| #[trigger]
                responses::first_beyond(blobs, limit as int, i) && e == RpcResponseError::VerifyError(
                    LookupVerifyError::UnrequestedIndex(blobs[i].index),
                );
            assert(blobs[i].index >= limit);
        }
    }
}

/// A failed custody request is answered with its cause: the last failure of the column that failed too
/// often, as it was; an expiry as such; an internal error with its text.
pub proof fn law_custody_failure_is_told(e: RpcResponseError, cause: CustodyErrorView)
    requires
        network_context::is_custody_failure(e, cause),
    ensures
        cause matches CustodyErrorView::TooManyDownloadErrors(last) ==> e == last,
        cause is ExpiredNoCustodyPeers ==> e is RequestExpired,
        cause matches CustodyErrorView::Internal(text) ==> (e matches RpcResponseError::InternalError(t)
            && t@ == text),
{
}

/// Two lists of indices, written one after the other with a comma between them, are written like the
/// list of both.
pub proof fn law_list_text_joins(a: Seq<u64>, b: Seq<u64>)
    requires
        a.len() > 0,
        b.len() > 0,
    ensures
        network_context::list_text(a + b) == network_context::list_text(a) + ", "@
            + network_context::list_text(b),
        a.len() == 1 ==> network_context::list_text(a) == strings::decimal(a[0] as nat),
    decreases b.len(),
{
    let both = a + b;
    assert(both.last() == b.last());
    if b.len() == 1 {
        assert(both.drop_last() =~= a);
    } else {
        assert(both.drop_last() =~= a + b.drop_last());
        law_list_text_joins(a, b.drop_last());
        assert(network_context::list_text(both) =~= network_context::list_text(a) + ", "@
            + network_context::list_text(b));
    }
}

/// The status message goes to every peer of the list, in its order, and nothing else is sent.
pub proof fn law_status_goes_to_every_peer(
    cx0: SyncNetworkContext,
    cx1: SyncNetworkContext,
    status: u64,
    peers: Seq<PeerId>,
)
    requires
        cx0.network_send.is_open(),
        custody_by_range::messages_sent(
            cx0,
            cx1,
            Seq::new(peers.len(), |i: int| network_context::status_message(status, peers[i])),
        ),
    ensures
        cx1.network_send.sent().len() == cx0.network_send.sent().len() + peers.len(),
        cx0.network_send.sent().is_prefix_of(cx1.network_send.sent()),
        forall|i: int|
            0 <= i < peers.len() ==> (
            #[trigger] cx1.network_send.sent()[cx0.network_send.sent().len() + i] matches MessageView::SendRequest {
                peer_id,
                request: RequestView::Status(s),
                app_request_id: AppRequestId::Router,
            } && peer_id == peers[i] && s == status),
{
}

} // verus!
