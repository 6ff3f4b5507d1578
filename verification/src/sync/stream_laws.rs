//! What the events of a response stream amount to.
use crate::sync::active_requests;
use crate::sync::active_requests::{ActiveRequestView, ItemCheck, RequestStateView};
use crate::sync::errors::{
    LookupVerifyError, RPCError, RpcEvent, RpcResponseError, RpcResponseResult,
};
use crate::sync::ids::RequestId;
use crate::types::Nanos;
use vstd::prelude::*;

verus! {

/// Whether `trace` lists how a request changes while items that are valid but not the last arrive one
/// after the other: each event leaves the request in place and completes nothing.
pub open spec fn takes_items<I, T>(
    trace: Seq<ActiveRequestView<I, T>>,
    items: Seq<(T, Nanos)>,
    now: Nanos,
) -> bool {
    &&& trace.len() == items.len() + 1
    &&& forall|i: int|
        0 <= i < items.len() ==> active_requests::after_event(
            #[trigger] trace[i],
            RpcEvent::Response(items[i].0, items[i].1),
            ItemCheck::More,
            now,
        ) == (Some(trace[i + 1]), None::<RpcResponseResult<Seq<T>>>)
}

/// The items without the times at which they were seen.
pub open spec fn items_of<T>(items: Seq<(T, Nanos)>) -> Seq<T> {
    items.map_values(|e: (T, Nanos)| e.0)
}

/// A request that has nothing yet and gets items one after the other holds these items in the order
/// in which they came. The end of the stream then hands all of them out, or, where more were
/// expected, says how many there were; a last item hands all of them out together with it.
pub proof fn law_stream_hands_out_its_items<I, T>(
    trace: Seq<ActiveRequestView<I, T>>,
    items: Seq<(T, Nanos)>,
    now: Nanos,
    last: T,
    seen: Nanos,
    check: ItemCheck,
)
    requires
        takes_items(trace, items, now),
        trace[0].state == RequestStateView::<T>::Active(Seq::empty()),
    ensures
        trace.last().id == trace[0].id,
        trace.last().peer_id == trace[0].peer_id,
        trace.last().expect_max_responses == trace[0].expect_max_responses,
        active_requests::after_event(trace.last(), RpcEvent::StreamTermination, check, now) == (
            None::<ActiveRequestView<I, T>>,
            if trace[0].expect_max_responses {
                Some(
                    Err::<(Seq<T>, Nanos), RpcResponseError>(
                        RpcResponseError::VerifyError(
                            LookupVerifyError::NotEnoughResponsesReturned {
                                actual: items.len() as usize,
                            },
                        ),
                    ),
                )
            } else {
                Some(Ok::<(Seq<T>, Nanos), RpcResponseError>((items_of(items), now)))
            },
        ),
        active_requests::after_event(
            trace.last(),
            RpcEvent::Response(last, seen),
            ItemCheck::Last,
            now,
        ).1 == Some(
            Ok::<(Seq<T>, Nanos), RpcResponseError>((items_of(items).push(last), seen)),
        ),
        active_requests::after_event(
            trace.last(),
            RpcEvent::Response(last, seen),
            ItemCheck::Last,
            now,
        ).0 is Some,
{
    lemma_items_are_held(trace, items, now, items.len() as int);
    assert(items.take(items.len() as int) =~= items);
}

proof fn lemma_items_are_held<I, T>(
    trace: Seq<ActiveRequestView<I, T>>,
    items: Seq<(T, Nanos)>,
    now: Nanos,
    n: int,
)
    requires
        takes_items(trace, items, now),
        trace[0].state == RequestStateView::<T>::Active(Seq::empty()),
        0 <= n <= items.len(),
    ensures
        trace[n] == (ActiveRequestView {
            state: RequestStateView::Active(items_of(items.take(n))),
            ..trace[0]
        }),
    decreases n,
{
    if n == 0 {
        assert(items_of(items.take(0)) =~= Seq::empty());
    } else {
        lemma_items_are_held(trace, items, now, n - 1);
        let before = trace[n - 1];
        assert(items_of(items.take(n)) =~= items_of(items.take(n - 1)).push(items[n - 1].0));
    }
}

/// A request that waits is answered with the verdict on an item that fails its checks, and with a
/// protocol error as such. One that was answered before is not answered again, by whatever event.
pub proof fn law_errors_are_answered_as_such<I, T>(
    request: ActiveRequestView<I, T>,
    item: T,
    seen: Nanos,
    verdict: LookupVerifyError,
    error: RPCError,
    event: RpcEvent<T>,
    check: ItemCheck,
    now: Nanos,
)
    ensures
        request.state is Active ==> active_requests::after_event(
            request,
            RpcEvent::Response(item, seen),
            ItemCheck::Invalid(verdict),
            now,
        ).1 == Some(
            Err::<(Seq<T>, Nanos), RpcResponseError>(RpcResponseError::VerifyError(verdict)),
        ),
        request.state is Active ==> active_requests::after_event(
            request,
            RpcEvent::RPCError(error),
            check,
            now,
        ).1 == Some(Err::<(Seq<T>, Nanos), RpcResponseError>(RpcResponseError::RpcError(error))),
        !(request.state is Active) ==> active_requests::after_event(request, event, check, now).1 is None,
{
}

/// An event touches only the request that it is for, and keeps its identifier, its peer and what is
/// expected of it. One for a request that is not known changes nothing and completes nothing.
pub proof fn law_event_touches_its_request_only<I: RequestId, T>(
    m: Map<u64, ActiveRequestView<I, T>>,
    id: I,
    event: RpcEvent<T>,
    check: ItemCheck,
    now: Nanos,
    other: u64,
)
    ensures
        ({
            let (after, response) = active_requests::respond(m, id, event, check, now);
            let known = m.contains_key(id.number()) && m[id.number()].id == id;
            &&& other != id.number() ==> (after.contains_key(other) <==> m.contains_key(other))
                && (m.contains_key(other) ==> after[other] == m[other])
            &&& !known ==> after == m && response is None
            &&& known ==> (after.contains_key(id.number()) <==> event is Response)
            &&& known && event is Response ==> after[id.number()].id == id && after[id.number()].peer_id
                == m[id.number()].peer_id && after[id.number()].expect_max_responses
                == m[id.number()].expect_max_responses
            &&& response is Some ==> known && m[id.number()].state is Active
        }),
{
}

} // verus!
