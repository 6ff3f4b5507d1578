//! Producing inclusion lists for the validators on duty, three quarters into each slot.
//!
//! The decisions stand here; reading the clock, sleeping, and talking to beacon nodes and to the
//! signer is the caller's part. A run starts with [`Production::begin`], and each answer to an action
//! leads to the next action until [`Action::Finish`].
use crate::inclusion_list_duty::InclusionListDuty;
use crate::positions;
use crate::types::{Nanos, Slot};
use vstd::prelude::*;
use vstd::string::*;

verus! {

/// The nanoseconds of one second.
pub const NANOS_PER_SEC: u128 = 1_000_000_000;

/// The longest time span that the caller can sleep: the largest standard duration.
pub const MAX_DURATION: u128 = 18_446_744_073_709_551_615_999_999_999;

/// The length of a slot.
pub fn slot_duration(seconds_per_slot: u64) -> (r: Nanos)
    ensures
        r == seconds_per_slot * NANOS_PER_SEC,
{
    seconds_per_slot as u128 * NANOS_PER_SEC
}

/// Whether the service can be started: the time to the next slot has to be known.
pub fn start_update_service(duration_to_next_slot: Option<Nanos>) -> (r: Result<Nanos, String>)
    ensures
        match duration_to_next_slot {
            Some(d) => r == Ok::<Nanos, String>(d),
            None => r matches Err(e) && e@ == "Unable to determine duration to next slot"@,
        },
{
    match duration_to_next_slot {
        Some(d) => Ok(d),
        None => Err("Unable to determine duration to next slot".to_owned()),
    }
}

/// What the service does next: sleep, and whether to spawn a task then.
#[derive(Clone, Copy, PartialEq, Eq, Structural, Debug)]
pub struct Wait {
    pub duration: Nanos,
    pub spawn: bool,
}

/// The next round of the service: a task three quarters into the next slot, or another look at the
/// clock after one slot where the clock cannot be read.
pub fn next_wait(duration_to_next_slot: Option<Nanos>, slot_duration: Nanos) -> (r: Wait)
    requires
        slot_duration * 3 <= MAX_DURATION,
        duration_to_next_slot matches Some(d) ==> d + slot_duration * 3 / 4 <= MAX_DURATION,
    ensures
        r == (match duration_to_next_slot {
            Some(d) => Wait { duration: (d + slot_duration * 3 / 4) as u128, spawn: true },
            None => Wait { duration: slot_duration, spawn: false },
        }),
{
    match duration_to_next_slot {
        Some(d) => Wait { duration: d + slot_duration * 3 / 4, spawn: true },
        None => Wait { duration: slot_duration, spawn: false },
    }
}

/// The slot for which a task is spawned, from what the clock says.
pub fn spawn_inclusion_list_task(now: Option<Slot>, duration_to_next_slot: Option<Nanos>) -> (r: Result<
    Slot,
    String,
>)
    ensures
        match (now, duration_to_next_slot) {
            (Some(slot), Some(_)) => r == Ok::<Slot, String>(slot),
            (Some(_), None) => r matches Err(e) && e@ == "Unable to determine duration to next slot"@,
            (None, _) => r matches Err(e) && e@ == "Failed to read slot clock"@,
        },
{
    match now {
        None => Err("Failed to read slot clock".to_owned()),
        Some(slot) => match duration_to_next_slot {
            None => Err("Unable to determine duration to next slot".to_owned()),
            Some(_) => Ok(slot),
        },
    }
}

/// The inclusion list in one beacon node's answer: the node's error given as text.
pub fn list_in_answer<L>(answer: Result<Option<L>, String>) -> (r: Result<L, String>)
    ensures
        match answer {
            Ok(Some(list)) => r == Ok::<L, String>(list),
            Ok(None) => r matches Err(e) && e@ == "Inclusion list unavailable"@,
            Err(reason) => r matches Err(e) && e@ == "Failed to produce inclusion list: "@ + reason@,
        },
{
    match answer {
        Ok(Some(list)) => Ok(list),
        Ok(None) => Err("Inclusion list unavailable".to_owned()),
        Err(reason) => {
            let mut text = "Failed to produce inclusion list: ".to_owned();
            text.append(reason.as_str());
            Err(text)
        },
    }
}

/// Why a run ended early.
#[derive(Clone, Copy, PartialEq, Eq, Structural, Debug)]
pub enum Failure {
    /// The current slot is unknown.
    Clock,
    /// No beacon node had an inclusion list.
    NoList,
}

/// What is to be done next in a run.
pub enum Action<S> {
    /// Get an inclusion list for this slot from the first beacon node that has one.
    FetchList(Slot),
    /// Have the list signed for each of these duties.
    Sign(Vec<InclusionListDuty>),
    /// Post these lists, which are those of these validators.
    Publish(Vec<S>, Vec<u64>),
    /// The run is over.
    Finish(Result<(), Failure>),
}

/// The duties whose slot is that of the list.
pub open spec fn matching(duties: Seq<InclusionListDuty>, list_slot: Slot) -> Seq<InclusionListDuty> {
    duties.filter(|d: InclusionListDuty| d.slot == list_slot)
}

/// The lists that were signed, in the order of the duties.
pub open spec fn signed_lists<S>(outcomes: Seq<Option<S>>) -> Seq<S>
    decreases outcomes.len(),
{
    if outcomes.len() == 0 {
        Seq::empty()
    } else {
        match outcomes.last() {
            Some(list) => signed_lists(outcomes.drop_last()).push(list),
            None => signed_lists(outcomes.drop_last()),
        }
    }
}

/// The validators whose lists were signed, in the order of the duties.
pub open spec fn signed_indices<S>(
    duties: Seq<InclusionListDuty>,
    outcomes: Seq<Option<S>>,
) -> Seq<u64>
    decreases outcomes.len(),
{
    if outcomes.len() == 0 {
        Seq::empty()
    } else {
        let earlier = signed_indices(duties, outcomes.drop_last());
        match outcomes.last() {
            Some(_) => earlier.push(duties[outcomes.len() - 1].validator_index),
            None => earlier,
        }
    }
}

/// One run for one slot.
pub struct Production {
    pub slot: Slot,
    pub duties: Vec<InclusionListDuty>,
}

impl Production {
    /// The first action: nothing without duties, else to fetch a list, for which the current slot has
    /// to be known.
    pub fn begin<S>(&self, now: Option<Slot>) -> (r: Action<S>)
        ensures
            if self.duties@.len() == 0 {
                r matches Action::Finish(Ok(_))
            } else if now is None {
                r matches Action::Finish(Err(e)) && e == Failure::Clock
            } else {
                r == Action::<S>::FetchList(self.slot)
            },
    {
        if self.duties.len() == 0 {
            return Action::Finish(Ok(()));
        }
        match now {
            None => Action::Finish(Err(Failure::Clock)),
            Some(_) => Action::FetchList(self.slot),
        }
    }

    /// The action once the list has been fetched, given its slot: to have it signed for the duties of
    /// that very slot.
    pub fn on_list<S>(&self, list_slot: Option<Slot>) -> (r: Action<S>)
        ensures
            match list_slot {
                None => r matches Action::Finish(Err(e)) && e == Failure::NoList,
                Some(slot) => r matches Action::Sign(duties) && duties@ == matching(self.duties@, slot),
            },
    {
        match list_slot {
            None => Action::Finish(Err(Failure::NoList)),
            Some(slot) => {
                let ghost all = self.duties@;
                let mut duties: Vec<InclusionListDuty> = Vec::new();
                let mut i: usize = 0;
                proof {
                    reveal(Seq::filter);
                }
                while i < self.duties.len()
                    invariant
                        i <= self.duties@.len(),
                        all == self.duties@,
                        duties@ == matching(all.take(i as int), slot),
                    decreases self.duties@.len() - i,
                {
                    proof {
                        reveal(Seq::filter);
                        assert(all.take(i + 1).drop_last() =~= all.take(i as int));
                    }
                    let duty = self.duties[i];
                    if duty.slot == slot {
                        duties.push(duty);
                    }
                    i += 1;
                }
                assert(all.take(i as int) =~= all);
                Action::Sign(duties)
            },
        }
    }
}

/// The action once the list was signed, or not, for each of the duties asked for: to publish what was
/// signed, if anything was.
pub fn on_signed<S>(duties: &Vec<InclusionListDuty>, outcomes: Vec<Option<S>>) -> (r: Action<S>)
    requires
        outcomes@.len() == duties@.len(),
    ensures
        if signed_lists(outcomes@).len() == 0 {
            r matches Action::Finish(Ok(_))
        } else {
            r matches Action::Publish(lists, indices) && lists@ == signed_lists(outcomes@) && indices@
                == signed_indices(duties@, outcomes@)
        },
{
    let ghost all = outcomes@;
    let mut lists: Vec<S> = Vec::new();
    let mut indices: Vec<u64> = Vec::new();
    let mut i: usize = 0;
    for outcome in it: outcomes
        invariant
            it.seq() == all,
            i == it.index(),
            all.len() == duties@.len(),
            lists@ == signed_lists(all.take(i as int)),
            indices@ == signed_indices(duties@, all.take(i as int)),
    {
        proof {
            assert(all.take(i + 1).drop_last() =~= all.take(i as int));
        }
        let count: usize = duties.len();
        assert(i < count);
        if let Some(list) = outcome {
            lists.push(list);
            indices.push(duties[i].validator_index);
        }
        i += 1;
    }
    assert(all.take(i as int) =~= all);
    if lists.len() == 0 {
        Action::Finish(Ok(()))
    } else {
        Action::Publish(lists, indices)
    }
}

/// The action once the lists were posted, whether or not a beacon node took them.
pub fn on_published<S>(_accepted: bool) -> (r: Action<S>)
    ensures
        r matches Action::Finish(Ok(_)),
{
    Action::Finish(Ok(()))
}

/// There is one validator index for each list that is published.
pub proof fn law_one_index_per_list<S>(duties: Seq<InclusionListDuty>, outcomes: Seq<Option<S>>)
    ensures
        signed_lists(outcomes).len() == signed_indices(duties, outcomes).len(),
    decreases outcomes.len(),
{
    if outcomes.len() > 0 {
        law_one_index_per_list(duties, outcomes.drop_last());
    }
}

/// Every list that is published was signed for a duty of the list's own slot.
pub proof fn law_published_lists_are_for_their_slot<S>(
    duties: Seq<InclusionListDuty>,
    list_slot: Slot,
    outcomes: Seq<Option<S>>,
    k: int,
) -> (j: int)
    requires
        outcomes.len() <= matching(duties, list_slot).len(),
        0 <= k < signed_indices(matching(duties, list_slot), outcomes).len(),
    ensures
        0 <= j < duties.len(),
        duties[j].slot == list_slot,
        duties[j].validator_index == signed_indices(matching(duties, list_slot), outcomes)[k],
    decreases outcomes.len(),
{
    let chosen = matching(duties, list_slot);
    let earlier = signed_indices(chosen, outcomes.drop_last());
    if k < earlier.len() {
        law_published_lists_are_for_their_slot(duties, list_slot, outcomes.drop_last(), k)
    } else {
        let duty = chosen[outcomes.len() - 1];
        duties.lemma_filter_contains_rev(|d: InclusionListDuty| d.slot == list_slot, duty);
        duties.lemma_filter_pred(|d: InclusionListDuty| d.slot == list_slot, outcomes.len() - 1);
        let j = choose|j: int| 0 <= j < duties.len() && duties[j] == duty;
        j
    }
}

/// Something is published exactly when something was signed.
pub proof fn law_nothing_signed_nothing_published<S>(outcomes: Seq<Option<S>>)
    ensures
        signed_lists(outcomes).len() == 0 <==> forall|i: int|
            0 <= i < outcomes.len() ==> (#[trigger] outcomes[i]) is None,
    decreases outcomes.len(),
{
    if outcomes.len() > 0 {
        let short = outcomes.drop_last();
        law_nothing_signed_nothing_published(short);
        assert(outcomes.last() == outcomes[outcomes.len() - 1]);
        if signed_lists(outcomes).len() == 0 {
            assert forall|i: int| 0 <= i < outcomes.len() implies (#[trigger] outcomes[i]) is None by {
                if i < short.len() {
                    assert(short[i] is None);
                }
            }
        }
        if forall|i: int| 0 <= i < outcomes.len() ==> (#[trigger] outcomes[i]) is None {
            assert forall|i: int| 0 <= i < short.len() implies (#[trigger] short[i]) is None by {
                assert(outcomes[i] is None);
            }
        }
    }
}

/// The duties for which signing gave a list.
pub open spec fn was_signed<S>(outcomes: Seq<Option<S>>) -> spec_fn(int) -> bool {
    |i: int| outcomes[i] is Some
}

/// Every list that was signed is published, once and in the order of the duties, together with the
/// validator of the duty that it was signed for; nothing else is published.
pub proof fn law_every_signed_list_is_published<S>(
    duties: Seq<InclusionListDuty>,
    outcomes: Seq<Option<S>>,
)
    ensures
        signed_lists(outcomes).len() == positions::picked_below(
            was_signed(outcomes),
            outcomes.len() as int,
        ),
        signed_indices(duties, outcomes).len() == signed_lists(outcomes).len(),
        forall|i: int|
            0 <= i < outcomes.len() ==> ((#[trigger] outcomes[i]) matches Some(list) ==> {
                let k = positions::picked_below(was_signed(outcomes), i) as int;
                &&& k < signed_lists(outcomes).len()
                &&& signed_lists(outcomes)[k] == list
                &&& signed_indices(duties, outcomes)[k] == duties[i].validator_index
            }),
    decreases outcomes.len(),
{
    let pick = was_signed(outcomes);
    if outcomes.len() == 0 {
        positions::lemma_picked_step(pick, 0);
    } else {
        let short = outcomes.drop_last();
        let n = outcomes.len() - 1;
        law_every_signed_list_is_published(duties, short);
        positions::lemma_picked_step(pick, n);
        assert forall|m: int| 0 <= m <= n implies #[trigger] positions::picked_below(
            was_signed(short),
            m,
        ) == positions::picked_below(pick, m) by {
            assert(positions::picked_positions(was_signed(short), m) =~= positions::picked_positions(
                pick,
                m,
            )) by {
                assert forall|j: int| 0 <= j < m implies short[j] == #[trigger] outcomes[j] by {}
            }
        }
        assert(positions::picked_below(was_signed(short), n) == positions::picked_below(pick, n));
        assert forall|i: int|
            0 <= i < outcomes.len() && (#[trigger] outcomes[i]) is Some implies ({
            let k = positions::picked_below(pick, i) as int;
            &&& k < signed_lists(outcomes).len()
            &&& signed_lists(outcomes)[k] == outcomes[i]->Some_0
            &&& signed_indices(duties, outcomes)[k] == duties[i].validator_index
        }) by {
            if i < n {
                assert(short[i] == outcomes[i]);
                assert(positions::picked_below(was_signed(short), i) == positions::picked_below(
                    pick,
                    i,
                ));
            }
        }
    }
}

/// The duties whose slot is that of the list.
pub open spec fn is_for_slot(duties: Seq<InclusionListDuty>, list_slot: Slot) -> spec_fn(int) -> bool {
    |i: int| duties[i].slot == list_slot
}

/// The list is to be signed for every duty of its slot, once and in the order of the duties, and for
/// no other duty.
pub proof fn law_every_duty_of_the_slot_is_signed_for(
    duties: Seq<InclusionListDuty>,
    list_slot: Slot,
)
    ensures
        positions::is_picked(
            duties,
            is_for_slot(duties, list_slot),
            matching(duties, list_slot),
        ),
{
    let keep = |d: InclusionListDuty| d.slot == list_slot;
    positions::lemma_filter_picks(duties, keep);
    positions::lemma_same_picks(
        duties,
        |i: int| keep(duties[i]),
        is_for_slot(duties, list_slot),
        matching(duties, list_slot),
    );
}

} // verus!
