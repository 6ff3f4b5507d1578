//! The custody group count of the node over time.
use core::ops::Range;
use crate::types::Slot;
use vstd::prelude::*;

verus! {

/// How many updates the list can hold.
pub const MAX_UPDATES: usize = 131072;

/// The `ssz_types` crate's list with a limit in its type.
#[verifier::external_type_specification]
#[verifier::external_body]
#[verifier::reject_recursive_types(T)]
#[verifier::reject_recursive_types(N)]
pub struct ExVariableList<T, N>(ssz_types::VariableList<T, N>);

/// A number of one or more bits, as a type; the limit of a list is one.
#[verifier::external_type_specification]
#[verifier::external_body]
#[verifier::reject_recursive_types(U)]
#[verifier::reject_recursive_types(B)]
pub struct ExUInt<U, B>(ssz_types::typenum::UInt<U, B>);

/// The end of a number that is a type.
#[verifier::external_type_specification]
#[verifier::external_body]
pub struct ExUTerm(ssz_types::typenum::UTerm);

/// The bit zero, as a type.
#[verifier::external_type_specification]
#[verifier::external_body]
pub struct ExB0(ssz_types::typenum::B0);

/// The bit one, as a type.
#[verifier::external_type_specification]
#[verifier::external_body]
pub struct ExB1(ssz_types::typenum::B1);

/// The values that a list of updates holds, in order.
pub uninterp spec fn list_items(
    l: ssz_types::VariableList<(u64, u64), ssz_types::typenum::U131072>,
) -> Seq<(u64, u64)>;

/// `VariableList::empty`: the list without values.
#[verifier::external_body]
fn list_empty() -> (l: ssz_types::VariableList<(u64, u64), ssz_types::typenum::U131072>)
    ensures
        list_items(l) == Seq::<(u64, u64)>::empty(),
{
    ssz_types::VariableList::empty()
}

/// `VariableList::push`: appends `value` to a list below its limit. A list at its limit stays as it
/// is, and the error, in its debug form, names the length asked for and the limit.
#[verifier::external_body]
fn list_push(
    l: &mut ssz_types::VariableList<(u64, u64), ssz_types::typenum::U131072>,
    value: (u64, u64),
) -> (r: Result<(), String>)
    requires
        list_items(*old(l)).len() <= MAX_UPDATES,
    ensures
        list_items(*old(l)).len() < MAX_UPDATES ==> r is Ok && list_items(*final(l)) == list_items(
            *old(l),
        ).push(value),
        list_items(*old(l)).len() == MAX_UPDATES ==> list_items(*final(l)) == list_items(*old(l))
            && (r matches Err(e) && e@ == "OutOfBounds { i: 131073, len: 131072 }"@),
{
    l.push(value).map_err(|e| format!("{e:?}"))
}

/// `VariableList::len`: the number of values.
#[verifier::external_body]
fn list_len(l: &ssz_types::VariableList<(u64, u64), ssz_types::typenum::U131072>) -> (r: usize)
    ensures
        r == list_items(*l).len(),
{
    l.len()
}

/// `Index::index` of a `VariableList`: the value at position `i`.
#[verifier::external_body]
fn list_at(
    l: &ssz_types::VariableList<(u64, u64), ssz_types::typenum::U131072>,
    i: usize,
) -> (r: (u64, u64))
    requires
        i < list_items(*l).len(),
    ensures
        r == list_items(*l)[i as int],
{
    l[i]
}

/// `Clone::clone` of a `VariableList`: a list of the same values.
#[verifier::external_body]
fn list_clone(
    l: &ssz_types::VariableList<(u64, u64), ssz_types::typenum::U131072>,
) -> (r: ssz_types::VariableList<(u64, u64), ssz_types::typenum::U131072>)
    ensures
        list_items(r) == list_items(*l),
{
    l.clone()
}

/// The custody group count: an initial value and the updates made to it.
pub struct CGCUpdates {
    initial_value: u64,
    updates: ssz_types::VariableList<(u64, u64), ssz_types::typenum::U131072>,
}

/// The value at `slot`: that of the first listed update that started before `slot`, else the
/// initial one.
pub open spec fn value_at(initial_value: u64, updates: Seq<(Slot, u64)>, slot: Slot) -> u64
    decreases updates.len(),
{
    if updates.len() == 0 {
        initial_value
    } else if slot > updates[0].0 {
        updates[0].1
    } else {
        value_at(initial_value, updates.drop_first(), slot)
    }
}

proof fn lemma_value_steady(initial_value: u64, updates: Seq<(Slot, u64)>, slot: Slot)
    requires
        slot > 0,
        forall|i: int| 0 <= i < updates.len() ==> (#[trigger] updates[i]).0 + 1 != slot,
    ensures
        value_at(initial_value, updates, slot) == value_at(initial_value, updates, (slot - 1) as u64),
    decreases updates.len(),
{
    if updates.len() > 0 {
        assert(updates[0].0 + 1 != slot);
        assert forall|i: int| 0 <= i < updates.drop_first().len() implies (
        #[trigger] updates.drop_first()[i]).0 + 1 != slot by {
            assert(updates[i + 1].0 + 1 != slot);
        }
        lemma_value_steady(initial_value, updates.drop_first(), slot);
    }
}

/// A lower bound of the values at the start and at every later slot where the value may change is
/// a lower bound of all values from the start on.
proof fn lemma_bound_spreads(
    initial_value: u64,
    updates: Seq<(Slot, u64)>,
    start: Slot,
    slot: Slot,
    bound: u64,
)
    requires
        start <= slot,
        bound <= value_at(initial_value, updates, start),
        forall|i: int|
            0 <= i < updates.len() && start < (#[trigger] updates[i]).0 + 1 <= slot ==> bound <= value_at(
                initial_value,
                updates,
                (updates[i].0 + 1) as u64,
            ),
    ensures
        bound <= value_at(initial_value, updates, slot),
    decreases slot - start,
{
    if slot > start {
        if exists|i: int| 0 <= i < updates.len() && (#[trigger] updates[i]).0 + 1 == slot {
            let i = choose|i: int| 0 <= i < updates.len() && (#[trigger] updates[i]).0 + 1 == slot;
            assert((updates[i].0 + 1) as u64 == slot);
        } else {
            lemma_value_steady(initial_value, updates, slot);
            lemma_bound_spreads(initial_value, updates, start, (slot - 1) as u64, bound);
        }
    }
}

impl CGCUpdates {
    pub closed spec fn initial(self) -> u64 {
        self.initial_value
    }

    /// The updates in the order in which they were added.
    pub closed spec fn updates(self) -> Seq<(Slot, u64)> {
        list_items(self.updates)
    }

    /// The updates are within the limit of their list.
    pub open spec fn wf(self) -> bool {
        self.updates().len() <= MAX_UPDATES
    }

    /// The value in force at `slot`.
    pub open spec fn spec_at_slot(self, slot: Slot) -> u64 {
        value_at(self.initial(), self.updates(), slot)
    }

    pub fn new(initial_value: u64) -> (r: Self)
        ensures
            r.wf(),
            r.initial() == initial_value,
            r.updates() == Seq::<(Slot, u64)>::empty(),
    {
        CGCUpdates { initial_value, updates: list_empty() }
    }

    /// The value in force at `slot`.
    pub fn at_slot(&self, slot: Slot) -> (r: u64)
        ensures
            r == self.spec_at_slot(slot),
    {
        let ghost updates = self.updates();
        let n: usize = list_len(&self.updates);
        let mut i: usize = 0;
        assert(updates.skip(0) =~= updates);
        while i < n
            invariant
                i <= n,
                updates == self.updates(),
                n == updates.len(),
                self.spec_at_slot(slot) == value_at(self.initial(), updates.skip(i as int), slot),
            decreases n - i,
        {
            let (update_slot, cgc) = list_at(&self.updates, i);
            assert(updates.skip(i as int).drop_first() =~= updates.skip(i + 1));
            if slot > update_slot {
                return cgc;
            }
            i += 1;
        }
        self.initial_value
    }

    /// The smallest value at a slot of the range; of an empty range, the value at its start.
    pub fn min_at_slot_range(&self, range: Range<Slot>) -> (r: u64)
        ensures
            range.start >= range.end ==> r == self.spec_at_slot(range.start),
            range.start < range.end ==> {
                &&& exists|slot: Slot|
                    range.start <= slot < range.end && #[trigger] self.spec_at_slot(slot) == r
                &&& forall|slot: Slot|
                    range.start <= slot < range.end ==> r <= #[trigger] self.spec_at_slot(slot)
            },
    {
        let start: u64 = range.start;
        let end: u64 = range.end;
        let ghost updates = self.updates();
        let n: usize = list_len(&self.updates);
        let mut least: u64 = self.at_slot(start);
        let mut i: usize = 0;
        while i < n
            invariant
                i <= n,
                updates == self.updates(),
                n == updates.len(),
                least <= self.spec_at_slot(start),
                start >= end ==> least == self.spec_at_slot(start),
                start < end ==> exists|slot: Slot|
                    start <= slot < end && #[trigger] self.spec_at_slot(slot) == least,
                forall|j: int|
                    0 <= j < i && start < (#[trigger] updates[j]).0 + 1 < end ==> least
                        <= self.spec_at_slot((updates[j].0 + 1) as u64),
            decreases n - i,
        {
            let (update_slot, _) = list_at(&self.updates, i);
            if update_slot >= start && update_slot < end && update_slot + 1 < end {
                let value: u64 = self.at_slot(update_slot + 1);
                if value < least {
                    least = value;
                }
            }
            i += 1;
        }
        proof {
            if start < end {
                assert forall|slot: Slot| start <= slot < end implies least <= #[trigger] self.spec_at_slot(
                    slot,
                ) by {
                    lemma_bound_spreads(self.initial(), updates, start, slot, least);
                }
            }
        }
        least
    }

    /// Adds an update after all others, unless the list is full.
    pub fn add_latest_update(&mut self, update: (Slot, u64)) -> (r: Result<(), String>)
        requires
            old(self).wf(),
        ensures
            final(self).wf(),
            final(self).initial() == old(self).initial(),
            old(self).updates().len() < MAX_UPDATES ==> r is Ok && final(self).updates()
                == old(self).updates().push(update),
            old(self).updates().len() == MAX_UPDATES ==> final(self).updates() == old(self).updates()
                && (r matches Err(e) && e@ == "Updates list full: "@
                + "OutOfBounds { i: 131073, len: 131072 }"@),
    {
        match list_push(&mut self.updates, update) {
            Ok(()) => Ok(()),
            Err(e) => Err("Updates list full: ".to_owned().concat(e.as_str())),
        }
    }

    /// The number of updates.
    pub fn len(&self) -> (r: usize)
        ensures
            r == self.updates().len(),
    {
        list_len(&self.updates)
    }

    /// The initial value, as of slot zero, and after it the updates.
    pub fn iter(&self) -> (r: Vec<(Slot, u64)>)
        ensures
            r@ == seq![(0u64, self.initial())] + self.updates(),
    {
        let ghost updates = self.updates();
        let n: usize = list_len(&self.updates);
        let mut r: Vec<(Slot, u64)> = Vec::new();
        r.push((0, self.initial_value));
        let mut i: usize = 0;
        while i < n
            invariant
                i <= n,
                updates == self.updates(),
                n == updates.len(),
                r@ == seq![(0u64, self.initial())] + updates.take(i as int),
            decreases n - i,
        {
            r.push(list_at(&self.updates, i));
            assert(r@ =~= seq![(0u64, self.initial())] + updates.take(i + 1));
            i += 1;
        }
        assert(updates.take(n as int) =~= updates);
        r
    }

    /// The same initial value and the same updates.
    pub fn copy(&self) -> (r: Self)
        ensures
            r.initial() == self.initial(),
            r.updates() == self.updates(),
    {
        CGCUpdates { initial_value: self.initial_value, updates: list_clone(&self.updates) }
    }
}

/// Adding an update changes the custody group count only at slots after its start at which no
/// earlier update is in force.
pub proof fn law_update_counts_where_no_earlier_does(
    initial_value: u64,
    updates: Seq<(Slot, u64)>,
    update: (Slot, u64),
    slot: Slot,
)
    ensures
        value_at(initial_value, updates.push(update), slot) == (if exists|i: int|
            0 <= i < updates.len() && slot > (#[trigger] updates[i]).0 {
            value_at(initial_value, updates, slot)
        } else if slot > update.0 {
            update.1
        } else {
            initial_value
        }),
    decreases updates.len(),
{
    let more = updates.push(update);
    if updates.len() > 0 {
        let rest = updates.drop_first();
        assert(more.drop_first() =~= rest.push(update));
        assert(more[0] == updates[0]);
        if !(slot > updates[0].0) {
            law_update_counts_where_no_earlier_does(initial_value, rest, update, slot);
            if exists|i: int| 0 <= i < updates.len() && slot > (#[trigger] updates[i]).0 {
                let i = choose|i: int| 0 <= i < updates.len() && slot > (#[trigger] updates[i]).0;
                assert(rest[i - 1] == updates[i]);
            }
            if exists|i: int| 0 <= i < rest.len() && slot > (#[trigger] rest[i]).0 {
                let i = choose|i: int| 0 <= i < rest.len() && slot > (#[trigger] rest[i]).0;
                assert(updates[i + 1] == rest[i]);
            }
        }
    } else {
        assert(value_at(initial_value, more.drop_first(), slot) == initial_value);
    }
}

/// Whether update `i` is the first listed one that started before `slot`.
pub open spec fn is_in_force(updates: Seq<(Slot, u64)>, i: int, slot: Slot) -> bool {
    &&& 0 <= i < updates.len()
    &&& updates[i].0 < slot
    &&& forall|j: int| 0 <= j < i ==> slot <= (#[trigger] updates[j]).0
}

/// The custody group count at a slot is that of the first listed update that started before it, and
/// the initial one where none did.
pub proof fn law_value_is_that_of_the_update_in_force(
    initial_value: u64,
    updates: Seq<(Slot, u64)>,
    slot: Slot,
)
    ensures
        forall|i: int| #[trigger]
            is_in_force(updates, i, slot) ==> value_at(initial_value, updates, slot) == updates[i].1,
        (forall|i: int| 0 <= i < updates.len() ==> slot <= (#[trigger] updates[i]).0) ==> value_at(
            initial_value,
            updates,
            slot,
        ) == initial_value,
    decreases updates.len(),
{
    if updates.len() > 0 {
        let rest = updates.drop_first();
        law_value_is_that_of_the_update_in_force(initial_value, rest, slot);
        assert forall|i: int| #[trigger] is_in_force(updates, i, slot) implies value_at(
            initial_value,
            updates,
            slot,
        ) == updates[i].1 by {
            if i > 0 {
                assert(slot <= updates[0].0);
                assert forall|j: int| 0 <= j < i - 1 implies slot <= (#[trigger] rest[j]).0 by {
                    assert(slot <= updates[j + 1].0);
                }
                assert(is_in_force(rest, i - 1, slot));
            } else {
                assert(updates[0].0 < slot);
            }
        }
        if forall|i: int| 0 <= i < updates.len() ==> slot <= (#[trigger] updates[i]).0 {
            assert(slot <= updates[0].0);
            assert forall|i: int| 0 <= i < rest.len() implies slot <= (#[trigger] rest[i]).0 by {
                assert(slot <= updates[i + 1].0);
            }
        }
    }
}

/// The custody group count at a slot is that of the first update, in the order in which they were
/// added, that started before it; where none did, it is the initial one.
pub proof fn law_count_at_a_slot(c: CGCUpdates, slot: Slot, i: int)
    ensures
        is_in_force(c.updates(), i, slot) ==> c.spec_at_slot(slot) == c.updates()[i].1,
        (forall|j: int| 0 <= j < c.updates().len() ==> slot <= (#[trigger] c.updates()[j]).0)
            ==> c.spec_at_slot(slot) == c.initial(),
{
    law_value_is_that_of_the_update_in_force(c.initial(), c.updates(), slot);
}

} // verus!
