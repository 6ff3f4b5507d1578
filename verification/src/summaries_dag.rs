//! Graphs of hot state summaries and of block summaries.
use crate::btree;
use crate::lineage;
use crate::ordered_map;
use crate::ordered_map::{MapKey, OrderedMap};
use crate::types::{Hash256, Slot};
use std::collections::BTreeMap;
use vstd::prelude::*;

verus! {

broadcast use vstd::std_specs::btree::group_btree_axioms;

/// What the graph knows of one state.
#[derive(Clone, Copy, PartialEq, Eq, Structural, Debug)]
pub struct DAGStateSummary {
    pub slot: Slot,
    pub latest_block_root: Hash256,
    pub previous_state_root: Hash256,
}

/// What the old database schema stores of one state.
#[derive(Clone, Copy, PartialEq, Eq, Structural, Debug)]
pub struct DAGStateSummaryV22 {
    pub slot: Slot,
    pub latest_block_root: Hash256,
}

/// Why a graph could not be built or a walk could not be completed.
#[derive(Clone, Copy, PartialEq, Eq, Structural, Debug)]
pub enum Error {
    MissingParentBlockRoot(Hash256),
    MissingStateSummary(Hash256),
    MissingStateSummaryAtSlot(Hash256, Slot),
    MissingChildBlockRoot(Hash256),
    MissingBlock(Hash256),
    RequestedSlotAboveSummary(Hash256, Slot),
}

/// State summaries, found by state root and by latest block root and slot.
pub struct StateSummariesDAG {
    state_summaries_by_state_root: OrderedMap<Hash256, DAGStateSummary>,
    state_summaries_by_block_root: OrderedMap<
        Hash256,
        BTreeMap<Slot, (Hash256, DAGStateSummary)>,
    >,
}

/// The last value listed for each key.
pub open spec fn last_values<V>(list: Seq<(Hash256, V)>) -> Map<Hash256, V>
    decreases list.len(),
{
    if list.len() == 0 {
        Map::empty()
    } else {
        last_values(list.drop_last()).insert(list.last().0, list.last().1)
    }
}

/// The last value listed for each block root and slot.
pub open spec fn last_by_block_and_slot<T>(list: Seq<(Hash256, Slot, T)>) -> Map<
    Hash256,
    Map<Slot, T>,
>
    decreases list.len(),
{
    if list.len() == 0 {
        Map::empty()
    } else {
        let earlier = last_by_block_and_slot(list.drop_last());
        let (block, slot, value) = list.last();
        let slots = if earlier.contains_key(block) {
            earlier[block]
        } else {
            Map::empty()
        };
        earlier.insert(block, slots.insert(slot, value))
    }
}

/// State summaries keyed by latest block root and slot.
pub open spec fn keyed(list: Seq<(Hash256, DAGStateSummary)>) -> Seq<
    (Hash256, Slot, (Hash256, DAGStateSummary)),
> {
    list.map_values(|e: (Hash256, DAGStateSummary)| (e.1.latest_block_root, e.1.slot, e))
}

/// State roots keyed by latest block root and slot.
pub open spec fn keyed_v22(list: Seq<(Hash256, DAGStateSummaryV22)>) -> Seq<
    (Hash256, Slot, Hash256),
> {
    list.map_values(|e: (Hash256, DAGStateSummaryV22)| (e.1.latest_block_root, e.1.slot, e.0))
}

/// The inner maps of a two level map, as mathematical maps.
pub open spec fn slot_maps<T>(m: Map<Hash256, BTreeMap<Slot, T>>) -> Map<Hash256, Map<Slot, T>> {
    m.map_values(|b: BTreeMap<Slot, T>| b@)
}

/// The block root and slot pairs of a two level map.
pub open spec fn places<T>(m: Map<Hash256, Map<Slot, T>>) -> Set<(Hash256, Slot)> {
    Set::new(|p: (Hash256, Slot)| m.contains_key(p.0) && m[p.0].contains_key(p.1))
}

/// Puts `value` at `slot` of `block`.
fn put<T>(m: &mut OrderedMap<Hash256, BTreeMap<Slot, T>>, block: Hash256, slot: Slot, value: T)
    requires
        old(m).wf(),
    ensures
        final(m).wf(),
        slot_maps(final(m)@) == slot_maps(old(m)@).insert(
            block,
            (if old(m)@.contains_key(block) {
                slot_maps(old(m)@)[block]
            } else {
                Map::empty()
            }).insert(slot, value),
        ),
{
    let mut slots = match m.remove(&block) {
        Some(slots) => slots,
        None => BTreeMap::new(),
    };
    slots.insert(slot, value);
    m.insert(block, slots);
    assert(slot_maps(m@) =~= slot_maps(old(m)@).insert(
        block,
        (if old(m)@.contains_key(block) {
            slot_maps(old(m)@)[block]
        } else {
            Map::empty()
        }).insert(slot, value),
    ));
}

/// The previous state root of one old summary, or why there is none.
pub open spec fn previous_root_v22(
    by_block: Map<Hash256, Map<Slot, Hash256>>,
    parent_block_roots: Map<Hash256, Hash256>,
    base_root: Hash256,
    state_root: Hash256,
    summary: DAGStateSummaryV22,
) -> Result<Hash256, Error> {
    let block = summary.latest_block_root;
    if summary.slot == 0 || state_root == base_root {
        Ok(Hash256::zero())
    } else {
        let previous_slot = (summary.slot - 1) as u64;
        if by_block.contains_key(block) && by_block[block].contains_key(previous_slot) {
            Ok(by_block[block][previous_slot])
        } else if !by_block.contains_key(block) {
            Err(Error::MissingStateSummary(block))
        } else if !parent_block_roots.contains_key(block) {
            Err(Error::MissingParentBlockRoot(block))
        } else {
            let parent = parent_block_roots[block];
            if !by_block.contains_key(parent) {
                Err(Error::MissingStateSummary(parent))
            } else if !by_block[parent].contains_key(previous_slot) {
                Err(Error::MissingStateSummaryAtSlot(parent, previous_slot))
            } else {
                Ok(by_block[parent][previous_slot])
            }
        }
    }
}

/// The summaries that old summaries become, or the error of the first that cannot be completed.
pub open spec fn completed_v22(
    list: Seq<(Hash256, DAGStateSummaryV22)>,
    by_block: Map<Hash256, Map<Slot, Hash256>>,
    parent_block_roots: Map<Hash256, Hash256>,
    base_root: Hash256,
) -> Result<Seq<(Hash256, DAGStateSummary)>, Error>
    decreases list.len(),
{
    if list.len() == 0 {
        Ok(Seq::empty())
    } else {
        match completed_v22(list.drop_last(), by_block, parent_block_roots, base_root) {
            Err(e) => Err(e),
            Ok(done) => {
                let (state_root, summary) = list.last();
                match previous_root_v22(by_block, parent_block_roots, base_root, state_root, summary) {
                    Err(e) => Err(e),
                    Ok(previous_state_root) => Ok(
                        done.push(
                            (
                                state_root,
                                DAGStateSummary {
                                    slot: summary.slot,
                                    latest_block_root: summary.latest_block_root,
                                    previous_state_root,
                                },
                            ),
                        ),
                    ),
                }
            },
        }
    }
}

proof fn lemma_places_finite<T>(list: Seq<(Hash256, Slot, T)>)
    ensures
        places(last_by_block_and_slot(list)).finite(),
        places(last_by_block_and_slot(list)).len() <= list.len(),
    decreases list.len(),
{
    if list.len() == 0 {
        assert(places(last_by_block_and_slot(list)) =~= Set::empty());
    } else {
        lemma_places_finite(list.drop_last());
        let earlier = last_by_block_and_slot(list.drop_last());
        let (block, slot, value) = list.last();
        assert(places(last_by_block_and_slot(list)) =~= places(earlier).insert((block, slot)));
    }
}

proof fn lemma_entries_in_place(list: Seq<(Hash256, DAGStateSummary)>)
    ensures
        forall|b: Hash256, s: Slot|
            last_by_block_and_slot(keyed(list)).contains_key(b)
                && #[trigger] last_by_block_and_slot(keyed(list))[b].contains_key(s) ==> {
                let e = last_by_block_and_slot(keyed(list))[b][s];
                e.1.latest_block_root == b && e.1.slot == s
            },
    decreases list.len(),
{
    if list.len() > 0 {
        lemma_entries_in_place(list.drop_last());
        assert(keyed(list).drop_last() =~= keyed(list.drop_last()));
        let earlier = last_by_block_and_slot(keyed(list.drop_last()));
        let all = last_by_block_and_slot(keyed(list));
        let last = list.last();
        assert forall|b: Hash256, s: Slot|
            all.contains_key(b) && #[trigger] all[b].contains_key(s) implies all[b][s].1.latest_block_root
            == b && all[b][s].1.slot == s by {
            if b != last.1.latest_block_root || s != last.1.slot {
                assert(earlier.contains_key(b) && earlier[b].contains_key(s));
            }
        }
    }
}

impl StateSummariesDAG {
    /// The summary of each known state root.
    pub closed spec fn by_state_root(self) -> Map<Hash256, DAGStateSummary> {
        self.state_summaries_by_state_root@
    }

    /// The state root and summary at each latest block root and slot.
    pub closed spec fn by_block_root(self) -> Map<Hash256, Map<Slot, (Hash256, DAGStateSummary)>> {
        slot_maps(self.state_summaries_by_block_root@)
    }

    /// The previous state root of each known state root.
    pub open spec fn previous_roots(self) -> Map<Hash256, Hash256> {
        self.by_state_root().map_values(|s: DAGStateSummary| s.previous_state_root)
    }

    /// Every summary stands under its own latest block root and slot, and they can be counted.
    pub closed spec fn wf(self) -> bool {
        &&& self.state_summaries_by_state_root.wf()
        &&& self.state_summaries_by_block_root.wf()
        &&& places(self.by_block_root()).finite()
        &&& places(self.by_block_root()).len() <= usize::MAX
        &&& forall|b: Hash256, s: Slot|
            self.by_block_root().contains_key(b) && #[trigger] self.by_block_root()[b].contains_key(s)
                ==> {
                let e = self.by_block_root()[b][s];
                e.1.latest_block_root == b && e.1.slot == s
            }
    }

    /// The graph of the given summaries; of two with the same key the later one counts.
    pub fn new(state_summaries: Vec<(Hash256, DAGStateSummary)>) -> (r: Self)
        ensures
            r.wf(),
            r.by_state_root() == last_values(state_summaries@),
            r.by_block_root() == last_by_block_and_slot(keyed(state_summaries@)),
    {
        let mut by_block: OrderedMap<Hash256, BTreeMap<Slot, (Hash256, DAGStateSummary)>> =
            OrderedMap::new();
        let mut by_state: OrderedMap<Hash256, DAGStateSummary> = OrderedMap::new();
        let ghost list = state_summaries@;
        assert(slot_maps(by_block@) =~= last_by_block_and_slot(keyed(list.take(0))));
        let mut i: usize = 0;
        while i < state_summaries.len()
            invariant
                i <= state_summaries.len(),
                list == state_summaries@,
                by_block.wf(),
                by_state.wf(),
                by_state@ == last_values(list.take(i as int)),
                slot_maps(by_block@) == last_by_block_and_slot(keyed(list.take(i as int))),
            decreases state_summaries.len() - i,
        {
            let (state_root, summary) = state_summaries[i];
            proof {
                let next = list.take(i + 1);
                assert(next.drop_last() =~= list.take(i as int));
                assert(keyed(next).drop_last() =~= keyed(list.take(i as int)));
                assert(slot_maps(by_block@).contains_key(summary.latest_block_root)
                    == by_block@.contains_key(summary.latest_block_root));
            }
            put(&mut by_block, summary.latest_block_root, summary.slot, (state_root, summary));
            by_state.insert(state_root, summary);
            i += 1;
        }
        proof {
            assert(list.take(i as int) =~= list);
            lemma_places_finite(keyed(list));
            lemma_entries_in_place(list);
        }
        StateSummariesDAG {
            state_summaries_by_state_root: by_state,
            state_summaries_by_block_root: by_block,
        }
    }

    /// Completes old summaries with their previous state roots and builds their graph.
    ///
    /// The state at slot zero and the state `base_root` get the zero root. Every other state gets
    /// the state one slot earlier: that of the same block where the slot was skipped, else that of
    /// the parent block. The first summary in the list for which there is none fails the whole.
    pub fn new_from_v22(
        state_summaries_v22: Vec<(Hash256, DAGStateSummaryV22)>,
        parent_block_roots: OrderedMap<Hash256, Hash256>,
        base_root: Hash256,
    ) -> (r: Result<Self, Error>)
        requires
            parent_block_roots.wf(),
        ensures
            match completed_v22(
                state_summaries_v22@,
                last_by_block_and_slot(keyed_v22(state_summaries_v22@)),
                parent_block_roots@,
                base_root,
            ) {
                Err(e) => r == Err::<Self, Error>(e),
                Ok(list) => r matches Ok(dag) && dag.wf() && dag.by_state_root() == last_values(list)
                    && dag.by_block_root() == last_by_block_and_slot(keyed(list)),
            },
    {
        let mut by_block: OrderedMap<Hash256, BTreeMap<Slot, Hash256>> = OrderedMap::new();
        let ghost list = state_summaries_v22@;
        assert(slot_maps(by_block@) =~= last_by_block_and_slot(keyed_v22(list.take(0))));
        let mut i: usize = 0;
        while i < state_summaries_v22.len()
            invariant
                i <= state_summaries_v22.len(),
                list == state_summaries_v22@,
                by_block.wf(),
                slot_maps(by_block@) == last_by_block_and_slot(keyed_v22(list.take(i as int))),
            decreases state_summaries_v22.len() - i,
        {
            let (state_root, summary) = state_summaries_v22[i];
            proof {
                let next = list.take(i + 1);
                assert(keyed_v22(next).drop_last() =~= keyed_v22(list.take(i as int)));
                assert(slot_maps(by_block@).contains_key(summary.latest_block_root)
                    == by_block@.contains_key(summary.latest_block_root));
            }
            put(&mut by_block, summary.latest_block_root, summary.slot, state_root);
            i += 1;
        }
        let ghost grouped = last_by_block_and_slot(keyed_v22(list));
        assert(list.take(i as int) =~= list);

        let mut state_summaries: Vec<(Hash256, DAGStateSummary)> = Vec::new();
        let mut j: usize = 0;
        while j < state_summaries_v22.len()
            invariant
                j <= state_summaries_v22.len(),
                list == state_summaries_v22@,
                by_block.wf(),
                parent_block_roots.wf(),
                slot_maps(by_block@) == grouped,
                grouped == last_by_block_and_slot(keyed_v22(list)),
                completed_v22(list.take(j as int), grouped, parent_block_roots@, base_root) == Ok::<
                    Seq<(Hash256, DAGStateSummary)>,
                    Error,
                >(state_summaries@),
            decreases state_summaries_v22.len() - j,
        {
            let (state_root, summary) = state_summaries_v22[j];
            assert(list.take(j + 1).drop_last() =~= list.take(j as int));
            match previous_root(&by_block, &parent_block_roots, base_root, state_root, summary) {
                Ok(previous_state_root) => {
                    state_summaries.push(
                        (
                            state_root,
                            DAGStateSummary {
                                slot: summary.slot,
                                latest_block_root: summary.latest_block_root,
                                previous_state_root,
                            },
                        ),
                    );
                },
                Err(e) => {
                    proof {
                        lemma_completed_err(
                            list,
                            j as int,
                            grouped,
                            parent_block_roots@,
                            base_root,
                            e,
                        );
                    }
                    return Err(e);
                },
            }
            j += 1;
        }
        assert(list.take(j as int) =~= list);
        Ok(Self::new(state_summaries))
    }
}

proof fn lemma_completed_err(
    list: Seq<(Hash256, DAGStateSummaryV22)>,
    j: int,
    by_block: Map<Hash256, Map<Slot, Hash256>>,
    parent_block_roots: Map<Hash256, Hash256>,
    base_root: Hash256,
    e: Error,
)
    requires
        0 <= j < list.len(),
        completed_v22(list.take(j + 1), by_block, parent_block_roots, base_root) == Err::<
            Seq<(Hash256, DAGStateSummary)>,
            Error,
        >(e),
    ensures
        completed_v22(list, by_block, parent_block_roots, base_root) == Err::<
            Seq<(Hash256, DAGStateSummary)>,
            Error,
        >(e),
    decreases list.len(),
{
    if list.len() == j + 1 {
        assert(list.take(j + 1) =~= list);
    } else {
        assert(list.drop_last().take(j + 1) =~= list.take(j + 1));
        lemma_completed_err(list.drop_last(), j, by_block, parent_block_roots, base_root, e);
    }
}

/// The previous state root of one old summary.
fn previous_root(
    by_block: &OrderedMap<Hash256, BTreeMap<Slot, Hash256>>,
    parent_block_roots: &OrderedMap<Hash256, Hash256>,
    base_root: Hash256,
    state_root: Hash256,
    summary: DAGStateSummaryV22,
) -> (r: Result<Hash256, Error>)
    requires
        by_block.wf(),
        parent_block_roots.wf(),
    ensures
        r == previous_root_v22(
            slot_maps(by_block@),
            parent_block_roots@,
            base_root,
            state_root,
            summary,
        ),
{
    if summary.slot == 0 || state_root == base_root {
        return Ok(Hash256::zero());
    }
    let previous_slot: u64 = summary.slot - 1;
    let same_block = match by_block.get(&summary.latest_block_root) {
        Some(m) => m,
        None => return Err(Error::MissingStateSummary(summary.latest_block_root)),
    };
    if let Some(root) = same_block.get(&previous_slot) {
        return Ok(*root);
    }
    let parent = match parent_block_roots.get(&summary.latest_block_root) {
        Some(parent) => *parent,
        None => return Err(Error::MissingParentBlockRoot(summary.latest_block_root)),
    };
    let parent_states = match by_block.get(&parent) {
        Some(m) => m,
        None => return Err(Error::MissingStateSummary(parent)),
    };
    match parent_states.get(&previous_slot) {
        Some(root) => Ok(*root),
        None => Err(Error::MissingStateSummaryAtSlot(parent, previous_slot)),
    }
}

/// Whether the graph holds the state `e` at `slot`.
pub open spec fn holds_state(
    by_block: Map<Hash256, Map<Slot, (Hash256, DAGStateSummary)>>,
    slot: Slot,
    e: (Hash256, DAGStateSummary),
) -> bool {
    let block = e.1.latest_block_root;
    by_block.contains_key(block) && by_block[block].contains_key(slot) && by_block[block][slot] == e
}

/// Whether the backwards walk from `root` to `slot` stops after `n` steps: the state there is
/// unknown or not above `slot`.
pub open spec fn search_stops_at(
    states: Map<Hash256, DAGStateSummary>,
    previous: Map<Hash256, Hash256>,
    root: Hash256,
    slot: Slot,
    n: nat,
) -> bool {
    let here = lineage::nth_ancestor(previous, root, n);
    &&& forall|i: nat|
        i < n ==> {
            let node = #[trigger] lineage::nth_ancestor(previous, root, i);
            states.contains_key(node) && states[node].slot > slot
        }
    &&& states.contains_key(here) ==> states[here].slot <= slot
}

/// What the backwards walk finds at the node where it stops.
pub open spec fn search_result(
    states: Map<Hash256, DAGStateSummary>,
    here: Hash256,
    slot: Slot,
) -> Result<Hash256, Error> {
    if !states.contains_key(here) {
        Err(Error::MissingStateSummary(here))
    } else if states[here].slot < slot {
        Err(Error::RequestedSlotAboveSummary(here, slot))
    } else {
        Ok(here)
    }
}

/// Whether `line` lists the nodes from `root` to its last known ancestor, each with its slot.
pub open spec fn is_ancestor_line(
    parents: Map<Hash256, Hash256>,
    slots: Map<Hash256, Slot>,
    root: Hash256,
    line: Seq<(Hash256, Slot)>,
) -> bool {
    &&& lineage::leaves_after(parents, root, line.len())
    &&& forall|i: int|
        0 <= i < line.len() ==> (#[trigger] line[i]) == (
            lineage::nth_ancestor(parents, root, i as nat),
            slots[lineage::nth_ancestor(parents, root, i as nat)],
        )
}

impl StateSummariesDAG {
    /// The slot of each known state root.
    pub open spec fn slots(self) -> Map<Hash256, Slot> {
        self.by_state_root().map_values(|s: DAGStateSummary| s.slot)
    }

    /// The number of states, counted by block root and slot.
    pub fn summaries_count(&self) -> (r: usize)
        requires
            self.wf(),
        ensures
            r == places(self.by_block_root()).len(),
    {
        let by_block = &self.state_summaries_by_block_root;
        let ghost listing = by_block.listing();
        let ghost all = places(self.by_block_root());
        let ghost counted = Set::<(Hash256, Slot)>::empty();
        proof {
            by_block.lemma_listing();
        }
        let mut total: usize = 0;
        let mut i: usize = 0;
        let n: usize = by_block.len();
        while i < n
            invariant
                self.wf(),
                i <= n,
                *by_block == self.state_summaries_by_block_root,
                listing == by_block.listing(),
                n == listing.len(),
                all == places(self.by_block_root()),
                all.finite(),
                all.len() <= usize::MAX,
                counted.finite(),
                counted.subset_of(all),
                total == counted.len(),
                forall|p: (Hash256, Slot)| #[trigger]
                    counted.contains(p) <==> exists|j: int|
                        0 <= j < i && (#[trigger] listing[j]).0 == p.0 && listing[j].1@.contains_key(p.1),
            decreases n - i,
        {
            let slots = by_block.value_at(i);
            let count: usize = slots.len();
            proof {
                by_block.lemma_listing();
                let block = listing[i as int].0;
                let here = slots@.dom().map(|s: Slot| (block, s));
                vstd::set_lib::lemma_map_size(slots@.dom(), here, |s: Slot| (block, s));
                assert forall|p: (Hash256, Slot)| here.contains(p) == (p.0 == block && slots@.contains_key(
                    p.1,
                )) by {
                    if p.0 == block && slots@.contains_key(p.1) {
                        assert(slots@.dom().contains(p.1));
                        assert(p == (|s: Slot| (block, s))(p.1));
                    }
                }
                assert(counted.disjoint(here)) by {
                    assert forall|p: (Hash256, Slot)| !(counted.contains(p) && here.contains(p)) by {
                        if counted.contains(p) && here.contains(p) {
                            let j = choose|j: int|
                                0 <= j < i && (#[trigger] listing[j]).0 == p.0
                                    && listing[j].1@.contains_key(p.1);
                            assert(ordered_map::code_lt(
                                listing[j].0.code(),
                                listing[i as int].0.code(),
                            ));
                        }
                    }
                }
                vstd::set_lib::lemma_set_disjoint_lens(counted, here);
                let more = counted.union(here);
                assert(more.subset_of(all)) by {
                    assert(self.by_block_root()[block] == slots@);
                }
                vstd::set_lib::lemma_len_subset(more, all);
                assert forall|p: (Hash256, Slot)| #[trigger] more.contains(p) <==> exists|j: int|
                    0 <= j < i + 1 && (#[trigger] listing[j]).0 == p.0 && listing[j].1@.contains_key(p.1) by {
                    if here.contains(p) {
                        assert(listing[i as int].0 == p.0);
                    }
                }
                counted = more;
            }
            total += count;
            i += 1;
        }
        proof {
            by_block.lemma_listing();
            assert(counted =~= all) by {
                assert forall|p: (Hash256, Slot)| all.contains(p) implies counted.contains(p) by {
                    assert(by_block@.contains_key(p.0));
                    let j = choose|j: int|
                        ordered_map::holds_at(listing, p.0, j) && by_block@[p.0] == listing[j].1;
                    assert(listing[j].0 == p.0);
                }
            }
        }
        total
    }

    /// Every state of the graph under its slot.
    pub fn summaries_by_slot_ascending(&self) -> (r: BTreeMap<
        Slot,
        Vec<(Hash256, DAGStateSummary)>,
    >)
        requires
            self.wf(),
        ensures
            lists_by_slot(r@, self.by_block_root()),
    {
        let by_block = &self.state_summaries_by_block_root;
        let ghost listing = by_block.listing();
        let ghost all = self.by_block_root();
        proof {
            by_block.lemma_listing();
        }
        let mut r: BTreeMap<Slot, Vec<(Hash256, DAGStateSummary)>> = BTreeMap::new();
        let ghost done = Set::<(Hash256, Slot)>::empty();
        let mut i: usize = 0;
        let n: usize = by_block.len();
        while i < n
            invariant
                self.wf(),
                i <= n,
                *by_block == self.state_summaries_by_block_root,
                listing == by_block.listing(),
                n == listing.len(),
                all == self.by_block_root(),
                sorted_so_far(r@, all, done),
                forall|p: (Hash256, Slot)| #[trigger]
                    done.contains(p) <==> exists|j: int|
                        0 <= j < i && (#[trigger] listing[j]).0 == p.0 && listing[j].1@.contains_key(p.1),
            decreases n - i,
        {
            let ghost block = listing[i as int].0;
            let ghost outer = done;
            let slots = by_block.value_at(i);
            let list = btree::entries(slots);
            proof {
                by_block.lemma_listing();
                assert(all[block] == slots@);
                assert(all.contains_key(block));
                assert forall|s: Slot| !outer.contains((block, s)) by {
                    if outer.contains((block, s)) {
                        let j = choose|j: int|
                            0 <= j < i && (#[trigger] listing[j]).0 == block && listing[j].1@.contains_key(
                                s,
                            );
                        assert(ordered_map::code_lt(
                            listing[j].0.code(),
                            listing[i as int].0.code(),
                        ));
                    }
                }
            }
            let mut k: usize = 0;
            while k < list.len()
                invariant
                    self.wf(),
                    all == self.by_block_root(),
                    k <= list.len(),
                    btree::lists_map(list@, slots@),
                    all.contains_key(block),
                    all[block] == slots@,
                    forall|s: Slot| !outer.contains((block, s)),
                    sorted_so_far(r@, all, done),
                    forall|p: (Hash256, Slot)| #[trigger]
                        done.contains(p) <==> outer.contains(p) || (p.0 == block && exists|m: int|
                            0 <= m < k && (#[trigger] list@[m]).0 == p.1),
                decreases list.len() - k,
            {
                let (slot, state) = list[k];
                let ghost before = r@;
                let mut states: Vec<(Hash256, DAGStateSummary)> = match r.remove(&slot) {
                    Some(states) => states,
                    None => Vec::new(),
                };
                states.push(state);
                r.insert(slot, states);
                proof {
                    assert(slots@.contains_key(slot) && slots@[slot] == state);
                    assert(!done.contains((block, slot)));
                    let next = done.insert((block, slot));
                    assert(r@.dom() =~= before.dom().insert(slot));
                    lemma_sorted_step(before, r@, all, done, slot, state);
                    done = next;
                    assert forall|p: (Hash256, Slot)| #[trigger] done.contains(p) <==> outer.contains(p) || (
                    p.0 == block && exists|m: int| 0 <= m < k + 1 && (#[trigger] list@[m]).0 == p.1) by {
                        if p == (block, slot) {
                            assert(list@[k as int].0 == p.1);
                        }
                    }
                }
                k += 1;
            }
            proof {
                assert forall|p: (Hash256, Slot)| #[trigger] done.contains(p) <==> exists|j: int|
                    0 <= j < i + 1 && (#[trigger] listing[j]).0 == p.0 && listing[j].1@.contains_key(p.1) by {
                    if p.0 == block && slots@.contains_key(p.1) {
                        assert(list@.contains((p.1, slots@[p.1])));
                        let m = choose|m: int| 0 <= m < list@.len() && list@[m] == (p.1, slots@[p.1]);
                        assert(list@[m].0 == p.1);
                    }
                    if done.contains(p) && !outer.contains(p) {
                        assert(listing[i as int].0 == p.0 && listing[i as int].1@.contains_key(p.1));
                    }
                }
            }
            i += 1;
        }
        proof {
            by_block.lemma_listing();
            assert forall|b: Hash256, s: Slot| all.contains_key(b) && all[b].contains_key(s) implies done.contains(
                (b, s),
            ) by {
                assert(by_block@.contains_key(b));
                let j = choose|j: int|
                    ordered_map::holds_at(listing, b, j) && by_block@[b] == listing[j].1;
                assert(listing[j].0 == b);
            }
            assert forall|slot: Slot| #[trigger] r@.contains_key(slot) <==> exists|
                e: (Hash256, DAGStateSummary),
            | #[trigger] holds_state(all, slot, e) by {
                if r@.contains_key(slot) {
                    let e = r@[slot]@[0];
                    assert(r@[slot]@.contains(e));
                    assert(lists_at(r@, slot, e));
                }
                if exists|e: (Hash256, DAGStateSummary)| #[trigger] holds_state(all, slot, e) {
                    let e = choose|e: (Hash256, DAGStateSummary)| #[trigger] holds_state(all, slot, e);
                    assert(done.contains((e.1.latest_block_root, slot)));
                    assert(lists_at(r@, slot, e));
                }
            }
        }
        r
    }

    /// The root of the state before `state_root`.
    pub fn previous_state_root(&self, state_root: Hash256) -> (r: Result<Hash256, Error>)
        requires
            self.wf(),
        ensures
            r == (if self.by_state_root().contains_key(state_root) {
                Ok(self.by_state_root()[state_root].previous_state_root)
            } else {
                Err(Error::MissingStateSummary(state_root))
            }),
    {
        match self.state_summaries_by_state_root.get(&state_root) {
            Some(summary) => Ok(summary.previous_state_root),
            None => Err(Error::MissingStateSummary(state_root)),
        }
    }

    /// Walks backwards from `state_root` to the state at `ancestor_slot`.
    ///
    /// The walk must come to an end: on a cycle above `ancestor_slot` it would not.
    pub fn ancestor_state_root_at_slot(&self, state_root: Hash256, ancestor_slot: Slot) -> (r: Result<
        Hash256,
        Error,
    >)
        requires
            self.wf(),
            exists|n: nat|
                search_stops_at(
                    self.by_state_root(),
                    self.previous_roots(),
                    state_root,
                    ancestor_slot,
                    n,
                ),
        ensures
            forall|n: nat|
                #![trigger lineage::nth_ancestor(self.previous_roots(), state_root, n)]
                search_stops_at(
                    self.by_state_root(),
                    self.previous_roots(),
                    state_root,
                    ancestor_slot,
                    n,
                ) ==> r == search_result(
                    self.by_state_root(),
                    lineage::nth_ancestor(self.previous_roots(), state_root, n),
                    ancestor_slot,
                ),
    {
        let ghost states = self.by_state_root();
        let ghost previous = self.previous_roots();
        let ghost last = choose|n: nat|
            search_stops_at(states, previous, state_root, ancestor_slot, n);
        let ghost mut steps: nat = 0;
        let mut here = state_root;
        loop
            invariant
                self.wf(),
                states == self.by_state_root(),
                previous == self.previous_roots(),
                search_stops_at(states, previous, state_root, ancestor_slot, last),
                here == lineage::nth_ancestor(previous, state_root, steps),
                steps <= last,
                forall|i: nat|
                    i < steps ==> {
                        let node = #[trigger] lineage::nth_ancestor(previous, state_root, i);
                        states.contains_key(node) && states[node].slot > ancestor_slot
                    },
            decreases last - steps,
        {
            let stopped = match self.state_summaries_by_state_root.get(&here) {
                Some(summary) => {
                    if summary.slot < ancestor_slot {
                        Some(Err(Error::RequestedSlotAboveSummary(here, ancestor_slot)))
                    } else if summary.slot == ancestor_slot {
                        Some(Ok(here))
                    } else {
                        here = summary.previous_state_root;
                        None
                    }
                },
                None => Some(Err(Error::MissingStateSummary(here))),
            };
            if let Some(r) = stopped {
                proof {
                    assert forall|n: nat|
                        #![trigger lineage::nth_ancestor(previous, state_root, n)]
                        search_stops_at(states, previous, state_root, ancestor_slot, n) implies r
                        == search_result(
                        states,
                        lineage::nth_ancestor(previous, state_root, n),
                        ancestor_slot,
                    ) by {
                        if n < steps {
                            assert(states[lineage::nth_ancestor(previous, state_root, n)].slot > ancestor_slot);
                        } else if steps < n {
                            assert(states[lineage::nth_ancestor(previous, state_root, steps)].slot > ancestor_slot);
                        }
                    }
                }
                return r;
            }
            proof {
                assert(states.contains_key(lineage::nth_ancestor(previous, state_root, steps)));
                steps = steps + 1;
            }
        }
    }

    /// The ancestors of `state_root`, itself included, up to the last one that is known.
    ///
    /// The walk must come to an end: on a cycle it would not.
    pub fn ancestors_of(&self, state_root: Hash256) -> (r: Result<Vec<(Hash256, Slot)>, Error>)
        requires
            self.wf(),
            lineage::walk_ends(self.previous_roots(), state_root),
        ensures
            self.by_state_root().contains_key(state_root) ==> (r matches Ok(line) && is_ancestor_line(
                self.previous_roots(),
                self.slots(),
                state_root,
                line@,
            )),
            !self.by_state_root().contains_key(state_root) ==> r == Err::<Vec<(Hash256, Slot)>, Error>(
                Error::MissingStateSummary(state_root),
            ),
    {
        if !self.state_summaries_by_state_root.contains_key(&state_root) {
            return Err(Error::MissingStateSummary(state_root));
        }
        let ghost parents = self.previous_roots();
        let ghost slots = self.slots();
        let ghost last = choose|n: nat| lineage::leaves_after(parents, state_root, n);
        let mut ancestors: Vec<(Hash256, Slot)> = Vec::new();
        let mut here = state_root;
        loop
            invariant
                self.wf(),
                self.by_state_root().contains_key(state_root),
                parents == self.previous_roots(),
                slots == self.slots(),
                lineage::leaves_after(parents, state_root, last),
                here == lineage::nth_ancestor(parents, state_root, ancestors@.len()),
                lineage::known_for(parents, state_root, ancestors@.len()),
                ancestors@.len() <= last,
                forall|i: int|
                    0 <= i < ancestors@.len() ==> (#[trigger] ancestors@[i]) == (
                        lineage::nth_ancestor(parents, state_root, i as nat),
                        slots[lineage::nth_ancestor(parents, state_root, i as nat)],
                    ),
            decreases last - ancestors@.len(),
        {
            match self.state_summaries_by_state_root.get(&here) {
                Some(summary) => {
                    assert(parents.contains_key(here));
                    assert(ancestors@.len() < last);
                    ancestors.push((here, summary.slot));
                    here = summary.previous_state_root;
                },
                None => {
                    return Ok(ancestors);
                },
            }
        }
    }
}

proof fn lemma_sorted_step(
    before: Map<Slot, Vec<(Hash256, DAGStateSummary)>>,
    after: Map<Slot, Vec<(Hash256, DAGStateSummary)>>,
    all: Map<Hash256, Map<Slot, (Hash256, DAGStateSummary)>>,
    done: Set<(Hash256, Slot)>,
    slot: Slot,
    state: (Hash256, DAGStateSummary),
)
    requires
        sorted_so_far(before, all, done),
        holds_state(all, slot, state),
        !done.contains((state.1.latest_block_root, slot)),
        after.dom() == before.dom().insert(slot),
        forall|s: Slot| s != slot && before.contains_key(s) ==> #[trigger] after[s] == before[s],
        after[slot]@ == (if before.contains_key(slot) {
            before[slot]@
        } else {
            Seq::empty()
        }).push(state),
    ensures
        sorted_so_far(after, all, done.insert((state.1.latest_block_root, slot))),
{
    let next = done.insert((state.1.latest_block_root, slot));
    let earlier = if before.contains_key(slot) {
        before[slot]@
    } else {
        Seq::empty()
    };
    assert(after.contains_key(slot));
    if before.contains_key(slot) {
        assert(lists_at(before, slot, state) ==> done.contains((state.1.latest_block_root, slot)));
    }
    assert(!earlier.contains(state));
    assert forall|e: (Hash256, DAGStateSummary)| #[trigger] after[slot]@.contains(e) <==> (earlier.contains(e)
        || e == state) by {
        if earlier.contains(e) {
            let x = choose|x: int| 0 <= x < earlier.len() && earlier[x] == e;
            assert(after[slot]@[x] == e);
        }
        if e == state {
            assert(after[slot]@[earlier.len() as int] == e);
        }
    }
    assert forall|s: Slot, e: (Hash256, DAGStateSummary)| #[trigger]
        lists_at(after, s, e) <==> next.contains((e.1.latest_block_root, s)) && holds_state(all, s, e) by {
        assert(lists_at(before, s, e) <==> done.contains((e.1.latest_block_root, s)) && holds_state(
            all,
            s,
            e,
        ));
        assert(after.contains_key(s) == (before.contains_key(s) || s == slot));
        if s == slot {
            assert(after[slot]@.contains(e) == (earlier.contains(e) || e == state));
        }
    }
    assert forall|s: Slot| #[trigger] after.contains_key(s) implies after[s]@.len() > 0
        && after[s]@.no_duplicates() by {
        if s != slot {
            assert(before.contains_key(s));
        }
    }
}

/// Whether `r` lists `e` at slot `s`.
pub open spec fn lists_at(
    r: Map<Slot, Vec<(Hash256, DAGStateSummary)>>,
    s: Slot,
    e: (Hash256, DAGStateSummary),
) -> bool {
    r.contains_key(s) && r[s]@.contains(e)
}

/// Whether `r` lists the states of the graph, each once and under its slot, and has no other slots.
pub open spec fn lists_by_slot(
    r: Map<Slot, Vec<(Hash256, DAGStateSummary)>>,
    by_block: Map<Hash256, Map<Slot, (Hash256, DAGStateSummary)>>,
) -> bool {
    &&& forall|slot: Slot| #[trigger]
        r.contains_key(slot) <==> exists|e: (Hash256, DAGStateSummary)| #[trigger]
            holds_state(by_block, slot, e)
    &&& forall|slot: Slot, e: (Hash256, DAGStateSummary)| #[trigger]
        lists_at(r, slot, e) <==> holds_state(by_block, slot, e)
    &&& forall|slot: Slot| #[trigger] r.contains_key(slot) ==> r[slot]@.no_duplicates()
}

/// Whether the slots of `r` hold exactly the states of `all` whose places are in `done`.
spec fn sorted_so_far(
    r: Map<Slot, Vec<(Hash256, DAGStateSummary)>>,
    all: Map<Hash256, Map<Slot, (Hash256, DAGStateSummary)>>,
    done: Set<(Hash256, Slot)>,
) -> bool {
    &&& forall|s: Slot, e: (Hash256, DAGStateSummary)| #[trigger]
        lists_at(r, s, e) <==> done.contains((e.1.latest_block_root, s)) && holds_state(all, s, e)
    &&& forall|s: Slot| #[trigger] r.contains_key(s) ==> r[s]@.len() > 0 && r[s]@.no_duplicates()
}

/// What the graph knows of one block.
#[derive(Clone, Copy, PartialEq, Eq, Structural, Debug)]
pub struct DAGBlockSummary {
    pub slot: Slot,
    pub parent_root: Hash256,
}

/// Block summaries, found by block root and by parent root.
pub struct BlockSummariesDAG {
    child_block_roots: OrderedMap<Hash256, Vec<(Hash256, DAGBlockSummary)>>,
    blocks_by_block_root: OrderedMap<Hash256, DAGBlockSummary>,
}

/// The roots of the listed blocks whose parent is `parent`, in list order.
pub open spec fn children_in(blocks: Seq<(Hash256, DAGBlockSummary)>, parent: Hash256) -> Seq<Hash256>
    decreases blocks.len(),
{
    if blocks.len() == 0 {
        Seq::empty()
    } else {
        let earlier = children_in(blocks.drop_last(), parent);
        if blocks.last().1.parent_root == parent {
            earlier.push(blocks.last().0)
        } else {
            earlier
        }
    }
}

/// Whether `root` occurs in the list, as a block or as a parent.
pub open spec fn mentioned(blocks: Seq<(Hash256, DAGBlockSummary)>, root: Hash256) -> bool {
    exists|i: int|
        0 <= i < blocks.len() && ((#[trigger] blocks[i]).0 == root || blocks[i].1.parent_root == root)
}

/// Whether every downward path from `root` has at most `height` steps.
pub open spec fn height_at_most(
    children: Map<Hash256, Seq<Hash256>>,
    root: Hash256,
    height: nat,
) -> bool
    decreases height,
{
    forall|i: int|
        0 <= i < children[root].len() ==> height > 0 && height_at_most(
            children,
            #[trigger] children[root][i],
            (height - 1) as nat,
        )
}

/// Each of `roots` followed by all that descends from it over at most `height` further steps.
pub open spec fn with_descendants(
    children: Map<Hash256, Seq<Hash256>>,
    roots: Seq<Hash256>,
    height: nat,
) -> Seq<Hash256>
    decreases height, roots.len(),
{
    if roots.len() == 0 {
        Seq::empty()
    } else {
        let below = if height == 0 {
            Seq::empty()
        } else {
            with_descendants(children, children[roots.last()], (height - 1) as nat)
        };
        with_descendants(children, roots.drop_last(), height) + seq![roots.last()] + below
    }
}

/// All descendants of `root`, each child before its own descendants.
pub open spec fn descendants(
    children: Map<Hash256, Seq<Hash256>>,
    root: Hash256,
    height: nat,
) -> Seq<Hash256> {
    if height == 0 {
        Seq::empty()
    } else {
        with_descendants(children, children[root], (height - 1) as nat)
    }
}

/// The roots of the child entries, as mathematical sequences.
pub open spec fn child_roots(m: Map<Hash256, Vec<(Hash256, DAGBlockSummary)>>) -> Map<
    Hash256,
    Seq<Hash256>,
> {
    m.map_values(
        |v: Vec<(Hash256, DAGBlockSummary)>| v@.map_values(|e: (Hash256, DAGBlockSummary)| e.0),
    )
}

/// The children of every root that occurs in the list.
pub open spec fn children_of_list(blocks: Seq<(Hash256, DAGBlockSummary)>) -> Map<
    Hash256,
    Seq<Hash256>,
> {
    Map::new(|r: Hash256| mentioned(blocks, r), |r: Hash256| children_in(blocks, r))
}

impl BlockSummariesDAG {
    /// The children of each known root.
    pub closed spec fn children(self) -> Map<Hash256, Seq<Hash256>> {
        child_roots(self.child_block_roots@)
    }

    /// The summary of each known block.
    pub closed spec fn blocks(self) -> Map<Hash256, DAGBlockSummary> {
        self.blocks_by_block_root@
    }

    /// The parent of each known block.
    pub open spec fn parents(self) -> Map<Hash256, Hash256> {
        self.blocks().map_values(|b: DAGBlockSummary| b.parent_root)
    }

    /// The slot of each known block.
    pub open spec fn slots(self) -> Map<Hash256, Slot> {
        self.blocks().map_values(|b: DAGBlockSummary| b.slot)
    }

    /// Every child is itself known.
    pub closed spec fn wf(self) -> bool {
        &&& self.child_block_roots.wf()
        &&& self.blocks_by_block_root.wf()
        &&& forall|p: Hash256, i: int|
            self.children().contains_key(p) && 0 <= i < self.children()[p].len()
                ==> self.children().contains_key(#[trigger] self.children()[p][i])
    }

    /// The graph of the given blocks; of two with the same root the later one counts as the block,
    /// and both count as children of their parents.
    pub fn new(blocks: &[(Hash256, DAGBlockSummary)]) -> (r: Self)
        ensures
            r.wf(),
            r.children() == children_of_list(blocks@),
            r.blocks() == last_values(blocks@),
    {
        let mut child_block_roots: OrderedMap<Hash256, Vec<(Hash256, DAGBlockSummary)>> =
            OrderedMap::new();
        let mut blocks_by_block_root: OrderedMap<Hash256, DAGBlockSummary> = OrderedMap::new();
        let ghost list = blocks@;
        assert(child_roots(child_block_roots@) =~= children_of_list(list.take(0)));
        let mut i: usize = 0;
        while i < blocks.len()
            invariant
                i <= blocks.len(),
                list == blocks@,
                child_block_roots.wf(),
                blocks_by_block_root.wf(),
                child_roots(child_block_roots@) == children_of_list(list.take(i as int)),
                blocks_by_block_root@ == last_values(list.take(i as int)),
            decreases blocks.len() - i,
        {
            let (block_root, block) = blocks[i];
            let ghost before = child_block_roots@;
            let mut siblings = match child_block_roots.remove(&block.parent_root) {
                Some(siblings) => siblings,
                None => Vec::new(),
            };
            siblings.push((block_root, block));
            child_block_roots.insert(block.parent_root, siblings);
            if !child_block_roots.contains_key(&block_root) {
                child_block_roots.insert(block_root, Vec::new());
            }
            blocks_by_block_root.insert(block_root, block);
            proof {
                lemma_children_step(before, child_block_roots@, list, i as int);
                assert(list.take(i + 1).drop_last() =~= list.take(i as int));
            }
            i += 1;
        }
        proof {
            assert(list.take(i as int) =~= list);
            assert forall|p: Hash256, k: int|
                children_of_list(list).contains_key(p) && 0 <= k < children_of_list(list)[p].len() implies
                children_of_list(list).contains_key(#[trigger] children_of_list(list)[p][k]) by {
                lemma_child_listed(list, p, k);
            }
        }
        BlockSummariesDAG { child_block_roots, blocks_by_block_root }
    }

    /// All descendants of `block_root`, each child before its own descendants.
    ///
    /// The graph below `block_root` must have no cycle.
    pub fn descendant_block_roots_of(&self, block_root: &Hash256) -> (r: Result<Vec<Hash256>, Error>)
        requires
            self.wf(),
            self.children().contains_key(*block_root) ==> exists|height: nat|
                height_at_most(self.children(), *block_root, height),
        ensures
            self.children().contains_key(*block_root) ==> (r matches Ok(v) && forall|height: nat| #[trigger]
                height_at_most(self.children(), *block_root, height) ==> v@ == descendants(
                    self.children(),
                    *block_root,
                    height,
                )),
            !self.children().contains_key(*block_root) ==> r == Err::<Vec<Hash256>, Error>(
                Error::MissingChildBlockRoot(*block_root),
            ),
    {
        let mut found: Vec<Hash256> = Vec::new();
        if !self.child_block_roots.contains_key(block_root) {
            return Err(Error::MissingChildBlockRoot(*block_root));
        }
        let ghost height = choose|height: nat| height_at_most(self.children(), *block_root, height);
        self.collect_descendants(block_root, &mut found, Ghost(height));
        proof {
            assert forall|other: nat| #[trigger]
                height_at_most(self.children(), *block_root, other) implies found@ == descendants(
                self.children(),
                *block_root,
                other,
            ) by {
                lemma_same_descendants(self.children(), *block_root, height, other);
            }
        }
        Ok(found)
    }

    fn collect_descendants(
        &self,
        block_root: &Hash256,
        found: &mut Vec<Hash256>,
        Ghost(height): Ghost<nat>,
    )
        requires
            self.wf(),
            self.children().contains_key(*block_root),
            height_at_most(self.children(), *block_root, height),
        ensures
            final(found)@ == old(found)@ + descendants(self.children(), *block_root, height),
        decreases height,
    {
        let ghost children = self.children();
        let ghost roots = children[*block_root];
        let ghost start = found@;
        match self.child_block_roots.get(block_root) {
            None => {},
            Some(entries) => {
                let mut i: usize = 0;
                proof {
                    assert(roots =~= entries@.map_values(|e: (Hash256, DAGBlockSummary)| e.0));
                    if height > 0 {
                        assert(with_descendants(children, roots.take(0), (height - 1) as nat)
                            =~= Seq::empty());
                    }
                }
                assert(height == 0 ==> roots.len() == 0) by {
                    if height == 0 && roots.len() > 0 {
                        let child = children[*block_root][0];
                    }
                }
                while i < entries.len()
                    invariant
                        self.wf(),
                        children == self.children(),
                        children.contains_key(*block_root),
                        roots == children[*block_root],
                        height_at_most(children, *block_root, height),
                        i <= entries.len(),
                        roots == entries@.map_values(|e: (Hash256, DAGBlockSummary)| e.0),
                        height == 0 ==> roots.len() == 0,
                        height > 0 ==> found@ == start + with_descendants(
                            children,
                            roots.take(i as int),
                            (height - 1) as nat,
                        ),
                        height == 0 ==> found@ == start,
                    decreases entries.len() - i,
                {
                    let child = entries[i].0;
                    assert(children[*block_root][i as int] == child);
                    found.push(child);
                    self.collect_descendants(&child, found, Ghost((height - 1) as nat));
                    proof {
                        let next = roots.take(i + 1);
                        assert(next.drop_last() =~= roots.take(i as int));
                        assert(next.last() == child);
                        let h = (height - 1) as nat;
                        let below = if h == 0 {
                            Seq::empty()
                        } else {
                            with_descendants(children, children[child], (h - 1) as nat)
                        };
                        assert(with_descendants(children, next, h) == with_descendants(
                            children,
                            roots.take(i as int),
                            h,
                        ) + seq![child] + below);
                        assert(found@ =~= start + with_descendants(children, next, h));
                    }
                    i += 1;
                }
                assert(roots.take(roots.len() as int) =~= roots);
            },
        }
        assert(found@ =~= start + descendants(children, *block_root, height));
    }

    /// The ancestors of `block_root`, itself included, up to the last one that is known.
    ///
    /// The walk must come to an end: on a cycle it would not.
    pub fn ancestors_of(&self, block_root: Hash256) -> (r: Result<Vec<(Hash256, Slot)>, Error>)
        requires
            self.wf(),
            lineage::walk_ends(self.parents(), block_root),
        ensures
            self.blocks().contains_key(block_root) ==> (r matches Ok(line) && is_ancestor_line(
                self.parents(),
                self.slots(),
                block_root,
                line@,
            )),
            !self.blocks().contains_key(block_root) ==> r == Err::<Vec<(Hash256, Slot)>, Error>(
                Error::MissingBlock(block_root),
            ),
    {
        if !self.blocks_by_block_root.contains_key(&block_root) {
            return Err(Error::MissingBlock(block_root));
        }
        let ghost parents = self.parents();
        let ghost slots = self.slots();
        let ghost last = choose|n: nat| lineage::leaves_after(parents, block_root, n);
        let mut ancestors: Vec<(Hash256, Slot)> = Vec::new();
        let mut here = block_root;
        loop
            invariant
                self.wf(),
                self.blocks().contains_key(block_root),
                parents == self.parents(),
                slots == self.slots(),
                lineage::leaves_after(parents, block_root, last),
                here == lineage::nth_ancestor(parents, block_root, ancestors@.len()),
                lineage::known_for(parents, block_root, ancestors@.len()),
                ancestors@.len() <= last,
                forall|i: int|
                    0 <= i < ancestors@.len() ==> (#[trigger] ancestors@[i]) == (
                        lineage::nth_ancestor(parents, block_root, i as nat),
                        slots[lineage::nth_ancestor(parents, block_root, i as nat)],
                    ),
            decreases last - ancestors@.len(),
        {
            match self.blocks_by_block_root.get(&here) {
                Some(block) => {
                    assert(parents.contains_key(here));
                    assert(ancestors@.len() < last);
                    ancestors.push((here, block.slot));
                    here = block.parent_root;
                },
                None => {
                    return Ok(ancestors);
                },
            }
        }
    }

    /// The root and slot of every known block, each once.
    pub fn iter(&self) -> (r: Vec<(Hash256, Slot)>)
        requires
            self.wf(),
        ensures
            r@.no_duplicates(),
            forall|e: (Hash256, Slot)| #[trigger]
                r@.contains(e) <==> self.blocks().contains_key(e.0) && self.blocks()[e.0].slot == e.1,
    {
        let blocks = &self.blocks_by_block_root;
        let ghost listing = blocks.listing();
        let n: usize = blocks.len();
        let mut r: Vec<(Hash256, Slot)> = Vec::new();
        let mut i: usize = 0;
        while i < n
            invariant
                i <= n,
                listing == blocks.listing(),
                n == listing.len(),
                r@.len() == i,
                forall|j: int| 0 <= j < i ==> (#[trigger] r@[j]) == (listing[j].0, listing[j].1.slot),
            decreases n - i,
        {
            r.push((blocks.key_at(i), blocks.value_at(i).slot));
            i += 1;
        }
        proof {
            blocks.lemma_listing();
            assert forall|a: int, b: int| 0 <= a < b < r@.len() implies r@[a] != r@[b] by {
                assert(ordered_map::code_lt(listing[a].0.code(), listing[b].0.code()));
            }
            assert forall|e: (Hash256, Slot)| #[trigger] r@.contains(e) <==> self.blocks().contains_key(e.0)
                && self.blocks()[e.0].slot == e.1 by {
                if r@.contains(e) {
                    let j = choose|j: int| 0 <= j < r@.len() && r@[j] == e;
                    assert(blocks@.contains_key(listing[j].0));
                }
                if blocks@.contains_key(e.0) && blocks@[e.0].slot == e.1 {
                    let j = choose|j: int|
                        ordered_map::holds_at(listing, e.0, j) && blocks@[e.0] == listing[j].1;
                    assert(r@[j] == e);
                }
            }
        }
        r
    }
}

proof fn lemma_children_step(
    before: Map<Hash256, Vec<(Hash256, DAGBlockSummary)>>,
    after: Map<Hash256, Vec<(Hash256, DAGBlockSummary)>>,
    list: Seq<(Hash256, DAGBlockSummary)>,
    i: int,
)
    requires
        0 <= i < list.len(),
        child_roots(before) == children_of_list(list.take(i)),
        ({
            let (root, block) = list[i];
            let parent = block.parent_root;
            &&& after.dom() =~= before.dom().insert(parent).insert(root)
            &&& after[parent]@ == (if before.contains_key(parent) {
                before[parent]@
            } else {
                Seq::empty()
            }).push((root, block))
            &&& root != parent && !before.contains_key(root) ==> after[root]@.len() == 0
            &&& forall|r: Hash256| r != parent && before.contains_key(r) ==> #[trigger] after[r] == before[r]
        }),
    ensures
        child_roots(after) == children_of_list(list.take(i + 1)),
{
    let (root, block) = list[i];
    let parent = block.parent_root;
    let short = list.take(i);
    let long = list.take(i + 1);
    assert(long.drop_last() =~= short);
    assert(long.last() == list[i]);
    assert forall|r: Hash256| #[trigger] mentioned(long, r) == (mentioned(short, r) || r == root || r
        == parent) by {
        if mentioned(short, r) {
            let k = choose|k: int|
                0 <= k < short.len() && ((#[trigger] short[k]).0 == r || short[k].1.parent_root == r);
            assert(long[k] == short[k]);
        }
        if r == root || r == parent {
            assert(long[i].0 == r || long[i].1.parent_root == r);
        }
        if mentioned(long, r) {
            let k = choose|k: int|
                0 <= k < long.len() && ((#[trigger] long[k]).0 == r || long[k].1.parent_root == r);
            if k < i {
                assert(short[k] == long[k]);
            }
        }
    }
    assert forall|r: Hash256| !mentioned(short, r) implies #[trigger] children_in(short, r) =~= Seq::empty() by {
        lemma_unmentioned_childless(short, r);
    }
    assert(child_roots(after).dom() =~= children_of_list(long).dom()) by {
        assert(child_roots(before).dom() =~= children_of_list(short).dom());
        assert forall|r: Hash256| child_roots(after).dom().contains(r) == children_of_list(long).dom().contains(r) by {
            assert(child_roots(before).contains_key(r) == before.contains_key(r));
            assert(mentioned(long, r) == (mentioned(short, r) || r == root || r == parent));
        }
    }
    assert forall|r: Hash256| child_roots(after).contains_key(r) implies #[trigger] child_roots(after)[r]
        =~= children_of_list(long)[r] by {
        assert(mentioned(long, r) == (mentioned(short, r) || r == root || r == parent));
        assert(child_roots(before).contains_key(r) == children_of_list(short).contains_key(r));
        if before.contains_key(r) {
            assert(child_roots(before)[r] == children_in(short, r));
        } else {
            assert(children_in(short, r) =~= Seq::empty());
        }
    }
    assert(child_roots(after) =~= children_of_list(long));
}

proof fn lemma_unmentioned_childless(blocks: Seq<(Hash256, DAGBlockSummary)>, root: Hash256)
    requires
        !mentioned(blocks, root),
    ensures
        children_in(blocks, root) == Seq::<Hash256>::empty(),
    decreases blocks.len(),
{
    if blocks.len() > 0 {
        assert(blocks[blocks.len() - 1].1.parent_root != root);
        assert(!mentioned(blocks.drop_last(), root)) by {
            assert forall|k: int| 0 <= k < blocks.drop_last().len() implies (
            #[trigger] blocks.drop_last()[k]).0 != root && blocks.drop_last()[k].1.parent_root != root by {
                assert(blocks[k].0 != root);
            }
        }
        lemma_unmentioned_childless(blocks.drop_last(), root);
    }
}

/// The `k`th child of `parent` stands in the list, with that parent.
proof fn lemma_child_listed(blocks: Seq<(Hash256, DAGBlockSummary)>, parent: Hash256, k: int) -> (i: int)
    requires
        0 <= k < children_in(blocks, parent).len(),
    ensures
        0 <= i < blocks.len(),
        blocks[i].0 == children_in(blocks, parent)[k],
        blocks[i].1.parent_root == parent,
        mentioned(blocks, children_in(blocks, parent)[k]),
    decreases blocks.len(),
{
    let earlier = children_in(blocks.drop_last(), parent);
    let i = if k < earlier.len() {
        lemma_child_listed(blocks.drop_last(), parent, k)
    } else {
        blocks.len() - 1
    };
    assert(blocks[i].0 == children_in(blocks, parent)[k]);
    i
}

proof fn lemma_same_descendants_list(
    children: Map<Hash256, Seq<Hash256>>,
    roots: Seq<Hash256>,
    a: nat,
    b: nat,
)
    requires
        forall|i: int| 0 <= i < roots.len() ==> height_at_most(children, #[trigger] roots[i], a),
        forall|i: int| 0 <= i < roots.len() ==> height_at_most(children, #[trigger] roots[i], b),
    ensures
        with_descendants(children, roots, a) == with_descendants(children, roots, b),
    decreases a, roots.len(),
{
    if roots.len() > 0 {
        let last = roots.last();
        assert(roots[roots.len() - 1] == last);
        assert forall|i: int| 0 <= i < roots.drop_last().len() implies height_at_most(
            children,
            #[trigger] roots.drop_last()[i],
            a,
        ) && height_at_most(children, roots.drop_last()[i], b) by {
            assert(roots.drop_last()[i] == roots[i]);
        }
        lemma_same_descendants_list(children, roots.drop_last(), a, b);
        let kids = children[last];
        if a > 0 && b > 0 {
            lemma_same_descendants_list(children, kids, (a - 1) as nat, (b - 1) as nat);
        } else {
            assert(kids.len() == 0) by {
                if kids.len() > 0 {
                    let kid = children[last][0];
                }
            }
            assert(with_descendants(children, kids, (a - 1) as nat) =~= Seq::empty());
            assert(with_descendants(children, kids, (b - 1) as nat) =~= Seq::empty());
        }
    }
}

proof fn lemma_same_descendants(children: Map<Hash256, Seq<Hash256>>, root: Hash256, a: nat, b: nat)
    requires
        height_at_most(children, root, a),
        height_at_most(children, root, b),
    ensures
        descendants(children, root, a) == descendants(children, root, b),
{
    let kids = children[root];
    if a > 0 && b > 0 {
        lemma_same_descendants_list(children, kids, (a - 1) as nat, (b - 1) as nat);
    } else {
        assert(kids.len() == 0) by {
            if kids.len() > 0 {
                let kid = children[root][0];
            }
        }
    }
}

/// Every state of a graph stands under its own latest block root and slot.
pub proof fn law_states_stand_in_their_place(dag: StateSummariesDAG, block: Hash256, slot: Slot)
    requires
        dag.wf(),
        dag.by_block_root().contains_key(block),
        dag.by_block_root()[block].contains_key(slot),
    ensures
        dag.by_block_root()[block][slot].1.latest_block_root == block,
        dag.by_block_root()[block][slot].1.slot == slot,
        holds_state(dag.by_block_root(), slot, dag.by_block_root()[block][slot]),
{
}

/// Every child in a graph of blocks is itself known to it.
pub proof fn law_children_are_known(dag: BlockSummariesDAG, parent: Hash256, k: int)
    requires
        dag.wf(),
        dag.children().contains_key(parent),
        0 <= k < dag.children()[parent].len(),
    ensures
        dag.children().contains_key(dag.children()[parent][k]),
{
}

} // verus!
