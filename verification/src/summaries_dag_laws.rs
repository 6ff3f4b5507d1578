//! What holds of the summary graphs as a whole.
use crate::lineage;
use crate::summaries_dag;
use crate::summaries_dag::{DAGStateSummary, DAGStateSummaryV22, Error};
use crate::types::{Hash256, Slot};
use vstd::prelude::*;

verus! {

/// Whether no two entries have the same root.
pub open spec fn distinct_roots<V>(list: Seq<(Hash256, V)>) -> bool {
    forall|i: int, j: int| 0 <= i < j < list.len() ==> (#[trigger] list[i]).0 != (#[trigger] list[j]).0
}

/// Whether the list has an entry for `root`.
pub open spec fn has_root<V>(list: Seq<(Hash256, V)>, root: Hash256) -> bool {
    exists|i: int| 0 <= i < list.len() && (#[trigger] list[i]).0 == root
}

/// In a list with distinct roots every entry is found under its root, and nothing else is.
pub proof fn law_last_values_of_distinct<V>(list: Seq<(Hash256, V)>)
    requires
        distinct_roots(list),
    ensures
        forall|i: int|
            0 <= i < list.len() ==> summaries_dag::last_values(list).contains_key((#[trigger] list[i]).0)
                && summaries_dag::last_values(list)[list[i].0] == list[i].1,
        forall|r: Hash256| #[trigger]
            summaries_dag::last_values(list).contains_key(r) <==> has_root(list, r),
    decreases list.len(),
{
    if list.len() > 0 {
        let short = list.drop_last();
        assert forall|i: int, j: int| 0 <= i < j < short.len() implies (#[trigger] short[i]).0 != (
        #[trigger] short[j]).0 by {
            assert(list[i].0 != list[j].0);
        }
        law_last_values_of_distinct(short);
        assert forall|i: int| 0 <= i < list.len() implies summaries_dag::last_values(list).contains_key(
            (#[trigger] list[i]).0,
        ) && summaries_dag::last_values(list)[list[i].0] == list[i].1 by {
            if i < short.len() {
                assert(short[i] == list[i]);
                assert(list[i].0 != list[list.len() - 1].0);
            }
        }
        assert forall|r: Hash256| #[trigger] summaries_dag::last_values(list).contains_key(r) <==> has_root(
            list,
            r,
        ) by {
            assert(summaries_dag::last_values(short).contains_key(r) <==> has_root(short, r));
            if has_root(list, r) {
                let i = choose|i: int| 0 <= i < list.len() && (#[trigger] list[i]).0 == r;
                if i < short.len() {
                    assert(short[i].0 == r);
                }
            }
            if has_root(short, r) {
                let i = choose|i: int| 0 <= i < short.len() && (#[trigger] short[i]).0 == r;
                assert(list[i].0 == r);
            }
            if r == list.last().0 {
                assert(list[list.len() - 1].0 == r);
            }
        }
    }
}

/// An ancestor line starts at its root, links every node to the next one as its parent, and ends
/// at a node whose parent is unknown.
pub proof fn law_ancestor_line_is_linked(
    parents: Map<Hash256, Hash256>,
    slots: Map<Hash256, Slot>,
    root: Hash256,
    line: Seq<(Hash256, Slot)>,
)
    requires
        summaries_dag::is_ancestor_line(parents, slots, root, line),
        parents.contains_key(root),
    ensures
        line.len() > 0,
        line[0].0 == root,
        forall|i: int|
            0 <= i < line.len() ==> parents.contains_key((#[trigger] line[i]).0) && line[i].1
                == slots[line[i].0],
        forall|i: int| 0 <= i < line.len() - 1 ==> parents[(#[trigger] line[i]).0] == line[i + 1].0,
        !parents.contains_key(parents[line.last().0]),
{
    assert(lineage::nth_ancestor(parents, root, 0) == root);
    if line.len() == 0 {
        assert(!parents.contains_key(lineage::nth_ancestor(parents, root, 0)));
    }
    assert forall|i: int| 0 <= i < line.len() implies parents.contains_key((#[trigger] line[i]).0) by {
        assert(parents.contains_key(lineage::nth_ancestor(parents, root, i as nat)));
    }
    assert forall|i: int| 0 <= i < line.len() - 1 implies parents[(#[trigger] line[i]).0] == line[i + 1].0 by {
        assert(line[i + 1].0 == lineage::nth_ancestor(parents, root, (i + 1) as nat));
    }
    let last = (line.len() - 1) as nat;
    assert(line[last as int].0 == lineage::nth_ancestor(parents, root, last));
    assert(lineage::nth_ancestor(parents, root, line.len()) == parents[line.last().0]);
}

/// The state found at a slot is one of the ancestors, and stands at that slot.
pub proof fn law_state_at_slot_is_an_ancestor(
    states: Map<Hash256, DAGStateSummary>,
    root: Hash256,
    slot: Slot,
    n: nat,
    line: Seq<(Hash256, Slot)>,
)
    requires
        ({
            let previous = states.map_values(|s: DAGStateSummary| s.previous_state_root);
            let slots = states.map_values(|s: DAGStateSummary| s.slot);
            &&& summaries_dag::search_stops_at(states, previous, root, slot, n)
            &&& summaries_dag::search_result(
                states,
                lineage::nth_ancestor(previous, root, n),
                slot,
            ) is Ok
            &&& summaries_dag::is_ancestor_line(previous, slots, root, line)
        }),
    ensures
        ({
            let previous = states.map_values(|s: DAGStateSummary| s.previous_state_root);
            line.contains((lineage::nth_ancestor(previous, root, n), slot))
        }),
{
    let previous = states.map_values(|s: DAGStateSummary| s.previous_state_root);
    assert(previous.contains_key(lineage::nth_ancestor(previous, root, n)));
    if n >= line.len() {
        assert(!previous.contains_key(lineage::nth_ancestor(previous, root, line.len())));
        if line.len() < n {
            assert(states.contains_key(lineage::nth_ancestor(previous, root, line.len())));
        }
    }
    assert(line[n as int] == (lineage::nth_ancestor(previous, root, n), slot));
}

/// On a line whose slots fall at every step, the search for the slot of an ancestor finds it.
pub proof fn law_every_ancestor_is_found_at_its_slot(
    states: Map<Hash256, DAGStateSummary>,
    root: Hash256,
    line: Seq<(Hash256, Slot)>,
    k: int,
)
    requires
        summaries_dag::is_ancestor_line(
            states.map_values(|s: DAGStateSummary| s.previous_state_root),
            states.map_values(|s: DAGStateSummary| s.slot),
            root,
            line,
        ),
        forall|i: int, j: int| 0 <= i < j < line.len() ==> (#[trigger] line[i]).1 > (#[trigger] line[j]).1,
        0 <= k < line.len(),
    ensures
        ({
            let previous = states.map_values(|s: DAGStateSummary| s.previous_state_root);
            &&& summaries_dag::search_stops_at(states, previous, root, line[k].1, k as nat)
            &&& summaries_dag::search_result(
                states,
                lineage::nth_ancestor(previous, root, k as nat),
                line[k].1,
            ) == Ok::<Hash256, Error>(line[k].0)
        }),
{
    let previous = states.map_values(|s: DAGStateSummary| s.previous_state_root);
    let slot = line[k].1;
    assert(previous.contains_key(lineage::nth_ancestor(previous, root, k as nat)));
    assert forall|i: nat| i < k implies ({
        let node = #[trigger] lineage::nth_ancestor(previous, root, i);
        states.contains_key(node) && states[node].slot > slot
    }) by {
        assert(previous.contains_key(lineage::nth_ancestor(previous, root, i)));
        assert(line[i as int].1 > line[k].1);
    }
}

/// A walk that ends also ends the search for a slot.
pub proof fn law_search_stops_where_walk_ends(
    states: Map<Hash256, DAGStateSummary>,
    root: Hash256,
    slot: Slot,
    n: nat,
) -> (m: nat)
    requires
        lineage::leaves_after(
            states.map_values(|s: DAGStateSummary| s.previous_state_root),
            root,
            n,
        ),
    ensures
        m <= n,
        summaries_dag::search_stops_at(
            states,
            states.map_values(|s: DAGStateSummary| s.previous_state_root),
            root,
            slot,
            m,
        ),
    decreases n,
{
    let previous = states.map_values(|s: DAGStateSummary| s.previous_state_root);
    assert(lineage::nth_ancestor(previous, root, 0) == root);
    if !states.contains_key(root) || states[root].slot <= slot {
        0
    } else {
        let next = previous[root];
        assert(n > 0);
        assert forall|i: nat| #[trigger] lineage::nth_ancestor(previous, next, i) == lineage::nth_ancestor(
            previous,
            root,
            i + 1,
        ) by {
            lineage::lemma_nth_ancestor_split(previous, root, 1, i);
            assert(lineage::nth_ancestor(previous, root, 1) == next);
        }
        assert(lineage::leaves_after(previous, next, (n - 1) as nat)) by {
            assert(lineage::nth_ancestor(previous, next, (n - 1) as nat) == lineage::nth_ancestor(
                previous,
                root,
                n,
            ));
        }
        let m = law_search_stops_where_walk_ends(states, next, slot, (n - 1) as nat);
        assert forall|i: nat| i < m + 1 implies ({
            let node = #[trigger] lineage::nth_ancestor(previous, root, i);
            states.contains_key(node) && states[node].slot > slot
        }) by {
            if i > 0 {
                assert(lineage::nth_ancestor(previous, next, (i - 1) as nat) == lineage::nth_ancestor(
                    previous,
                    root,
                    i,
                ));
            }
        }
        assert(lineage::nth_ancestor(previous, next, m) == lineage::nth_ancestor(
            previous,
            root,
            m + 1,
        ));
        m + 1
    }
}

proof fn lemma_completed_entries(
    list: Seq<(Hash256, DAGStateSummaryV22)>,
    by_block: Map<Hash256, Map<Slot, Hash256>>,
    parent_block_roots: Map<Hash256, Hash256>,
    base_root: Hash256,
)
    ensures
        summaries_dag::completed_v22(list, by_block, parent_block_roots, base_root) matches Ok(done)
            ==> done.len() == list.len() && forall|i: int|
            0 <= i < list.len() ==> (#[trigger] done[i]).0 == list[i].0 && done[i].1.slot == list[i].1.slot
                && done[i].1.latest_block_root == list[i].1.latest_block_root
                && summaries_dag::previous_root_v22(
                by_block,
                parent_block_roots,
                base_root,
                list[i].0,
                list[i].1,
            ) == Ok::<Hash256, Error>(done[i].1.previous_state_root),
    decreases list.len(),
{
    if list.len() > 0 {
        lemma_completed_entries(list.drop_last(), by_block, parent_block_roots, base_root);
        if let Ok(done) = summaries_dag::completed_v22(
            list,
            by_block,
            parent_block_roots,
            base_root,
        ) {
            let earlier = summaries_dag::completed_v22(
                list.drop_last(),
                by_block,
                parent_block_roots,
                base_root,
            )->Ok_0;
            assert forall|i: int| 0 <= i < list.len() implies (#[trigger] done[i]).0 == list[i].0
                && done[i].1.slot == list[i].1.slot && done[i].1.latest_block_root
                == list[i].1.latest_block_root && summaries_dag::previous_root_v22(
                by_block,
                parent_block_roots,
                base_root,
                list[i].0,
                list[i].1,
            ) == Ok::<Hash256, Error>(done[i].1.previous_state_root) by {
                if i < list.len() - 1 {
                    assert(done[i] == earlier[i]);
                    assert(list.drop_last()[i] == list[i]);
                }
            }
        }
    }
}

proof fn lemma_placed_state_is_listed(
    list: Seq<(Hash256, DAGStateSummaryV22)>,
    block: Hash256,
    slot: Slot,
) -> (i: int)
    requires
        summaries_dag::last_by_block_and_slot(summaries_dag::keyed_v22(list)).contains_key(block),
        summaries_dag::last_by_block_and_slot(
            summaries_dag::keyed_v22(list),
        )[block].contains_key(slot),
    ensures
        0 <= i < list.len(),
        list[i].0 == summaries_dag::last_by_block_and_slot(
            summaries_dag::keyed_v22(list),
        )[block][slot],
        list[i].1.slot == slot,
        list[i].1.latest_block_root == block,
    decreases list.len(),
{
    let keyed = summaries_dag::keyed_v22(list);
    let short = list.drop_last();
    assert(list.len() > 0);
    assert(keyed.drop_last() =~= summaries_dag::keyed_v22(short));
    let earlier = summaries_dag::last_by_block_and_slot(summaries_dag::keyed_v22(short));
    if list.last().1.latest_block_root == block && list.last().1.slot == slot {
        list.len() - 1
    } else {
        assert(earlier.contains_key(block) && earlier[block].contains_key(slot));
        let i = lemma_placed_state_is_listed(short, block, slot);
        assert(short[i] == list[i]);
        i
    }
}

/// Completing old summaries keeps every state with its slot and block, gives the zero root to the
/// base state and to the state at slot zero, and links every other state to one exactly one slot
/// earlier.
pub proof fn law_completed_states_are_contiguous(
    list: Seq<(Hash256, DAGStateSummaryV22)>,
    parent_block_roots: Map<Hash256, Hash256>,
    base_root: Hash256,
    done: Seq<(Hash256, DAGStateSummary)>,
)
    requires
        distinct_roots(list),
        summaries_dag::completed_v22(
            list,
            summaries_dag::last_by_block_and_slot(summaries_dag::keyed_v22(list)),
            parent_block_roots,
            base_root,
        ) == Ok::<Seq<(Hash256, DAGStateSummary)>, Error>(done),
    ensures
        ({
            let states = summaries_dag::last_values(done);
            &&& forall|i: int|
                0 <= i < list.len() ==> states.contains_key((#[trigger] list[i]).0) && states[list[i].0].slot
                    == list[i].1.slot && states[list[i].0].latest_block_root == list[i].1.latest_block_root
            &&& forall|r: Hash256| #[trigger] states.contains_key(r) ==> has_root(list, r)
            &&& forall|r: Hash256| #[trigger]
                states.contains_key(r) ==> {
                    let previous = states[r].previous_state_root;
                    if states[r].slot == 0 || r == base_root {
                        previous == Hash256::zero()
                    } else {
                        states.contains_key(previous) && states[previous].slot + 1 == states[r].slot
                    }
                }
        }),
{
    let by_block = summaries_dag::last_by_block_and_slot(summaries_dag::keyed_v22(list));
    let states = summaries_dag::last_values(done);
    lemma_completed_entries(list, by_block, parent_block_roots, base_root);
    assert forall|i: int, j: int| 0 <= i < j < done.len() implies (#[trigger] done[i]).0 != (
    #[trigger] done[j]).0 by {
        assert(list[i].0 != list[j].0);
    }
    law_last_values_of_distinct(done);
    assert forall|i: int| 0 <= i < list.len() implies states.contains_key((#[trigger] list[i]).0)
        && states[list[i].0].slot == list[i].1.slot && states[list[i].0].latest_block_root
        == list[i].1.latest_block_root by {
        assert(done[i].0 == list[i].0);
    }
    assert forall|r: Hash256| #[trigger] states.contains_key(r) implies has_root(list, r) && ({
        let previous = states[r].previous_state_root;
        if states[r].slot == 0 || r == base_root {
            previous == Hash256::zero()
        } else {
            states.contains_key(previous) && states[previous].slot + 1 == states[r].slot
        }
    }) by {
        assert(has_root(done, r));
        let i = choose|i: int| 0 <= i < done.len() && (#[trigger] done[i]).0 == r;
        assert(list[i].0 == r);
        if states[r].slot != 0 && r != base_root {
            let block = list[i].1.latest_block_root;
            let slot = (list[i].1.slot - 1) as u64;
            let holder = if by_block.contains_key(block) && by_block[block].contains_key(slot) {
                block
            } else {
                parent_block_roots[block]
            };
            let j = lemma_placed_state_is_listed(list, holder, slot);
            assert(states.contains_key(list[j].0));
        }
    }
}

proof fn lemma_placed_entry_is_listed(
    list: Seq<(Hash256, DAGStateSummary)>,
    block: Hash256,
    slot: Slot,
) -> (i: int)
    requires
        summaries_dag::last_by_block_and_slot(summaries_dag::keyed(list)).contains_key(block),
        summaries_dag::last_by_block_and_slot(
            summaries_dag::keyed(list),
        )[block].contains_key(slot),
    ensures
        0 <= i < list.len(),
        list[i] == summaries_dag::last_by_block_and_slot(summaries_dag::keyed(list))[block][slot],
        list[i].1.slot == slot,
        list[i].1.latest_block_root == block,
    decreases list.len(),
{
    let short = list.drop_last();
    assert(list.len() > 0);
    assert(summaries_dag::keyed(list).drop_last() =~= summaries_dag::keyed(short));
    if list.last().1.latest_block_root == block && list.last().1.slot == slot {
        list.len() - 1
    } else {
        let i = lemma_placed_entry_is_listed(short, block, slot);
        assert(short[i] == list[i]);
        i
    }
}

proof fn lemma_same_places(
    list: Seq<(Hash256, DAGStateSummaryV22)>,
    done: Seq<(Hash256, DAGStateSummary)>,
)
    requires
        list.len() == done.len(),
        forall|i: int|
            0 <= i < list.len() ==> (#[trigger] done[i]).0 == list[i].0 && done[i].1.slot == list[i].1.slot
                && done[i].1.latest_block_root == list[i].1.latest_block_root,
    ensures
        ({
            let old_map = summaries_dag::last_by_block_and_slot(summaries_dag::keyed_v22(list));
            let new_map = summaries_dag::last_by_block_and_slot(summaries_dag::keyed(done));
            &&& forall|b: Hash256| #[trigger] old_map.contains_key(b) <==> new_map.contains_key(b)
            &&& forall|b: Hash256, s: Slot|
                old_map.contains_key(b) && #[trigger] old_map[b].contains_key(s) ==> new_map[b].contains_key(
                    s,
                ) && new_map[b][s].0 == old_map[b][s]
        }),
    decreases list.len(),
{
    if list.len() > 0 {
        let short = list.drop_last();
        let short_done = done.drop_last();
        assert forall|i: int| 0 <= i < short.len() implies (#[trigger] short_done[i]).0 == short[i].0
            && short_done[i].1.slot == short[i].1.slot && short_done[i].1.latest_block_root
            == short[i].1.latest_block_root by {
            assert(done[i].0 == list[i].0);
        }
        lemma_same_places(short, short_done);
        assert(done[list.len() - 1].0 == list[list.len() - 1].0);
        assert(summaries_dag::keyed_v22(list).drop_last() =~= summaries_dag::keyed_v22(short));
        assert(summaries_dag::keyed(done).drop_last() =~= summaries_dag::keyed(short_done));
        let old_short = summaries_dag::last_by_block_and_slot(summaries_dag::keyed_v22(short));
        let old_map = summaries_dag::last_by_block_and_slot(summaries_dag::keyed_v22(list));
        let new_map = summaries_dag::last_by_block_and_slot(summaries_dag::keyed(done));
        let last = list.last().1;
        assert forall|b: Hash256| #[trigger] old_map.contains_key(b) <==> new_map.contains_key(b) by {
            assert(old_short.contains_key(b) || b == last.latest_block_root || !old_map.contains_key(b));
        }
        assert forall|b: Hash256, s: Slot|
            old_map.contains_key(b) && #[trigger] old_map[b].contains_key(s) implies new_map[b].contains_key(
            s,
        ) && new_map[b][s].0 == old_map[b][s] by {
            if b != last.latest_block_root || s != last.slot {
                assert(old_short.contains_key(b) && old_short[b].contains_key(s));
            }
        }
    }
}

/// The state before a state of the completed graph is in the graph too, one slot earlier, unless the
/// state is at slot zero or the base state.
pub proof fn law_previous_state_is_held(
    list: Seq<(Hash256, DAGStateSummaryV22)>,
    parent_block_roots: Map<Hash256, Hash256>,
    base_root: Hash256,
    done: Seq<(Hash256, DAGStateSummary)>,
    slot: Slot,
    e: (Hash256, DAGStateSummary),
) -> (previous: (Hash256, DAGStateSummary))
    requires
        summaries_dag::completed_v22(
            list,
            summaries_dag::last_by_block_and_slot(summaries_dag::keyed_v22(list)),
            parent_block_roots,
            base_root,
        ) == Ok::<Seq<(Hash256, DAGStateSummary)>, Error>(done),
        summaries_dag::holds_state(
            summaries_dag::last_by_block_and_slot(summaries_dag::keyed(done)),
            slot,
            e,
        ),
        slot != 0,
        e.0 != base_root,
    ensures
        previous.0 == e.1.previous_state_root,
        summaries_dag::holds_state(
            summaries_dag::last_by_block_and_slot(summaries_dag::keyed(done)),
            (slot - 1) as u64,
            previous,
        ),
{
    let old_map = summaries_dag::last_by_block_and_slot(summaries_dag::keyed_v22(list));
    let new_map = summaries_dag::last_by_block_and_slot(summaries_dag::keyed(done));
    lemma_completed_entries(list, old_map, parent_block_roots, base_root);
    lemma_same_places(list, done);
    let block = e.1.latest_block_root;
    let i = lemma_placed_entry_is_listed(done, block, slot);
    assert(done[i] == e);
    let before = (slot - 1) as u64;
    let holder = if old_map.contains_key(block) && old_map[block].contains_key(before) {
        block
    } else {
        parent_block_roots[block]
    };
    assert(old_map.contains_key(holder) && old_map[holder].contains_key(before));
    let previous = new_map[holder][before];
    let j = lemma_placed_entry_is_listed(done, holder, before);
    assert(done[j] == previous);
    previous
}

/// After completion every backwards walk ends, as long as no state has the zero root.
pub proof fn law_completed_walks_end(
    list: Seq<(Hash256, DAGStateSummaryV22)>,
    parent_block_roots: Map<Hash256, Hash256>,
    base_root: Hash256,
    done: Seq<(Hash256, DAGStateSummary)>,
    root: Hash256,
)
    requires
        distinct_roots(list),
        !has_root(list, Hash256::zero()),
        summaries_dag::completed_v22(
            list,
            summaries_dag::last_by_block_and_slot(summaries_dag::keyed_v22(list)),
            parent_block_roots,
            base_root,
        ) == Ok::<Seq<(Hash256, DAGStateSummary)>, Error>(done),
    ensures
        lineage::walk_ends(
            summaries_dag::last_values(done).map_values(
                |s: DAGStateSummary| s.previous_state_root,
            ),
            root,
        ),
    decreases
            (if summaries_dag::last_values(done).contains_key(root) {
                summaries_dag::last_values(done)[root].slot + 1
            } else {
                0
            }),
{
    law_completed_states_are_contiguous(list, parent_block_roots, base_root, done);
    let states = summaries_dag::last_values(done);
    let previous = states.map_values(|s: DAGStateSummary| s.previous_state_root);
    assert(lineage::nth_ancestor(previous, root, 0) == root);
    if !states.contains_key(root) {
        assert(lineage::leaves_after(previous, root, 0));
    } else {
        let next = previous[root];
        assert(lineage::nth_ancestor(previous, root, 1) == next);
        if states[root].slot == 0 || root == base_root {
            assert(!states.contains_key(next));
            assert(lineage::leaves_after(previous, root, 1));
        } else {
            law_completed_walks_end(list, parent_block_roots, base_root, done, next);
            let n = choose|n: nat| lineage::leaves_after(previous, next, n);
            assert forall|i: nat| i < n + 1 implies previous.contains_key(
                #[trigger] lineage::nth_ancestor(previous, root, i),
            ) by {
                if i > 0 {
                    lineage::lemma_nth_ancestor_split(previous, root, 1, (i - 1) as nat);
                    assert(previous.contains_key(
                        lineage::nth_ancestor(previous, next, (i - 1) as nat),
                    ));
                }
            }
            lineage::lemma_nth_ancestor_split(previous, root, 1, n);
            assert(lineage::leaves_after(previous, root, n + 1));
        }
    }
}

/// The block root and slot of each listed state.
pub open spec fn listed_places(list: Seq<(Hash256, DAGStateSummary)>) -> Seq<(Hash256, Slot)> {
    list.map_values(|e: (Hash256, DAGStateSummary)| (e.1.latest_block_root, e.1.slot))
}

/// The graph of a list of states has exactly the places that are listed: the number of its states is
/// that of the distinct pairs of block root and slot, and at most that of the listed states.
pub proof fn law_states_are_counted_by_place(list: Seq<(Hash256, DAGStateSummary)>)
    ensures
        ({
            let by_block = summaries_dag::last_by_block_and_slot(summaries_dag::keyed(list));
            &&& summaries_dag::places(by_block) == listed_places(list).to_set()
            &&& summaries_dag::places(by_block).finite()
            &&& summaries_dag::places(by_block).len() <= list.len()
        }),
    decreases list.len(),
{
    let by_block = summaries_dag::last_by_block_and_slot(summaries_dag::keyed(list));
    let all = listed_places(list);
    if list.len() == 0 {
        assert(summaries_dag::places(by_block) =~= Set::empty());
        assert(all.to_set() =~= Set::empty());
    } else {
        let short = list.drop_last();
        law_states_are_counted_by_place(short);
        assert(summaries_dag::keyed(list).drop_last() =~= summaries_dag::keyed(short));
        let earlier = summaries_dag::last_by_block_and_slot(summaries_dag::keyed(short));
        let last = (list.last().1.latest_block_root, list.last().1.slot);
        assert(summaries_dag::places(by_block) =~= summaries_dag::places(earlier).insert(last));
        assert(all =~= listed_places(short).push(last));
        assert forall|p: (Hash256, Slot)| all.contains(p) <==> listed_places(short).contains(p) || p
            == last by {
            if listed_places(short).contains(p) {
                let k = choose|k: int| 0 <= k < short.len() && listed_places(short)[k] == p;
                assert(all[k] == p);
            }
            if p == last {
                assert(all[list.len() - 1] == p);
            }
        }
        assert(all.to_set() =~= listed_places(short).to_set().insert(last));
    }
}

/// States at distinct places are all counted.
pub proof fn law_states_at_distinct_places_are_all_counted(list: Seq<(Hash256, DAGStateSummary)>)
    requires
        listed_places(list).no_duplicates(),
    ensures
        summaries_dag::places(
            summaries_dag::last_by_block_and_slot(summaries_dag::keyed(list)),
        ).len() == list.len(),
{
    law_states_are_counted_by_place(list);
    listed_places(list).unique_seq_to_set();
}

/// The number of states that `r` lists under the given slots.
pub open spec fn listed_under(
    r: Map<Slot, Vec<(Hash256, DAGStateSummary)>>,
    slots: Seq<Slot>,
) -> nat
    decreases slots.len(),
{
    if slots.len() == 0 {
        0
    } else {
        listed_under(r, slots.drop_last()) + r[slots.last()]@.len()
    }
}

/// The places of the graph at the given slots.
spec fn places_at(
    by_block: Map<Hash256, Map<Slot, (Hash256, DAGStateSummary)>>,
    slots: Seq<Slot>,
) -> Set<(Hash256, Slot)> {
    summaries_dag::places(by_block).filter(|p: (Hash256, Slot)| slots.contains(p.1))
}

proof fn lemma_count_under_slots(
    list: Seq<(Hash256, DAGStateSummary)>,
    r: Map<Slot, Vec<(Hash256, DAGStateSummary)>>,
    slots: Seq<Slot>,
)
    requires
        summaries_dag::lists_by_slot(
            r,
            summaries_dag::last_by_block_and_slot(summaries_dag::keyed(list)),
        ),
        slots.no_duplicates(),
        forall|k: int| 0 <= k < slots.len() ==> r.contains_key(#[trigger] slots[k]),
    ensures
        places_at(
            summaries_dag::last_by_block_and_slot(summaries_dag::keyed(list)),
            slots,
        ).finite(),
        listed_under(r, slots) == places_at(
            summaries_dag::last_by_block_and_slot(summaries_dag::keyed(list)),
            slots,
        ).len(),
    decreases slots.len(),
{
    let by_block = summaries_dag::last_by_block_and_slot(summaries_dag::keyed(list));
    if slots.len() == 0 {
        assert(places_at(by_block, slots) =~= Set::empty());
    } else {
        let short = slots.drop_last();
        let slot = slots.last();
        assert(slots[slots.len() - 1] == slot);
        assert forall|k: int| 0 <= k < short.len() implies r.contains_key(#[trigger] short[k])
            && short[k] != slot by {
            assert(slots[k] == short[k]);
        }
        lemma_count_under_slots(list, r, short);
        let states = r[slot]@;
        let here = states.map_values(|e: (Hash256, DAGStateSummary)| (e.1.latest_block_root, slot));
        assert forall|k: int| 0 <= k < states.len() implies summaries_dag::holds_state(
            by_block,
            slot,
            #[trigger] states[k],
        ) by {
            assert(states.contains(states[k]));
            assert(summaries_dag::lists_at(r, slot, states[k]));
        }
        assert(here.no_duplicates()) by {
            assert forall|i: int, j: int| 0 <= i < here.len() && 0 <= j < here.len() && i != j implies here[i]
                != here[j] by {
                assert(states[i] != states[j]);
            }
        }
        here.unique_seq_to_set();
        vstd::seq_lib::seq_to_set_is_finite(here);
        let before = places_at(by_block, short);
        assert(before.disjoint(here.to_set()));
        vstd::set_lib::lemma_set_disjoint_lens(before, here.to_set());
        assert(places_at(by_block, slots) =~= before + here.to_set()) by {
            assert forall|p: (Hash256, Slot)| places_at(by_block, slots).contains(p) <==> (before
                + here.to_set()).contains(p) by {
                if places_at(by_block, slots).contains(p) {
                    let k = choose|k: int| 0 <= k < slots.len() && slots[k] == p.1;
                    if k < short.len() {
                        assert(short[k] == p.1);
                    } else {
                        let i = lemma_placed_entry_is_listed(list, p.0, slot);
                        let e = by_block[p.0][slot];
                        assert(summaries_dag::holds_state(by_block, slot, e));
                        assert(summaries_dag::lists_at(r, slot, e));
                        let x = choose|x: int| 0 <= x < states.len() && states[x] == e;
                        assert(here[x] == p);
                    }
                }
                if before.contains(p) {
                    let k = choose|k: int| 0 <= k < short.len() && short[k] == p.1;
                    assert(slots[k] == p.1);
                }
                if here.to_set().contains(p) {
                    let x = choose|x: int| 0 <= x < here.len() && here[x] == p;
                    assert(summaries_dag::holds_state(by_block, slot, states[x]));
                }
            }
        }
    }
}

/// The number of states of the graph is that of the states listed by slot.
pub proof fn law_states_are_counted_by_slot(
    list: Seq<(Hash256, DAGStateSummary)>,
    r: Map<Slot, Vec<(Hash256, DAGStateSummary)>>,
    slots: Seq<Slot>,
)
    requires
        summaries_dag::lists_by_slot(
            r,
            summaries_dag::last_by_block_and_slot(summaries_dag::keyed(list)),
        ),
        slots.no_duplicates(),
        slots.to_set() == r.dom(),
    ensures
        summaries_dag::places(
            summaries_dag::last_by_block_and_slot(summaries_dag::keyed(list)),
        ).len() == listed_under(r, slots),
{
    let by_block = summaries_dag::last_by_block_and_slot(summaries_dag::keyed(list));
    assert forall|k: int| 0 <= k < slots.len() implies r.contains_key(#[trigger] slots[k]) by {
        assert(slots.to_set().contains(slots[k]));
    }
    lemma_count_under_slots(list, r, slots);
    assert(places_at(by_block, slots) =~= summaries_dag::places(by_block)) by {
        assert forall|p: (Hash256, Slot)| summaries_dag::places(by_block).contains(p) implies slots.contains(
            p.1,
        ) by {
            let i = lemma_placed_entry_is_listed(list, p.0, p.1);
            assert(summaries_dag::holds_state(by_block, p.1, by_block[p.0][p.1]));
            assert(r.contains_key(p.1));
            assert(slots.to_set().contains(p.1));
        }
    }
}

} // verus!
