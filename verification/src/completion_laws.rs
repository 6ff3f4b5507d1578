//! What completing old state summaries links each state to.
use crate::summaries_dag;
use crate::summaries_dag::{DAGStateSummary, DAGStateSummaryV22, Error};
use crate::types::{Hash256, Slot};
use vstd::prelude::*;

verus! {

/// Whether entry `i` is the last of the list for its key.
pub open spec fn is_last_of_key<V>(list: Seq<(Hash256, V)>, i: int) -> bool {
    &&& 0 <= i < list.len()
    &&& forall|j: int| i < j < list.len() ==> (#[trigger] list[j]).0 != list[i].0
}

/// Under each key the last value that was listed for it is found, and nothing else.
pub proof fn law_last_listed_value_counts<V>(list: Seq<(Hash256, V)>)
    ensures
        forall|i: int| #[trigger]
            is_last_of_key(list, i) ==> summaries_dag::last_values(list).contains_key(list[i].0)
                && summaries_dag::last_values(list)[list[i].0] == list[i].1,
        forall|key: Hash256| #[trigger]
            summaries_dag::last_values(list).contains_key(key) ==> exists|i: int| #[trigger]
                is_last_of_key(list, i) && list[i].0 == key,
    decreases list.len(),
{
    if list.len() > 0 {
        let short = list.drop_last();
        let n = list.len() - 1;
        law_last_listed_value_counts(short);
        let all = summaries_dag::last_values(list);
        assert forall|i: int| #[trigger] is_last_of_key(list, i) implies all.contains_key(list[i].0)
            && all[list[i].0] == list[i].1 by {
            if i < n {
                assert(list[n].0 != list[i].0);
                assert forall|j: int| i < j < short.len() implies (#[trigger] short[j]).0 != short[i].0 by {
                    assert(list[j].0 != list[i].0);
                }
                assert(is_last_of_key(short, i));
            }
        }
        assert forall|key: Hash256| #[trigger] all.contains_key(key) implies exists|i: int| #[trigger]
            is_last_of_key(list, i) && list[i].0 == key by {
            if list[n].0 == key {
                assert(is_last_of_key(list, n));
            } else {
                assert(summaries_dag::last_values(short).contains_key(key));
                let i = choose|i: int| #[trigger] is_last_of_key(short, i) && short[i].0 == key;
                assert forall|j: int| i < j < list.len() implies (#[trigger] list[j]).0 != list[i].0 by {
                    if j < n {
                        assert(short[j].0 != short[i].0);
                    }
                }
                assert(is_last_of_key(list, i));
            }
        }
    }
}

/// Whether entry `i` is the last of the list for this block root and slot.
pub open spec fn is_last_of_place<T>(
    list: Seq<(Hash256, Slot, T)>,
    i: int,
    block: Hash256,
    slot: Slot,
) -> bool {
    &&& 0 <= i < list.len()
    &&& list[i].0 == block
    &&& list[i].1 == slot
    &&& forall|j: int|
        i < j < list.len() ==> !((#[trigger] list[j]).0 == block && list[j].1 == slot)
}

/// Whether the two level map has something at this block root and slot.
pub open spec fn has_place<T>(m: Map<Hash256, Map<Slot, T>>, block: Hash256, slot: Slot) -> bool {
    m.contains_key(block) && m[block].contains_key(slot)
}

/// At each block root and slot the last value that was listed for them is found, and nothing else;
/// a block root is known only where something was listed for it.
pub proof fn law_last_listed_at_a_place_counts<T>(list: Seq<(Hash256, Slot, T)>)
    ensures
        forall|i: int, block: Hash256, slot: Slot| #[trigger]
            is_last_of_place(list, i, block, slot) ==> has_place(
                summaries_dag::last_by_block_and_slot(list),
                block,
                slot,
            ) && summaries_dag::last_by_block_and_slot(list)[block][slot] == list[i].2,
        forall|block: Hash256, slot: Slot| #[trigger]
            has_place(summaries_dag::last_by_block_and_slot(list), block, slot) ==> exists|i: int| #[trigger]
                is_last_of_place(list, i, block, slot),
        forall|block: Hash256| #[trigger]
            summaries_dag::last_by_block_and_slot(list).contains_key(block) <==> exists|i: int|
                0 <= i < list.len() && (#[trigger] list[i]).0 == block,
    decreases list.len(),
{
    if list.len() > 0 {
        let short = list.drop_last();
        let n = list.len() - 1;
        law_last_listed_at_a_place_counts(short);
        let earlier = summaries_dag::last_by_block_and_slot(short);
        let all = summaries_dag::last_by_block_and_slot(list);
        assert forall|i: int, block: Hash256, slot: Slot| #[trigger]
            is_last_of_place(list, i, block, slot) implies has_place(all, block, slot)
            && all[block][slot] == list[i].2 by {
            if i < n {
                assert(!(list[n].0 == block && list[n].1 == slot));
                assert forall|j: int| i < j < short.len() implies !((#[trigger] short[j]).0 == block
                    && short[j].1 == slot) by {
                    assert(list[j] == short[j]);
                }
                assert(is_last_of_place(short, i, block, slot));
            }
        }
        assert forall|block: Hash256, slot: Slot| #[trigger] has_place(all, block, slot) implies exists|
            i: int,
        | #[trigger]
            is_last_of_place(list, i, block, slot) by {
            if list[n].0 == block && list[n].1 == slot {
                assert(is_last_of_place(list, n, block, slot));
            } else {
                assert(has_place(earlier, block, slot));
                let i = choose|i: int| #[trigger] is_last_of_place(short, i, block, slot);
                assert forall|j: int| i < j < list.len() implies !((#[trigger] list[j]).0 == block
                    && list[j].1 == slot) by {
                    if j < n {
                        assert(short[j] == list[j]);
                    }
                }
                assert(is_last_of_place(list, i, block, slot));
            }
        }
        assert forall|block: Hash256| #[trigger] all.contains_key(block) <==> exists|i: int|
            0 <= i < list.len() && (#[trigger] list[i]).0 == block by {
            if all.contains_key(block) {
                if list[n].0 != block {
                    let i = choose|i: int| 0 <= i < short.len() && (#[trigger] short[i]).0 == block;
                    assert(list[i] == short[i]);
                }
            }
            if exists|i: int| 0 <= i < list.len() && (#[trigger] list[i]).0 == block {
                let i = choose|i: int| 0 <= i < list.len() && (#[trigger] list[i]).0 == block;
                if i < n {
                    assert(short[i] == list[i]);
                }
            }
        }
    }
}

/// Whether some listed state has this latest block root and slot.
pub open spec fn has_state_at(
    list: Seq<(Hash256, DAGStateSummaryV22)>,
    block: Hash256,
    slot: int,
) -> bool {
    exists|j: int| #[trigger] is_state_at(list, j, block, slot)
}

/// Whether state `j` is the last listed one with this latest block root and slot.
pub open spec fn is_state_at(
    list: Seq<(Hash256, DAGStateSummaryV22)>,
    j: int,
    block: Hash256,
    slot: int,
) -> bool {
    &&& 0 <= j < list.len()
    &&& list[j].1.latest_block_root == block
    &&& list[j].1.slot == slot
    &&& forall|k: int|
        j < k < list.len() ==> !((#[trigger] list[k]).1.latest_block_root == block && list[k].1.slot
            == slot)
}

/// Whether some listed state has this latest block root.
pub open spec fn has_state_of(list: Seq<(Hash256, DAGStateSummaryV22)>, block: Hash256) -> bool {
    exists|j: int| 0 <= j < list.len() && (#[trigger] list[j]).1.latest_block_root == block
}

proof fn lemma_grouped(list: Seq<(Hash256, DAGStateSummaryV22)>)
    ensures
        ({
            let grouped = summaries_dag::last_by_block_and_slot(summaries_dag::keyed_v22(list));
            &&& forall|j: int, block: Hash256, slot: Slot| #[trigger]
                is_state_at(list, j, block, slot as int) ==> has_place(grouped, block, slot)
                    && grouped[block][slot] == list[j].0
            &&& forall|block: Hash256, slot: Slot| #[trigger]
                has_place(grouped, block, slot) ==> has_state_at(list, block, slot as int)
            &&& forall|block: Hash256| #[trigger]
                grouped.contains_key(block) <==> has_state_of(list, block)
        }),
{
    let keyed = summaries_dag::keyed_v22(list);
    let grouped = summaries_dag::last_by_block_and_slot(keyed);
    law_last_listed_at_a_place_counts(keyed);
    assert forall|j: int, block: Hash256, slot: Slot| #[trigger]
        is_state_at(list, j, block, slot as int) implies has_place(grouped, block, slot)
        && grouped[block][slot] == list[j].0 by {
        assert forall|k: int| j < k < keyed.len() implies !((#[trigger] keyed[k]).0 == block && keyed[k].1
            == slot) by {
            assert(!(list[k].1.latest_block_root == block && list[k].1.slot == slot));
        }
        assert(is_last_of_place(keyed, j, block, slot));
    }
    assert forall|block: Hash256, slot: Slot| #[trigger] has_place(grouped, block, slot) implies has_state_at(
    list, block, slot as int) by {
        let j = choose|j: int| #[trigger] is_last_of_place(keyed, j, block, slot);
        assert forall|k: int| j < k < list.len() implies !((
        #[trigger] list[k]).1.latest_block_root == block && list[k].1.slot == slot) by {
            assert(!(keyed[k].0 == block && keyed[k].1 == slot));
        }
        assert(is_state_at(list, j, block, slot as int));
    }
    assert forall|block: Hash256| #[trigger] grouped.contains_key(block) <==> has_state_of(list, block) by {
        if grouped.contains_key(block) {
            let i = choose|i: int| 0 <= i < keyed.len() && (#[trigger] keyed[i]).0 == block;
            assert(list[i].1.latest_block_root == block);
        }
        if has_state_of(list, block) {
            let j = choose|j: int| 0 <= j < list.len() && (#[trigger] list[j]).1.latest_block_root == block;
            assert(keyed[j].0 == block);
        }
    }
}

/// Whether state `i` needs no state before it: it is at slot zero, or the base state.
pub open spec fn starts_here(
    list: Seq<(Hash256, DAGStateSummaryV22)>,
    base_root: Hash256,
    i: int,
) -> bool {
    list[i].1.slot == 0 || list[i].0 == base_root
}

/// Whether the state before state `i` is listed: one slot earlier, with the same latest block or, where
/// there is none, with the parent of that block.
pub open spec fn has_previous(
    list: Seq<(Hash256, DAGStateSummaryV22)>,
    parent_block_roots: Map<Hash256, Hash256>,
    i: int,
) -> bool {
    let block = list[i].1.latest_block_root;
    let before = list[i].1.slot - 1;
    has_state_at(list, block, before) || (parent_block_roots.contains_key(block) && has_state_at(
        list,
        parent_block_roots[block],
        before,
    ))
}

/// Whether `previous` is the root of the state before state `i`: one slot earlier with the same latest
/// block, for a slot that was skipped, and with the parent of that block only where there is none.
pub open spec fn is_previous(
    list: Seq<(Hash256, DAGStateSummaryV22)>,
    parent_block_roots: Map<Hash256, Hash256>,
    i: int,
    previous: Hash256,
) -> bool {
    let block = list[i].1.latest_block_root;
    let before = list[i].1.slot - 1;
    if has_state_at(list, block, before) {
        exists|j: int| #[trigger] is_state_at(list, j, block, before) && list[j].0 == previous
    } else {
        parent_block_roots.contains_key(block) && exists|j: int| #[trigger]
            is_state_at(list, j, parent_block_roots[block], before) && list[j].0 == previous
    }
}

/// Completion keeps every state in its place with its slot and block, and links it to the state
/// before it: that of the same block where there is one, else that of the parent block. The base
/// state and a state at slot zero get the zero root.
pub proof fn law_states_are_linked_to_the_state_before(
    list: Seq<(Hash256, DAGStateSummaryV22)>,
    parent_block_roots: Map<Hash256, Hash256>,
    base_root: Hash256,
    done: Seq<(Hash256, DAGStateSummary)>,
)
    requires
        summaries_dag::completed_v22(
            list,
            summaries_dag::last_by_block_and_slot(summaries_dag::keyed_v22(list)),
            parent_block_roots,
            base_root,
        ) == Ok::<Seq<(Hash256, DAGStateSummary)>, Error>(done),
    ensures
        done.len() == list.len(),
        forall|i: int|
            0 <= i < list.len() ==> {
                &&& (#[trigger] done[i]).0 == list[i].0
                &&& done[i].1.slot == list[i].1.slot
                &&& done[i].1.latest_block_root == list[i].1.latest_block_root
                &&& if starts_here(list, base_root, i) {
                    done[i].1.previous_state_root == Hash256::zero()
                } else {
                    is_previous(list, parent_block_roots, i, done[i].1.previous_state_root)
                }
            },
{
    let grouped = summaries_dag::last_by_block_and_slot(summaries_dag::keyed_v22(list));
    lemma_grouped(list);
    lemma_entries(list, grouped, parent_block_roots, base_root);
    assert forall|i: int| 0 <= i < list.len() && !starts_here(list, base_root, i) implies is_previous(
        list,
        parent_block_roots,
        i,
        (#[trigger] done[i]).1.previous_state_root,
    ) by {
        lemma_previous(list, parent_block_roots, base_root, i);
    }
}

proof fn lemma_entries(
    list: Seq<(Hash256, DAGStateSummaryV22)>,
    by_block: Map<Hash256, Map<Slot, Hash256>>,
    parent_block_roots: Map<Hash256, Hash256>,
    base_root: Hash256,
)
    ensures
        match summaries_dag::completed_v22(list, by_block, parent_block_roots, base_root) {
            Ok(done) => done.len() == list.len() && forall|i: int|
                0 <= i < list.len() ==> (#[trigger] done[i]).0 == list[i].0 && done[i].1.slot
                    == list[i].1.slot && done[i].1.latest_block_root == list[i].1.latest_block_root
                    && summaries_dag::previous_root_v22(
                    by_block,
                    parent_block_roots,
                    base_root,
                    list[i].0,
                    list[i].1,
                ) == Ok::<Hash256, Error>(done[i].1.previous_state_root),
            Err(e) => exists|i: int|
                0 <= i < list.len() && summaries_dag::previous_root_v22(
                    by_block,
                    parent_block_roots,
                    base_root,
                    (#[trigger] list[i]).0,
                    list[i].1,
                ) == Err::<Hash256, Error>(e),
        },
    decreases list.len(),
{
    if list.len() > 0 {
        let short = list.drop_last();
        let n = list.len() - 1;
        lemma_entries(short, by_block, parent_block_roots, base_root);
        match summaries_dag::completed_v22(list, by_block, parent_block_roots, base_root) {
            Ok(done) => {
                let earlier = summaries_dag::completed_v22(
                    short,
                    by_block,
                    parent_block_roots,
                    base_root,
                )->Ok_0;
                assert forall|i: int| 0 <= i < list.len() implies (#[trigger] done[i]).0 == list[i].0
                    && done[i].1.slot == list[i].1.slot && done[i].1.latest_block_root
                    == list[i].1.latest_block_root && summaries_dag::previous_root_v22(
                    by_block,
                    parent_block_roots,
                    base_root,
                    list[i].0,
                    list[i].1,
                ) == Ok::<Hash256, Error>(done[i].1.previous_state_root) by {
                    if i < n {
                        assert(done[i] == earlier[i]);
                        assert(short[i] == list[i]);
                    }
                }
            },
            Err(e) => {
                if summaries_dag::completed_v22(
                    short,
                    by_block,
                    parent_block_roots,
                    base_root,
                ) is Err {
                    let i = choose|i: int|
                        0 <= i < short.len() && summaries_dag::previous_root_v22(
                            by_block,
                            parent_block_roots,
                            base_root,
                            (#[trigger] short[i]).0,
                            short[i].1,
                        ) == Err::<Hash256, Error>(e);
                    assert(list[i] == short[i]);
                } else {
                    assert(list[n] == list.last());
                }
            },
        }
    }
}

proof fn lemma_previous(
    list: Seq<(Hash256, DAGStateSummaryV22)>,
    parent_block_roots: Map<Hash256, Hash256>,
    base_root: Hash256,
    i: int,
)
    requires
        0 <= i < list.len(),
        !starts_here(list, base_root, i),
    ensures
        match summaries_dag::previous_root_v22(
            summaries_dag::last_by_block_and_slot(summaries_dag::keyed_v22(list)),
            parent_block_roots,
            base_root,
            list[i].0,
            list[i].1,
        ) {
            Ok(previous) => is_previous(list, parent_block_roots, i, previous),
            Err(e) => is_completion_error(list, parent_block_roots, i, e),
        },
{
    let grouped = summaries_dag::last_by_block_and_slot(summaries_dag::keyed_v22(list));
    lemma_grouped(list);
    let block = list[i].1.latest_block_root;
    let before = (list[i].1.slot - 1) as u64;
    assert(has_state_of(list, block));
    assert(grouped.contains_key(block));
    lemma_place_or_not(list, block, before);
    if parent_block_roots.contains_key(block) {
        lemma_place_or_not(list, parent_block_roots[block], before);
    }
}

proof fn lemma_place_or_not(list: Seq<(Hash256, DAGStateSummaryV22)>, block: Hash256, slot: Slot)
    ensures
        ({
            let grouped = summaries_dag::last_by_block_and_slot(summaries_dag::keyed_v22(list));
            &&& has_place(grouped, block, slot) <==> has_state_at(list, block, slot as int)
            &&& has_place(grouped, block, slot) ==> exists|j: int| #[trigger]
                is_state_at(list, j, block, slot as int) && list[j].0 == grouped[block][slot]
            &&& grouped.contains_key(block) <==> has_state_of(list, block)
        }),
{
    let grouped = summaries_dag::last_by_block_and_slot(summaries_dag::keyed_v22(list));
    lemma_grouped(list);
    if has_state_at(list, block, slot as int) {
        let j = choose|j: int| #[trigger] is_state_at(list, j, block, slot as int);
        assert(has_place(grouped, block, slot) && grouped[block][slot] == list[j].0);
    }
}

/// Whether `e` says why state `i` has no state before it: the parent of its block is unknown, or no
/// state of the parent is listed at all, or none one slot earlier.
pub open spec fn is_completion_error(
    list: Seq<(Hash256, DAGStateSummaryV22)>,
    parent_block_roots: Map<Hash256, Hash256>,
    i: int,
    e: Error,
) -> bool {
    let block = list[i].1.latest_block_root;
    let parent = parent_block_roots[block];
    &&& !has_previous(list, parent_block_roots, i)
    &&& if !parent_block_roots.contains_key(block) {
        e == Error::MissingParentBlockRoot(block)
    } else if !has_state_of(list, parent) {
        e == Error::MissingStateSummary(parent)
    } else {
        e == Error::MissingStateSummaryAtSlot(parent, (list[i].1.slot - 1) as u64)
    }
}

/// Completion fails exactly where some state that does not start the graph has no state before it,
/// and with the reason of such a state.
pub proof fn law_completion_fails_where_a_state_is_missing(
    list: Seq<(Hash256, DAGStateSummaryV22)>,
    parent_block_roots: Map<Hash256, Hash256>,
    base_root: Hash256,
)
    ensures
        ({
            let r = summaries_dag::completed_v22(
                list,
                summaries_dag::last_by_block_and_slot(summaries_dag::keyed_v22(list)),
                parent_block_roots,
                base_root,
            );
            &&& r matches Err(e) ==> exists|i: int|
                0 <= i < list.len() && !starts_here(list, base_root, i) && #[trigger] is_completion_error(
                    list,
                    parent_block_roots,
                    i,
                    e,
                )
            &&& r is Ok <==> forall|i: int|
                0 <= i < list.len() && !starts_here(list, base_root, i) ==> #[trigger] has_previous(
                    list,
                    parent_block_roots,
                    i,
                )
        }),
{
    let grouped = summaries_dag::last_by_block_and_slot(summaries_dag::keyed_v22(list));
    let r = summaries_dag::completed_v22(list, grouped, parent_block_roots, base_root);
    lemma_entries(list, grouped, parent_block_roots, base_root);
    match r {
        Ok(done) => {
            assert forall|i: int| 0 <= i < list.len() && !starts_here(list, base_root, i) implies #[trigger] has_previous(
            list, parent_block_roots, i) by {
                assert(done[i].0 == list[i].0);
                lemma_previous(list, parent_block_roots, base_root, i);
            }
        },
        Err(e) => {
            let i = choose|i: int|
                0 <= i < list.len() && summaries_dag::previous_root_v22(
                    grouped,
                    parent_block_roots,
                    base_root,
                    (#[trigger] list[i]).0,
                    list[i].1,
                ) == Err::<Hash256, Error>(e);
            lemma_previous(list, parent_block_roots, base_root, i);
            assert(is_completion_error(list, parent_block_roots, i, e));
            assert(!has_previous(list, parent_block_roots, i));
        },
    }
}

} // verus!
