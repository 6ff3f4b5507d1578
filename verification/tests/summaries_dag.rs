use lighthouse_core::ordered_map::OrderedMap;
use lighthouse_core::summaries_dag::{
    BlockSummariesDAG, DAGBlockSummary, DAGStateSummary, DAGStateSummaryV22, Error,
    StateSummariesDAG,
};
use lighthouse_core::types::{Hash256, Slot};

fn root(n: u64) -> Hash256 {
    Hash256::from_low_u64_le(n)
}

fn block_with_parent(parent_root: Hash256) -> DAGBlockSummary {
    DAGBlockSummary { slot: 0, parent_root }
}

fn parents(pairs: &[(Hash256, Hash256)]) -> OrderedMap<Hash256, Hash256> {
    let mut map = OrderedMap::new();
    for (child, parent) in pairs {
        map.insert(*child, *parent);
    }
    map
}

fn summary_v22(slot: Slot, latest_block_root: Hash256) -> DAGStateSummaryV22 {
    DAGStateSummaryV22 { slot, latest_block_root }
}

fn summary(slot: Slot, block: u64, previous: u64) -> DAGStateSummary {
    DAGStateSummary {
        slot,
        latest_block_root: root(block),
        previous_state_root: root(previous),
    }
}

#[test]
fn new_from_v22_empty() {
    let dag = StateSummariesDAG::new_from_v22(vec![], OrderedMap::new(), Hash256::zero());
    assert!(dag.is_ok());
}

#[test]
fn new_from_v22_one_state() {
    let root_a = root(0xa);
    let root_1 = root(1);
    let root_2 = root(2);
    let summary_1 = summary_v22(1, root_1);
    let parents = parents(&[(root_1, root_2)]);

    let dag = StateSummariesDAG::new_from_v22(vec![(root_a, summary_1)], parents, root_a)
        .ok()
        .unwrap();

    // The parent of the root summary is ZERO
    assert_eq!(dag.previous_state_root(root_a).unwrap(), Hash256::zero());
}

#[test]
fn descendant_block_roots_of() {
    let root_1 = root(1);
    let root_2 = root(2);
    let root_3 = root(3);
    let parents = vec![(root_1, block_with_parent(root_2))];
    let dag = BlockSummariesDAG::new(&parents);

    // root 1 is known and has no childs
    assert_eq!(
        dag.descendant_block_roots_of(&root_1).unwrap(),
        Vec::<Hash256>::new()
    );
    // root 2 is known and has childs
    assert_eq!(
        dag.descendant_block_roots_of(&root_2).unwrap(),
        vec![root_1]
    );
    // root 3 is not known
    {
        let err = dag.descendant_block_roots_of(&root_3).unwrap_err();
        if let Error::MissingChildBlockRoot(_) = err {
            // ok
        } else {
            panic!("unexpected err {err:?}");
        }
    }
}

/// Blocks 1 (slot 1), 3 (slot 3) on 1; states a1, a2 (skipped slot), a3.
fn three_states() -> StateSummariesDAG {
    StateSummariesDAG::new_from_v22(
        vec![
            (root(0xa1), summary_v22(1, root(1))),
            (root(0xa2), summary_v22(2, root(1))),
            (root(0xa3), summary_v22(3, root(3))),
        ],
        parents(&[(root(1), root(0)), (root(3), root(1))]),
        root(0xa1),
    )
    .ok()
    .unwrap()
}

#[test]
fn completed_states_link_to_the_slot_before() {
    let dag = three_states();
    assert_eq!(dag.previous_state_root(root(0xa3)), Ok(root(0xa2)));
    assert_eq!(dag.previous_state_root(root(0xa2)), Ok(root(0xa1)));
    assert_eq!(dag.previous_state_root(root(0xa1)), Ok(Hash256::zero()));
    assert_eq!(
        dag.previous_state_root(root(9)),
        Err(Error::MissingStateSummary(root(9)))
    );
    assert_eq!(dag.summaries_count(), 3);
}

#[test]
fn states_are_listed_by_slot() {
    let dag = three_states();
    let by_slot = dag.summaries_by_slot_ascending();
    assert_eq!(by_slot.keys().copied().collect::<Vec<_>>(), vec![1, 2, 3]);
    assert_eq!(by_slot[&2], vec![(root(0xa2), summary(2, 1, 0xa1))]);
}

#[test]
fn ancestors_are_found_at_their_slot() {
    let dag = three_states();
    assert_eq!(dag.ancestor_state_root_at_slot(root(0xa3), 3), Ok(root(0xa3)));
    assert_eq!(dag.ancestor_state_root_at_slot(root(0xa3), 1), Ok(root(0xa1)));
    assert_eq!(
        dag.ancestor_state_root_at_slot(root(0xa2), 3),
        Err(Error::RequestedSlotAboveSummary(root(0xa2), 3))
    );
    assert_eq!(
        dag.ancestor_state_root_at_slot(root(0xa3), 0),
        Err(Error::MissingStateSummary(Hash256::zero()))
    );
    assert_eq!(
        dag.ancestors_of(root(0xa3)),
        Ok(vec![(root(0xa3), 3), (root(0xa2), 2), (root(0xa1), 1)])
    );
    assert_eq!(
        dag.ancestors_of(root(9)),
        Err(Error::MissingStateSummary(root(9)))
    );
}

#[test]
fn a_summary_without_a_state_before_it_is_refused() {
    let missing_parent = StateSummariesDAG::new_from_v22(
        vec![(root(0xa2), summary_v22(2, root(2)))],
        OrderedMap::new(),
        Hash256::zero(),
    );
    assert!(matches!(missing_parent, Err(Error::MissingParentBlockRoot(r)) if r == root(2)));

    let unknown_parent = StateSummariesDAG::new_from_v22(
        vec![(root(0xa2), summary_v22(2, root(2)))],
        parents(&[(root(2), root(1))]),
        Hash256::zero(),
    );
    assert!(matches!(unknown_parent, Err(Error::MissingStateSummary(r)) if r == root(1)));

    let gap = StateSummariesDAG::new_from_v22(
        vec![
            (root(0xa1), summary_v22(1, root(1))),
            (root(0xa3), summary_v22(3, root(3))),
        ],
        parents(&[(root(3), root(1))]),
        root(0xa1),
    );
    assert!(
        matches!(gap, Err(Error::MissingStateSummaryAtSlot(r, s)) if r == root(1) && s == 2)
    );
}

#[test]
fn the_last_summary_of_a_root_counts() {
    let dag = StateSummariesDAG::new(vec![
        (root(0xa), summary(1, 1, 0xb)),
        (root(0xa), summary(1, 1, 0xc)),
    ]);
    assert_eq!(dag.previous_state_root(root(0xa)), Ok(root(0xc)));
    assert_eq!(dag.summaries_count(), 1);
}

fn block(slot: Slot, parent: u64) -> DAGBlockSummary {
    DAGBlockSummary { slot, parent_root: root(parent) }
}

#[test]
fn descendants_and_ancestors_of_a_fork() {
    let dag = BlockSummariesDAG::new(&[
        (root(2), block(2, 1)),
        (root(3), block(3, 2)),
        (root(4), block(4, 2)),
        (root(5), block(5, 3)),
    ]);
    let mut below_two = dag.descendant_block_roots_of(&root(2)).unwrap();
    below_two.sort_by_key(|r| r.lo);
    assert_eq!(below_two, vec![root(3), root(4), root(5)]);
    assert_eq!(
        dag.ancestors_of(root(5)),
        Ok(vec![(root(5), 5), (root(3), 3), (root(2), 2)])
    );
    assert_eq!(dag.ancestors_of(root(9)), Err(Error::MissingBlock(root(9))));
    let mut all = dag.iter();
    all.sort_by_key(|e| e.1);
    assert_eq!(
        all,
        vec![(root(2), 2), (root(3), 3), (root(4), 4), (root(5), 5)]
    );
}

#[test]
fn descendants_come_after_their_parents() {
    let blocks = [
        (root(6), block(6, 5)),
        (root(5), block(5, 3)),
        (root(4), block(4, 2)),
        (root(3), block(3, 2)),
        (root(2), block(2, 1)),
        (root(9), block(9, 8)),
    ];
    let dag = BlockSummariesDAG::new(&blocks);
    // The parent of the first block is no block itself.
    assert_eq!(
        dag.descendant_block_roots_of(&root(1)).unwrap(),
        vec![root(2), root(4), root(3), root(5), root(6)]
    );
    assert_eq!(
        dag.descendant_block_roots_of(&root(3)).unwrap(),
        vec![root(5), root(6)]
    );
    assert_eq!(dag.descendant_block_roots_of(&root(6)).unwrap(), vec![]);
}

#[test]
fn states_are_counted_by_block_and_slot() {
    let states = vec![
        (root(0xa), summary(1, 1, 0)),
        (root(0xb), summary(2, 1, 0xa)),
        (root(0xc), summary(2, 2, 0xa)),
        // The place of the first one again.
        (root(0xd), summary(1, 1, 0)),
    ];
    let dag = StateSummariesDAG::new(states.clone());
    assert_eq!(dag.summaries_count(), 3);
    let by_slot = dag.summaries_by_slot_ascending();
    assert_eq!(by_slot.values().map(|states| states.len()).sum::<usize>(), 3);
    assert_eq!(by_slot[&1], vec![(root(0xd), summary(1, 1, 0))]);

    let distinct = StateSummariesDAG::new(states[..3].to_vec());
    assert_eq!(distinct.summaries_count(), 3);
    assert_eq!(StateSummariesDAG::new(vec![]).summaries_count(), 0);
}
