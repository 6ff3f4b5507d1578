//! Rewriting the hot state summaries of the database in the new schema.
//!
//! The migration is driven from outside: [`SummaryReader`] gathers the old summaries, and
//! [`HotStateMigration`] says state by state what is to be written. Reading and writing the database
//! is the caller's part.
use crate::btree;
use crate::encoding;
use crate::lineage;
use crate::ordered_map::OrderedMap;
use crate::persisted_beacon_chain::DBColumn;
use crate::positions;
use crate::summaries_dag;
use crate::summaries_dag::{DAGStateSummary, DAGStateSummaryV22, StateSummariesDAG};
use crate::summaries_dag_laws;
use crate::types::{Hash256, Slot};
use std::collections::BTreeMap;
use vstd::prelude::*;

verus! {

broadcast use vstd::std_specs::btree::group_btree_axioms;

/// A state summary as the old schema stores it.
#[derive(Clone, Copy, PartialEq, Eq, Structural, Debug)]
pub struct HotStateSummaryV22 {
    pub slot: Slot,
    pub latest_block_root: Hash256,
    pub epoch_boundary_state_root: Hash256,
}

/// Why the migration failed.
#[derive(Clone, Copy, PartialEq, Eq, Structural, Debug)]
pub enum Error {
    /// An old summary could not be decoded.
    SszDecodeError,
    /// The block of an old summary is not in the database.
    MissingBlock(Hash256),
    /// A state that has to be stored in full is not in the database.
    MissingState(Hash256),
    /// The graph of the summaries could not be built.
    ComputingDag(summaries_dag::Error),
    /// The state before a migrated state could not be determined.
    ComputingPreviousStateRoot(summaries_dag::Error),
    /// The state from which a migrated state is replayed could not be determined.
    ComputingAncestorStateRoot(summaries_dag::Error),
}

/// Whether `bytes` are the SSZ encoding of `summary`: the slot and the two roots.
pub open spec fn encodes_v22(bytes: Seq<u8>, summary: HotStateSummaryV22) -> bool {
    &&& bytes.len() == 72
    &&& encoding::le_at(bytes, 0, 8) == summary.slot
    &&& encoding::root_at(bytes, 8, summary.latest_block_root)
    &&& encoding::root_at(bytes, 40, summary.epoch_boundary_state_root)
}

/// `ssz::Decode::from_ssz_bytes` for the container of a slot and two roots, a root being the
/// container of its halves. It succeeds exactly on 72 bytes.
#[verifier::external_body]
fn ssz_decode(bytes: &[u8]) -> (r: Result<HotStateSummaryV22, ssz::DecodeError>)
    ensures
        r is Ok <==> bytes@.len() == 72,
        r matches Ok(summary) ==> encodes_v22(bytes@, summary),
{
    let value: (u64, (u128, u128), (u128, u128)) = ssz::Decode::from_ssz_bytes(bytes)?;
    Ok(HotStateSummaryV22 {
        slot: value.0,
        latest_block_root: Hash256 { lo: value.1.0, hi: value.1.1 },
        epoch_boundary_state_root: Hash256 { lo: value.2.0, hi: value.2.1 },
    })
}

impl HotStateSummaryV22 {
    /// Reads an old summary.
    pub fn from_ssz_bytes(bytes: &[u8]) -> (r: Result<Self, Error>)
        ensures
            match r {
                Ok(summary) => encodes_v22(bytes@, summary),
                Err(e) => e == Error::SszDecodeError && bytes@.len() != 72,
            },
    {
        match ssz_decode(bytes) {
            Ok(summary) => Ok(summary),
            Err(_) => Err(Error::SszDecodeError),
        }
    }
}

/// The old summaries read so far, and the parents of their blocks.
pub struct SummaryReader {
    pub summaries: Vec<(Hash256, DAGStateSummaryV22)>,
    pub parents: OrderedMap<Hash256, Hash256>,
}

/// Whether `parents` knows the parent of the block of every summary in `list`.
pub open spec fn blocks_known(
    list: Seq<(Hash256, DAGStateSummaryV22)>,
    parents: Map<Hash256, Hash256>,
) -> bool {
    forall|i: int|
        0 <= i < list.len() ==> parents.contains_key((#[trigger] list[i]).1.latest_block_root)
}

/// Whether every backwards walk through the graph comes to an end.
pub open spec fn walks_end(dag: StateSummariesDAG) -> bool {
    forall|root: Hash256| #[trigger] lineage::walk_ends(dag.previous_roots(), root)
}

proof fn lemma_no_missing_parent(
    list: Seq<(Hash256, DAGStateSummaryV22)>,
    by_block: Map<Hash256, Map<Slot, Hash256>>,
    parents: Map<Hash256, Hash256>,
    base_root: Hash256,
)
    requires
        blocks_known(list, parents),
    ensures
        summaries_dag::completed_v22(list, by_block, parents, base_root) matches Err(e)
            ==> !(e is MissingParentBlockRoot),
    decreases list.len(),
{
    if list.len() > 0 {
        let short = list.drop_last();
        assert(blocks_known(short, parents)) by {
            assert forall|i: int| 0 <= i < short.len() implies parents.contains_key(
                (#[trigger] short[i]).1.latest_block_root,
            ) by {
                assert(short[i] == list[i]);
            }
        }
        lemma_no_missing_parent(short, by_block, parents, base_root);
        assert(parents.contains_key(list[list.len() - 1].1.latest_block_root));
    }
}

impl SummaryReader {
    /// Whether the parent of the block of every summary is known.
    pub open spec fn wf(self) -> bool {
        self.parents.wf() && blocks_known(self.summaries@, self.parents@)
    }

    /// Nothing has been read.
    pub fn new() -> (r: Self)
        ensures
            r.wf(),
            r.summaries@.len() == 0,
            r.parents@ == Map::<Hash256, Hash256>::empty(),
    {
        SummaryReader { summaries: Vec::new(), parents: OrderedMap::new() }
    }

    /// Takes up the old summary of `state_root`, whose block has the parent `parent_root`, or is
    /// missing from the database.
    pub fn insert(
        &mut self,
        state_root: Hash256,
        summary: HotStateSummaryV22,
        parent_root: Option<Hash256>,
    ) -> (r: Result<(), Error>)
        requires
            old(self).wf(),
        ensures
            final(self).wf(),
            match parent_root {
                None => r == Err::<(), Error>(Error::MissingBlock(summary.latest_block_root))
                    && *final(self) == *old(self),
                Some(parent) => r is Ok && final(self).summaries@ == old(self).summaries@.push(
                    (
                        state_root,
                        DAGStateSummaryV22 {
                            slot: summary.slot,
                            latest_block_root: summary.latest_block_root,
                        },
                    ),
                ) && final(self).parents@ == old(self).parents@.insert(
                    summary.latest_block_root,
                    parent,
                ),
            },
    {
        match parent_root {
            None => Err(Error::MissingBlock(summary.latest_block_root)),
            Some(parent) => {
                self.summaries.push(
                    (
                        state_root,
                        DAGStateSummaryV22 {
                            slot: summary.slot,
                            latest_block_root: summary.latest_block_root,
                        },
                    ),
                );
                let _ = self.parents.insert(summary.latest_block_root, parent);
                proof {
                    assert forall|i: int| 0 <= i < self.summaries@.len() implies self.parents@.contains_key(
                        (#[trigger] self.summaries@[i]).1.latest_block_root,
                    ) by {
                        if i < old(self).summaries@.len() {
                            assert(self.summaries@[i] == old(self).summaries@[i]);
                        }
                    }
                }
                Ok(())
            },
        }
    }

    /// Builds the graph of the summaries, down to the state `base_root`.
    ///
    /// Where no two summaries have the same state root and none has the zero root, every backwards
    /// walk through the graph comes to an end.
    pub fn new_dag(self, base_root: Hash256) -> (r: Result<StateSummariesDAG, Error>)
        requires
            self.wf(),
        ensures
            match summaries_dag::completed_v22(
                self.summaries@,
                summaries_dag::last_by_block_and_slot(summaries_dag::keyed_v22(self.summaries@)),
                self.parents@,
                base_root,
            ) {
                Err(e) => !(e is MissingParentBlockRoot) && r == Err::<StateSummariesDAG, Error>(
                    Error::ComputingDag(e),
                ),
                Ok(list) => r matches Ok(dag) && dag.wf() && dag.by_state_root()
                    == summaries_dag::last_values(list) && dag.by_block_root()
                    == summaries_dag::last_by_block_and_slot(summaries_dag::keyed(list)),
            },
            summaries_dag_laws::distinct_roots(self.summaries@) && !summaries_dag_laws::has_root(
                self.summaries@,
                Hash256::zero(),
            ) ==> (r matches Ok(dag) ==> walks_end(dag)),
    {
        let ghost list = self.summaries@;
        let ghost parents = self.parents@;
        let ghost by_block = summaries_dag::last_by_block_and_slot(summaries_dag::keyed_v22(list));
        proof {
            lemma_no_missing_parent(list, by_block, parents, base_root);
        }
        match StateSummariesDAG::new_from_v22(self.summaries, self.parents, base_root) {
            Ok(dag) => {
                proof {
                    let done = summaries_dag::completed_v22(list, by_block, parents, base_root)->Ok_0;
                    if summaries_dag_laws::distinct_roots(list) && !summaries_dag_laws::has_root(
                        list,
                        Hash256::zero(),
                    ) {
                        assert forall|root: Hash256| #[trigger]
                            lineage::walk_ends(dag.previous_roots(), root) by {
                            summaries_dag_laws::law_completed_walks_end(
                                list,
                                parents,
                                base_root,
                                done,
                                root,
                            );
                        }
                    }
                }
                Ok(dag)
            },
            Err(e) => Err(Error::ComputingDag(e)),
        }
    }
}

/// The boundary between the hot and the cold database.
#[derive(Clone, Copy, PartialEq, Eq, Structural, Debug)]
pub struct Split {
    pub slot: Slot,
    pub state_root: Hash256,
    pub block_root: Hash256,
}

/// The anchor slot after the migration: the slot of the split.
pub fn new_anchor_slot(split: &Split) -> (r: Slot)
    ensures
        r == split.slot,
{
    split.slot
}

/// How the new schema stores the state at some slot.
#[derive(Clone, Copy, PartialEq, Eq, Structural, Debug)]
pub enum StorageStrategy {
    /// As a difference from the state at this slot.
    DiffFrom(Slot),
    /// In full.
    Snapshot,
    /// Not at all: it is replayed from the state at this slot.
    ReplayFrom(Slot),
}

impl StorageStrategy {
    /// The slot of the state that this one builds on.
    #[verifier::allow_in_spec]
    pub fn diff_base_slot(&self) -> Option<Slot>
        returns
            (match *self {
                StorageStrategy::DiffFrom(slot) => Some(slot),
                StorageStrategy::ReplayFrom(slot) => Some(slot),
                StorageStrategy::Snapshot => None,
            }),
    {
        match *self {
            StorageStrategy::DiffFrom(slot) => Some(slot),
            StorageStrategy::ReplayFrom(slot) => Some(slot),
            StorageStrategy::Snapshot => None,
        }
    }
}

/// The state that another one builds on.
#[derive(Clone, Copy, PartialEq, Eq, Structural, Debug)]
pub struct DiffBaseStateRoot {
    pub slot: Slot,
    pub state_root: Hash256,
}

impl DiffBaseStateRoot {
    /// Stands for no state.
    #[verifier::allow_in_spec]
    pub fn zero() -> DiffBaseStateRoot
        returns
            (DiffBaseStateRoot { slot: 0, state_root: Hash256::zero() }),
    {
        DiffBaseStateRoot { slot: 0, state_root: Hash256::zero() }
    }
}

/// A state summary as the new schema stores it.
#[derive(Clone, Copy, PartialEq, Eq, Structural, Debug)]
pub struct HotStateSummary {
    pub slot: Slot,
    pub latest_block_root: Hash256,
    pub previous_state_root: Hash256,
    pub diff_base_state_root: DiffBaseStateRoot,
}

impl From<HotStateSummary> for DAGStateSummaryV22 {
    fn from(value: HotStateSummary) -> (r: Self) {
        DAGStateSummaryV22 { slot: value.slot, latest_block_root: value.latest_block_root }
    }
}

impl vstd::std_specs::convert::FromSpecImpl<HotStateSummary> for DAGStateSummaryV22 {
    open spec fn obeys_from_spec() -> bool {
        true
    }

    open spec fn from_spec(value: HotStateSummary) -> Self {
        DAGStateSummaryV22 { slot: value.slot, latest_block_root: value.latest_block_root }
    }
}

/// What is to be written for one state.
#[derive(Clone, Copy, PartialEq, Eq, Structural, Debug)]
pub enum MigrationAction {
    /// Load the state and store its summary and its snapshot or difference at once.
    StoreFullState(Hash256),
    /// Store this summary under the state root at once.
    StoreSummary(Hash256, HotStateSummary),
}

/// A deletion that is staged until the migration is complete: the column, and the root whose bytes
/// are the key.
#[derive(Clone, Copy, PartialEq, Eq, Structural, Debug)]
pub struct DeleteKey {
    pub column: DBColumn,
    pub key: Hash256,
}

/// A state and its slot.
pub type PlacedState = (Slot, Hash256, DAGStateSummary);

/// Whether `states` lists every state of the graph once, in the order of the slots.
pub open spec fn lists_by_slot(
    states: Seq<PlacedState>,
    by_block: Map<Hash256, Map<Slot, (Hash256, DAGStateSummary)>>,
) -> bool {
    &&& states.no_duplicates()
    &&& forall|i: int, j: int|
        0 <= i < j < states.len() ==> (#[trigger] states[i]).0 <= (#[trigger] states[j]).0
    &&& forall|slot: Slot, root: Hash256, summary: DAGStateSummary| #[trigger]
        states.contains((slot, root, summary)) <==> summaries_dag::holds_state(
            by_block,
            slot,
            (root, summary),
        )
}

/// The states of one slot, each with the slot.
pub open spec fn tagged(slot: Slot, states: Seq<(Hash256, DAGStateSummary)>) -> Seq<PlacedState> {
    states.map_values(|e: (Hash256, DAGStateSummary)| (slot, e.0, e.1))
}

spec fn flattened(keys: Seq<u64>, m: Map<Slot, Vec<(Hash256, DAGStateSummary)>>) -> Seq<PlacedState>
    decreases keys.len(),
{
    if keys.len() == 0 {
        Seq::empty()
    } else {
        flattened(keys.drop_last(), m) + tagged(keys.last(), m[keys.last()]@)
    }
}

proof fn lemma_flattened(keys: Seq<u64>, m: Map<Slot, Vec<(Hash256, DAGStateSummary)>>)
    requires
        forall|i: int, j: int| 0 <= i < j < keys.len() ==> (#[trigger] keys[i]) < (#[trigger] keys[j]),
        forall|k: int| 0 <= k < keys.len() ==> m[#[trigger] keys[k]]@.no_duplicates(),
    ensures
        flattened(keys, m).no_duplicates(),
        forall|i: int, j: int|
            0 <= i < j < flattened(keys, m).len() ==> (#[trigger] flattened(keys, m)[i]).0 <= (
            #[trigger] flattened(keys, m)[j]).0,
        forall|p: PlacedState| #[trigger]
            flattened(keys, m).contains(p) <==> keys.contains(p.0) && m[p.0]@.contains((p.1, p.2)),
    decreases keys.len(),
{
    let all = flattened(keys, m);
    if keys.len() > 0 {
        let short = keys.drop_last();
        let last = keys.last();
        assert forall|i: int, j: int| 0 <= i < j < short.len() implies (#[trigger] short[i]) < (
        #[trigger] short[j]) by {
            assert(keys[i] < keys[j]);
        }
        assert forall|k: int| 0 <= k < short.len() implies m[#[trigger] short[k]]@.no_duplicates() by {
            assert(short[k] == keys[k]);
        }
        lemma_flattened(short, m);
        let earlier = flattened(short, m);
        let here = tagged(last, m[last]@);
        assert(all == earlier + here);
        assert(m[keys[keys.len() - 1]]@.no_duplicates());
        assert forall|i: int| 0 <= i < earlier.len() implies (#[trigger] earlier[i]).0 < last by {
            assert(earlier.contains(earlier[i]));
            let k = choose|k: int| 0 <= k < short.len() && short[k] == earlier[i].0;
            assert(keys[k] < keys[keys.len() - 1]);
        }
        assert forall|i: int, j: int| 0 <= i < j < all.len() implies (#[trigger] all[i]).0 <= (
        #[trigger] all[j]).0 && all[i] != all[j] by {
            if j < earlier.len() {
                assert(earlier[i].0 <= earlier[j].0);
                assert(earlier[i] != earlier[j]);
            } else if i < earlier.len() {
                assert(earlier[i].0 < last);
            } else {
                let a = m[last]@[i - earlier.len()];
                let b = m[last]@[j - earlier.len()];
                assert(a != b);
                assert(all[i] == (last, a.0, a.1));
                assert(all[j] == (last, b.0, b.1));
            }
        }
        assert forall|p: PlacedState| #[trigger] all.contains(p) <==> keys.contains(p.0)
            && m[p.0]@.contains((p.1, p.2)) by {
            if all.contains(p) {
                let i = choose|i: int| 0 <= i < all.len() && all[i] == p;
                if i < earlier.len() {
                    assert(earlier[i] == p);
                    assert(earlier.contains(p));
                    let k = choose|k: int| 0 <= k < short.len() && short[k] == p.0;
                    assert(keys[k] == p.0);
                } else {
                    assert(m[last]@[i - earlier.len()] == (p.1, p.2));
                    assert(keys[keys.len() - 1] == p.0);
                }
            }
            if keys.contains(p.0) && m[p.0]@.contains((p.1, p.2)) {
                let k = choose|k: int| 0 <= k < keys.len() && keys[k] == p.0;
                if k < short.len() {
                    assert(short[k] == p.0);
                    assert(earlier.contains(p));
                    let i = choose|i: int| 0 <= i < earlier.len() && earlier[i] == p;
                    assert(all[i] == p);
                } else {
                    let i = choose|i: int| 0 <= i < m[last]@.len() && m[last]@[i] == (p.1, p.2);
                    assert(all[earlier.len() + i] == p);
                }
            }
        }
    }
}

/// Every state of the graph with its slot, in the order of the slots.
fn states_by_slot(dag: &StateSummariesDAG) -> (r: Vec<PlacedState>)
    requires
        dag.wf(),
    ensures
        lists_by_slot(r@, dag.by_block_root()),
{
    let by_slot: BTreeMap<Slot, Vec<(Hash256, DAGStateSummary)>> = dag.summaries_by_slot_ascending();
    let slots: Vec<u64> = btree::keys(&by_slot);
    let ghost keys = slots@;
    let mut r: Vec<PlacedState> = Vec::new();
    let mut i: usize = 0;
    while i < slots.len()
        invariant
            i <= slots.len(),
            keys == slots@,
            forall|k: u64| #[trigger] by_slot@.contains_key(k) <==> keys.contains(k),
            r@ == flattened(keys.take(i as int), by_slot@),
        decreases slots.len() - i,
    {
        let slot: Slot = slots[i];
        let ghost before = r@;
        assert(keys.contains(keys[i as int]));
        if let Some(states) = by_slot.get(&slot) {
            let mut j: usize = 0;
            while j < states.len()
                invariant
                    j <= states.len(),
                    r@ == before + tagged(slot, states@.take(j as int)),
                decreases states.len() - j,
            {
                r.push((slot, states[j].0, states[j].1));
                proof {
                    assert(tagged(slot, states@.take(j + 1)) =~= tagged(slot, states@.take(j as int)).push(
                        (slot, states@[j as int].0, states@[j as int].1),
                    ));
                }
                j += 1;
            }
            assert(states@.take(j as int) =~= states@);
        }
        proof {
            assert(keys.take(i + 1).drop_last() =~= keys.take(i as int));
        }
        i += 1;
    }
    proof {
        assert(keys.take(i as int) =~= keys);
        assert forall|k: int| 0 <= k < keys.len() implies by_slot@[#[trigger] keys[k]]@.no_duplicates() by {
            assert(keys.contains(keys[k]));
            assert(by_slot@.contains_key(keys[k]));
        }
        lemma_flattened(keys, by_slot@);
        assert forall|slot: Slot, root: Hash256, summary: DAGStateSummary| #[trigger]
            r@.contains((slot, root, summary)) <==> summaries_dag::holds_state(
                dag.by_block_root(),
                slot,
                (root, summary),
            ) by {
            assert(flattened(keys, by_slot@).contains((slot, root, summary)) <==> keys.contains(slot)
                && by_slot@[slot]@.contains((root, summary)));
            assert(summaries_dag::lists_at(by_slot@, slot, (root, summary))
                <==> summaries_dag::holds_state(dag.by_block_root(), slot, (root, summary)));
        }
    }
    r
}

/// The state at `slot` on the backwards walk from `root`, or why there is none.
pub open spec fn ancestor_at(dag: StateSummariesDAG, root: Hash256, slot: Slot) -> Result<
    Hash256,
    summaries_dag::Error,
> {
    let n = choose|n: nat|
        summaries_dag::search_stops_at(dag.by_state_root(), dag.previous_roots(), root, slot, n);
    summaries_dag::search_result(
        dag.by_state_root(),
        lineage::nth_ancestor(dag.previous_roots(), root, n),
        slot,
    )
}

/// The state before `root`: none for the state of the split.
pub open spec fn previous_of(dag: StateSummariesDAG, split: Split, root: Hash256) -> Result<
    Hash256,
    summaries_dag::Error,
> {
    if root == split.state_root {
        Ok(Hash256::zero())
    } else if dag.by_state_root().contains_key(root) {
        Ok(dag.by_state_root()[root].previous_state_root)
    } else {
        Err(summaries_dag::Error::MissingStateSummary(root))
    }
}

/// What is to be written for `state`, or why that cannot be determined.
pub open spec fn action_for(
    dag: StateSummariesDAG,
    split: Split,
    state: PlacedState,
    strategy: StorageStrategy,
) -> Result<MigrationAction, Error> {
    match strategy {
        StorageStrategy::ReplayFrom(base_slot) => match previous_of(dag, split, state.1) {
            Err(e) => Err(Error::ComputingPreviousStateRoot(e)),
            Ok(previous_state_root) => match ancestor_at(dag, state.1, base_slot) {
                Err(e) => Err(Error::ComputingAncestorStateRoot(e)),
                Ok(base) => Ok(
                    MigrationAction::StoreSummary(
                        state.1,
                        HotStateSummary {
                            slot: state.0,
                            latest_block_root: state.2.latest_block_root,
                            previous_state_root,
                            diff_base_state_root: DiffBaseStateRoot {
                                slot: base_slot,
                                state_root: base,
                            },
                        },
                    ),
                ),
            },
        },
        _ => Ok(MigrationAction::StoreFullState(state.1)),
    }
}

/// What is deleted of one migrated state: the state itself where it starts an epoch, and its
/// summary.
pub open spec fn deletions_of(state: PlacedState, slots_per_epoch: u64) -> Seq<DeleteKey> {
    let summary = DeleteKey { column: DBColumn::BeaconStateSummary, key: state.1 };
    if state.0 % slots_per_epoch == 0 {
        seq![DeleteKey { column: DBColumn::BeaconState, key: state.1 }, summary]
    } else {
        seq![summary]
    }
}

/// What is deleted of all migrated states, in their order.
pub open spec fn all_deletions(states: Seq<PlacedState>, slots_per_epoch: u64) -> Seq<DeleteKey>
    decreases states.len(),
{
    if states.len() == 0 {
        Seq::empty()
    } else {
        all_deletions(states.drop_last(), slots_per_epoch) + deletions_of(
            states.last(),
            slots_per_epoch,
        )
    }
}

/// A migration in progress.
pub struct HotStateMigration {
    pub dag: StateSummariesDAG,
    pub split: Split,
    pub slots_per_epoch: u64,
    /// Every state of the graph, in the order of the slots.
    pub states: Vec<PlacedState>,
    /// The number of states that have been migrated.
    pub summaries_written: usize,
    /// The number of states that were stored in full or as a difference.
    pub diffs_written: usize,
    /// The deletions that are staged.
    pub migrate_ops: Vec<DeleteKey>,
}

impl HotStateMigration {
    /// The states are those of the graph by slot, and what is staged is exactly what the migrated
    /// ones leave behind.
    pub open spec fn wf(self) -> bool {
        &&& self.dag.wf()
        &&& walks_end(self.dag)
        &&& self.slots_per_epoch > 0
        &&& lists_by_slot(self.states@, self.dag.by_block_root())
        &&& self.diffs_written <= self.summaries_written <= self.states@.len()
        &&& self.migrate_ops@ == all_deletions(
            self.states@.take(self.summaries_written as int),
            self.slots_per_epoch,
        )
    }

    /// Starts the migration of the states of `dag`.
    pub fn new(dag: StateSummariesDAG, split: Split, slots_per_epoch: u64) -> (r: Self)
        requires
            dag.wf(),
            walks_end(dag),
            slots_per_epoch > 0,
        ensures
            r.wf(),
            r.dag == dag,
            r.split == split,
            r.slots_per_epoch == slots_per_epoch,
            r.summaries_written == 0,
            r.diffs_written == 0,
    {
        let states = states_by_slot(&dag);
        assert(states@.take(0) =~= Seq::empty());
        HotStateMigration {
            dag,
            split,
            slots_per_epoch,
            states,
            summaries_written: 0,
            diffs_written: 0,
            migrate_ops: Vec::new(),
        }
    }

    /// The slot and root of the state to migrate next, for which the caller has to know the storage
    /// strategy of the slot.
    pub fn next_state(&self) -> (r: Option<(Slot, Hash256)>)
        requires
            self.wf(),
        ensures
            r == (if self.summaries_written < self.states@.len() {
                let state = self.states@[self.summaries_written as int];
                Some((state.0, state.1))
            } else {
                None
            }),
    {
        if self.summaries_written < self.states.len() {
            let state = self.states[self.summaries_written];
            Some((state.0, state.1))
        } else {
            None
        }
    }

    /// Migrates the next state: says what is to be written for it and stages what it leaves behind.
    /// Where that cannot be determined, nothing changes.
    pub fn migrate_next(&mut self, strategy: StorageStrategy) -> (r: Result<MigrationAction, Error>)
        requires
            old(self).wf(),
            old(self).summaries_written < old(self).states@.len(),
        ensures
            final(self).wf(),
            r == action_for(
                old(self).dag,
                old(self).split,
                old(self).states@[old(self).summaries_written as int],
                strategy,
            ),
            r is Err ==> *final(self) == *old(self),
            r is Ok ==> {
                &&& final(self).summaries_written == old(self).summaries_written + 1
                &&& final(self).diffs_written == old(self).diffs_written + (if strategy is ReplayFrom {
                    0int
                } else {
                    1int
                })
                &&& final(self).migrate_ops@ == old(self).migrate_ops@ + deletions_of(
                    old(self).states@[old(self).summaries_written as int],
                    old(self).slots_per_epoch,
                )
                &&& *final(self) == (HotStateMigration {
                    summaries_written: final(self).summaries_written,
                    diffs_written: final(self).diffs_written,
                    migrate_ops: final(self).migrate_ops,
                    ..*old(self)
                })
            },
    {
        let count: usize = self.states.len();
        assert(self.summaries_written < count);
        let state = self.states[self.summaries_written];
        let (slot, state_root, old_summary) = state;
        let action = match strategy {
            StorageStrategy::DiffFrom(_) | StorageStrategy::Snapshot => {
                self.diffs_written += 1;
                MigrationAction::StoreFullState(state_root)
            },
            StorageStrategy::ReplayFrom(_) => {
                let previous_state_root = if state_root == self.split.state_root {
                    Hash256::zero()
                } else {
                    match self.dag.previous_state_root(state_root) {
                        Ok(root) => root,
                        Err(e) => {
                            return Err(Error::ComputingPreviousStateRoot(e));
                        },
                    }
                };
                let diff_base_state_root = if let Some(diff_base_slot) = strategy.diff_base_slot() {
                    proof {
                        let states = self.dag.by_state_root();
                        assert(lineage::walk_ends(self.dag.previous_roots(), state_root));
                        let n = choose|n: nat|
                            lineage::leaves_after(self.dag.previous_roots(), state_root, n);
                        let m = summaries_dag_laws::law_search_stops_where_walk_ends(
                            states,
                            state_root,
                            diff_base_slot,
                            n,
                        );
                        assert(summaries_dag::search_stops_at(
                            states,
                            self.dag.previous_roots(),
                            state_root,
                            diff_base_slot,
                            m,
                        ));
                    }
                    match self.dag.ancestor_state_root_at_slot(state_root, diff_base_slot) {
                        Ok(root) => DiffBaseStateRoot { slot: diff_base_slot, state_root: root },
                        Err(e) => {
                            return Err(Error::ComputingAncestorStateRoot(e));
                        },
                    }
                } else {
                    DiffBaseStateRoot::zero()
                };
                MigrationAction::StoreSummary(
                    state_root,
                    HotStateSummary {
                        slot,
                        latest_block_root: old_summary.latest_block_root,
                        previous_state_root,
                        diff_base_state_root,
                    },
                )
            },
        };
        if slot % self.slots_per_epoch == 0 {
            self.migrate_ops.push(DeleteKey { column: DBColumn::BeaconState, key: state_root });
        }
        self.migrate_ops.push(DeleteKey { column: DBColumn::BeaconStateSummary, key: state_root });
        proof {
            let next = self.states@.take(self.summaries_written + 1);
            assert(next.drop_last() =~= self.states@.take(self.summaries_written as int));
            assert(self.migrate_ops@ =~= old(self).migrate_ops@ + deletions_of(
                state,
                self.slots_per_epoch,
            ));
        }
        self.summaries_written += 1;
        Ok(action)
    }

    /// The deletions that complete the migration, once every state has been migrated.
    pub fn finish(self) -> (r: Vec<DeleteKey>)
        requires
            self.wf(),
            self.summaries_written == self.states@.len(),
        ensures
            r@ == all_deletions(self.states@, self.slots_per_epoch),
    {
        assert(self.states@.take(self.summaries_written as int) =~= self.states@);
        self.migrate_ops
    }
}

/// A state is migrated after the state before it, so that what it builds on is already stored.
pub proof fn law_previous_state_is_migrated_first(
    list: Seq<(Hash256, DAGStateSummaryV22)>,
    parent_block_roots: Map<Hash256, Hash256>,
    base_root: Hash256,
    done: Seq<(Hash256, DAGStateSummary)>,
    states: Seq<PlacedState>,
    i: int,
) -> (j: int)
    requires
        summaries_dag::completed_v22(
            list,
            summaries_dag::last_by_block_and_slot(summaries_dag::keyed_v22(list)),
            parent_block_roots,
            base_root,
        ) == Ok::<Seq<(Hash256, DAGStateSummary)>, summaries_dag::Error>(done),
        lists_by_slot(states, summaries_dag::last_by_block_and_slot(summaries_dag::keyed(done))),
        0 <= i < states.len(),
        states[i].0 != 0,
        states[i].1 != base_root,
    ensures
        0 <= j < i,
        states[j].1 == states[i].2.previous_state_root,
        states[j].0 + 1 == states[i].0,
{
    let by_block = summaries_dag::last_by_block_and_slot(summaries_dag::keyed(done));
    let (slot, root, summary) = states[i];
    assert(states.contains((slot, root, summary)));
    let e = summaries_dag_laws::law_previous_state_is_held(
        list,
        parent_block_roots,
        base_root,
        done,
        slot,
        (root, summary),
    );
    let before = (slot - 1) as u64;
    assert(states.contains((before, e.0, e.1)));
    let j = choose|j: int| 0 <= j < states.len() && states[j] == (before, e.0, e.1);
    if j > i {
        assert(states[i].0 <= states[j].0);
    }
    j
}

/// The old summary of every migrated state is deleted, and so is the state itself where it starts an
/// epoch.
pub proof fn law_every_migrated_state_is_deleted(
    states: Seq<PlacedState>,
    slots_per_epoch: u64,
    i: int,
)
    requires
        0 <= i < states.len(),
    ensures
        all_deletions(states, slots_per_epoch).contains(
            DeleteKey { column: DBColumn::BeaconStateSummary, key: states[i].1 },
        ),
        states[i].0 % slots_per_epoch == 0 ==> all_deletions(states, slots_per_epoch).contains(
            DeleteKey { column: DBColumn::BeaconState, key: states[i].1 },
        ),
    decreases states.len(),
{
    let earlier = all_deletions(states.drop_last(), slots_per_epoch);
    let here = deletions_of(states.last(), slots_per_epoch);
    let all = all_deletions(states, slots_per_epoch);
    let summary = DeleteKey { column: DBColumn::BeaconStateSummary, key: states[i].1 };
    let full = DeleteKey { column: DBColumn::BeaconState, key: states[i].1 };
    if i < states.len() - 1 {
        law_every_migrated_state_is_deleted(states.drop_last(), slots_per_epoch, i);
        let a = choose|a: int| 0 <= a < earlier.len() && earlier[a] == summary;
        assert(all[a] == summary);
        if states[i].0 % slots_per_epoch == 0 {
            let b = choose|b: int| 0 <= b < earlier.len() && earlier[b] == full;
            assert(all[b] == full);
        }
    } else {
        assert(here.last() == summary);
        assert(all[all.len() - 1] == summary);
        if states[i].0 % slots_per_epoch == 0 {
            assert(here[0] == full);
            assert(all[earlier.len() as int] == full);
        }
    }
}

/// Nothing is deleted but the old summaries of migrated states and those of the states themselves
/// that start an epoch.
pub proof fn law_only_migrated_states_are_deleted(
    states: Seq<PlacedState>,
    slots_per_epoch: u64,
    k: int,
) -> (i: int)
    requires
        0 <= k < all_deletions(states, slots_per_epoch).len(),
    ensures
        0 <= i < states.len(),
        all_deletions(states, slots_per_epoch)[k].key == states[i].1,
        all_deletions(states, slots_per_epoch)[k].column == DBColumn::BeaconStateSummary || (
        all_deletions(states, slots_per_epoch)[k].column == DBColumn::BeaconState && states[i].0
            % slots_per_epoch == 0),
    decreases states.len(),
{
    let earlier = all_deletions(states.drop_last(), slots_per_epoch);
    if k < earlier.len() {
        law_only_migrated_states_are_deleted(states.drop_last(), slots_per_epoch, k)
    } else {
        states.len() - 1
    }
}

/// Whether the `n`th state on the backwards walk from `root` stands at `slot` and all before it stand
/// above.
pub open spec fn is_ancestor_at(dag: StateSummariesDAG, root: Hash256, slot: Slot, n: nat) -> bool {
    let states = dag.by_state_root();
    let here = lineage::nth_ancestor(dag.previous_roots(), root, n);
    &&& states.contains_key(here)
    &&& states[here].slot == slot
    &&& forall|i: nat|
        i < n ==> {
            let node = #[trigger] lineage::nth_ancestor(dag.previous_roots(), root, i);
            states.contains_key(node) && states[node].slot > slot
        }
}

/// A state that is to be replayed is written with its own slot and block, with the state before it,
/// and with its ancestor at the slot that it is replayed from; the state of the split has no state
/// before it. This fails exactly where the state or that ancestor is not known. Any other state is
/// stored in full.
pub proof fn law_replayed_state_names_its_ancestor(
    dag: StateSummariesDAG,
    split: Split,
    state: PlacedState,
    strategy: StorageStrategy,
)
    requires
        walks_end(dag),
    ensures
        !(strategy is ReplayFrom) ==> action_for(dag, split, state, strategy) == Ok::<MigrationAction, Error>(
            MigrationAction::StoreFullState(state.1),
        ),
        strategy matches StorageStrategy::ReplayFrom(base_slot) ==> {
            let known = dag.by_state_root().contains_key(state.1);
            let is_split = state.1 == split.state_root;
            &&& action_for(dag, split, state, strategy) is Ok <==> (known || is_split) && exists|n: nat|
                #[trigger] is_ancestor_at(dag, state.1, base_slot, n)
            &&& action_for(dag, split, state, strategy) matches Ok(action) ==> action matches MigrationAction::StoreSummary(
                root,
                summary,
            ) && {
                &&& root == state.1
                &&& summary.slot == state.0
                &&& summary.latest_block_root == state.2.latest_block_root
                &&& summary.previous_state_root == (if is_split {
                    Hash256::zero()
                } else {
                    dag.by_state_root()[state.1].previous_state_root
                })
                &&& summary.diff_base_state_root.slot == base_slot
                &&& exists|n: nat| #[trigger]
                    is_ancestor_at(dag, state.1, base_slot, n) && lineage::nth_ancestor(
                        dag.previous_roots(),
                        state.1,
                        n,
                    ) == summary.diff_base_state_root.state_root
            }
        },
{
    if let StorageStrategy::ReplayFrom(base_slot) = strategy {
        let states = dag.by_state_root();
        let previous = dag.previous_roots();
        let root = state.1;
        assert(lineage::walk_ends(previous, root));
        let steps = choose|n: nat| lineage::leaves_after(previous, root, n);
        let stop = summaries_dag_laws::law_search_stops_where_walk_ends(states, root, base_slot, steps);
        assert(summaries_dag::search_stops_at(states, previous, root, base_slot, stop));
        let n = choose|n: nat| summaries_dag::search_stops_at(states, previous, root, base_slot, n);
        assert(summaries_dag::search_stops_at(states, previous, root, base_slot, n));
        let here = lineage::nth_ancestor(previous, root, n);
        if states.contains_key(here) && states[here].slot == base_slot {
            assert(is_ancestor_at(dag, root, base_slot, n));
        }
        if exists|m: nat| #[trigger] is_ancestor_at(dag, root, base_slot, m) {
            let m = choose|m: nat| #[trigger] is_ancestor_at(dag, root, base_slot, m);
            let there = lineage::nth_ancestor(previous, root, m);
            if m < n {
                assert(states[there].slot > base_slot);
            }
            if n < m {
                assert(states[here].slot > base_slot);
            }
        }
    }
}

/// The states that start an epoch.
pub open spec fn starts_epoch(states: Seq<PlacedState>, slots_per_epoch: u64) -> spec_fn(int) -> bool {
    |i: int| states[i].0 % slots_per_epoch == 0
}

/// Every old summary is deleted once, and so is every state that starts an epoch.
pub proof fn law_deletions_are_counted(states: Seq<PlacedState>, slots_per_epoch: u64)
    ensures
        all_deletions(states, slots_per_epoch).len() == states.len() + positions::picked_below(
            starts_epoch(states, slots_per_epoch),
            states.len() as int,
        ),
    decreases states.len(),
{
    let pick = starts_epoch(states, slots_per_epoch);
    if states.len() == 0 {
        positions::lemma_picked_step(pick, 0);
    } else {
        let short = states.drop_last();
        let n = states.len() - 1;
        law_deletions_are_counted(short, slots_per_epoch);
        positions::lemma_picked_step(pick, n);
        assert(positions::picked_positions(starts_epoch(short, slots_per_epoch), n)
            =~= positions::picked_positions(pick, n));
    }
}

/// A migration goes through every state of the graph, each once and not before a state of an earlier
/// slot.
pub proof fn law_every_state_is_migrated(m: HotStateMigration, block: Hash256, slot: Slot) -> (i: int)
    requires
        m.wf(),
        m.dag.by_block_root().contains_key(block),
        m.dag.by_block_root()[block].contains_key(slot),
    ensures
        0 <= i < m.states@.len(),
        m.states@[i].0 == slot,
        (m.states@[i].1, m.states@[i].2) == m.dag.by_block_root()[block][slot],
        forall|j: int| 0 <= j < m.states@.len() && j != i ==> #[trigger] m.states@[j] != m.states@[i],
        forall|j: int| 0 <= j < i ==> (#[trigger] m.states@[j]).0 <= slot,
{
    let e = m.dag.by_block_root()[block][slot];
    summaries_dag::law_states_stand_in_their_place(m.dag, block, slot);
    assert(summaries_dag::holds_state(m.dag.by_block_root(), slot, e));
    assert(m.states@.contains((slot, e.0, e.1)));
    choose|i: int| 0 <= i < m.states@.len() && m.states@[i] == (slot, e.0, e.1)
}

} // verus!
