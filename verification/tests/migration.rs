use lighthouse_core::encoding::{self, root_from_bytes};
use lighthouse_core::migration_schema_v24::{
    new_anchor_slot, DeleteKey, DiffBaseStateRoot, Error, HotStateMigration, HotStateSummary,
    HotStateSummaryV22, MigrationAction, Split, StorageStrategy, SummaryReader,
};
use lighthouse_core::persisted_beacon_chain::{
    dummy_canonical_head_block_root, DBColumn, PersistedBeaconChain, SszHeadTracker, StoreError,
};
use lighthouse_core::summaries_dag::{DAGStateSummaryV22, Error as DagError};
use lighthouse_core::types::Hash256;

fn root(n: u64) -> Hash256 {
    Hash256::from_low_u64_le(n)
}

fn root_bytes(n: u64) -> Vec<u8> {
    let mut bytes = n.to_le_bytes().to_vec();
    bytes.resize(32, 0);
    bytes
}

#[test]
fn a_record_is_stored_as_its_encoding() {
    let chain = PersistedBeaconChain {
        _canonical_head_block_root: dummy_canonical_head_block_root(),
        genesis_block_root: root(0x0102),
        ssz_head_tracker: SszHeadTracker { roots: vec![root(7)], slots: vec![9, 10] },
    };
    let bytes = chain.as_store_bytes();
    let mut expected = vec![0xff; 32];
    expected.extend(root_bytes(0x0102));
    expected.extend([68, 0, 0, 0, 8, 0, 0, 0, 40, 0, 0, 0]);
    expected.extend(root_bytes(7));
    expected.extend(9u64.to_le_bytes());
    expected.extend(10u64.to_le_bytes());
    assert_eq!(bytes, expected);

    let read = PersistedBeaconChain::from_store_bytes(&bytes).ok().unwrap();
    assert_eq!(read._canonical_head_block_root, dummy_canonical_head_block_root());
    assert_eq!(read.genesis_block_root, root(0x0102));
    assert_eq!(read.ssz_head_tracker.roots, vec![root(7)]);
    assert_eq!(read.ssz_head_tracker.slots, vec![9, 10]);
    assert_eq!(PersistedBeaconChain::db_column(), DBColumn::BeaconChain);
}

#[test]
fn bytes_that_encode_no_record_are_refused() {
    let chain = PersistedBeaconChain {
        _canonical_head_block_root: Hash256 { lo: 1, hi: 2 },
        genesis_block_root: root(1),
        ssz_head_tracker: SszHeadTracker::default(),
    };
    let bytes = chain.as_store_bytes();
    assert_eq!(bytes.len(), 76);
    assert_eq!(bytes[16], 2);
    assert!(PersistedBeaconChain::from_store_bytes(&bytes).is_ok());
    let refused = |bytes: &[u8]| {
        matches!(
            PersistedBeaconChain::from_store_bytes(bytes),
            Err(StoreError::SszDecodeError)
        )
    };
    assert!(refused(&[]));
    assert!(refused(&bytes[..75]));
    let mut longer = bytes.clone();
    longer.push(0);
    assert!(refused(&longer));
    let mut offset = bytes.clone();
    offset[64] = 69;
    assert!(refused(&offset));
}

fn v22_bytes(slot: u64, block: u64, boundary: u64) -> Vec<u8> {
    let mut bytes = slot.to_le_bytes().to_vec();
    bytes.extend(root_bytes(block));
    bytes.extend(root_bytes(boundary));
    bytes
}

#[test]
fn old_summaries_are_decoded() {
    assert_eq!(
        HotStateSummaryV22::from_ssz_bytes(&v22_bytes(5, 6, 7)),
        Ok(HotStateSummaryV22 {
            slot: 5,
            latest_block_root: root(6),
            epoch_boundary_state_root: root(7),
        })
    );
    assert_eq!(
        HotStateSummaryV22::from_ssz_bytes(&[0; 71]),
        Err(Error::SszDecodeError)
    );
    assert_eq!(
        HotStateSummaryV22::from_ssz_bytes(&[0; 73]),
        Err(Error::SszDecodeError)
    );
}

const SPLIT: Split = Split { slot: 8, state_root: Hash256 { lo: 0xa8, hi: 0 }, block_root: Hash256 { lo: 8, hi: 0 } };

/// States 0xa8 to 0xab at slots 8 to 11; slot 9 has no block of its own.
fn reader() -> SummaryReader {
    let mut reader = SummaryReader::new();
    for (slot, block, parent) in [(11, 11, 10), (9, 8, 7), (8, 8, 7), (10, 10, 8)] {
        let summary = HotStateSummaryV22::from_ssz_bytes(&v22_bytes(slot, block, 0)).unwrap();
        reader.insert(root(0xa0 + slot), summary, Some(root(parent))).unwrap();
    }
    reader
}

#[test]
fn states_are_migrated_in_the_order_of_their_slots() {
    let dag = reader().new_dag(SPLIT.state_root).ok().unwrap();
    let mut migration = HotStateMigration::new(dag, SPLIT, 4);
    assert_eq!(new_anchor_slot(&SPLIT), 8);

    assert_eq!(migration.next_state(), Some((8, root(0xa8))));
    assert_eq!(
        migration.migrate_next(StorageStrategy::Snapshot),
        Ok(MigrationAction::StoreFullState(root(0xa8)))
    );
    assert_eq!(migration.next_state(), Some((9, root(0xa9))));
    assert_eq!(
        migration.migrate_next(StorageStrategy::ReplayFrom(8)),
        Ok(MigrationAction::StoreSummary(
            root(0xa9),
            HotStateSummary {
                slot: 9,
                latest_block_root: root(8),
                previous_state_root: root(0xa8),
                diff_base_state_root: DiffBaseStateRoot { slot: 8, state_root: root(0xa8) },
            }
        ))
    );
    assert_eq!(
        migration.migrate_next(StorageStrategy::DiffFrom(8)),
        Ok(MigrationAction::StoreFullState(root(0xaa)))
    );
    assert_eq!(
        migration.migrate_next(StorageStrategy::ReplayFrom(9)),
        Ok(MigrationAction::StoreSummary(
            root(0xab),
            HotStateSummary {
                slot: 11,
                latest_block_root: root(11),
                previous_state_root: root(0xaa),
                diff_base_state_root: DiffBaseStateRoot { slot: 9, state_root: root(0xa9) },
            }
        ))
    );
    assert_eq!(migration.next_state(), None);
    assert_eq!(migration.diffs_written, 2);
    assert_eq!(migration.summaries_written, 4);

    let summary = |n| DeleteKey { column: DBColumn::BeaconStateSummary, key: root(n) };
    assert_eq!(
        migration.finish(),
        vec![
            DeleteKey { column: DBColumn::BeaconState, key: root(0xa8) },
            summary(0xa8),
            summary(0xa9),
            summary(0xaa),
            summary(0xab),
        ]
    );
}

#[test]
fn the_split_state_has_no_state_before_it() {
    let dag = reader().new_dag(SPLIT.state_root).ok().unwrap();
    let mut migration = HotStateMigration::new(dag, SPLIT, 4);
    assert_eq!(
        migration.migrate_next(StorageStrategy::ReplayFrom(8)),
        Ok(MigrationAction::StoreSummary(
            root(0xa8),
            HotStateSummary {
                slot: 8,
                latest_block_root: root(8),
                previous_state_root: Hash256::zero(),
                diff_base_state_root: DiffBaseStateRoot { slot: 8, state_root: root(0xa8) },
            }
        ))
    );
}

#[test]
fn a_state_without_its_base_fails_the_migration() {
    let dag = reader().new_dag(SPLIT.state_root).ok().unwrap();
    let mut migration = HotStateMigration::new(dag, SPLIT, 4);
    assert_eq!(
        migration.migrate_next(StorageStrategy::ReplayFrom(7)),
        Err(Error::ComputingAncestorStateRoot(DagError::MissingStateSummary(
            Hash256::zero()
        )))
    );
    assert_eq!(
        migration.migrate_next(StorageStrategy::ReplayFrom(12)),
        Err(Error::ComputingAncestorStateRoot(DagError::RequestedSlotAboveSummary(
            root(0xa8),
            12
        )))
    );
    assert_eq!(migration.summaries_written, 0);
    assert!(migration.migrate_ops.is_empty());
}

#[test]
fn a_missing_block_or_state_is_reported() {
    let mut reader = SummaryReader::new();
    let summary = HotStateSummaryV22::from_ssz_bytes(&v22_bytes(9, 6, 7)).unwrap();
    assert_eq!(
        reader.insert(root(0xa9), summary, None),
        Err(Error::MissingBlock(root(6)))
    );
    reader.insert(root(0xa9), summary, Some(root(5))).unwrap();
    assert!(matches!(
        reader.new_dag(root(0xa8)),
        Err(Error::ComputingDag(DagError::MissingStateSummary(r))) if r == root(5)
    ));
}

#[test]
fn a_strategy_names_what_it_builds_on() {
    assert_eq!(StorageStrategy::DiffFrom(3).diff_base_slot(), Some(3));
    assert_eq!(StorageStrategy::ReplayFrom(4).diff_base_slot(), Some(4));
    assert_eq!(StorageStrategy::Snapshot.diff_base_slot(), None);
    assert_eq!(
        DiffBaseStateRoot::zero(),
        DiffBaseStateRoot { slot: 0, state_root: Hash256::zero() }
    );
}

#[test]
fn a_new_summary_can_be_read_as_an_old_one() {
    let summary = HotStateSummary {
        slot: 9,
        latest_block_root: root(8),
        previous_state_root: root(0xa8),
        diff_base_state_root: DiffBaseStateRoot::zero(),
    };
    assert_eq!(
        DAGStateSummaryV22::from(summary),
        DAGStateSummaryV22 { slot: 9, latest_block_root: root(8) }
    );
}

#[test]
fn a_root_is_read_back_from_its_bytes() {
    let mut bytes: Vec<u8> = (0..32).collect();
    let root = root_from_bytes(&bytes).unwrap();
    assert_eq!(root.lo, 0x0f0e_0d0c_0b0a_0908_0706_0504_0302_0100);
    assert_eq!(root.hi, 0x1f1e_1d1c_1b1a_1918_1716_1514_1312_1110);
    assert_eq!(encoding::root_bytes(&root), bytes);
    let greatest = Hash256 { lo: u128::MAX, hi: u128::MAX };
    assert_eq!(root_from_bytes(&encoding::root_bytes(&greatest)), Some(greatest));
    assert_eq!(root_from_bytes(&bytes[1..]), None);
    bytes.push(32);
    assert_eq!(root_from_bytes(&bytes), None);
}
