use lighthouse_core::database_manager::blobs::{
    scan_start, set_oldest_blob_slot, BlobImport, BlobInfo, BlobScan, Error, StoredBlobs,
};
use lighthouse_core::database_manager::inspect::{EntryReport, Inspector, Move};
use lighthouse_core::database_manager::{
    choose_db, display_db_version, genesis_state, migration_versions, parse_client_config,
    parse_compact_config, parse_inspect_config, parse_migrate_config, parse_prune_states_config,
    plan, prune_states, Compact, DatabaseManager, DatabaseManagerSubcommand, Inspect,
    InspectConfig, InspectTarget, Migrate, MigrateConfig, Operation, PruneDecision, PruneStage,
    PruneStates, PruneStatesConfig, SubDb,
};
use lighthouse_core::types::{ChainSpec, Hash256};

fn inspect(output: InspectTarget) -> Inspect {
    Inspect {
        column: "blk".to_string(),
        output,
        skip: Some(1),
        limit: None,
        freezer: true,
        blobs_db: false,
        output_dir: None,
    }
}

fn config(target: InspectTarget, skip: Option<usize>, limit: Option<usize>) -> InspectConfig {
    InspectConfig {
        column: "blk".to_string(),
        target,
        skip,
        limit,
        freezer: false,
        blobs_db: false,
        output_dir: String::new(),
    }
}

fn line(report: EntryReport) -> String {
    match report {
        EntryReport::Line(text) => text,
        EntryReport::File(name) => format!("file {name}"),
        EntryReport::Silent => "silent".to_string(),
    }
}

#[test]
fn sizes_are_reported_for_each_key() {
    let mut inspector = Inspector::new(&config(InspectTarget::ValueSizes, None, None));
    assert_eq!(line(inspector.inspect_entry(&vec![0x0a, 0xff], 12)), "0aff: 12 bytes");
    assert_eq!(line(inspector.inspect_entry(&vec![], 0)), ": 0 bytes");
    assert_eq!(
        inspector.finish(),
        vec!["Num keys: 2".to_string(), "Total: 12 bytes".to_string()]
    );
}

#[test]
fn values_are_written_to_files_named_after_their_key() {
    let mut inspector = Inspector::new(&config(InspectTarget::Values, None, None));
    assert_eq!(line(inspector.inspect_entry(&vec![1, 2], 3)), "file blk_0102.ssz");
}

#[test]
fn totals_are_silent_until_the_end() {
    let mut inspector = Inspector::new(&config(InspectTarget::ValueTotal, None, None));
    assert_eq!(line(inspector.inspect_entry(&vec![1], 3)), "silent");
    assert_eq!(inspector.finish()[1], "Total: 3 bytes");
}

fn key(n: u64) -> Vec<u8> {
    let mut bytes = vec![9, 9];
    bytes.extend(n.to_be_bytes());
    bytes
}

#[test]
fn gaps_between_keys_are_found() {
    let mut inspector = Inspector::new(&config(InspectTarget::Gaps, None, None));
    assert_eq!(line(inspector.inspect_entry(&key(1), 1)), "silent");
    assert_eq!(line(inspector.inspect_entry(&key(2), 1)), "silent");
    assert_eq!(
        line(inspector.inspect_entry(&key(0x0102), 1)),
        "gap between keys 2 and 258 (offset: 2)"
    );
    assert_eq!(inspector.finish().len(), 2);

    let mut inspector = Inspector::new(&config(InspectTarget::Gaps, None, None));
    assert_eq!(line(inspector.inspect_entry(&key(0), 1)), "silent");
    assert_eq!(inspector.finish()[0], "No gaps found!");
}

#[test]
fn entries_are_skipped_and_limited() {
    let mut inspector = Inspector::new(&config(InspectTarget::ValueTotal, Some(1), Some(2)));
    assert_eq!(inspector.next_move(), Move::Skip);
    inspector.skip_entry();
    assert_eq!(inspector.next_move(), Move::Take);
    inspector.inspect_entry(&vec![], 1);
    inspector.inspect_entry(&vec![], 1);
    assert_eq!(inspector.next_move(), Move::Stop);
    let nothing = Inspector::new(&config(InspectTarget::ValueTotal, Some(1), Some(0)));
    assert_eq!(nothing.next_move(), Move::Stop);
}

#[test]
fn arguments_are_parsed() {
    let parsed = parse_inspect_config(inspect(InspectTarget::Gaps), Ok("name".to_string()))
        .ok()
        .unwrap();
    assert_eq!(parsed.column, "name");
    assert_eq!(parsed.target, InspectTarget::Gaps);
    assert_eq!(parsed.skip, Some(1));
    assert_eq!(parsed.limit, None);
    assert!(parsed.freezer && !parsed.blobs_db);
    assert_eq!(parsed.output_dir, "");
    let refused = parse_inspect_config(inspect(InspectTarget::Gaps), Err("why".to_string()));
    assert_eq!(refused.err().unwrap(), "Unable to parse column flag: why");

    let compact = Compact { column: "x".to_string(), freezer: false, blobs_db: true };
    let parsed = parse_compact_config(&compact, "name".to_string()).ok().unwrap();
    assert_eq!(parsed.column, "name");
    assert!(!parsed.freezer && parsed.blobs_db);
    assert_eq!(parse_migrate_config(&Migrate { to: 24 }).ok().unwrap().to, 24);
    assert!(parse_prune_states_config(&PruneStates { confirm: true }).ok().unwrap().confirm);
    assert!(!parse_prune_states_config(&PruneStates { confirm: false }).ok().unwrap().confirm);
}

#[test]
fn options_become_client_settings() {
    let client = parse_client_config(
        "data".to_string(),
        DatabaseManager {
            freezer_dir: Some("cold".to_string()),
            blobs_dir: None,
            blob_prune_margin_epochs: 3,
            hierarchy_exponents: vec![5, 9],
            backend: "leveldb".to_string(),
        },
    )
    .ok()
    .unwrap();
    assert_eq!(client.data_dir, "data");
    assert_eq!(client.freezer_db_path, Some("cold".to_string()));
    assert_eq!(client.blobs_db_path, None);
    assert_eq!(client.blob_prune_margin_epochs, 3);
    assert_eq!(client.hierarchy_config, vec![5, 9]);
    assert_eq!(client.backend, "leveldb");
}

#[test]
fn the_freezer_goes_before_the_blobs() {
    assert_eq!(choose_db(true, true), SubDb::Freezer);
    assert_eq!(choose_db(false, true), SubDb::Blobs);
    assert_eq!(choose_db(false, false), SubDb::Hot);
    assert_eq!(SubDb::Freezer.name(), "freezer_db");
    assert_eq!(SubDb::Blobs.name(), "blobs_db");
    assert_eq!(SubDb::Hot.name(), "hot_db");
    assert_eq!(SubDb::Freezer.open_error("x"), "Unable to open freezer DB: x");
    assert_eq!(SubDb::Blobs.open_error("x"), "Unable to open blobs DB: x");
    assert_eq!(SubDb::Hot.open_error("x"), "Unable to open hot DB: x");
}

#[test]
fn versions_are_compared_with_the_current_one() {
    assert_eq!(display_db_version(None, 24), (24, None));
    assert_eq!(display_db_version(Some(22), 24), (22, Some(24)));
    assert_eq!(migration_versions(&MigrateConfig { to: 23 }, Some(22), 24), (22, 23));
    assert_eq!(migration_versions(&MigrateConfig { to: 23 }, None, 24), (24, 23));
}

#[test]
fn pruning_needs_the_right_network_and_a_confirmation() {
    let a = Hash256::from_low_u64_le(1);
    let b = Hash256::from_low_u64_le(2);
    let yes = PruneStatesConfig { confirm: true };
    let no = PruneStatesConfig { confirm: false };
    assert_eq!(prune_states(&yes, a, a, None, false), Ok(PruneDecision::Prune));
    assert_eq!(prune_states(&no, a, a, None, true), Ok(PruneDecision::AlreadyPruned));
    assert_eq!(
        prune_states(&no, a, a, None, false),
        Err("Error: confirmation flag required".to_string())
    );
    assert_eq!(
        prune_states(&yes, a, b, Some("mainnet"), false),
        Err("Error: Wrong network. Genesis state in DB does not match mainnet genesis.".to_string())
    );
    assert_eq!(
        prune_states(&yes, a, b, None, false).unwrap_err(),
        "Error: Wrong network. Genesis state in DB does not match <unknown network> genesis."
    );
    assert_eq!(PruneStage::Open.error("x"), "Unable to open database: x");
    assert_eq!(PruneStage::ReadGenesis.error("x"), "Error reading genesis state: x");
    assert_eq!(PruneStage::ComputeRoot.error("x"), "Error computing genesis state root: x");
    assert_eq!(PruneStage::Prune.error("x"), "Failed to prune due to error: x");
}

#[test]
fn subcommands_are_planned() {
    let none = || Err("no column".to_string());
    let op = plan(DatabaseManagerSubcommand::Migrate(Migrate { to: 5 }), none()).ok().unwrap();
    assert!(matches!(&op, Operation::Migrate(c) if c.to == 5));
    assert!(op.needs_genesis_state());
    assert_eq!(op.error("x"), "Fatal error: x");
    let op = plan(
        DatabaseManagerSubcommand::PruneStates(PruneStates { confirm: true }),
        none(),
    )
    .ok()
    .unwrap();
    assert!(op.needs_genesis_state());
    assert_eq!(op.error("x"), "x");
    let op = plan(
        DatabaseManagerSubcommand::Inspect(inspect(InspectTarget::Values)),
        Ok("blk".to_string()),
    )
    .ok()
    .unwrap();
    assert!(matches!(&op, Operation::Inspect(c) if c.column == "blk"));
    assert!(!op.needs_genesis_state());
    assert_eq!(op.error("x"), "x");
    let refused = plan(
        DatabaseManagerSubcommand::Inspect(inspect(InspectTarget::Values)),
        none(),
    );
    assert_eq!(refused.err().unwrap(), "Unable to parse column flag: no column");
    let compact = Compact { column: "x".to_string(), freezer: true, blobs_db: false };
    let op = plan(DatabaseManagerSubcommand::Compact(compact), Ok("blk".to_string()));
    assert!(matches!(op, Ok(Operation::Compact(c)) if c.column == "blk" && c.freezer));
    for (subcommand, expected) in [
        (DatabaseManagerSubcommand::Version, 0),
        (DatabaseManagerSubcommand::PrunePayloads, 1),
        (DatabaseManagerSubcommand::PruneBlobs, 2),
        (DatabaseManagerSubcommand::InspectBlobs, 3),
        (DatabaseManagerSubcommand::SetOldestBlobSlot(9), 4),
        (DatabaseManagerSubcommand::ImportBlobs("path".to_string()), 5),
    ] {
        let found = match plan(subcommand, none()).ok().unwrap() {
            Operation::Version => 0,
            Operation::PrunePayloads => 1,
            Operation::PruneBlobs => 2,
            Operation::InspectBlobs => 3,
            Operation::SetOldestBlobSlot(9) => 4,
            Operation::ImportBlobs(path) if path == "path" => 5,
            _ => 6,
        };
        assert_eq!(found, expected);
    }
}

#[test]
fn the_genesis_state_may_be_missing() {
    assert_eq!(genesis_state(true, Some(Ok(Some(3)))), Ok(3));
    assert_eq!(
        genesis_state(false, Some(Ok(Some(3)))),
        Err("Missing network config".to_string())
    );
    assert_eq!(genesis_state::<u64>(true, None), Err("Shutting down".to_string()));
    assert_eq!(
        genesis_state::<u64>(true, Some(Err("x".to_string()))),
        Err("Error getting genesis state: x".to_string())
    );
    assert_eq!(
        genesis_state::<u64>(true, Some(Ok(None))),
        Err("Genesis state missing".to_string())
    );
}

fn spec(deneb_fork_epoch: Option<u64>) -> ChainSpec {
    ChainSpec {
        slots_per_epoch: 32,
        deneb_fork_epoch,
        fulu_fork_epoch: None,
        peer_das_scheduled: false,
        number_of_custody_groups: 128,
        custody_requirement: 4,
        data_column_sidecar_subnet_count: 128,
        sampling_sizes: vec![],
        blob_limits: vec![],
    }
}

#[test]
fn blobs_are_looked_through_from_the_fork_on() {
    let start = scan_start(50, &spec(Some(2)));
    assert_eq!(start.start_slot, 64);
    assert_eq!(start.missing, None);
    let start = scan_start(100, &spec(Some(2)));
    assert_eq!(start.start_slot, 100);
    assert_eq!(start.missing, Some((64, 99)));
    let start = scan_start(0, &spec(None));
    assert_eq!(start.start_slot, 0);
}

#[test]
fn each_slot_of_blobs_is_reported() {
    let root = Hash256 { lo: 0x0201, hi: 0 };
    let mut scan = BlobScan::new();
    assert!(!scan.has_block(Hash256::zero()));
    assert!(scan.has_block(root));
    let line = scan.block_slot(7, root, StoredBlobs::Blobs(3)).ok().unwrap();
    assert_eq!(line.text, "Slot 7: 3 blobs stored");
    assert!(!line.warning);
    assert!(!scan.has_block(root));
    assert_eq!(scan.skipped_slot(8), "Slot 8: no block");
    let line = scan.block_slot(9, root, StoredBlobs::Expected(2)).ok().unwrap();
    assert_eq!(
        line.text,
        format!("Slot 9: 2 blobs missing (0x0102{})", "00".repeat(30))
    );
    assert!(line.warning);
    let line = scan.block_slot(10, root, StoredBlobs::Expected(0)).ok().unwrap();
    assert_eq!(line.text, "Slot 10: block with 0 blobs");
    assert!(!line.warning);
    assert!(matches!(
        scan.block_slot(11, root, StoredBlobs::NoBlock),
        Err(Error::BlockNotFound(r)) if r == root
    ));
}

#[test]
fn blobs_are_imported_in_batches() {
    let info = BlobInfo { oldest_blob_slot: None, blobs_db: true };
    let mut import = BlobImport::new(info);
    assert!(import.already_known(Some(2)));
    assert!(!import.already_known(Some(0)));
    assert!(!import.already_known(None));
    for i in 0..1023u64 {
        assert!(import
            .import(Hash256::from_low_u64_le(i), vec![1], Some(2000 - i))
            .is_none());
    }
    let batch = import.import(Hash256::from_low_u64_le(1023), vec![2], None).unwrap();
    assert_eq!(batch.len(), 1024);
    assert_eq!(batch[0].block_root, Hash256::zero());
    assert_eq!(batch[1023].blob_bytes, vec![2]);
    assert!(import.import(Hash256::from_low_u64_le(1024), vec![3], Some(5000)).is_none());
    assert_eq!(import.num_imported, 1025);
    assert_eq!(import.num_already_known, 1);
    let (rest, new_info) = import.finish();
    assert_eq!(rest.len(), 1);
    assert_eq!(new_info, BlobInfo { oldest_blob_slot: Some(978), blobs_db: true });
}

#[test]
fn the_oldest_slot_stays_where_nothing_is_older() {
    let info = BlobInfo { oldest_blob_slot: Some(10), blobs_db: false };
    let mut import = BlobImport::new(info);
    assert!(import.import(Hash256::zero(), vec![], Some(11)).is_none());
    assert_eq!(import.finish().1, info);
    assert_eq!(
        set_oldest_blob_slot(info, 3),
        BlobInfo { oldest_blob_slot: Some(3), blobs_db: false }
    );
    let empty = BlobImport::new(BlobInfo { oldest_blob_slot: None, blobs_db: false });
    assert_eq!(empty.finish().1.oldest_blob_slot, Some(u64::MAX));
}
