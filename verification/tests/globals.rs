use lighthouse_core::globals::{
    BackFillState, Client, CustodyAssignment, Enr, LocalMetadata, MetaData, NetworkConfig,
    NetworkGlobals, PeerInfo, SyncState,
};
use lighthouse_core::types::ChainSpec;

fn test_spec() -> ChainSpec {
    ChainSpec {
        slots_per_epoch: 32,
        deneb_fork_epoch: Some(0),
        fulu_fork_epoch: Some(0),
        peer_das_scheduled: true,
        number_of_custody_groups: 128,
        custody_requirement: 4,
        data_column_sidecar_subnet_count: 128,
        sampling_sizes: (0..=128).map(|c: u64| c.max(8)).collect(),
        blob_limits: vec![],
    }
}

fn test_enr() -> Enr {
    Enr {
        node_id: 1,
        peer_id: 7,
        seq: 3,
        attestation_bitfield: Ok(5),
        sync_committee_bitfield: Ok(2),
        custody_group_count: Ok(None),
    }
}

fn test_custody() -> CustodyAssignment {
    CustodyAssignment {
        custody_groups: (0..128).collect(),
        sampling_columns: (0..128).collect(),
        sampling_subnets: (0..128).rev().collect(),
    }
}

fn test_config() -> NetworkConfig {
    NetworkConfig {
        enable_light_client_server: true,
        subscribe_all_subnets: false,
        subscribe_all_data_column_subnets: false,
    }
}

fn globals_with(cgc: u64) -> NetworkGlobals {
    NetworkGlobals::new_test_globals_with_initial_cgc(
        test_enr(),
        test_custody(),
        vec![],
        cgc,
        test_config(),
        test_spec(),
    )
}

#[test]
fn test_sampling_subnets() {
    let spec = test_spec();
    let custody_group_count = spec.number_of_custody_groups / 2;
    let subnet_sampling_size = spec.sampling_sizes[custody_group_count as usize];
    let globals = globals_with(custody_group_count);
    assert_eq!(globals.sampling_subnets(0).len(), subnet_sampling_size as usize);
}

#[test]
fn test_sampling_columns() {
    let spec = test_spec();
    let custody_group_count = spec.number_of_custody_groups / 2;
    let subnet_sampling_size = spec.sampling_sizes[custody_group_count as usize];
    let globals = globals_with(custody_group_count);
    assert_eq!(globals.sampling_columns(0).len(), subnet_sampling_size as usize);
}

#[test]
fn custody_updates_count_from_their_slot() {
    let mut globals = globals_with(4);
    assert!(globals.add_cgc_update(10, 64).is_ok());
    assert_eq!(globals.custody_group_count(10), 4);
    assert_eq!(globals.custody_group_count(11), 64);
    assert_eq!(globals.min_custody_group_count_at_range(5..15), 4);
    assert_eq!(globals.min_custody_group_count_at_range(11..15), 64);
    assert_eq!(globals.min_custody_group_count_at_range(11..3), 64);
    assert_eq!(globals.cgc_updates_len(), 1);
    assert_eq!(globals.custody_columns_count(11), 64);
    assert_eq!(globals.custody_columns_count(10), 8);
    assert!(!globals.is_supernode(11));
    // A larger count keeps what a smaller one samples.
    let small = globals.sampling_columns(0).to_vec();
    assert_eq!(small.len(), 4);
    assert_eq!(globals.sampling_columns(11)[..small.len()], small[..]);
    assert_eq!(globals.dump_cgc_updates().iter(), vec![(0, 4), (10, 64)]);
}

#[test]
fn the_first_update_below_a_slot_counts() {
    let mut globals = globals_with(4);
    assert!(globals.add_cgc_update(20, 128).is_ok());
    assert!(globals.add_cgc_update(10, 64).is_ok());
    assert!(globals.is_supernode(21));
    assert_eq!(globals.custody_group_count(15), 64);
    assert_eq!(globals.custody_group_count(5), 4);
    assert_eq!(globals.custody_groups_for_cgc(3), &[0, 1, 2][..]);
    assert_eq!(globals.sampling_subnets_for_cgc(2), &[127, 126][..]);
    assert_eq!(globals.sampling_columns_for_cgc(1000).len(), 128);
}

#[test]
fn metadata_follows_the_record() {
    let globals = globals_with(4);
    assert!(matches!(
        globals.local_metadata(),
        MetaData::V3 { seq_number: 3, attnets: 5, syncnets: 2, custody_group_count: 4 }
    ));
    let mut spec = test_spec();
    spec.peer_das_scheduled = false;
    let local = LocalMetadata::new(test_enr(), &spec).ok().unwrap();
    assert!(matches!(
        local.metadata(),
        MetaData::V2 { seq_number: 3, attnets: 5, syncnets: 2 }
    ));
    assert_eq!(local.enr().peer_id, 7);
    let mut broken = test_enr();
    broken.attestation_bitfield = Err("no bitfield".to_string());
    assert!(matches!(LocalMetadata::new(broken, &spec), Err(e) if e == "no bitfield"));
}

#[test]
fn a_new_record_replaces_the_metadata() {
    let mut globals = globals_with(4);
    let mut enr = test_enr();
    enr.seq = 9;
    enr.custody_group_count = Ok(Some(16));
    assert!(globals.set_enr(enr).is_ok());
    assert!(matches!(
        globals.local_metadata(),
        MetaData::V3 { seq_number: 9, custody_group_count: 16, .. }
    ));
    assert_eq!(globals.local_enr().seq, 9);
    assert_eq!(globals.local_peer_id(), 7);
}

fn peer(peer_id: u64, is_connected: bool, custody_subnets: Vec<u64>) -> PeerInfo {
    PeerInfo {
        peer_id,
        client: Client::Known(peer_id),
        is_connected,
        is_outbound_only: false,
        is_dialing: !is_connected,
        has_good_score: true,
        custody_subnets,
    }
}

#[test]
fn custody_peers_are_connected_good_and_on_the_subnet() {
    let mut globals = globals_with(4);
    globals.peers.set_peer_info(peer(1, true, vec![5]));
    globals.peers.set_peer_info(peer(2, false, vec![5]));
    globals.peers.set_peer_info(peer(3, true, vec![6]));
    assert_eq!(globals.custody_peers_for_column(5), vec![1]);
    assert_eq!(globals.custody_peers_for_column(6), vec![3]);
    assert_eq!(globals.connected_peers(), 2);
    assert_eq!(globals.connected_or_dialing_peers(), 3);
    assert_eq!(globals.connected_outbound_only_peers(), 0);
    assert!(matches!(globals.client(3), Client::Known(3)));
    assert!(matches!(globals.client(9), Client::Unknown));
}

#[test]
fn sync_state_is_replaced() {
    let mut globals = globals_with(4);
    assert_eq!(globals.sync_state(), SyncState::Stalled);
    assert!(!globals.is_syncing());
    let old = globals.set_sync_state(SyncState::SyncingHead { start_slot: 1, target_slot: 2 });
    assert_eq!(old, SyncState::Stalled);
    assert!(globals.is_syncing());
    assert_eq!(globals.backfill_state(), BackFillState::Paused);
    let topics = globals.as_topic_config(0);
    assert!(topics.enable_light_client_server);
    assert_eq!(topics.sampling_subnets.len(), 4);
}

#[test]
fn test_globals_are_those_of_a_started_node() {
    let globals = NetworkGlobals::new_test_globals(
        test_enr(),
        test_custody(),
        vec![9],
        test_config(),
        test_spec(),
    );
    assert_eq!(globals.local_peer_id(), 7);
    assert!(matches!(
        globals.local_metadata(),
        MetaData::V3 { seq_number: 3, attnets: 5, syncnets: 2, custody_group_count: 4 }
    ));
    assert!(globals.listen_multiaddrs().is_empty());
    assert!(globals.gossipsub_subscriptions.is_empty());
    assert_eq!(globals.custody_group_count(0), test_spec().custody_requirement);
    assert_eq!(globals.sync_state(), SyncState::Stalled);
    assert_eq!(globals.backfill_state(), BackFillState::Paused);
}
