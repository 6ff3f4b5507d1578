use lighthouse_core::globals::{
    Client, CustodyAssignment, Enr, NetworkConfig, NetworkGlobals, PeerInfo, SyncState,
};
use lighthouse_core::sync::active_requests::ItemCheck;
use lighthouse_core::sync::block_components_by_range::BlockComponentsByRangeRequestStep;
use lighthouse_core::sync::coupling::{BatchPeers, RpcBlock, RpcBlockData};
use lighthouse_core::sync::errors::{RpcEvent, RpcResponseError};
use lighthouse_core::sync::ids::{
    BlobsByRangeRequestId, BlocksByRangeRequestId, ComponentsByRangeRequestId,
    CustodyByRangeRequestId, DataColumnsByRangeRequestId, RangeRequestId, SyncRequestId,
};
use lighthouse_core::sync::messages::{
    AppRequestId, BlocksByRangeRequest, DataColumnSidecar, NetworkMessage, NetworkSender,
    RequestType, SignedBeaconBlock,
};
use lighthouse_core::sync::network_context::SyncNetworkContext;
use lighthouse_core::sync::peer_group::PeerGroup;
use lighthouse_core::sync::responses::{CustodyRequestResult, RangeBlockComponent};
use lighthouse_core::types::{ChainSpec, ColumnIndex, Epoch, Hash256, PeerId, Slot};
use std::collections::{HashMap, HashSet};

const NUMBER_OF_COLUMNS: u64 = 128;
const SLOTS_PER_EPOCH: u64 = 8;
const CHAIN_ID: u64 = 1;
const MAX_COLUMN_FAILURES: usize = 3;

#[derive(Clone, Copy, PartialEq, Debug)]
enum ForkName {
    Base,
    Deneb,
    Fulu,
}

fn test_spec(fork: ForkName) -> ChainSpec {
    ChainSpec {
        slots_per_epoch: SLOTS_PER_EPOCH,
        deneb_fork_epoch: if fork == ForkName::Base { None } else { Some(0) },
        fulu_fork_epoch: if fork == ForkName::Fulu { Some(0) } else { None },
        peer_das_scheduled: fork == ForkName::Fulu,
        number_of_custody_groups: NUMBER_OF_COLUMNS,
        custody_requirement: 4,
        data_column_sidecar_subnet_count: NUMBER_OF_COLUMNS,
        sampling_sizes: (0..=NUMBER_OF_COLUMNS).map(|c| c.max(8)).collect(),
        blob_limits: vec![],
    }
}

fn test_enr() -> Enr {
    Enr {
        node_id: 1,
        peer_id: 0,
        seq: 1,
        attestation_bitfield: Ok(0),
        sync_committee_bitfield: Ok(0),
        custody_group_count: Ok(None),
    }
}

type BlocksRequestData = (BlocksByRangeRequestId, PeerId, BlocksByRangeRequest);
type BlobsRequestData = (BlobsByRangeRequestId, PeerId);
type ColumnsRequestData = (DataColumnsByRangeRequestId, PeerId, Slot, Vec<ColumnIndex>);

#[derive(Default, Clone, Copy, Debug)]
struct RequestFilter {
    epoch: Option<u64>,
    column_index: Option<u64>,
}

impl RequestFilter {
    fn epoch(mut self, epoch: u64) -> Self {
        self.epoch = Some(epoch);
        self
    }

    fn column_index(mut self, index: u64) -> Self {
        self.column_index = Some(index);
        self
    }

    fn matches_epoch(&self, start_slot: Slot) -> bool {
        self.epoch.map_or(true, |e| start_slot / SLOTS_PER_EPOCH == e)
    }

    fn blocks(&self, ev: &NetworkMessage) -> Option<BlocksRequestData> {
        match ev {
            NetworkMessage::SendRequest {
                peer_id,
                request: RequestType::BlocksByRange(req),
                app_request_id: AppRequestId::Sync(SyncRequestId::BlocksByRange(id)),
            } if self.matches_epoch(req.start_slot) => Some((*id, *peer_id, *req)),
            _ => None,
        }
    }

    fn blobs(&self, ev: &NetworkMessage) -> Option<BlobsRequestData> {
        match ev {
            NetworkMessage::SendRequest {
                peer_id,
                request: RequestType::BlobsByRange(req),
                app_request_id: AppRequestId::Sync(SyncRequestId::BlobsByRange(id)),
            } if self.matches_epoch(req.start_slot) => Some((*id, *peer_id)),
            _ => None,
        }
    }

    fn columns(&self, ev: &NetworkMessage) -> Option<ColumnsRequestData> {
        match ev {
            NetworkMessage::SendRequest {
                peer_id,
                request: RequestType::DataColumnsByRange { start_slot, columns, .. },
                app_request_id: AppRequestId::Sync(SyncRequestId::DataColumnsByRange(id)),
            } if self.matches_epoch(*start_slot)
                && self.column_index.map_or(true, |i| columns.contains(&i)) =>
            {
                Some((*id, *peer_id, *start_slot, columns.clone()))
            }
            _ => None,
        }
    }
}

fn filter() -> RequestFilter {
    RequestFilter::default()
}

#[derive(Clone, Copy)]
struct CompleteConfig {
    custody_failure_at_index: Option<u64>,
}

impl CompleteConfig {
    fn custody_failure_at_index(mut self, index: u64) -> Self {
        self.custody_failure_at_index = Some(index);
        self
    }
}

fn complete() -> CompleteConfig {
    CompleteConfig { custody_failure_at_index: None }
}

/// What became of a batch.
type Answer = (RangeRequestId, Result<(Vec<RpcBlock>, BatchPeers), RpcResponseError>);

/// A node that syncs one finalized chain, batch by batch, through the network context.
struct TestRig {
    cx: SyncNetworkContext,
    fork: ForkName,
    events: Vec<NetworkMessage>,
    penalties: Vec<(PeerId, &'static str)>,
    sent_blocks: HashMap<u32, Vec<SignedBeaconBlock>>,
    answers: Vec<Answer>,
    /// The slots whose blocks cannot be built with their columns, and why.
    refuse: HashMap<Slot, String>,
    chain_peers: HashSet<PeerId>,
    next_peer: PeerId,
    next_batch: Epoch,
    last_batch: Epoch,
    now: u128,
}

impl TestRig {
    fn with(fork: ForkName, sampling_columns: Vec<ColumnIndex>) -> Self {
        let custody = CustodyAssignment {
            custody_groups: (0..NUMBER_OF_COLUMNS).collect(),
            sampling_columns: (0..NUMBER_OF_COLUMNS).collect(),
            sampling_subnets: (0..NUMBER_OF_COLUMNS).collect(),
        };
        let config = NetworkConfig {
            enable_light_client_server: false,
            subscribe_all_subnets: false,
            subscribe_all_data_column_subnets: false,
        };
        let globals =
            NetworkGlobals::new_test_globals(test_enr(), custody, vec![], config, test_spec(fork));
        TestRig {
            cx: SyncNetworkContext::new(
                NetworkSender::new(true),
                globals,
                sampling_columns,
                MAX_COLUMN_FAILURES,
            ),
            fork,
            events: vec![],
            penalties: vec![],
            sent_blocks: HashMap::new(),
            answers: vec![],
            refuse: HashMap::new(),
            chain_peers: HashSet::new(),
            next_peer: 1,
            next_batch: 0,
            last_batch: 0,
            now: 1_000_000_000,
        }
    }

    fn test_setup(fork: ForkName) -> Self {
        Self::with(fork, (0..8).collect())
    }

    fn test_setup_as_supernode(fork: ForkName) -> Self {
        Self::with(fork, (0..NUMBER_OF_COLUMNS).collect())
    }

    fn our_custody_indices(&self) -> Vec<ColumnIndex> {
        self.cx.sampling_columns.clone()
    }

    fn new_connected_peer(&mut self, custody_subnets: Vec<u64>) -> PeerId {
        let peer_id = self.next_peer;
        self.next_peer += 1;
        self.cx.network_globals.peers.set_peer_info(PeerInfo {
            peer_id,
            client: Client::Unknown,
            is_connected: true,
            is_outbound_only: false,
            is_dialing: false,
            has_good_score: true,
            custody_subnets,
        });
        peer_id
    }

    /// Enough peers to serve every column.
    fn new_connected_peers_for_peerdas(&mut self) {
        for i in 0..NUMBER_OF_COLUMNS {
            self.new_connected_peer((0..4).map(|k| (i + k) % NUMBER_OF_COLUMNS).collect());
        }
    }

    fn add_sync_peer(&mut self, supernode: bool, target_epoch: Epoch) -> PeerId {
        let subnets = if supernode {
            (0..NUMBER_OF_COLUMNS).collect()
        } else {
            vec![10, 20, 30, 40]
        };
        let peer = self.new_connected_peer(subnets);
        self.chain_peers.insert(peer);
        self.cx.network_globals.set_sync_state(SyncState::SyncingFinalized {
            start_slot: 0,
            target_slot: 0,
        });
        self.last_batch = target_epoch;
        let results = self.cx.continue_custody_by_range_requests(self.now, self.now);
        for (id, result) in results {
            self.on_custody_result(id, result);
        }
        self.request_batches();
        self.collect_messages();
        peer
    }

    fn assert_syncing_finalized(&self) {
        assert_eq!(
            self.cx.network_globals.sync_state(),
            SyncState::SyncingFinalized { start_slot: 0, target_slot: 0 }
        );
    }

    /// Requests the batches up to the target that were not requested yet.
    fn request_batches(&mut self) {
        while self.next_batch < self.last_batch {
            let epoch = self.next_batch;
            self.next_batch += 1;
            let request = BlocksByRangeRequest {
                start_slot: epoch * SLOTS_PER_EPOCH,
                count: SLOTS_PER_EPOCH,
            };
            self.cx
                .block_components_by_range_request(
                    request,
                    RangeRequestId::RangeSync { chain_id: CHAIN_ID, batch_id: epoch },
                    &self.chain_peers,
                    &HashSet::new(),
                    &HashMap::new(),
                )
                .unwrap();
        }
    }

    fn collect_messages(&mut self) {
        for message in self.cx.network_send.take_outbox() {
            match message {
                NetworkMessage::ReportPeer { peer_id, msg, .. } => {
                    self.penalties.push((peer_id, msg))
                }
                message => self.events.push(message),
            }
        }
    }

    fn pop<T>(&mut self, pick: impl Fn(&NetworkMessage) -> Option<T>) -> Option<T> {
        let i = self.events.iter().position(|ev| pick(ev).is_some())?;
        let ev = self.events.remove(i);
        pick(&ev)
    }

    fn on_component(&mut self, id: ComponentsByRangeRequestId, component: RangeBlockComponent) {
        let refusals: Vec<Option<String>> = self
            .cx
            .offered_blocks(id, &component)
            .iter()
            .map(|offered| self.refuse.get(&offered.block.slot).cloned())
            .collect();
        let answer = self.cx.on_block_components_by_range_response(
            id,
            component,
            &refusals,
            self.now,
            self.now,
        );
        if let Some(answer) = answer {
            self.answers.push((id.requester, answer));
        }
        self.collect_messages();
    }

    fn on_custody_result(&mut self, id: CustodyByRangeRequestId, result: CustodyRequestResult) {
        let (response, peers) = match result {
            Ok((columns, peers, seen)) => (Ok((columns, seen)), peers),
            Err(e) => (Err(e), PeerGroup::from_set(HashMap::new())),
        };
        self.on_component(
            id.parent_request_id,
            RangeBlockComponent::CustodyColumns(id, response, peers),
        );
    }

    fn complete_blocks(&mut self, (id, peer, request): BlocksRequestData) {
        let block = SignedBeaconBlock {
            key: request.start_slot,
            slot: request.start_slot,
            root: Hash256::from_low_u64_le(request.start_slot + 1000),
            has_data: self.fork != ForkName::Base,
        };
        self.sent_blocks.insert(id.parent_request_id.id, vec![block]);
        let chunks = vec![(Some(block), ItemCheck::More), (None, ItemCheck::More)];
        for (chunk, check) in chunks {
            let event = RpcEvent::from_chunk(chunk, self.now);
            let response =
                self.cx.on_blocks_by_range_response(id, peer, event, check, self.now);
            if let Some(response) = response {
                self.on_component(
                    id.parent_request_id,
                    RangeBlockComponent::Block(id, response, peer),
                );
            }
        }
    }

    fn complete_blobs(&mut self, (id, peer): BlobsRequestData) {
        let event = RpcEvent::from_chunk(None, self.now);
        let response = self
            .cx
            .on_blobs_by_range_response(id, peer, event, ItemCheck::More, self.now)
            .unwrap();
        self.on_component(id.parent_request_id, RangeBlockComponent::Blob(id, response, peer));
    }

    fn complete_columns(
        &mut self,
        (id, peer, _start_slot, columns): ColumnsRequestData,
        config: CompleteConfig,
    ) {
        let custody_id = id.parent_request_id;
        let blocks = self.sent_blocks[&custody_id.parent_request_id.id].clone();
        let mut chunks: Vec<Option<DataColumnSidecar>> = vec![];
        for block in &blocks {
            for index in &columns {
                if config.custody_failure_at_index != Some(*index) {
                    chunks.push(Some(DataColumnSidecar {
                        key: *index,
                        index: *index,
                        slot: block.slot,
                        block_root: block.root,
                    }));
                }
            }
        }
        chunks.push(None);
        for chunk in chunks {
            let event = RpcEvent::from_chunk(chunk, self.now);
            let response = self.cx.on_data_columns_by_range_response(
                id,
                peer,
                event,
                ItemCheck::More,
                self.now,
            );
            if let Some(response) = response {
                let result = self.cx.on_custody_by_range_response(
                    custody_id,
                    id,
                    peer,
                    response,
                    self.now,
                    self.now,
                );
                self.collect_messages();
                if let Some(result) = result {
                    self.on_custody_result(custody_id, result);
                }
            }
        }
    }

    fn progress_until_no_events(&mut self, filter: RequestFilter, config: CompleteConfig) {
        loop {
            if let Some(request) = self.pop(|ev| filter.blocks(ev)) {
                self.complete_blocks(request);
            } else if let Some(request) = self.pop(|ev| filter.blobs(ev)) {
                self.complete_blobs(request);
            } else if let Some(request) = self.pop(|ev| filter.columns(ev)) {
                self.complete_columns(request, config);
            } else {
                return;
            }
        }
    }

    /// Answers the block request of an epoch and then every data request that follows from it.
    fn find_and_complete_block_components(
        &mut self,
        filter: RequestFilter,
        config: CompleteConfig,
    ) -> RangeRequestId {
        let request = self.pop(|ev| filter.blocks(ev)).expect("a request for blocks");
        let requester = request.0.parent_request_id.requester;
        self.complete_blocks(request);
        while let Some(request) = self.pop(|ev| filter.blobs(ev)) {
            self.complete_blobs(request);
        }
        let mut requests = vec![];
        while let Some(request) = self.pop(|ev| filter.columns(ev)) {
            requests.push(request);
        }
        for request in requests {
            self.complete_columns(request, config);
        }
        requester
    }

    fn complete_and_process_range_sync_until(&mut self, last_epoch: Epoch) {
        for epoch in 0..last_epoch {
            let requester =
                self.find_and_complete_block_components(filter().epoch(epoch), complete());
            assert_eq!(
                requester,
                RangeRequestId::RangeSync { chain_id: CHAIN_ID, batch_id: epoch }
            );
            let (id, answer) = self.answers.remove(0);
            assert_eq!(id, requester);
            let (blocks, _) = answer.ok().unwrap();
            assert_eq!(blocks.len(), 1);
            assert_eq!(blocks[0].block.slot, epoch * SLOTS_PER_EPOCH);
            match (&blocks[0].data, self.fork) {
                (RpcBlockData::NoData { .. }, ForkName::Base) => {}
                (RpcBlockData::Blobs(blobs), ForkName::Deneb) => assert!(blobs.is_empty()),
                (RpcBlockData::CustodyColumns { columns, .. }, ForkName::Fulu) => {
                    let mut indices = columns.iter().map(|c| c.index).collect::<Vec<_>>();
                    indices.sort();
                    assert_eq!(indices, self.our_custody_indices());
                }
                (data, fork) => panic!("unexpected data {data:?} at {fork:?}"),
            }
        }
        assert_eq!(self.next_batch, last_epoch);
        self.expect_no_active_block_components_by_range_requests();
    }

    fn expect_no_active_rpc_requests(&self) {
        assert!(self.cx.active_requests().is_empty());
    }

    fn expect_no_penalty_for_anyone(&self) {
        assert!(self.penalties.is_empty());
    }

    fn expect_penalties(&self, msg: &str) {
        assert!(!self.penalties.is_empty());
        assert!(self.penalties.iter().all(|p| p.1 == msg));
    }

    fn expect_active_block_components_by_range_request_on_custody_step(&self) {
        let requests = self.cx.active_block_components_by_range_requests();
        assert!(!requests.is_empty());
        for (_, step) in requests {
            assert_eq!(step, BlockComponentsByRangeRequestStep::CustodyRequest);
        }
    }

    fn expect_no_active_block_components_by_range_requests(&self) {
        assert!(self.cx.active_block_components_by_range_requests().is_empty());
    }
}

/// To attempt to finalize the peer's status finalized checkpoint we synced to its finalized epoch +
/// 2 epochs + 1 slot.
const EXTRA_SYNCED_EPOCHS: u64 = 2 + 1;

#[test]
fn finalized_sync_enough_global_custody_peers_few_chain_peers() {
    // Run for all forks
    for fork in [ForkName::Base, ForkName::Deneb, ForkName::Fulu] {
        let mut r = TestRig::test_setup(fork);
        // Enough global custody peers to satisfy column queries, but only few peers in the chain
        r.new_connected_peers_for_peerdas();

        let advanced_epochs: u64 = 2;
        let last_epoch = advanced_epochs + EXTRA_SYNCED_EPOCHS;
        r.add_sync_peer(false, last_epoch);
        r.assert_syncing_finalized();

        r.complete_and_process_range_sync_until(last_epoch);
        r.expect_no_penalty_for_anyone();
    }
}

enum PeersConfig {
    SupernodeOnly,
    SupernodeAndRandom,
}

#[test]
fn finalized_sync_not_enough_custody_peers_on_start_supernode_only() {
    finalized_sync_not_enough_custody_peers_on_start(PeersConfig::SupernodeOnly);
}

#[test]
fn finalized_sync_not_enough_custody_peers_on_start_supernode_and_random() {
    finalized_sync_not_enough_custody_peers_on_start(PeersConfig::SupernodeAndRandom);
}

fn finalized_sync_not_enough_custody_peers_on_start(config: PeersConfig) {
    let mut r = TestRig::test_setup_as_supernode(ForkName::Fulu);
    let advanced_epochs: u64 = 2;

    // The single peer does not have enough columns for us
    r.add_sync_peer(false, advanced_epochs);
    r.assert_syncing_finalized();

    // The chain has a single peer, so it can issue blocks_by_range requests. However, it doesn't
    // have enough peers to cover all columns
    r.progress_until_no_events(filter(), complete());
    r.expect_no_active_rpc_requests();

    // Here we have a batch with partially completed requests. The batch should not have failed, we
    // are still syncing, and there are no downscoring events.
    r.expect_no_penalty_for_anyone();
    r.expect_active_block_components_by_range_request_on_custody_step();

    // Generate enough peers and supernodes to cover all custody columns
    r.add_sync_peer(true, advanced_epochs);
    if let PeersConfig::SupernodeAndRandom = config {
        for _ in 0..100 {
            r.add_sync_peer(false, advanced_epochs);
        }
    }

    r.progress_until_no_events(filter(), complete());
    r.expect_no_active_rpc_requests();
    r.expect_no_active_block_components_by_range_requests();
    assert_eq!(r.answers.len(), advanced_epochs as usize);
    assert!(r.answers.iter().all(|(_, answer)| answer.is_ok()));
}

#[test]
fn finalized_sync_single_custody_peer_failure() {
    let mut r = TestRig::test_setup(ForkName::Fulu);
    let advanced_epochs: u64 = 2;
    let column_index_to_fail = r.our_custody_indices().first().copied().unwrap();

    r.add_sync_peer(true, advanced_epochs);
    r.assert_syncing_finalized();

    // Progress all blocks_by_range and columns_by_range requests but respond empty for a single
    // column index
    r.progress_until_no_events(
        filter(),
        complete().custody_failure_at_index(column_index_to_fail),
    );
    r.expect_penalties("custody_failure");

    // Some peer had a custody failure, but since there's a single peer in the batch we won't issue
    // another request yet.
    r.expect_no_active_rpc_requests();
    // Ensure that the block components by range request have not failed
    r.expect_active_block_components_by_range_request_on_custody_step();
    assert!(r.answers.is_empty());

    // After adding a new peer we will try to fetch from it
    r.add_sync_peer(true, advanced_epochs);
    r.progress_until_no_events(
        // Find the requests first to assert that this is the only request that exists
        filter().column_index(column_index_to_fail),
        // complete this one request without the custody failure now
        complete(),
    );

    r.expect_no_active_rpc_requests();
    r.expect_no_active_block_components_by_range_requests();
    assert_eq!(r.answers.len(), advanced_epochs as usize);
    assert!(r.answers.iter().all(|(_, answer)| answer.is_ok()));
}

#[test]
fn finalized_sync_permanent_custody_peer_failure() {
    let mut r = TestRig::test_setup(ForkName::Fulu);
    let advanced_epochs: u64 = 2;
    let column_index_to_fail = r.our_custody_indices().first().copied().unwrap();
    const PEERS_IN_BATCH: usize = 4;

    for _ in 0..PEERS_IN_BATCH {
        r.add_sync_peer(true, advanced_epochs);
    }
    r.assert_syncing_finalized();

    // Some peer had a custody failure at `column_index` so sync should do a single extra request
    // for that index and epoch.
    r.find_and_complete_block_components(
        filter().epoch(0),
        complete().custody_failure_at_index(column_index_to_fail),
    );

    let mut requested_peers = HashSet::new();

    for _ in 0..PEERS_IN_BATCH - 1 {
        // We want to make sure that the request goes to different peer than the attempts before.
        let request = r
            .pop(|ev| filter().epoch(0).column_index(column_index_to_fail).columns(ev))
            .expect("a request for the failed column");
        let req_peer = request.1;
        if requested_peers.contains(&req_peer) {
            panic!("Re-requested the same peer {req_peer} again after a custody failure");
        }
        requested_peers.insert(req_peer);

        // Find the requests first to assert that this is the only request that exists
        assert!(!r.events.iter().any(|ev| filter().epoch(0).columns(ev).is_some()));
        r.complete_columns(request, complete().custody_failure_at_index(column_index_to_fail));
    }
}

#[test]
fn a_block_whose_columns_are_refused_fails_its_batch_only() {
    let mut r = TestRig::test_setup(ForkName::Fulu);
    r.refuse.insert(SLOTS_PER_EPOCH, "columns do not match".to_string());
    r.add_sync_peer(true, 2);
    r.progress_until_no_events(filter(), complete());

    r.expect_no_active_rpc_requests();
    r.expect_no_active_block_components_by_range_requests();
    assert_eq!(r.answers.len(), 2);
    for (id, answer) in &r.answers {
        if *id == (RangeRequestId::RangeSync { chain_id: CHAIN_ID, batch_id: 1 }) {
            assert!(matches!(
                answer,
                Err(RpcResponseError::InternalError(e)) if e == "columns do not match"
            ));
        } else {
            assert!(answer.is_ok());
        }
    }
    r.expect_no_penalty_for_anyone();
}

#[test]
fn blocks_without_data_are_offered_without_columns() {
    let mut r = TestRig::test_setup(ForkName::Fulu);
    r.add_sync_peer(true, 1);
    let (id, peer, _) = r.pop(|ev| filter().blocks(ev)).unwrap();
    let block = |key: u64| SignedBeaconBlock {
        key,
        slot: key,
        root: Hash256::from_low_u64_le(key + 1000),
        has_data: false,
    };
    let parent = id.parent_request_id;
    let component = RangeBlockComponent::Block(id, Ok((vec![block(2), block(3)], 7)), peer);
    let offered = r.cx.offered_blocks(parent, &component);
    assert_eq!(offered.len(), 2);
    for (offered, key) in offered.iter().zip([2, 3]) {
        assert_eq!(offered.block, block(key));
        assert_eq!(
            offered.data,
            RpcBlockData::CustodyColumns {
                columns: vec![],
                custody_column_indices: r.our_custody_indices(),
            }
        );
    }
    // A component of another request offers nothing.
    let other = ComponentsByRangeRequestId { id: parent.id + 1, requester: parent.requester };
    assert!(r.cx.offered_blocks(other, &component).is_empty());
    let stale = BlocksByRangeRequestId { id: id.id + 1, parent_request_id: parent };
    let stale = RangeBlockComponent::Block(stale, Ok((vec![block(2)], 7)), peer);
    assert!(r.cx.offered_blocks(parent, &stale).is_empty());
    let failed =
        RangeBlockComponent::Block(id, Err(RpcResponseError::InternalError(String::new())), peer);
    assert!(r.cx.offered_blocks(parent, &failed).is_empty());

    // Only the first refusal is told.
    let refusals = vec![None, Some("second".to_string()), Some("third".to_string())];
    let answer =
        r.cx.on_block_components_by_range_response(parent, component, &refusals, r.now, r.now);
    assert!(matches!(answer, Some(Err(RpcResponseError::InternalError(e))) if e == "second"));
    r.expect_no_active_block_components_by_range_requests();
}
