use lighthouse_core::globals::{
    Client, CustodyAssignment, Enr, NetworkConfig, NetworkGlobals, PeerInfo,
};
use lighthouse_core::sync::active_requests::{ActiveRequests, ItemCheck};
use lighthouse_core::sync::block_components_by_range::ByRangeRequest;
use lighthouse_core::sync::column_request::ColumnRequest;
use lighthouse_core::sync::coupling::{
    couple_blocks_base, couple_blocks_deneb, couple_blocks_fulu, pair_blocks_with_columns, BatchPeers,
    Error as CouplingError, RpcBlock, RpcBlockData,
};
use lighthouse_core::sync::custody_by_range::ActiveCustodyByRangeRequest;
use lighthouse_core::sync::errors::{
    CustodyError, LookupRequestResult, LookupVerifyError, RPCError, RpcEvent, RpcRequestSendError,
    RpcResponseError, SendErrorProcessor,
};
use lighthouse_core::sync::ids::{
    BlobsByRangeRequestId, BlocksByRangeRequestId, ComponentsByRangeRequestId, CustodyByRangeRequestId,
    CustodyId, CustodyRequester, DataColumnsByRangeRequestId, DataColumnsByRootRequestId,
    DataColumnsByRootRequester, RangeRequestId, RequestId, SingleLookupReqId, SyncRequestId,
};
use lighthouse_core::sync::lookups::{BlockProcessStatus, CustodyLookupStart};
use lighthouse_core::sync::messages::{
    AppRequestId, BlobSidecar, BlobsByRangeRequest, BlocksByRangeRequest, DataColumnSidecar,
    GoodbyeReason, NetworkMessage, NetworkSender, PeerAction, ReportSource, RequestType,
    SignedBeaconBlock,
};
use lighthouse_core::sync::network_context::{EngineState, SyncNetworkContext};
use lighthouse_core::sync::peer_choice::{pick_peer, PeerRank};
use lighthouse_core::sync::peer_group::PeerGroup;
use lighthouse_core::sync::responses::{
    processor_send_result, to_fixed_blob_sidecar_list, BlockProcessType, ProcessorWork,
};
use lighthouse_core::types::{BlobLimit, ChainSpec, Hash256};
use std::collections::{HashMap, HashSet};

const COLUMNS: u64 = 128;

fn root(n: u64) -> Hash256 {
    Hash256::from_low_u64_le(n)
}

fn spec() -> ChainSpec {
    ChainSpec {
        slots_per_epoch: 8,
        deneb_fork_epoch: Some(0),
        fulu_fork_epoch: None,
        peer_das_scheduled: true,
        number_of_custody_groups: COLUMNS,
        custody_requirement: 4,
        data_column_sidecar_subnet_count: COLUMNS,
        sampling_sizes: (0..=COLUMNS).map(|c| c.max(8)).collect(),
        blob_limits: vec![
            BlobLimit { from_epoch: 0, max_blobs: 2 },
            BlobLimit { from_epoch: 5, max_blobs: 3 },
        ],
    }
}

fn context_with(spec: ChainSpec, open: bool) -> SyncNetworkContext {
    let globals = NetworkGlobals::new_test_globals(
        Enr {
            node_id: 1,
            peer_id: 0,
            seq: 1,
            attestation_bitfield: Ok(0),
            sync_committee_bitfield: Ok(0),
            custody_group_count: Ok(None),
        },
        CustodyAssignment {
            custody_groups: (0..COLUMNS).collect(),
            sampling_columns: (0..COLUMNS).collect(),
            sampling_subnets: (0..COLUMNS).collect(),
        },
        vec![],
        NetworkConfig {
            enable_light_client_server: false,
            subscribe_all_subnets: false,
            subscribe_all_data_column_subnets: false,
        },
        spec,
    );
    SyncNetworkContext::new(NetworkSender::new(open), globals, vec![3, 4, 5], 3)
}

fn context() -> SyncNetworkContext {
    context_with(spec(), true)
}

fn components(id: u32) -> ComponentsByRangeRequestId {
    ComponentsByRangeRequestId {
        id,
        requester: RangeRequestId::RangeSync { chain_id: 9, batch_id: 2 },
    }
}

fn columns_id(id: u32) -> DataColumnsByRangeRequestId {
    DataColumnsByRangeRequestId {
        id,
        parent_request_id: CustodyByRangeRequestId { id: 1, parent_request_id: components(0) },
    }
}

fn block(slot: u64, n: u64) -> SignedBeaconBlock {
    SignedBeaconBlock { key: n, slot, root: root(n), has_data: true }
}

fn blob(index: u64, n: u64) -> BlobSidecar {
    BlobSidecar { key: index, index, slot: 1, block_root: root(n) }
}

fn column(index: u64, slot: u64, n: u64) -> DataColumnSidecar {
    DataColumnSidecar { key: index, index, slot, block_root: root(n) }
}

fn lookup(id: u32) -> SingleLookupReqId {
    SingleLookupReqId { lookup_id: 7, req_id: id }
}

#[test]
fn identifiers_name_their_parents() {
    assert_eq!(
        RangeRequestId::RangeSync { chain_id: 9, batch_id: 2 }.to_text(),
        "RangeSync/2/9"
    );
    assert_eq!(RangeRequestId::BackfillSync { batch_id: 2 }.to_text(), "BackfillSync/2");
    assert_eq!(components(5).to_text(), "5/RangeSync/2/9");
    assert_eq!(columns_id(3).to_text(), "3/1/0/RangeSync/2/9");
    assert_eq!(columns_id(3).get_number(), 3);
    assert!(!columns_id(3).same_as(&columns_id(4)));
    let blocks = BlocksByRangeRequestId { id: 8, parent_request_id: components(5) };
    assert_eq!(blocks.to_text(), "8/5/RangeSync/2/9");
    let blobs = BlobsByRangeRequestId { id: 6, parent_request_id: components(5) };
    assert_eq!(blobs.to_text(), "6/5/RangeSync/2/9");
}

#[test]
fn a_response_is_collected_until_its_stream_ends() {
    let mut requests: ActiveRequests<SingleLookupReqId, u64> = ActiveRequests::new("test");
    requests.insert(lookup(1), 11, false);
    assert_eq!(requests.len(), 1);
    assert_eq!(requests.active_requests(), vec![(lookup(1), 11)]);
    let event = RpcEvent::from_chunk(Some(5), 100);
    assert_eq!(requests.on_response(lookup(1), event, ItemCheck::More, 0), None);
    let end = RpcEvent::from_chunk(None, 100);
    assert_eq!(
        requests.on_response(lookup(1), end, ItemCheck::More, 77),
        Some(Ok((vec![5], 77)))
    );
    assert_eq!(requests.len(), 0);
    // Nothing is known of the request any more.
    assert_eq!(
        requests.on_response(lookup(1), RpcEvent::StreamTermination, ItemCheck::More, 0),
        None
    );
}

#[test]
fn a_request_is_answered_once() {
    let mut requests: ActiveRequests<SingleLookupReqId, u64> = ActiveRequests::new("test");
    requests.insert(lookup(1), 11, true);
    let event = RpcEvent::Response(5, 100);
    assert_eq!(
        requests.on_response(lookup(1), event, ItemCheck::Last, 0),
        Some(Ok((vec![5], 100)))
    );
    assert_eq!(
        requests.on_response(lookup(1), RpcEvent::Response(6, 0), ItemCheck::More, 0),
        None
    );
    assert_eq!(requests.len(), 1);
    assert_eq!(
        requests.on_response(lookup(1), RpcEvent::StreamTermination, ItemCheck::More, 0),
        None
    );
    assert_eq!(requests.len(), 0);
}

#[test]
fn a_response_that_fails_its_checks_is_an_error() {
    let mut requests: ActiveRequests<SingleLookupReqId, u64> = ActiveRequests::new("test");
    requests.insert(lookup(1), 11, true);
    assert_eq!(
        requests.on_response(
            lookup(1),
            RpcEvent::Response(5, 100),
            ItemCheck::Invalid(LookupVerifyError::TooManyResponses),
            0
        ),
        Some(Err(RpcResponseError::VerifyError(LookupVerifyError::TooManyResponses)))
    );
    requests.insert(lookup(2), 11, true);
    assert_eq!(
        requests.on_response(lookup(2), RpcEvent::StreamTermination, ItemCheck::More, 0),
        Some(Err(RpcResponseError::VerifyError(
            LookupVerifyError::NotEnoughResponsesReturned { actual: 0 }
        )))
    );
    requests.insert(lookup(3), 11, true);
    assert_eq!(
        requests.on_response(
            lookup(3),
            RpcEvent::RPCError(RPCError { key: 4 }),
            ItemCheck::More,
            0
        ),
        Some(Err(RpcResponseError::RpcError(RPCError { key: 4 })))
    );
}

#[test]
fn peers_of_a_group_are_found_by_what_they_served() {
    let single = PeerGroup::from_single(5);
    assert_eq!(single.all(), vec![5]);
    assert_eq!(single.of_index(0), vec![5]);
    assert_eq!(single.of_index(1), Vec::<u64>::new());
    let group = PeerGroup::from_set(HashMap::from([(1, vec![0, 2]), (2, vec![3])]));
    let mut all = group.all();
    all.sort();
    assert_eq!(all, vec![1, 2]);
    assert_eq!(group.of_index(2), vec![1]);
    assert_eq!(group.as_reversed_map(), HashMap::from([(0, 1), (2, 1), (3, 2)]));
}

#[test]
fn the_peer_with_the_least_load_is_chosen() {
    let rank = |peer_id, held_back, load, factor| PeerRank { held_back, load, factor, peer_id };
    assert_eq!(pick_peer(&vec![]), None);
    let ranks = vec![rank(1, true, 0, 0), rank(2, false, 5, 1), rank(3, false, 5, 0)];
    assert_eq!(pick_peer(&ranks), Some(3));
    assert_eq!(pick_peer(&vec![rank(1, true, 0, 0), rank(2, false, 9, 9)]), Some(2));
    assert_eq!(pick_peer(&vec![rank(2, false, 1, 1), rank(1, false, 1, 1)]), Some(1));
}

#[test]
fn blocks_are_put_together_with_their_data() {
    let blocks = vec![block(1, 1), block(2, 2)];
    assert_eq!(
        couple_blocks_base(&blocks, 4)[1],
        RpcBlock {
            block_root: None,
            block: block(2, 2),
            data: RpcBlockData::NoData { custody_columns_count: 4 },
        }
    );
    let blobs = vec![blob(0, 2), blob(0, 1), blob(1, 2), blob(0, 9)];
    let coupled = couple_blocks_deneb(&blocks, &blobs, &spec()).ok().unwrap();
    assert_eq!(coupled[0].data, RpcBlockData::Blobs(vec![blob(0, 1)]));
    assert_eq!(coupled[1].data, RpcBlockData::Blobs(vec![blob(0, 2), blob(1, 2)]));
    assert_eq!(coupled[1].block_root, Some(root(2)));
    let too_many = vec![blob(0, 1), blob(1, 1), blob(2, 1)];
    assert!(matches!(
        couple_blocks_deneb(&blocks, &too_many, &spec()),
        Err(CouplingError::InternalError(_))
    ));
    let columns = vec![column(3, 1, 1), column(9, 1, 1), column(4, 2, 2)];
    let coupled = couple_blocks_fulu(&blocks, &columns, &vec![3, 4], &vec![]).ok().unwrap();
    assert_eq!(coupled, pair_blocks_with_columns(&blocks, &columns, &vec![3, 4]));
    assert_eq!(
        coupled[0].data,
        RpcBlockData::CustodyColumns {
            columns: vec![column(3, 1, 1)],
            custody_column_indices: vec![3, 4],
        }
    );
    let refuse = |refusals: Vec<Option<String>>| {
        couple_blocks_fulu(&blocks, &columns, &vec![3, 4], &refusals)
    };
    assert!(refuse(vec![None, None]).is_ok());
    assert!(matches!(
        refuse(vec![None, Some("no".to_string())]),
        Err(CouplingError::InternalError(e)) if e == "no"
    ));
    assert!(matches!(
        refuse(vec![Some("first".to_string()), Some("no".to_string())]),
        Err(CouplingError::InternalError(e)) if e == "first"
    ));
    // There is no third block.
    assert!(refuse(vec![None, None, Some("no".to_string())]).is_ok());
    let peers = BatchPeers::new_from_block_peer(6);
    assert_eq!(peers.block(), 6);
    assert!(peers.column_peers.is_empty());
}

#[test]
fn a_range_request_is_finished_by_its_own_response() {
    let mut request: ByRangeRequest<BlocksByRangeRequestId, Vec<u64>, u64> = ByRangeRequest::Active(
        BlocksByRangeRequestId { id: 1, parent_request_id: components(0) },
    );
    assert!(request.to_finished().is_none());
    let other = BlocksByRangeRequestId { id: 2, parent_request_id: components(0) };
    assert!(request.finish(other, vec![], 3).is_err());
    let own = BlocksByRangeRequestId { id: 1, parent_request_id: components(0) };
    assert!(request.finish(own, vec![8], 3).is_ok());
    assert_eq!(request.to_finished(), Some((&vec![8], &3)));
    assert!(request.finish(own, vec![8], 3).is_err());
}

#[test]
fn a_column_is_downloaded_step_by_step() {
    let mut request = ColumnRequest::new();
    assert!(request.is_awaiting_download());
    assert!(matches!(
        request.on_download_error(columns_id(1)),
        Err(CustodyError::InternalError(e))
            if e == "bad state on_download_error expected Downloading got NotStarted"
    ));
    assert!(request.on_download_start(columns_id(1)).is_ok());
    assert!(request.is_downloading());
    assert!(request.on_download_start(columns_id(2)).is_err());
    assert!(matches!(
        request.on_download_success(columns_id(2), 5, vec![], 0),
        Err(CustodyError::InternalError(e)) if e
            == "received download result for req_id 2/1/0/RangeSync/2/9 expecting 1/1/0/RangeSync/2/9"
    ));
    let failure = || RpcResponseError::RpcError(RPCError { key: 3 });
    assert!(request
        .on_download_error_and_mark_failure(columns_id(1), failure())
        .is_ok());
    assert_eq!(request.too_many_failures(1), None);
    assert_eq!(request.too_many_failures(0), Some(failure()));
    assert!(request.on_download_start(columns_id(3)).is_ok());
    assert!(request
        .on_download_success(columns_id(3), 5, vec![column(1, 1, 1)], 99)
        .is_ok());
    assert!(request.is_downloaded());
    assert_eq!(request.complete(), Ok((5, vec![column(1, 1, 1)], 99)));
    assert!(ColumnRequest::new().complete().is_err());
}

#[test]
fn a_block_is_looked_up_from_the_least_busy_peer() {
    let mut cx = context();
    let peers = HashSet::from([11, 12]);
    let first = cx.block_lookup_request(7, &peers, root(1), BlockProcessStatus::Unknown);
    assert_eq!(first, Ok(LookupRequestResult::RequestSent(1)));
    let second = cx.block_lookup_request(7, &peers, root(2), BlockProcessStatus::Unknown);
    assert_eq!(second, Ok(LookupRequestResult::RequestSent(2)));
    let sent = cx.network_send.take_outbox();
    let asked = sent
        .iter()
        .map(|message| match message {
            NetworkMessage::SendRequest { peer_id, .. } => *peer_id,
            message => panic!("unexpected {message:?}"),
        })
        .collect::<HashSet<_>>();
    assert_eq!(asked, peers);
    assert!(matches!(
        &sent[0],
        NetworkMessage::SendRequest {
            request: RequestType::BlocksByRoot(r),
            app_request_id: AppRequestId::Sync(SyncRequestId::SingleBlock { id }),
            ..
        } if *r == root(1) && *id == lookup(1)
    ));
}

#[test]
fn a_block_lookup_may_need_no_request() {
    let mut cx = context();
    let peers = HashSet::from([11]);
    assert_eq!(
        cx.block_lookup_request(7, &HashSet::new(), root(1), BlockProcessStatus::Unknown),
        Ok(LookupRequestResult::Pending("no peers"))
    );
    assert_eq!(
        cx.block_lookup_request(7, &peers, root(1), BlockProcessStatus::NotValidated),
        Ok(LookupRequestResult::Pending("block in processing cache"))
    );
    assert_eq!(
        cx.block_lookup_request(7, &peers, root(1), BlockProcessStatus::ExecutionValidated),
        Ok(LookupRequestResult::NoRequestNeeded("block execution validated"))
    );
    let mut closed = context_with(spec(), false);
    assert_eq!(
        closed.block_lookup_request(7, &peers, root(1), BlockProcessStatus::Unknown),
        Err(RpcRequestSendError::InternalError("network send error".to_string()))
    );
}

#[test]
fn missing_blobs_are_looked_up() {
    let mut cx = context();
    let peers = HashSet::from([11]);
    assert_eq!(
        cx.blob_lookup_request(7, &peers, root(1), 3, &vec![1]),
        Ok(LookupRequestResult::RequestSent(1))
    );
    assert_eq!(
        cx.network_send.take_outbox(),
        vec![NetworkMessage::SendRequest {
            peer_id: 11,
            request: RequestType::BlobsByRoot { block_root: root(1), indices: vec![0, 2] },
            app_request_id: AppRequestId::Sync(SyncRequestId::SingleBlob { id: lookup(1) }),
        }]
    );
    assert_eq!(
        cx.blob_lookup_request(7, &peers, root(1), 1, &vec![0]),
        Ok(LookupRequestResult::NoRequestNeeded("no indices to fetch"))
    );
    assert_eq!(
        cx.blob_lookup_request(7, &HashSet::new(), root(1), 1, &vec![]),
        Ok(LookupRequestResult::Pending("no peers"))
    );
}

#[test]
fn a_block_response_answers_its_lookup() {
    let mut cx = context();
    let peers = HashSet::from([11]);
    cx.block_lookup_request(7, &peers, root(1), BlockProcessStatus::Unknown).unwrap();
    cx.block_lookup_request(7, &peers, root(2), BlockProcessStatus::Unknown).unwrap();
    cx.network_send.take_outbox();
    let event = RpcEvent::Response(block(1, 1), 5);
    assert_eq!(
        cx.on_single_block_response(lookup(1), 11, event, ItemCheck::Last, 0),
        Some(Ok((block(1, 1), 5)))
    );
    assert!(cx.network_send.take_outbox().is_empty());
    // A peer whose response fails its checks is reported.
    let answer = cx.on_single_block_response(
        lookup(2),
        11,
        RpcEvent::Response(block(1, 9), 5),
        ItemCheck::Invalid(LookupVerifyError::UnrequestedBlockRoot(root(9))),
        0,
    );
    assert!(matches!(answer, Some(Err(RpcResponseError::VerifyError(_)))));
    assert_eq!(
        cx.network_send.take_outbox(),
        vec![NetworkMessage::ReportPeer {
            peer_id: 11,
            action: PeerAction::LowToleranceError,
            source: ReportSource::SyncService,
            msg: "UnrequestedBlockRoot",
        }]
    );
}

#[test]
fn blobs_are_put_in_their_places() {
    assert_eq!(
        to_fixed_blob_sidecar_list(&vec![blob(2, 1), blob(0, 1)], 3),
        Ok(vec![Some(blob(0, 1)), None, Some(blob(2, 1))])
    );
    assert_eq!(
        to_fixed_blob_sidecar_list(&vec![blob(3, 1)], 3),
        Err(LookupVerifyError::UnrequestedIndex(3))
    );
    let mut cx = context();
    cx.blob_lookup_request(7, &HashSet::from([11]), root(1), 2, &vec![]).unwrap();
    let event = RpcEvent::Response(blob(1, 1), 5);
    assert_eq!(
        cx.on_single_blob_response(lookup(1), 11, event, ItemCheck::Last, 0),
        Some(Ok((vec![None, Some(blob(1, 1))], 5)))
    );
}

#[test]
fn columns_are_requested_by_root() {
    let mut cx = context();
    let requester =
        DataColumnsByRootRequester::Custody(CustodyId { requester: CustodyRequester { id: lookup(4) } });
    let id = DataColumnsByRootRequestId { id: 1, requester };
    assert_eq!(
        cx.data_columns_by_root_request(requester, 11, root(1), vec![3], true, Ok(())),
        Ok(LookupRequestResult::RequestSent(id))
    );
    assert_eq!(
        cx.data_columns_by_root_request(requester, 11, root(1), vec![3], true, Err("too long")),
        Err("too long")
    );
    let event = RpcEvent::Response(column(3, 1, 1), 5);
    assert_eq!(
        cx.on_data_columns_by_root_response(id, 11, event, ItemCheck::Last, 0),
        Some(Ok((vec![column(3, 1, 1)], 5)))
    );
}

#[test]
fn custody_of_a_block_is_kept_until_it_is_answered() {
    let mut cx = context();
    assert!(matches!(
        cx.start_custody_lookup(7, &vec![3, 4, 5]),
        CustodyLookupStart::NoRequestNeeded("no indices to fetch")
    ));
    let start = cx.start_custody_lookup(7, &vec![4]);
    assert!(
        matches!(&start, CustodyLookupStart::Start { id, indices } if *id == lookup(1) && *indices == vec![3, 5])
    );
    assert_eq!(
        cx.custody_lookup_request(start, Ok(77)),
        Ok(LookupRequestResult::RequestSent(1))
    );
    let requester = CustodyRequester { id: lookup(1) };
    assert_eq!(cx.custody_by_root_request(requester), Some(77));
    assert!(cx
        .on_custody_by_root_response(CustodyId { requester }, None)
        .is_none());
    assert_eq!(cx.custody_by_root_request(requester), Some(77));
    let failed = Err(RpcResponseError::RequestExpired("late".to_string()));
    assert!(cx
        .on_custody_by_root_response(CustodyId { requester }, Some(failed))
        .is_some());
    assert_eq!(cx.custody_by_root_request(requester), None);
}

#[test]
fn a_blocks_and_blobs_request_goes_to_one_peer() {
    let mut cx = context();
    let request = BlocksByRangeRequest { start_slot: 16, count: 8 };
    let id = cx
        .block_components_by_range_request(
            request,
            RangeRequestId::BackfillSync { batch_id: 2 },
            &HashSet::from([11]),
            &HashSet::new(),
            &HashMap::new(),
        )
        .unwrap();
    assert_eq!(id, 1);
    let sent = cx.network_send.take_outbox();
    assert!(matches!(
        &sent[0],
        NetworkMessage::SendRequest { peer_id: 11, request: RequestType::BlocksByRange(r), .. }
            if *r == request
    ));
    assert!(matches!(
        &sent[1],
        NetworkMessage::SendRequest { peer_id: 11, request: RequestType::BlobsByRange(r), .. }
            if *r == BlobsByRangeRequest { start_slot: 16, count: 8 }
    ));
    assert_eq!(cx.active_requests().len(), 2);
    assert_eq!(cx.peer_disconnected(11).len(), 2);
    assert_eq!(cx.peer_disconnected(12).len(), 0);
    assert_eq!(cx.active_request_count_by_peer(), HashMap::from([(11, 2)]));
    let metrics = cx.register_metrics();
    assert_eq!(metrics[3], ("blocks_by_range", 1));
    assert_eq!(metrics[4], ("blobs_by_range", 1));
    assert_eq!(metrics[7], ("block_components_by_range", 1));
}

#[test]
fn a_range_without_peers_is_not_requested() {
    let mut cx = context();
    let request = BlocksByRangeRequest { start_slot: 16, count: 8 };
    assert!(cx
        .block_components_by_range_request(
            request,
            RangeRequestId::BackfillSync { batch_id: 2 },
            &HashSet::new(),
            &HashSet::new(),
            &HashMap::new(),
        )
        .is_err());
}

#[test]
fn messages_reach_the_network() {
    let mut cx = context();
    cx.status_peers(4, &vec![1, 2]);
    cx.goodbye_peer(3, GoodbyeReason { key: 6 });
    cx.report_peer(5, PeerAction::MidToleranceError, "slow");
    cx.subscribe_core_topics();
    assert_eq!(
        cx.network_send.take_outbox(),
        vec![
            NetworkMessage::SendRequest {
                peer_id: 1,
                request: RequestType::Status(4),
                app_request_id: AppRequestId::Router,
            },
            NetworkMessage::SendRequest {
                peer_id: 2,
                request: RequestType::Status(4),
                app_request_id: AppRequestId::Router,
            },
            NetworkMessage::GoodbyePeer {
                peer_id: 3,
                reason: GoodbyeReason { key: 6 },
                source: ReportSource::SyncService,
            },
            NetworkMessage::ReportPeer {
                peer_id: 5,
                action: PeerAction::MidToleranceError,
                source: ReportSource::SyncService,
                msg: "slow",
            },
            NetworkMessage::SubscribeCoreTopics,
        ]
    );
    let mut closed = context_with(spec(), false);
    assert_eq!(
        closed.send_network_msg(NetworkMessage::SubscribeCoreTopics),
        Err("Network channel send Failed")
    );
}

#[test]
fn nothing_is_processed_while_the_engine_is_offline() {
    let mut cx = context();
    assert!(cx.is_execution_engine_online());
    let work = cx.send_block_for_processing(6, root(1), block(1, 1), 9).ok().unwrap();
    assert!(matches!(
        work,
        ProcessorWork::RpcBlock { block: rpc_block, process_type, seen_timestamp: 9, .. }
            if rpc_block.data == (RpcBlockData::NoData { custody_columns_count: 8 })
                && process_type == (BlockProcessType::SingleBlock { id: 6 })
    ));
    assert!(cx.send_blobs_for_processing(6, root(1), vec![None], 9).is_ok());
    assert!(cx
        .send_custody_columns_for_processing(
            6,
            root(1),
            vec![],
            9,
            BlockProcessType::SingleCustodyColumn(6)
        )
        .is_ok());
    cx.update_execution_engine_state(EngineState::Offline);
    assert!(!cx.is_execution_engine_online());
    assert!(matches!(
        cx.send_block_for_processing(6, root(1), block(1, 1), 9),
        Err(SendErrorProcessor::ProcessorNotAvailable)
    ));
    assert!(matches!(
        cx.send_blobs_for_processing(6, root(1), vec![], 9),
        Err(SendErrorProcessor::ProcessorNotAvailable)
    ));
    assert!(matches!(
        cx.send_custody_columns_for_processing(
            6,
            root(1),
            vec![],
            9,
            BlockProcessType::SingleCustodyColumn(6)
        ),
        Err(SendErrorProcessor::ProcessorNotAvailable)
    ));
    // Once it is back, work is handed over again.
    cx.update_execution_engine_state(EngineState::Online);
    assert!(cx.beacon_processor_if_enabled());
    assert!(cx.send_block_for_processing(6, root(1), block(1, 1), 9).is_ok());
    // While it is offline, no sampling size is looked up.
    let mut without_sizes = context_with(ChainSpec { sampling_sizes: vec![], ..spec() }, true);
    without_sizes.update_execution_engine_state(EngineState::Offline);
    assert!(matches!(
        without_sizes.send_block_for_processing(6, root(1), block(1, 1), 9),
        Err(SendErrorProcessor::ProcessorNotAvailable)
    ));
    assert_eq!(processor_send_result(true), Ok(()));
    assert_eq!(processor_send_result(false), Err(SendErrorProcessor::SendError));
}

fn custody_peer(cx: &mut SyncNetworkContext, peer_id: u64, custody_subnets: Vec<u64>) {
    cx.network_globals.peers.set_peer_info(PeerInfo {
        peer_id,
        client: Client::Unknown,
        is_connected: true,
        is_outbound_only: false,
        is_dialing: false,
        has_good_score: true,
        custody_subnets,
    });
}

fn custody_request(columns: &Vec<u64>, now: u128) -> ActiveCustodyByRangeRequest {
    ActiveCustodyByRangeRequest::new(
        CustodyByRangeRequestId { id: 1, parent_request_id: components(0) },
        BlocksByRangeRequest { start_slot: 8, count: 8 },
        vec![block(8, 1).signed_block_header()],
        columns,
        HashSet::new(),
        now,
    )
}

#[test]
fn columns_are_asked_of_their_custodians() {
    let mut cx = context();
    custody_peer(&mut cx, 11, vec![3]);
    custody_peer(&mut cx, 12, vec![4]);
    let mut request = custody_request(&vec![3, 4], 0);
    assert!(matches!(request.continue_requests(&mut cx, 0, 0), Ok(None)));
    let mut asked = HashMap::new();
    for message in cx.network_send.take_outbox() {
        match message {
            NetworkMessage::SendRequest {
                peer_id,
                request: RequestType::DataColumnsByRange { start_slot: 8, count: 8, columns },
                app_request_id: AppRequestId::Sync(SyncRequestId::DataColumnsByRange(id)),
            } => asked.insert(peer_id, (id, columns)),
            message => panic!("unexpected {message:?}"),
        };
    }
    assert_eq!(asked[&11].1, vec![3]);
    assert_eq!(asked[&12].1, vec![4]);

    let first = request.on_data_column_downloaded(
        11,
        asked[&11].0,
        Ok((vec![column(3, 8, 1)], 50)),
        &mut cx,
        1,
        1,
    );
    assert!(matches!(first, Ok(None)));
    let second = request.on_data_column_downloaded(
        12,
        asked[&12].0,
        Ok((vec![column(4, 8, 1)], 60)),
        &mut cx,
        2,
        2,
    );
    let Ok(Some((mut columns, peers, seen))) = second else {
        panic!("expected the columns");
    };
    columns.sort_by_key(|c| c.index);
    assert_eq!(columns, vec![column(3, 8, 1), column(4, 8, 1)]);
    assert_eq!(peers.of_index(3), vec![11]);
    assert_eq!(seen, 60);
}

#[test]
fn a_column_without_custodians_expires() {
    let mut cx = context();
    let mut request = custody_request(&vec![3], 0);
    assert!(matches!(request.continue_requests(&mut cx, 1, 1), Ok(None)));
    let late = 3_600_000_000_000;
    assert!(matches!(
        request.continue_requests(&mut cx, late, late),
        Err(CustodyError::ExpiredNoCustodyPeers(columns)) if columns == vec![3]
    ));
}

#[test]
fn a_column_that_keeps_failing_fails_the_request() {
    let mut cx = context();
    cx.max_column_failures = 0;
    custody_peer(&mut cx, 11, vec![3]);
    let mut request = custody_request(&vec![3], 0);
    assert!(matches!(request.continue_requests(&mut cx, 0, 0), Ok(None)));
    let id = match &cx.network_send.take_outbox()[0] {
        NetworkMessage::SendRequest {
            app_request_id: AppRequestId::Sync(SyncRequestId::DataColumnsByRange(id)),
            ..
        } => *id,
        message => panic!("unexpected {message:?}"),
    };
    let result = request.on_data_column_downloaded(
        11,
        id,
        Err(RpcResponseError::RpcError(RPCError { key: 1 })),
        &mut cx,
        1,
        1,
    );
    assert!(matches!(result, Err(CustodyError::TooManyDownloadErrors(_))));
}

#[test]
fn a_column_of_another_block_is_not_taken() {
    let mut cx = context();
    custody_peer(&mut cx, 11, vec![3]);
    let mut request = custody_request(&vec![3], 0);
    assert!(matches!(request.continue_requests(&mut cx, 0, 0), Ok(None)));
    let id = match &cx.network_send.take_outbox()[0] {
        NetworkMessage::SendRequest {
            app_request_id: AppRequestId::Sync(SyncRequestId::DataColumnsByRange(id)),
            ..
        } => *id,
        message => panic!("unexpected {message:?}"),
    };
    let result = request.on_data_column_downloaded(
        11,
        id,
        Ok((vec![column(3, 8, 99)], 5)),
        &mut cx,
        1,
        1,
    );
    assert!(matches!(result, Ok(None)));
    assert!(matches!(
        &cx.network_send.take_outbox()[0],
        NetworkMessage::ReportPeer { peer_id: 11, .. }
    ));
}

#[test]
fn the_client_of_a_peer_is_known_once_it_told_it() {
    let mut cx = context();
    cx.network_globals.peers.set_peer_info(PeerInfo {
        peer_id: 11,
        client: Client::Known(4),
        is_connected: true,
        is_outbound_only: false,
        is_dialing: false,
        has_good_score: true,
        custody_subnets: vec![],
    });
    assert!(matches!(cx.client_type(11), Client::Known(4)));
    assert!(matches!(cx.client_type(12), Client::Unknown));
    assert_eq!(cx.spec().slots_per_epoch, 8);
    assert_eq!(cx.network_globals().connected_peers(), 1);
}

#[test]
fn custody_of_blocks_goes_on_until_each_is_answered() {
    let mut cx = context();
    let mut requesters = vec![];
    for key in [71, 72] {
        let start = cx.start_custody_lookup(7, &vec![]);
        let id = match &start {
            CustodyLookupStart::Start { id, .. } => *id,
            CustodyLookupStart::NoRequestNeeded(why) => panic!("unexpected {why}"),
        };
        cx.custody_lookup_request(start, Ok(key)).unwrap();
        requesters.push(CustodyRequester { id });
    }
    let failed = || Err(RpcResponseError::RequestExpired("late".to_string()));
    let answers = cx.continue_custody_by_root_requests(vec![
        (requesters[0], None),
        (requesters[1], Some(failed())),
    ]);
    assert_eq!(answers.len(), 1);
    assert_eq!(answers[0].0, requesters[1]);
    assert_eq!(cx.custody_by_root_request(requesters[0]), Some(71));
    assert_eq!(cx.custody_by_root_request(requesters[1]), None);
}

#[test]
fn request_numbers_are_never_given_twice() {
    let mut cx = context();
    let peers = HashSet::from([11]);
    let mut numbers = HashSet::new();
    for n in 0..10 {
        let answer = cx.block_lookup_request(7, &peers, root(n), BlockProcessStatus::Unknown);
        let Ok(LookupRequestResult::RequestSent(id)) = answer else {
            panic!("expected a request");
        };
        assert!(numbers.insert(id));
    }
    assert!(!numbers.contains(&cx.next_id()));
}

#[test]
fn blob_limits_change_with_the_epoch() {
    let spec = spec();
    assert_eq!(spec.max_blobs_per_block(4), 2);
    assert_eq!(spec.max_blobs_per_block(5), 3);
    assert_eq!(spec.epoch_of(15), 1);
    assert_eq!(spec.start_slot(2), 16);
    assert_eq!(spec.start_slot(u64::MAX), u64::MAX);
}
