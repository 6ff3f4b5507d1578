//! Messages to the network service, and the channel that takes them.
use crate::sync::ids::SyncRequestId;
use crate::types::{Hash256, PeerId, Slot};
use vstd::prelude::*;

verus! {

/// A signed block: what sync reads of it, and the key under which the caller keeps it.
#[derive(Clone, Copy, PartialEq, Eq, Structural, Debug)]
pub struct SignedBeaconBlock {
    pub key: u64,
    pub slot: Slot,
    pub root: Hash256,
    pub has_data: bool,
}

/// The header of a signed block: its slot and root.
#[derive(Clone, Copy, PartialEq, Eq, Structural, Debug)]
pub struct SignedBeaconBlockHeader {
    pub slot: Slot,
    pub root: Hash256,
}

impl SignedBeaconBlock {
    #[verifier::allow_in_spec]
    pub fn signed_block_header(&self) -> SignedBeaconBlockHeader
        returns
            (SignedBeaconBlockHeader { slot: self.slot, root: self.root }),
    {
        SignedBeaconBlockHeader { slot: self.slot, root: self.root }
    }
}

/// A blob: what sync reads of it, and the key under which the caller keeps it.
#[derive(Clone, Copy, PartialEq, Eq, Structural, Debug)]
pub struct BlobSidecar {
    pub key: u64,
    pub index: u64,
    pub slot: Slot,
    pub block_root: Hash256,
}

/// A data column: what sync reads of it, and the key under which the caller keeps it.
#[derive(Clone, Copy, PartialEq, Eq, Structural, Debug)]
pub struct DataColumnSidecar {
    pub key: u64,
    pub index: u64,
    pub slot: Slot,
    pub block_root: Hash256,
}

/// Asks for the blocks of `count` slots from `start_slot` on.
#[derive(Clone, Copy, PartialEq, Eq, Structural, Debug)]
pub struct BlocksByRangeRequest {
    pub start_slot: Slot,
    pub count: u64,
}

/// Asks for the blobs of `count` slots from `start_slot` on.
#[derive(Clone, Copy, PartialEq, Eq, Structural, Debug)]
pub struct BlobsByRangeRequest {
    pub start_slot: Slot,
    pub count: u64,
}

/// A request to a peer. The status message is the caller's; the number is its key.
#[derive(Debug, PartialEq)]
pub enum RequestType {
    Status(u64),
    BlocksByRoot(Hash256),
    BlobsByRoot { block_root: Hash256, indices: Vec<u64> },
    DataColumnsByRoot { block_root: Hash256, indices: Vec<u64> },
    BlocksByRange(BlocksByRangeRequest),
    BlobsByRange(BlobsByRangeRequest),
    DataColumnsByRange { start_slot: Slot, count: u64, columns: Vec<u64> },
}

/// The contents of a request.
pub enum RequestView {
    Status(u64),
    BlocksByRoot(Hash256),
    BlobsByRoot { block_root: Hash256, indices: Seq<u64> },
    DataColumnsByRoot { block_root: Hash256, indices: Seq<u64> },
    BlocksByRange(BlocksByRangeRequest),
    BlobsByRange(BlobsByRangeRequest),
    DataColumnsByRange { start_slot: Slot, count: u64, columns: Seq<u64> },
}

impl RequestType {
    pub open spec fn view(self) -> RequestView {
        match self {
            RequestType::Status(key) => RequestView::Status(key),
            RequestType::BlocksByRoot(root) => RequestView::BlocksByRoot(root),
            RequestType::BlobsByRoot { block_root, indices } => RequestView::BlobsByRoot {
                block_root,
                indices: indices@,
            },
            RequestType::DataColumnsByRoot { block_root, indices } => RequestView::DataColumnsByRoot {
                block_root,
                indices: indices@,
            },
            RequestType::BlocksByRange(request) => RequestView::BlocksByRange(request),
            RequestType::BlobsByRange(request) => RequestView::BlobsByRange(request),
            RequestType::DataColumnsByRange { start_slot, count, columns } => {
                RequestView::DataColumnsByRange { start_slot, count, columns: columns@ }
            },
        }
    }
}

/// Who gets the response to a request.
#[derive(Clone, Copy, PartialEq, Eq, Structural, Debug)]
pub enum AppRequestId {
    Router,
    Sync(SyncRequestId),
}

/// How much a peer's fault counts against it.
#[derive(Clone, Copy, PartialEq, Eq, Structural, Debug)]
pub enum PeerAction {
    Fatal,
    LowToleranceError,
    MidToleranceError,
    HighToleranceError,
}

/// Why a peer is told goodbye; the number is the caller's key for it.
#[derive(Clone, Copy, PartialEq, Eq, Structural, Debug)]
pub struct GoodbyeReason {
    pub key: u64,
}

/// Which part of the node reports a peer.
#[derive(Clone, Copy, PartialEq, Eq, Structural, Debug)]
pub enum ReportSource {
    SyncService,
}

/// A message to the network service.
#[derive(Debug, PartialEq)]
pub enum NetworkMessage {
    SendRequest { peer_id: PeerId, request: RequestType, app_request_id: AppRequestId },
    GoodbyePeer { peer_id: PeerId, reason: GoodbyeReason, source: ReportSource },
    ReportPeer { peer_id: PeerId, action: PeerAction, source: ReportSource, msg: &'static str },
    SubscribeCoreTopics,
}

/// The contents of a message.
pub enum MessageView {
    SendRequest { peer_id: PeerId, request: RequestView, app_request_id: AppRequestId },
    GoodbyePeer { peer_id: PeerId, reason: GoodbyeReason, source: ReportSource },
    ReportPeer { peer_id: PeerId, action: PeerAction, source: ReportSource, msg: Seq<char> },
    SubscribeCoreTopics,
}

impl NetworkMessage {
    pub open spec fn view(self) -> MessageView {
        match self {
            NetworkMessage::SendRequest { peer_id, request, app_request_id } => {
                MessageView::SendRequest { peer_id, request: request@, app_request_id }
            },
            NetworkMessage::GoodbyePeer { peer_id, reason, source } => MessageView::GoodbyePeer {
                peer_id,
                reason,
                source,
            },
            NetworkMessage::ReportPeer { peer_id, action, source, msg } => MessageView::ReportPeer {
                peer_id,
                action,
                source,
                msg: msg@,
            },
            NetworkMessage::SubscribeCoreTopics => MessageView::SubscribeCoreTopics,
        }
    }
}

/// The sending side of the channel to the network service. A closed channel takes no messages.
pub struct NetworkSender {
    open: bool,
    outbox: Vec<NetworkMessage>,
}

impl NetworkSender {
    /// The messages that wait for delivery, oldest first.
    pub closed spec fn sent(self) -> Seq<MessageView> {
        self.outbox@.map_values(|m: NetworkMessage| m@)
    }

    pub closed spec fn is_open(self) -> bool {
        self.open
    }

    pub fn new(open: bool) -> (r: Self)
        ensures
            r.is_open() == open,
            r.sent() == Seq::<MessageView>::empty(),
    {
        let r = NetworkSender { open, outbox: Vec::new() };
        assert(r.sent() =~= Seq::empty());
        r
    }

    /// Records whether the receiving side still exists.
    pub fn set_open(&mut self, open: bool)
        ensures
            final(self).is_open() == open,
            final(self).sent() == old(self).sent(),
    {
        self.open = open;
    }

    /// Queues the message, unless the channel is closed.
    pub fn send(&mut self, msg: NetworkMessage) -> (r: Result<(), NetworkMessage>)
        ensures
            final(self).is_open() == old(self).is_open(),
            old(self).is_open() ==> r is Ok && final(self).sent() == old(self).sent().push(msg@),
            !old(self).is_open() ==> r == Err::<(), NetworkMessage>(msg) && *final(self) == *old(self),
    {
        if self.open {
            self.outbox.push(msg);
            assert(self.sent() =~= old(self).sent().push(msg@));
            Ok(())
        } else {
            Err(msg)
        }
    }

    /// Takes the waiting messages out for delivery.
    pub fn take_outbox(&mut self) -> (r: Vec<NetworkMessage>)
        ensures
            r@.map_values(|m: NetworkMessage| m@) == old(self).sent(),
            final(self).sent() == Seq::<MessageView>::empty(),
            final(self).is_open() == old(self).is_open(),
    {
        let mut taken: Vec<NetworkMessage> = Vec::new();
        std::mem::swap(&mut taken, &mut self.outbox);
        assert(self.sent() =~= Seq::empty());
        taken
    }
}

} // verus!
