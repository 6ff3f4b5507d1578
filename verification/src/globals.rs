//! The node's view of itself and of its peers, shared by the network tasks.
use crate::custody::CGCUpdates;
use crate::positions;
use crate::types::{ChainSpec, ColumnIndex, DataColumnSubnetId, PeerId, Slot};
use core::ops::Range;
use vstd::prelude::*;

verus! {

/// A node record: its signed fields as read from it, or why a field could not be read.
pub struct Enr {
    pub node_id: u64,
    pub peer_id: PeerId,
    pub seq: u64,
    pub attestation_bitfield: Result<u64, String>,
    pub sync_committee_bitfield: Result<u8, String>,
    pub custody_group_count: Result<Option<u64>, String>,
}

impl Enr {
    /// A record with the same fields.
    pub fn copy(&self) -> (r: Self)
        ensures
            r == *self,
    {
        Enr {
            node_id: self.node_id,
            peer_id: self.peer_id,
            seq: self.seq,
            attestation_bitfield: match &self.attestation_bitfield {
                Ok(bits) => Ok(*bits),
                Err(e) => Err(e.clone()),
            },
            sync_committee_bitfield: match &self.sync_committee_bitfield {
                Ok(bits) => Ok(*bits),
                Err(e) => Err(e.clone()),
            },
            custody_group_count: match &self.custody_group_count {
                Ok(count) => Ok(*count),
                Err(e) => Err(e.clone()),
            },
        }
    }
}

/// What the node announces of itself. Bit fields are held as integers, bit by bit.
#[derive(Clone, Copy, PartialEq, Eq, Structural, Debug)]
pub enum MetaData {
    V2 { seq_number: u64, attnets: u64, syncnets: u8 },
    V3 { seq_number: u64, attnets: u64, syncnets: u8, custody_group_count: u64 },
}

/// The metadata that a record stands for, or the first field that could not be read.
pub open spec fn metadata_of(enr: Enr, spec: ChainSpec) -> Result<MetaData, String> {
    match enr.attestation_bitfield {
        Err(e) => Err(e),
        Ok(attnets) => match enr.sync_committee_bitfield {
            Err(e) => Err(e),
            Ok(syncnets) => if spec.peer_das_scheduled {
                match enr.custody_group_count {
                    Err(e) => Err(e),
                    Ok(count) => Ok(
                        MetaData::V3 {
                            seq_number: enr.seq,
                            attnets,
                            syncnets,
                            custody_group_count: match count {
                                Some(c) => c,
                                None => spec.custody_requirement,
                            },
                        },
                    ),
                }
            } else {
                Ok(MetaData::V2 { seq_number: enr.seq, attnets, syncnets })
            },
        },
    }
}

/// The local record and the metadata read from it, always updated together.
pub struct LocalMetadata {
    enr: Enr,
    metadata: MetaData,
}

impl LocalMetadata {
    pub closed spec fn spec_enr(self) -> Enr {
        self.enr
    }

    pub closed spec fn spec_metadata(self) -> MetaData {
        self.metadata
    }

    /// Reads the metadata of `enr`.
    pub fn new(enr: Enr, spec: &ChainSpec) -> (r: Result<Self, String>)
        ensures
            match metadata_of(enr, *spec) {
                Err(e) => r == Err::<Self, String>(e),
                Ok(metadata) => r matches Ok(local) && local.spec_enr() == enr && local.spec_metadata()
                    == metadata,
            },
    {
        let attnets: u64 = match &enr.attestation_bitfield {
            Ok(bits) => *bits,
            Err(e) => return Err(e.clone()),
        };
        let syncnets: u8 = match &enr.sync_committee_bitfield {
            Ok(bits) => *bits,
            Err(e) => return Err(e.clone()),
        };
        let metadata = if spec.peer_das_scheduled {
            let custody_group_count: u64 = match &enr.custody_group_count {
                Ok(Some(count)) => *count,
                Ok(None) => spec.custody_requirement,
                Err(e) => return Err(e.clone()),
            };
            MetaData::V3 { seq_number: enr.seq, attnets, syncnets, custody_group_count }
        } else {
            MetaData::V2 { seq_number: enr.seq, attnets, syncnets }
        };
        Ok(LocalMetadata { enr, metadata })
    }

    pub fn enr(&self) -> (r: &Enr)
        ensures
            *r == self.spec_enr(),
    {
        &self.enr
    }

    pub fn metadata(&self) -> (r: &MetaData)
        ensures
            *r == self.spec_metadata(),
    {
        &self.metadata
    }
}

/// The software that a peer runs, where it is known; the number is the caller's key for it.
#[derive(Clone, Copy, PartialEq, Eq, Structural, Debug)]
pub enum Client {
    Unknown,
    Known(u64),
}

/// What is known of one peer.
pub struct PeerInfo {
    pub peer_id: PeerId,
    pub client: Client,
    pub is_connected: bool,
    pub is_outbound_only: bool,
    pub is_dialing: bool,
    pub has_good_score: bool,
    /// The data column subnets that the peer custodies.
    pub custody_subnets: Vec<DataColumnSubnetId>,
}

/// The known peers.
pub struct PeerDB {
    peers: Vec<PeerInfo>,
    trusted_peers: Vec<PeerId>,
    disable_peer_scoring: bool,
}

/// Whether `peer` is connected, custodies `subnet` and has a good score.
pub open spec fn is_good_custody_peer(peer: PeerInfo, subnet: DataColumnSubnetId) -> bool {
    peer.is_connected && peer.has_good_score && peer.custody_subnets@.contains(subnet)
}

/// The peers that satisfy `keep`, in order.
pub open spec fn peers_where(peers: Seq<PeerInfo>, keep: spec_fn(PeerInfo) -> bool) -> Seq<PeerId> {
    peers.filter(keep).map_values(|p: PeerInfo| p.peer_id)
}

proof fn lemma_peers_where_step(peers: Seq<PeerInfo>, keep: spec_fn(PeerInfo) -> bool, i: int)
    requires
        0 <= i < peers.len(),
    ensures
        peers_where(peers.take(i + 1), keep) == (if keep(peers[i]) {
            peers_where(peers.take(i), keep).push(peers[i].peer_id)
        } else {
            peers_where(peers.take(i), keep)
        }),
{
    reveal(Seq::filter);
    assert(peers.take(i + 1).drop_last() =~= peers.take(i));
    assert(peers_where(peers.take(i + 1), keep) =~= (if keep(peers[i]) {
        peers_where(peers.take(i), keep).push(peers[i].peer_id)
    } else {
        peers_where(peers.take(i), keep)
    }));
}

/// Whether `list` holds `x`.
pub fn contains_u64(list: &Vec<u64>, x: u64) -> (r: bool)
    ensures
        r == list@.contains(x),
{
    let mut i: usize = 0;
    while i < list.len()
        invariant
            i <= list@.len(),
            forall|j: int| 0 <= j < i ==> list@[j] != x,
        decreases list@.len() - i,
    {
        if list[i] == x {
            return true;
        }
        i += 1;
    }
    false
}

impl PeerDB {
    /// The known peers in the order in which they were added.
    pub closed spec fn view(self) -> Seq<PeerInfo> {
        self.peers@
    }

    pub closed spec fn trusted(self) -> Seq<PeerId> {
        self.trusted_peers@
    }

    pub closed spec fn scoring_disabled(self) -> bool {
        self.disable_peer_scoring
    }

    /// No peer is listed twice.
    pub open spec fn wf(self) -> bool {
        forall|i: int, j: int|
            0 <= i < j < self@.len() ==> (#[trigger] self@[i]).peer_id != (#[trigger] self@[j]).peer_id
    }

    pub fn new(trusted_peers: Vec<PeerId>, disable_peer_scoring: bool) -> (r: Self)
        ensures
            r.wf(),
            r@ == Seq::<PeerInfo>::empty(),
            r.trusted() == trusted_peers@,
            r.scoring_disabled() == disable_peer_scoring,
    {
        PeerDB { peers: Vec::new(), trusted_peers, disable_peer_scoring }
    }

    /// The position of the peer, if it is known.
    pub open spec fn position(self, peer_id: PeerId) -> Option<int> {
        if exists|i: int| 0 <= i < self@.len() && (#[trigger] self@[i]).peer_id == peer_id {
            Some(choose|i: int| 0 <= i < self@.len() && (#[trigger] self@[i]).peer_id == peer_id)
        } else {
            None
        }
    }

    fn find(&self, peer_id: PeerId) -> (r: Option<usize>)
        requires
            self.wf(),
        ensures
            r matches Some(i) ==> self.position(peer_id) == Some(i as int) && i < self@.len(),
            r is None ==> self.position(peer_id) is None,
    {
        let mut i: usize = 0;
        while i < self.peers.len()
            invariant
                self.wf(),
                i <= self@.len(),
                self@ == self.peers@,
                forall|j: int| 0 <= j < i ==> (#[trigger] self@[j]).peer_id != peer_id,
            decreases self@.len() - i,
        {
            if self.peers[i].peer_id == peer_id {
                assert(self@[i as int].peer_id == peer_id);
                return Some(i);
            }
            i += 1;
        }
        None
    }

    /// Records what is known of a peer, in place of what was known of it before.
    pub fn set_peer_info(&mut self, info: PeerInfo)
        requires
            old(self).wf(),
        ensures
            final(self).wf(),
            final(self).trusted() == old(self).trusted(),
            final(self).scoring_disabled() == old(self).scoring_disabled(),
            match old(self).position(info.peer_id) {
                Some(i) => final(self)@ == old(self)@.update(i, info),
                None => final(self)@ == old(self)@.push(info),
            },
    {
        match self.find(info.peer_id) {
            Some(i) => {
                self.peers.set(i, info);
            },
            None => {
                self.peers.push(info);
            },
        }
    }

    /// What is known of the peer.
    pub fn peer_info(&self, peer_id: PeerId) -> (r: Option<&PeerInfo>)
        requires
            self.wf(),
        ensures
            match self.position(peer_id) {
                Some(i) => r == Some(&self@[i]),
                None => r is None,
            },
    {
        match self.find(peer_id) {
            Some(i) => Some(&self.peers[i]),
            None => None,
        }
    }

    /// The connected peers with a good score that custody `subnet`.
    pub fn good_custody_subnet_peer(&self, subnet: DataColumnSubnetId) -> (r: Vec<PeerId>)
        ensures
            r@ == peers_where(self@, |p: PeerInfo| is_good_custody_peer(p, subnet)),
    {
        let ghost keep = |p: PeerInfo| is_good_custody_peer(p, subnet);
        let mut r: Vec<PeerId> = Vec::new();
        let mut i: usize = 0;
        assert(peers_where(self@.take(0), keep) =~= Seq::empty());
        while i < self.peers.len()
            invariant
                i <= self@.len(),
                self@ == self.peers@,
                keep == (|p: PeerInfo| is_good_custody_peer(p, subnet)),
                r@ == peers_where(self@.take(i as int), keep),
            decreases self@.len() - i,
        {
            proof {
                lemma_peers_where_step(self@, keep, i as int);
            }
            let peer = &self.peers[i];
            if peer.is_connected && peer.has_good_score && contains_u64(&peer.custody_subnets, subnet) {
                r.push(peer.peer_id);
            }
            i += 1;
        }
        assert(self@.take(i as int) =~= self@);
        r
    }

    /// The connected peers.
    pub fn connected_peer_ids(&self) -> (r: Vec<PeerId>)
        ensures
            r@ == peers_where(self@, |p: PeerInfo| p.is_connected),
    {
        let ghost keep = |p: PeerInfo| p.is_connected;
        let mut r: Vec<PeerId> = Vec::new();
        let mut i: usize = 0;
        assert(peers_where(self@.take(0), keep) =~= Seq::empty());
        while i < self.peers.len()
            invariant
                i <= self@.len(),
                self@ == self.peers@,
                keep == (|p: PeerInfo| p.is_connected),
                r@ == peers_where(self@.take(i as int), keep),
            decreases self@.len() - i,
        {
            proof {
                lemma_peers_where_step(self@, keep, i as int);
            }
            if self.peers[i].is_connected {
                r.push(self.peers[i].peer_id);
            }
            i += 1;
        }
        assert(self@.take(i as int) =~= self@);
        r
    }

    /// The connected peers whose connections are all outbound.
    pub fn connected_outbound_only_peers(&self) -> (r: Vec<PeerId>)
        ensures
            r@ == peers_where(self@, |p: PeerInfo| p.is_connected && p.is_outbound_only),
    {
        let ghost keep = |p: PeerInfo| p.is_connected && p.is_outbound_only;
        let mut r: Vec<PeerId> = Vec::new();
        let mut i: usize = 0;
        assert(peers_where(self@.take(0), keep) =~= Seq::empty());
        while i < self.peers.len()
            invariant
                i <= self@.len(),
                self@ == self.peers@,
                keep == (|p: PeerInfo| p.is_connected && p.is_outbound_only),
                r@ == peers_where(self@.take(i as int), keep),
            decreases self@.len() - i,
        {
            proof {
                lemma_peers_where_step(self@, keep, i as int);
            }
            if self.peers[i].is_connected && self.peers[i].is_outbound_only {
                r.push(self.peers[i].peer_id);
            }
            i += 1;
        }
        assert(self@.take(i as int) =~= self@);
        r
    }

    /// The peers that are connected or being dialed.
    pub fn connected_or_dialing_peers(&self) -> (r: Vec<PeerId>)
        ensures
            r@ == peers_where(self@, |p: PeerInfo| p.is_connected || p.is_dialing),
    {
        let ghost keep = |p: PeerInfo| p.is_connected || p.is_dialing;
        let mut r: Vec<PeerId> = Vec::new();
        let mut i: usize = 0;
        assert(peers_where(self@.take(0), keep) =~= Seq::empty());
        while i < self.peers.len()
            invariant
                i <= self@.len(),
                self@ == self.peers@,
                keep == (|p: PeerInfo| p.is_connected || p.is_dialing),
                r@ == peers_where(self@.take(i as int), keep),
            decreases self@.len() - i,
        {
            proof {
                lemma_peers_where_step(self@, keep, i as int);
            }
            if self.peers[i].is_connected || self.peers[i].is_dialing {
                r.push(self.peers[i].peer_id);
            }
            i += 1;
        }
        assert(self@.take(i as int) =~= self@);
        r
    }
}

/// How far the node is with syncing.
#[derive(Clone, Copy, PartialEq, Eq, Structural, Debug)]
pub enum SyncState {
    SyncingFinalized { start_slot: Slot, target_slot: Slot },
    SyncingHead { start_slot: Slot, target_slot: Slot },
    BackFillSyncing { completed: u64, remaining: u64 },
    SyncTransition,
    Synced,
    Stalled,
}

impl SyncState {
    /// Whether the node is catching up with the chain. Filling in history does not count.
    #[verifier::allow_in_spec]
    pub fn is_syncing(&self) -> bool
        returns
            (match *self {
                SyncState::SyncingFinalized { start_slot: _, target_slot: _ } => true,
                SyncState::SyncingHead { start_slot: _, target_slot: _ } => true,
                SyncState::SyncTransition => true,
                _ => false,
            }),
    {
        match self {
            SyncState::SyncingFinalized { .. } => true,
            SyncState::SyncingHead { .. } => true,
            SyncState::SyncTransition => true,
            _ => false,
        }
    }
}

/// The state of the sync of historical blocks.
#[derive(Clone, Copy, PartialEq, Eq, Structural, Debug)]
pub enum BackFillState {
    Paused,
    Syncing,
    Completed,
    Failed,
    NotRequired,
}

/// The network settings that decisions depend on.
#[derive(Clone, Copy, PartialEq, Eq, Structural, Debug)]
pub struct NetworkConfig {
    pub enable_light_client_server: bool,
    pub subscribe_all_subnets: bool,
    pub subscribe_all_data_column_subnets: bool,
}

/// What decides which gossip topics the node subscribes to.
pub struct TopicConfig<'a> {
    pub enable_light_client_server: bool,
    pub subscribe_all_subnets: bool,
    pub subscribe_all_data_column_subnets: bool,
    pub sampling_subnets: &'a [DataColumnSubnetId],
}

/// What the node would custody and sample with the largest custody group count, in the order in
/// which it takes them on.
pub struct CustodyAssignment {
    pub custody_groups: Vec<u64>,
    pub sampling_columns: Vec<ColumnIndex>,
    pub sampling_subnets: Vec<DataColumnSubnetId>,
}

/// The first `count` entries, or all where there are fewer.
pub open spec fn first_entries(list: Seq<u64>, count: u64) -> Seq<u64> {
    if count < list.len() {
        list.take(count as int)
    } else {
        list
    }
}

fn first_entries_of(list: &Vec<u64>, count: u64) -> (r: &[u64])
    ensures
        r@ == first_entries(list@, count),
{
    let len: usize = list.len();
    let end: usize = if count < len as u64 {
        count as usize
    } else {
        len
    };
    let r = vstd::slice::slice_subrange(list.as_slice(), 0, end);
    assert(r@ =~= first_entries(list@, count));
    r
}

/// State shared by the network tasks.
pub struct NetworkGlobals {
    pub local_enr: LocalMetadata,
    pub peer_id: PeerId,
    pub listen_multiaddrs: Vec<u64>,
    pub peers: PeerDB,
    pub gossipsub_subscriptions: Vec<u64>,
    pub sync_state: SyncState,
    pub backfill_state: BackFillState,
    pub custody: CustodyAssignment,
    pub cgc_updates: CGCUpdates,
    pub config: NetworkConfig,
    pub spec: ChainSpec,
}

impl NetworkGlobals {
    pub open spec fn local(self) -> LocalMetadata {
        self.local_enr
    }

    pub open spec fn assignment(self) -> CustodyAssignment {
        self.custody
    }

    pub open spec fn cgc(self) -> CGCUpdates {
        self.cgc_updates
    }

    /// The configuration is valid, no peer is listed twice and the custody updates are in bounds.
    pub open spec fn wf(self) -> bool {
        self.spec.wf() && self.peers.wf() && self.cgc().wf()
    }

    /// The state of a node that has just started.
    pub fn new(
        enr: Enr,
        cgc_updates: CGCUpdates,
        custody: CustodyAssignment,
        trusted_peers: Vec<PeerId>,
        disable_peer_scoring: bool,
        config: NetworkConfig,
        spec: ChainSpec,
    ) -> (r: Result<Self, String>)
        requires
            spec.wf(),
            cgc_updates.wf(),
        ensures
            match metadata_of(enr, spec) {
                Err(e) => r == Err::<Self, String>(e),
                Ok(metadata) => r matches Ok(globals) && globals.wf() && globals.local().spec_enr() == enr
                    && globals.local().spec_metadata() == metadata && globals.peer_id == enr.peer_id
                    && globals.listen_multiaddrs@ == Seq::<u64>::empty() && globals.peers@ == Seq::<
                    PeerInfo,
                >::empty() && globals.peers.trusted() == trusted_peers@
                    && globals.peers.scoring_disabled() == disable_peer_scoring
                    && globals.gossipsub_subscriptions@ == Seq::<u64>::empty() && globals.sync_state
                    == SyncState::Stalled && globals.backfill_state == BackFillState::Paused
                    && globals.assignment() == custody && globals.cgc() == cgc_updates
                    && globals.config == config && globals.spec == spec,
            },
    {
        let peer_id: u64 = enr.peer_id;
        let local_enr = match LocalMetadata::new(enr, &spec) {
            Ok(local_enr) => local_enr,
            Err(e) => return Err(e),
        };
        Ok(
            NetworkGlobals {
                local_enr,
                peer_id,
                listen_multiaddrs: Vec::new(),
                peers: PeerDB::new(trusted_peers, disable_peer_scoring),
                gossipsub_subscriptions: Vec::new(),
                sync_state: SyncState::Stalled,
                backfill_state: BackFillState::Paused,
                custody,
                cgc_updates,
                config,
                spec,
            },
        )
    }

    /// The record that other peers may connect to.
    pub fn local_enr(&self) -> (r: Enr)
        ensures
            r == self.local().spec_enr(),
    {
        self.local_enr.enr().copy()
    }

    /// Replaces the local record and, with it, the announced metadata.
    pub fn set_enr(&mut self, enr: Enr) -> (r: Result<(), String>)
        ensures
            match metadata_of(enr, old(self).spec) {
                Err(e) => r == Err::<(), String>(e) && final(self).local() == old(self).local(),
                Ok(metadata) => r is Ok && final(self).local().spec_enr() == enr
                    && final(self).local().spec_metadata() == metadata,
            },
            final(self).peer_id == old(self).peer_id,
            final(self).listen_multiaddrs == old(self).listen_multiaddrs,
            final(self).peers == old(self).peers,
            final(self).gossipsub_subscriptions == old(self).gossipsub_subscriptions,
            final(self).sync_state == old(self).sync_state,
            final(self).backfill_state == old(self).backfill_state,
            final(self).assignment() == old(self).assignment(),
            final(self).cgc() == old(self).cgc(),
            final(self).config == old(self).config,
            final(self).spec == old(self).spec,
    {
        match LocalMetadata::new(enr, &self.spec) {
            Ok(local_enr) => {
                self.local_enr = local_enr;
                Ok(())
            },
            Err(e) => Err(e),
        }
    }

    pub fn local_peer_id(&self) -> (r: PeerId)
        ensures
            r == self.peer_id,
    {
        self.peer_id
    }

    /// The metadata announced to peers.
    pub fn local_metadata(&self) -> (r: MetaData)
        ensures
            r == self.local().spec_metadata(),
    {
        *self.local_enr.metadata()
    }

    /// The addresses that the node listens on.
    pub fn listen_multiaddrs(&self) -> (r: Vec<u64>)
        ensures
            r@ == self.listen_multiaddrs@,
    {
        self.listen_multiaddrs.clone()
    }

    /// Whether the node custodies every group at `slot`.
    pub fn is_supernode(&self, slot: Slot) -> (r: bool)
        ensures
            r == (self.cgc().spec_at_slot(slot) == self.spec.number_of_custody_groups),
    {
        self.custody_group_count(slot) == self.spec.number_of_custody_groups
    }

    /// The subnets that the node samples at `slot`.
    pub fn sampling_subnets(&self, slot: Slot) -> (r: &[DataColumnSubnetId])
        ensures
            r@ == first_entries(self.assignment().sampling_subnets@, self.cgc().spec_at_slot(slot)),
    {
        let cgc: u64 = self.custody_group_count(slot);
        self.sampling_subnets_for_cgc(cgc)
    }

    /// The columns that the node samples at `slot`.
    pub fn sampling_columns(&self, slot: Slot) -> (r: &[ColumnIndex])
        ensures
            r@ == first_entries(self.assignment().sampling_columns@, self.cgc().spec_at_slot(slot)),
    {
        let cgc: u64 = self.custody_group_count(slot);
        self.sampling_columns_for_cgc(cgc)
    }

    /// The groups that the node custodies with a count of `cgc`.
    pub fn custody_groups_for_cgc(&self, cgc: u64) -> (r: &[u64])
        ensures
            r@ == first_entries(self.assignment().custody_groups@, cgc),
    {
        first_entries_of(&self.custody.custody_groups, cgc)
    }

    pub fn sampling_subnets_for_cgc(&self, cgc: u64) -> (r: &[DataColumnSubnetId])
        ensures
            r@ == first_entries(self.assignment().sampling_subnets@, cgc),
    {
        first_entries_of(&self.custody.sampling_subnets, cgc)
    }

    pub fn sampling_columns_for_cgc(&self, cgc: u64) -> (r: &[ColumnIndex])
        ensures
            r@ == first_entries(self.assignment().sampling_columns@, cgc),
    {
        first_entries_of(&self.custody.sampling_columns, cgc)
    }

    /// The custody group count at `slot`.
    pub fn custody_group_count(&self, slot: Slot) -> (r: u64)
        ensures
            r == self.cgc().spec_at_slot(slot),
    {
        self.cgc_updates.at_slot(slot)
    }

    /// The smallest custody group count at a slot of the range; of an empty range, the count at its
    /// start.
    pub fn min_custody_group_count_at_range(&self, slot_range: Range<Slot>) -> (r: u64)
        ensures
            slot_range.start >= slot_range.end ==> r == self.cgc().spec_at_slot(slot_range.start),
            slot_range.start < slot_range.end ==> {
                &&& exists|slot: Slot|
                    slot_range.start <= slot < slot_range.end && #[trigger] self.cgc().spec_at_slot(
                        slot,
                    ) == r
                &&& forall|slot: Slot|
                    slot_range.start <= slot < slot_range.end ==> r
                        <= #[trigger] self.cgc().spec_at_slot(slot)
            },
    {
        let r: u64 = self.cgc_updates.min_at_slot_range(slot_range);
        assert(self.cgc() == self.cgc_updates);
        r
    }

    /// How many columns the node must sample for the import of a block at `slot`.
    ///
    /// The configuration must give a sampling size for the custody group count at `slot`.
    pub fn custody_columns_count(&self, slot: Slot) -> (r: u64)
        requires
            self.cgc().spec_at_slot(slot) < self.spec.sampling_sizes@.len(),
        ensures
            r == self.spec.sampling_sizes@[self.cgc().spec_at_slot(slot) as int],
    {
        let cgc: u64 = self.custody_group_count(slot);
        let sizes: usize = self.spec.sampling_sizes.len();
        assert(cgc < sizes);
        self.spec.sampling_sizes[cgc as usize]
    }

    /// Adds an update of the custody group count, unless their list is full.
    pub fn add_cgc_update(&mut self, update_start_slot: Slot, cgc: u64) -> (r: Result<(), String>)
        requires
            old(self).cgc().wf(),
        ensures
            final(self).cgc().wf(),
            final(self).cgc().initial() == old(self).cgc().initial(),
            old(self).cgc().updates().len() < crate::custody::MAX_UPDATES ==> r is Ok && final(self).cgc().updates() == old(self).cgc().updates().push((update_start_slot, cgc)),
            old(self).cgc().updates().len() == crate::custody::MAX_UPDATES ==> final(self).cgc().updates() == old(self).cgc().updates() && (r matches Err(e) && e@
                == "Updates list full: "@ + "OutOfBounds { i: 131073, len: 131072 }"@),
            final(self).local() == old(self).local(),
            final(self).peer_id == old(self).peer_id,
            final(self).listen_multiaddrs == old(self).listen_multiaddrs,
            final(self).peers == old(self).peers,
            final(self).gossipsub_subscriptions == old(self).gossipsub_subscriptions,
            final(self).sync_state == old(self).sync_state,
            final(self).backfill_state == old(self).backfill_state,
            final(self).assignment() == old(self).assignment(),
            final(self).config == old(self).config,
            final(self).spec == old(self).spec,
    {
        self.cgc_updates.add_latest_update((update_start_slot, cgc))
    }

    /// The custody group count with all its updates.
    pub fn dump_cgc_updates(&self) -> (r: CGCUpdates)
        ensures
            r.initial() == self.cgc().initial(),
            r.updates() == self.cgc().updates(),
    {
        self.cgc_updates.copy()
    }

    pub fn cgc_updates_len(&self) -> (r: usize)
        ensures
            r == self.cgc().updates().len(),
    {
        self.cgc_updates.len()
    }

    /// The number of connected peers.
    pub fn connected_peers(&self) -> (r: usize)
        ensures
            r == peers_where(self.peers@, |p: PeerInfo| p.is_connected).len(),
    {
        self.peers.connected_peer_ids().len()
    }

    /// The number of connected peers whose connections are all outbound.
    pub fn connected_outbound_only_peers(&self) -> (r: usize)
        ensures
            r == peers_where(self.peers@, |p: PeerInfo| p.is_connected && p.is_outbound_only).len(),
    {
        self.peers.connected_outbound_only_peers().len()
    }

    /// The number of peers that are connected or being dialed.
    pub fn connected_or_dialing_peers(&self) -> (r: usize)
        ensures
            r == peers_where(self.peers@, |p: PeerInfo| p.is_connected || p.is_dialing).len(),
    {
        self.peers.connected_or_dialing_peers().len()
    }

    pub fn is_syncing(&self) -> (r: bool)
        ensures
            r == self.sync_state.is_syncing(),
    {
        self.sync_state.is_syncing()
    }

    pub fn sync_state(&self) -> (r: SyncState)
        ensures
            r == self.sync_state,
    {
        self.sync_state
    }

    pub fn backfill_state(&self) -> (r: BackFillState)
        ensures
            r == self.backfill_state,
    {
        self.backfill_state
    }

    /// The software of the peer, where it is known.
    pub fn client(&self, peer_id: PeerId) -> (r: Client)
        requires
            self.peers.wf(),
        ensures
            r == (match self.peers.position(peer_id) {
                Some(i) => self.peers@[i].client,
                None => Client::Unknown,
            }),
    {
        match self.peers.peer_info(peer_id) {
            Some(info) => info.client,
            None => Client::Unknown,
        }
    }

    /// Sets the sync state and returns the one before.
    pub fn set_sync_state(&mut self, new_state: SyncState) -> (r: SyncState)
        ensures
            r == old(self).sync_state,
            *final(self) == (NetworkGlobals { sync_state: new_state, ..*old(self) }),
    {
        let old_state = self.sync_state;
        self.sync_state = new_state;
        old_state
    }

    /// The connected peers with a good score that custody the column.
    pub fn custody_peers_for_column(&self, column_index: ColumnIndex) -> (r: Vec<PeerId>)
        requires
            self.spec.wf(),
        ensures
            r@ == self.spec_custody_peers(column_index),
    {
        let subnet: u64 = column_index % self.spec.data_column_sidecar_subnet_count;
        self.peers.good_custody_subnet_peer(subnet)
    }

    /// The connected peers with a good score that custody the column.
    pub open spec fn spec_custody_peers(self, column_index: ColumnIndex) -> Seq<PeerId> {
        let subnet = column_index % self.spec.data_column_sidecar_subnet_count;
        peers_where(self.peers@, |p: PeerInfo| is_good_custody_peer(p, subnet))
    }

    /// What decides the gossip topics at `slot`.
    pub fn as_topic_config(&self, slot: Slot) -> (r: TopicConfig<'_>)
        ensures
            r.enable_light_client_server == self.config.enable_light_client_server,
            r.subscribe_all_subnets == self.config.subscribe_all_subnets,
            r.subscribe_all_data_column_subnets == self.config.subscribe_all_data_column_subnets,
            r.sampling_subnets@ == first_entries(
                self.assignment().sampling_subnets@,
                self.cgc().spec_at_slot(slot),
            ),
    {
        TopicConfig {
            enable_light_client_server: self.config.enable_light_client_server,
            subscribe_all_subnets: self.config.subscribe_all_subnets,
            subscribe_all_data_column_subnets: self.config.subscribe_all_data_column_subnets,
            sampling_subnets: self.sampling_subnets(slot),
        }
    }

    /// The state of a started node with the smallest custody group count, for use in tests.
    pub fn new_test_globals(
        enr: Enr,
        custody: CustodyAssignment,
        trusted_peers: Vec<PeerId>,
        config: NetworkConfig,
        spec: ChainSpec,
    ) -> (r: NetworkGlobals)
        requires
            spec.wf(),
            metadata_of(enr, spec) is Ok,
        ensures
            r.wf(),
            r.spec == spec,
            r.config == config,
            r.assignment() == custody,
            r.peers@ == Seq::<PeerInfo>::empty(),
            r.peers.trusted() == trusted_peers@,
            !r.peers.scoring_disabled(),
            r.peer_id == enr.peer_id,
            r.listen_multiaddrs@ == Seq::<u64>::empty(),
            r.gossipsub_subscriptions@ == Seq::<u64>::empty(),
            r.local().spec_enr() == enr,
            metadata_of(enr, spec) == Ok::<MetaData, String>(r.local().spec_metadata()),
            r.cgc().initial() == spec.custody_requirement,
            r.cgc().updates() == Seq::<(Slot, u64)>::empty(),
            r.sync_state == SyncState::Stalled,
            r.backfill_state == BackFillState::Paused,
    {
        let initial_cgc: u64 = spec.custody_requirement;
        Self::new_test_globals_with_initial_cgc(enr, custody, trusted_peers, initial_cgc, config, spec)
    }

    /// The state of a started node with the given custody group count, for use in tests.
    pub fn new_test_globals_with_initial_cgc(
        enr: Enr,
        custody: CustodyAssignment,
        trusted_peers: Vec<PeerId>,
        initial_cgc: u64,
        config: NetworkConfig,
        spec: ChainSpec,
    ) -> (r: NetworkGlobals)
        requires
            spec.wf(),
            metadata_of(enr, spec) is Ok,
        ensures
            r.wf(),
            r.spec == spec,
            r.config == config,
            r.assignment() == custody,
            r.peers@ == Seq::<PeerInfo>::empty(),
            r.peers.trusted() == trusted_peers@,
            !r.peers.scoring_disabled(),
            r.peer_id == enr.peer_id,
            r.listen_multiaddrs@ == Seq::<u64>::empty(),
            r.gossipsub_subscriptions@ == Seq::<u64>::empty(),
            r.local().spec_enr() == enr,
            metadata_of(enr, spec) == Ok::<MetaData, String>(r.local().spec_metadata()),
            r.cgc().initial() == initial_cgc,
            r.cgc().updates() == Seq::<(Slot, u64)>::empty(),
            r.sync_state == SyncState::Stalled,
            r.backfill_state == BackFillState::Paused,
    {
        match NetworkGlobals::new(
            enr,
            CGCUpdates::new(initial_cgc),
            custody,
            trusted_peers,
            false,
            config,
            spec,
        ) {
            Ok(globals) => globals,
            Err(_) => vstd::pervasive::unreached(),
        }
    }
}

/// A larger custody group count keeps everything that a smaller one samples.
pub proof fn law_sampling_grows(list: Seq<u64>, smaller: u64, larger: u64)
    requires
        smaller <= larger,
    ensures
        first_entries(list, smaller).is_prefix_of(first_entries(list, larger)),
{
}

/// Whether the peer database has a connected peer `peer` with a good score that custodies `subnet`.
pub open spec fn has_custodian(peers: Seq<PeerInfo>, peer: PeerId, subnet: DataColumnSubnetId) -> bool {
    exists|i: int|
        0 <= i < peers.len() && (#[trigger] peers[i]).peer_id == peer && peers[i].is_connected
            && peers[i].has_good_score && peers[i].custody_subnets@.contains(subnet)
}

/// The peers that custody a column are exactly the connected ones with a good score whose subnets
/// hold that of the column.
pub proof fn law_custody_peers_are_good_and_connected(
    globals: NetworkGlobals,
    column_index: ColumnIndex,
    peer: PeerId,
)
    requires
        globals.wf(),
    ensures
        globals.spec_custody_peers(column_index).contains(peer) <==> has_custodian(
            globals.peers@,
            peer,
            column_index % globals.spec.data_column_sidecar_subnet_count,
        ),
{
    let subnet = column_index % globals.spec.data_column_sidecar_subnet_count;
    let all = globals.peers@;
    let keep = |p: PeerInfo| is_good_custody_peer(p, subnet);
    let kept = all.filter(keep);
    let found = globals.spec_custody_peers(column_index);
    assert(found == peers_where(all, keep));
    if found.contains(peer) {
        let k = choose|k: int| 0 <= k < found.len() && found[k] == peer;
        assert(kept[k].peer_id == peer);
        all.lemma_filter_pred(keep, k);
        all.lemma_filter_contains_rev(keep, kept[k]);
        let i = choose|i: int| 0 <= i < all.len() && all[i] == kept[k];
        assert(all[i].peer_id == peer);
    }
    if has_custodian(all, peer, subnet) {
        let i = choose|i: int|
            0 <= i < all.len() && (#[trigger] all[i]).peer_id == peer && all[i].is_connected
                && all[i].has_good_score && all[i].custody_subnets@.contains(subnet);
        assert(keep(all[i]));
        all.lemma_filter_contains(keep, i);
        let k = choose|k: int| 0 <= k < kept.len() && kept[k] == all[i];
        assert(found[k] == peer);
    }
}

/// Those of `peers` that satisfy `keep` are listed by their ids, each once and in order.
pub proof fn law_kept_peers_are_listed(peers: Seq<PeerInfo>, keep: spec_fn(PeerInfo) -> bool)
    ensures
        peers_where(peers, keep).len() == positions::picked_below(
            |i: int| keep(peers[i]),
            peers.len() as int,
        ),
        forall|i: int|
            0 <= i < peers.len() && keep(#[trigger] peers[i]) ==> peers_where(
                peers,
                keep,
            )[positions::picked_below(|j: int| keep(peers[j]), i) as int] == peers[i].peer_id,
{
    let pick = |i: int| keep(peers[i]);
    positions::lemma_filter_picks(peers, keep);
    assert forall|i: int| 0 <= i < peers.len() && keep(#[trigger] peers[i]) implies peers_where(
        peers,
        keep,
    )[positions::picked_below(pick, i) as int] == peers[i].peer_id by {
        assert(pick(i));
    }
}

/// What is custodied or sampled with a count are the leading entries of the full list: as many as the
/// count, or all of them where there are fewer.
pub proof fn law_leading_entries_are_taken(list: Seq<u64>, count: u64)
    ensures
        first_entries(list, count).len() == (if count < list.len() {
            count as nat
        } else {
            list.len()
        }),
        forall|i: int|
            0 <= i < first_entries(list, count).len() ==> #[trigger] first_entries(list, count)[i]
                == list[i],
{
}

/// What a node announces of itself is what its record says: the sequence number and the subnets, and,
/// once columns are scheduled, its custody group count, which is the required one where the record
/// has none. A field that cannot be read is the reason why nothing is announced.
pub proof fn law_metadata_says_what_the_record_says(enr: Enr, spec: ChainSpec)
    ensures
        match metadata_of(enr, spec) {
            Ok(MetaData::V2 { seq_number, attnets, syncnets }) => {
                &&& !spec.peer_das_scheduled
                &&& seq_number == enr.seq
                &&& enr.attestation_bitfield == Ok::<u64, String>(attnets)
                &&& enr.sync_committee_bitfield == Ok::<u8, String>(syncnets)
            },
            Ok(MetaData::V3 { seq_number, attnets, syncnets, custody_group_count }) => {
                &&& spec.peer_das_scheduled
                &&& seq_number == enr.seq
                &&& enr.attestation_bitfield == Ok::<u64, String>(attnets)
                &&& enr.sync_committee_bitfield == Ok::<u8, String>(syncnets)
                &&& enr.custody_group_count matches Ok(count) && custody_group_count == (match count {
                    Some(n) => n,
                    None => spec.custody_requirement,
                })
            },
            Err(e) => {
                ||| enr.attestation_bitfield == Err::<u64, String>(e)
                ||| enr.sync_committee_bitfield == Err::<u8, String>(e)
                ||| enr.custody_group_count == Err::<Option<u64>, String>(e)
            },
        },
        metadata_of(enr, spec) is Ok <==> enr.attestation_bitfield is Ok
            && enr.sync_committee_bitfield is Ok && (spec.peer_das_scheduled
            ==> enr.custody_group_count is Ok),
{
}

/// A known peer stands at one position only, and that position is found; a peer that is not listed has
/// none.
pub proof fn law_peer_is_found_where_it_stands(db: PeerDB, peer_id: PeerId, i: int)
    requires
        db.wf(),
        0 <= i < db@.len(),
    ensures
        db@[i].peer_id == peer_id ==> db.position(peer_id) == Some(i),
        db.position(peer_id) matches Some(k) ==> 0 <= k < db@.len() && db@[k].peer_id == peer_id,
        db.position(peer_id) is None ==> db@[i].peer_id != peer_id,
{
    if db@[i].peer_id == peer_id {
        let k = choose|k: int| 0 <= k < db@.len() && (#[trigger] db@[k]).peer_id == peer_id;
        assert(db@[k].peer_id == db@[i].peer_id);
    }
}

} // verus!
