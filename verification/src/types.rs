//! Identifiers and small values shared by every module.
use crate::ordered_map::MapKey;
use vstd::prelude::*;

verus! {

/// Number of a slot, counted from genesis.
pub type Slot = u64;

/// Number of an epoch, counted from genesis.
pub type Epoch = u64;

/// Index of a data column.
pub type ColumnIndex = u64;

/// Index of a data column gossip subnet.
pub type DataColumnSubnetId = u64;

/// Handle of a peer. Two peers are the same peer exactly when their handles are equal, and the
/// order of the handles is the order in which peers break ties.
pub type PeerId = u64;

/// Counter that identifies an outgoing request.
pub type Id = u32;

/// A time span or a point in time, in nanoseconds.
pub type Nanos = u128;

/// A 32 byte root: `lo` holds the first sixteen bytes and `hi` the last sixteen, both little endian.
#[derive(Clone, Copy, PartialEq, Eq, Structural, Debug)]
pub struct Hash256 {
    pub lo: u128,
    pub hi: u128,
}

impl Hash256 {
    /// The root made of zero bytes.
    #[verifier::allow_in_spec]
    pub fn zero() -> Hash256
        returns
            (Hash256 { lo: 0, hi: 0 }),
    {
        Hash256 { lo: 0, hi: 0 }
    }

    /// The root whose 32 bytes all equal `0xff`.
    #[verifier::allow_in_spec]
    pub fn all_ones() -> Hash256
        returns
            (Hash256 { lo: u128::MAX, hi: u128::MAX }),
    {
        Hash256 { lo: u128::MAX, hi: u128::MAX }
    }

    /// The root that starts with the little endian bytes of `n` and is zero after them.
    #[verifier::allow_in_spec]
    pub fn from_low_u64_le(n: u64) -> Hash256
        returns
            (Hash256 { lo: n as u128, hi: 0 }),
    {
        Hash256 { lo: n as u128, hi: 0 }
    }
}

impl MapKey for Hash256 {
    open spec fn code(self) -> (int, int) {
        (self.hi as int, self.lo as int)
    }

    proof fn code_injective(a: Self, b: Self) {
    }

    fn before(&self, other: &Self) -> (r: bool) {
        self.hi < other.hi || (self.hi == other.hi && self.lo < other.lo)
    }
}

/// The place of one data column: its index and the slot of its block.
#[derive(Clone, Copy, PartialEq, Eq, Structural, Debug)]
pub struct ColumnSlot {
    pub index: ColumnIndex,
    pub slot: Slot,
}

impl MapKey for ColumnSlot {
    open spec fn code(self) -> (int, int) {
        (self.index as int, self.slot as int)
    }

    proof fn code_injective(a: Self, b: Self) {
    }

    fn before(&self, other: &Self) -> (r: bool) {
        self.index < other.index || (self.index == other.index && self.slot < other.slot)
    }
}

/// A change of the blob limit: from `from_epoch` on a block has at most `max_blobs` blobs.
#[derive(Clone, Copy, PartialEq, Eq, Structural, Debug)]
pub struct BlobLimit {
    pub from_epoch: Epoch,
    pub max_blobs: u64,
}

/// The values of the chain configuration that decisions depend on.
pub struct ChainSpec {
    pub slots_per_epoch: u64,
    pub deneb_fork_epoch: Option<Epoch>,
    pub fulu_fork_epoch: Option<Epoch>,
    pub peer_das_scheduled: bool,
    pub number_of_custody_groups: u64,
    pub custody_requirement: u64,
    pub data_column_sidecar_subnet_count: u64,
    /// The number of columns to sample, by custody group count.
    pub sampling_sizes: Vec<u64>,
    /// The changes of the blob limit, in force from the last one that has begun.
    pub blob_limits: Vec<BlobLimit>,
}

/// The limit in force at `epoch`: that of the last listed change that has begun by then, else zero.
pub open spec fn blob_limit_at(limits: Seq<BlobLimit>, epoch: Epoch) -> u64
    decreases limits.len(),
{
    if limits.len() == 0 {
        0
    } else if limits.last().from_epoch <= epoch {
        limits.last().max_blobs
    } else {
        blob_limit_at(limits.drop_last(), epoch)
    }
}

/// Whether a fork with this activation epoch is active at `epoch`.
#[verifier::allow_in_spec]
pub fn fork_active(fork_epoch: Option<Epoch>, epoch: Epoch) -> bool
    returns
        (match fork_epoch {
            Some(e) => e <= epoch,
            None => false,
        }),
{
    match fork_epoch {
        Some(e) => e <= epoch,
        None => false,
    }
}

impl ChainSpec {
    /// The configuration divides by these values.
    pub open spec fn wf(self) -> bool {
        self.slots_per_epoch > 0 && self.data_column_sidecar_subnet_count > 0
    }

    /// The epoch that `slot` is in.
    pub open spec fn spec_epoch_of(self, slot: Slot) -> Epoch {
        slot / self.slots_per_epoch
    }

    /// The first slot of `epoch`, or the last slot number there is.
    pub open spec fn spec_start_slot(self, epoch: Epoch) -> Slot {
        if epoch * self.slots_per_epoch > u64::MAX {
            u64::MAX
        } else {
            (epoch * self.slots_per_epoch) as u64
        }
    }

    /// The largest number of blobs of a block at `epoch`.
    pub open spec fn spec_max_blobs_per_block(self, epoch: Epoch) -> u64 {
        blob_limit_at(self.blob_limits@, epoch)
    }

    pub fn epoch_of(&self, slot: Slot) -> (r: Epoch)
        requires
            self.wf(),
        ensures
            r == self.spec_epoch_of(slot),
    {
        slot / self.slots_per_epoch
    }

    pub fn start_slot(&self, epoch: Epoch) -> (r: Slot)
        ensures
            r == self.spec_start_slot(epoch),
    {
        match epoch.checked_mul(self.slots_per_epoch) {
            Some(slot) => slot,
            None => u64::MAX,
        }
    }

    pub fn max_blobs_per_block(&self, epoch: Epoch) -> (r: u64)
        ensures
            r == self.spec_max_blobs_per_block(epoch),
    {
        let ghost limits = self.blob_limits@;
        let mut i: usize = self.blob_limits.len();
        assert(limits.take(i as int) =~= limits);
        while i > 0
            invariant
                i <= limits.len(),
                limits == self.blob_limits@,
                self.spec_max_blobs_per_block(epoch) == blob_limit_at(limits.take(i as int), epoch),
            decreases i,
        {
            assert(limits.take(i as int).drop_last() =~= limits.take(i - 1));
            i -= 1;
            if self.blob_limits[i].from_epoch <= epoch {
                return self.blob_limits[i].max_blobs;
            }
        }
        0
    }
}

/// Whether change `i` of the blob limit is the last listed one that has begun by `epoch`.
pub open spec fn is_limit_in_force(limits: Seq<BlobLimit>, i: int, epoch: Epoch) -> bool {
    &&& 0 <= i < limits.len()
    &&& limits[i].from_epoch <= epoch
    &&& forall|j: int| i < j < limits.len() ==> epoch < (#[trigger] limits[j]).from_epoch
}

/// The blob limit at an epoch is that of the last listed change that has begun by then; before the
/// first one no blobs are allowed.
pub proof fn law_blob_limit_is_that_in_force(limits: Seq<BlobLimit>, epoch: Epoch)
    ensures
        forall|i: int| #[trigger]
            is_limit_in_force(limits, i, epoch) ==> blob_limit_at(limits, epoch) == limits[i].max_blobs,
        (forall|i: int| 0 <= i < limits.len() ==> epoch < (#[trigger] limits[i]).from_epoch)
            ==> blob_limit_at(limits, epoch) == 0,
    decreases limits.len(),
{
    if limits.len() > 0 {
        let short = limits.drop_last();
        let n = limits.len() - 1;
        law_blob_limit_is_that_in_force(short, epoch);
        assert forall|i: int| #[trigger] is_limit_in_force(limits, i, epoch) implies blob_limit_at(
            limits,
            epoch,
        ) == limits[i].max_blobs by {
            if i < n {
                assert(epoch < limits[n].from_epoch);
                assert forall|j: int| i < j < short.len() implies epoch < (
                #[trigger] short[j]).from_epoch by {
                    assert(epoch < limits[j].from_epoch);
                }
                assert(is_limit_in_force(short, i, epoch));
            } else {
                assert(limits[n].from_epoch <= epoch);
            }
        }
        if forall|i: int| 0 <= i < limits.len() ==> epoch < (#[trigger] limits[i]).from_epoch {
            assert(epoch < limits[n].from_epoch);
            assert forall|i: int| 0 <= i < short.len() implies epoch < (
            #[trigger] short[i]).from_epoch by {
                assert(epoch < limits[i].from_epoch);
            }
        }
    }
}

/// A slot belongs to the epoch whose slots it is among, and each epoch starts at its first slot.
pub proof fn law_slots_belong_to_their_epoch(spec: ChainSpec, slot: Slot, epoch: Epoch)
    requires
        spec.wf(),
    ensures
        spec.spec_epoch_of(slot) == epoch <==> epoch * spec.slots_per_epoch <= slot < (epoch + 1)
            * spec.slots_per_epoch,
        epoch * spec.slots_per_epoch <= u64::MAX ==> spec.spec_start_slot(epoch) == epoch
            * spec.slots_per_epoch && spec.spec_epoch_of(spec.spec_start_slot(epoch)) == epoch,
        epoch * spec.slots_per_epoch > u64::MAX ==> spec.spec_start_slot(epoch) == u64::MAX,
        spec.spec_start_slot(spec.spec_epoch_of(slot)) <= slot,
{
    let n = spec.slots_per_epoch as int;
    let s = slot as int;
    let e = epoch as int;
    assert(s / n == e <==> e * n <= s < (e + 1) * n) by (nonlinear_arith)
        requires
            n > 0,
            s >= 0,
            e >= 0,
    ;
    assert((e * n) / n == e) by (nonlinear_arith)
        requires
            n > 0,
    ;
    assert((s / n) * n <= s) by (nonlinear_arith)
        requires
            n > 0,
            s >= 0,
    ;
}

} // verus!
