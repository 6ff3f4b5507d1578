//! The record of the chain that the database keeps.
use crate::encoding;
use crate::types::{Hash256, Slot};
use vstd::prelude::*;

verus! {

/// The columns of the database that the library itself names.
#[derive(Clone, Copy, PartialEq, Eq, Structural, Debug)]
pub enum DBColumn {
    BeaconChain,
    BeaconState,
    BeaconStateSummary,
}

/// Why a value could not be read from or written to the database.
#[derive(Clone, Copy, PartialEq, Eq, Structural, Debug)]
pub enum StoreError {
    SszDecodeError,
}

/// Stands in for the canonical head block root, which is no longer recorded.
#[verifier::allow_in_spec]
pub fn dummy_canonical_head_block_root() -> Hash256
    returns
        Hash256::all_ones(),
{
    Hash256::all_ones()
}

/// The heads that were once tracked: the roots, and the slot of each.
#[derive(Clone)]
pub struct SszHeadTracker {
    pub roots: Vec<Hash256>,
    pub slots: Vec<Slot>,
}

impl Default for SszHeadTracker {
    fn default() -> (r: Self)
        ensures
            r.roots@ == Seq::<Hash256>::empty(),
            r.slots@ == Seq::<Slot>::empty(),
    {
        SszHeadTracker { roots: Vec::new(), slots: Vec::new() }
    }
}

/// The record of the chain.
#[derive(Clone)]
pub struct PersistedBeaconChain {
    /// Ignored when read back, and written as [`dummy_canonical_head_block_root`].
    pub _canonical_head_block_root: Hash256,
    pub genesis_block_root: Hash256,
    pub ssz_head_tracker: SszHeadTracker,
}

/// The fields of a record, the two lists taken as sequences.
#[verifier::ext_equal]
pub struct ChainRecord {
    pub head: Hash256,
    pub genesis: Hash256,
    pub roots: Seq<Hash256>,
    pub slots: Seq<Slot>,
}

impl View for PersistedBeaconChain {
    type V = ChainRecord;

    open spec fn view(&self) -> ChainRecord {
        ChainRecord {
            head: self._canonical_head_block_root,
            genesis: self.genesis_block_root,
            roots: self.ssz_head_tracker.roots@,
            slots: self.ssz_head_tracker.slots@,
        }
    }
}

/// The bytes before the lists: two roots, the offset of the head tracker, and its two offsets.
pub const FIXED_BYTES: usize = 76;

/// Whether `root` number `i` of the record stands in its place.
pub open spec fn root_in_place(bytes: Seq<u8>, roots: Seq<Hash256>, i: int) -> bool {
    encoding::root_at(bytes, FIXED_BYTES + 32 * i, roots[i])
}

/// Whether `slot` number `i` of the record stands in its place.
pub open spec fn slot_in_place(bytes: Seq<u8>, record: ChainRecord, i: int) -> bool {
    encoding::le_at(bytes, FIXED_BYTES + 32 * record.roots.len() + 8 * i, 8) == record.slots[i]
}

/// Whether `bytes` are the SSZ encoding of `record`: the two roots, the offset of the head tracker,
/// the offsets of its two lists counted from there, and the lists.
pub open spec fn encodes(bytes: Seq<u8>, record: ChainRecord) -> bool {
    &&& bytes.len() == FIXED_BYTES + 32 * record.roots.len() + 8 * record.slots.len()
    &&& encoding::root_at(bytes, 0, record.head)
    &&& encoding::root_at(bytes, 32, record.genesis)
    &&& encoding::le_at(bytes, 64, 4) == 68
    &&& encoding::le_at(bytes, 68, 4) == 8
    &&& encoding::le_at(bytes, 72, 4) == 8 + 32 * record.roots.len()
    &&& forall|i: int| 0 <= i < record.roots.len() ==> #[trigger] root_in_place(bytes, record.roots, i)
    &&& forall|i: int| 0 <= i < record.slots.len() ==> #[trigger] slot_in_place(bytes, record, i)
}

/// Whether the offset of the slots fits the four bytes that an SSZ offset has.
pub open spec fn encodable(record: ChainRecord) -> bool {
    8 + 32 * record.roots.len() <= u32::MAX
}

/// `ssz::Encode::as_ssz_bytes` on the record taken as a container of two roots and a container of
/// two lists, a root being the container of its halves. The result is the SSZ encoding.
#[verifier::external_body]
fn ssz_encode(chain: &PersistedBeaconChain) -> (r: Vec<u8>)
    requires
        encodable(chain@),
    ensures
        encodes(r@, chain@),
{
    let head = chain._canonical_head_block_root;
    let genesis = chain.genesis_block_root;
    let tracker = &chain.ssz_head_tracker;
    let roots: Vec<(u128, u128)> = tracker.roots.iter().map(|r| (r.lo, r.hi)).collect();
    let value = ((head.lo, head.hi), (genesis.lo, genesis.hi), (roots, tracker.slots.clone()));
    ssz::Encode::as_ssz_bytes(&value)
}

/// `ssz::Decode::from_ssz_bytes` for the same containers. It succeeds on the encodings of records
/// and on nothing else, and then returns the record that was encoded.
#[verifier::external_body]
fn ssz_decode(bytes: &[u8]) -> (r: Result<PersistedBeaconChain, ssz::DecodeError>)
    ensures
        match r {
            Ok(chain) => encodable(chain@) && encodes(bytes@, chain@),
            Err(_) => forall|record: ChainRecord| !(#[trigger] encodes(bytes@, record)),
        },
{
    let value: ((u128, u128), (u128, u128), (Vec<(u128, u128)>, Vec<u64>)) =
        ssz::Decode::from_ssz_bytes(bytes)?;
    let roots = value.2.0.iter().map(|r| Hash256 { lo: r.0, hi: r.1 }).collect();
    Ok(PersistedBeaconChain {
        _canonical_head_block_root: Hash256 { lo: value.0.0, hi: value.0.1 },
        genesis_block_root: Hash256 { lo: value.1.0, hi: value.1.1 },
        ssz_head_tracker: SszHeadTracker { roots, slots: value.2.1 },
    })
}

impl PersistedBeaconChain {
    /// The column that holds the record.
    pub fn db_column() -> (r: DBColumn)
        ensures
            r == DBColumn::BeaconChain,
    {
        DBColumn::BeaconChain
    }

    /// The bytes under which the record is stored.
    pub fn as_store_bytes(&self) -> (r: Vec<u8>)
        requires
            encodable(self@),
        ensures
            encodes(r@, self@),
    {
        ssz_encode(self)
    }

    /// Reads the record back: fails exactly on bytes that encode no record.
    pub fn from_store_bytes(bytes: &[u8]) -> (r: Result<Self, StoreError>)
        ensures
            match r {
                Ok(chain) => encodable(chain@) && encodes(bytes@, chain@),
                Err(e) => e == StoreError::SszDecodeError && forall|record: ChainRecord|
                    !(#[trigger] encodes(bytes@, record)),
            },
    {
        match ssz_decode(bytes) {
            Ok(chain) => Ok(chain),
            Err(_) => Err(StoreError::SszDecodeError),
        }
    }
}

/// Bytes encode at most one record: what is read back is what was written.
pub proof fn law_one_record_per_encoding(bytes: Seq<u8>, a: ChainRecord, b: ChainRecord)
    requires
        encodes(bytes, a),
        encodes(bytes, b),
    ensures
        a == b,
{
    assert(a.roots.len() == b.roots.len());
    assert(a.slots.len() == b.slots.len());
    assert forall|i: int| 0 <= i < a.roots.len() implies a.roots[i] == b.roots[i] by {
        assert(root_in_place(bytes, a.roots, i));
        assert(root_in_place(bytes, b.roots, i));
    }
    assert forall|i: int| 0 <= i < a.slots.len() implies a.slots[i] == b.slots[i] by {
        assert(slot_in_place(bytes, a, i));
        assert(slot_in_place(bytes, b, i));
    }
    assert(a =~= b);
}

/// A record has exactly one encoding.
pub proof fn law_one_encoding_per_record(a: Seq<u8>, b: Seq<u8>, record: ChainRecord)
    requires
        encodes(a, record),
        encodes(b, record),
    ensures
        a == b,
{
    let n = record.roots.len() as int;
    assert forall|k: int| 0 <= k < a.len() implies a[k] == b[k] by {
        if k < 32 {
            encoding::lemma_same_root_bytes(a, b, 0, record.head, k);
        } else if k < 64 {
            encoding::lemma_same_root_bytes(a, b, 32, record.genesis, k);
        } else if k < 68 {
            encoding::lemma_same_bytes(a, b, 64, 4, k);
        } else if k < 72 {
            encoding::lemma_same_bytes(a, b, 68, 4, k);
        } else if k < 76 {
            encoding::lemma_same_bytes(a, b, 72, 4, k);
        } else if k < 76 + 32 * n {
            let i = (k - 76) / 32;
            assert(root_in_place(a, record.roots, i));
            assert(root_in_place(b, record.roots, i));
            encoding::lemma_same_root_bytes(a, b, 76 + 32 * i, record.roots[i], k);
        } else {
            let i = (k - 76 - 32 * n) / 8;
            assert(slot_in_place(a, record, i));
            assert(slot_in_place(b, record, i));
            encoding::lemma_same_bytes(a, b, 76 + 32 * n + 8 * i, 8, k);
        }
    }
    assert(a =~= b);
}

} // verus!
