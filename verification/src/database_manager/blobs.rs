//! Looking through, importing and re-dating the blobs of a database.
use crate::encoding;
use crate::encoding::root_bytes;
use crate::strings;
use crate::strings::{decimal_string, hex_encode};
use crate::types::{ChainSpec, Hash256, Slot};
use vstd::prelude::*;
use vstd::string::*;

verus! {

/// What the database records of its blobs.
#[derive(Clone, Copy, PartialEq, Eq, Structural, Debug)]
pub struct BlobInfo {
    pub oldest_blob_slot: Option<Slot>,
    /// Whether the blobs have a database of their own.
    pub blobs_db: bool,
}

/// The record with another oldest blob slot.
#[verifier::allow_in_spec]
pub fn set_oldest_blob_slot(old_blob_info: BlobInfo, slot: Slot) -> BlobInfo
    returns
        (BlobInfo { oldest_blob_slot: Some(slot), ..old_blob_info }),
{
    BlobInfo { oldest_blob_slot: Some(slot), blobs_db: old_blob_info.blobs_db }
}

/// Where a look through the blobs starts, and the slots before that whose blobs and blocks are both
/// missing: the first and the last of them.
#[derive(Clone, Copy, Debug)]
pub struct ScanStart {
    pub start_slot: Slot,
    pub missing: Option<(Slot, Slot)>,
}

/// The slot of the first block that can have blobs.
pub open spec fn deneb_start_slot(spec: ChainSpec) -> Slot {
    match spec.deneb_fork_epoch {
        Some(epoch) => spec.spec_start_slot(epoch),
        None => 0,
    }
}

/// Starts a look through the blobs.
pub fn scan_start(oldest_block_slot: Slot, spec: &ChainSpec) -> (r: ScanStart)
    ensures
        r == ({
            let deneb = deneb_start_slot(*spec);
            if oldest_block_slot > deneb {
                ScanStart {
                    start_slot: oldest_block_slot,
                    missing: Some((deneb, (oldest_block_slot - 1) as u64)),
                }
            } else {
                ScanStart { start_slot: deneb, missing: None }
            }
        }),
{
    let deneb_start_slot: Slot = match spec.deneb_fork_epoch {
        Some(epoch) => spec.start_slot(epoch),
        None => 0,
    };
    if oldest_block_slot > deneb_start_slot {
        ScanStart {
            start_slot: oldest_block_slot,
            missing: Some((deneb_start_slot, oldest_block_slot - 1)),
        }
    } else {
        ScanStart { start_slot: deneb_start_slot, missing: None }
    }
}

/// What is known of the blobs of a block root.
#[derive(Clone, Copy, PartialEq, Eq, Structural, Debug)]
pub enum StoredBlobs {
    /// That many blobs are stored.
    Blobs(usize),
    /// None is stored, and the block has this many blobs.
    Expected(usize),
    /// None is stored, and neither is the block.
    NoBlock,
}

/// Why a look through the blobs failed.
#[derive(Clone, Copy, PartialEq, Eq, Structural, Debug)]
pub enum Error {
    BlockNotFound(Hash256),
}

/// A look through the blobs, slot by slot.
pub struct BlobScan {
    pub last_block_root: Hash256,
}

/// The hexadecimal text of a root.
pub open spec fn root_text(root: Hash256) -> Seq<char> {
    "0x"@ + strings::hex_text(encoding::root_seq(root))
}

/// A line of the report, and whether it is a warning.
pub struct ScanLine {
    pub text: String,
    pub warning: bool,
}

impl BlobScan {
    /// Nothing has been looked at.
    pub fn new() -> (r: Self)
        ensures
            r.last_block_root == Hash256::zero(),
    {
        BlobScan { last_block_root: Hash256::zero() }
    }

    /// Whether the slot has a block of its own, so that its blobs have to be looked up: the root of a
    /// skipped slot is that of the slot before.
    pub fn has_block(&self, block_root: Hash256) -> (r: bool)
        ensures
            r == (block_root != self.last_block_root),
    {
        block_root != self.last_block_root
    }

    /// Passes over a slot without a block.
    pub fn skipped_slot(&self, slot: Slot) -> (r: String)
        ensures
            r@ == "Slot "@ + strings::decimal(slot as nat) + ": no block"@,
    {
        let mut text = "Slot ".to_owned();
        text.append(decimal_string(slot as u128).as_str());
        text.append(": no block");
        text
    }

    /// Reports the blobs of a slot with a block. Where nothing is stored of a block, the look through
    /// the blobs fails.
    pub fn block_slot(&mut self, slot: Slot, block_root: Hash256, stored: StoredBlobs) -> (r: Result<
        ScanLine,
        Error,
    >)
        ensures
            match stored {
                StoredBlobs::NoBlock => r matches Err(e) && e == Error::BlockNotFound(block_root)
                    && *final(self) == *old(self),
                StoredBlobs::Blobs(count) => final(self).last_block_root == block_root && (r matches Ok(
                    line,
                ) && !line.warning && line.text@ == "Slot "@ + strings::decimal(slot as nat) + ": "@
                    + strings::decimal(count as nat) + " blobs stored"@),
                StoredBlobs::Expected(count) => final(self).last_block_root == block_root && (
                r matches Ok(line) && line.warning == (count > 0) && line.text@ == (if count > 0 {
                    "Slot "@ + strings::decimal(slot as nat) + ": "@ + strings::decimal(count as nat)
                        + " blobs missing ("@ + root_text(block_root) + ")"@
                } else {
                    "Slot "@ + strings::decimal(slot as nat) + ": block with 0 blobs"@
                })),
            },
    {
        let mut text = "Slot ".to_owned();
        text.append(decimal_string(slot as u128).as_str());
        let warning = match stored {
            StoredBlobs::NoBlock => {
                return Err(Error::BlockNotFound(block_root));
            },
            StoredBlobs::Blobs(count) => {
                text.append(": ");
                text.append(decimal_string(count as u128).as_str());
                text.append(" blobs stored");
                false
            },
            StoredBlobs::Expected(count) => {
                if count > 0 {
                    text.append(": ");
                    text.append(decimal_string(count as u128).as_str());
                    text.append(" blobs missing (");
                    text.append("0x");
                    text.append(hex_encode(root_bytes(&block_root).as_slice()).as_str());
                    text.append(")");
                    true
                } else {
                    text.append(": block with 0 blobs");
                    false
                }
            },
        };
        self.last_block_root = block_root;
        proof {
            if let StoredBlobs::Expected(count) = stored {
                if count > 0 {
                    assert(text@ =~= "Slot "@ + strings::decimal(slot as nat) + ": "@ + strings::decimal(
                        count as nat,
                    ) + " blobs missing ("@ + root_text(block_root) + ")"@);
                }
            }
        }
        Ok(ScanLine { text, warning })
    }
}

/// The number of writes that are committed together.
pub const BATCH_SIZE: usize = 1024;

/// The number of entries that can be counted.
pub const MAX_ENTRIES: u32 = 0x7fff_ffff;

/// The write of a block's blobs: the block root, whose bytes are the key, and the stored bytes.
pub struct PutBlobs {
    pub block_root: Hash256,
    pub blob_bytes: Vec<u8>,
}

/// An import of blobs in progress.
pub struct BlobImport {
    pub prev_blob_info: BlobInfo,
    pub oldest_blob_slot: Slot,
    pub num_already_known: u32,
    pub num_imported: u32,
    /// The writes that are not committed yet.
    pub ops: Vec<PutBlobs>,
}

/// The earlier of `oldest` and the slot of the first blob, if there is one.
pub open spec fn older(oldest: Slot, first_slot: Option<Slot>) -> Slot {
    match first_slot {
        Some(slot) => if slot < oldest {
            slot
        } else {
            oldest
        },
        None => oldest,
    }
}

/// What is committed and what stays pending once `op` is added to `pending`.
pub open spec fn batched<A>(pending: Seq<A>, op: A) -> (Option<Seq<A>>, Seq<A>) {
    if pending.len() + 1 >= BATCH_SIZE {
        (Some(pending.push(op)), Seq::empty())
    } else {
        (None, pending.push(op))
    }
}

impl BlobImport {
    /// Fewer writes are pending than are committed together.
    pub open spec fn wf(self) -> bool {
        self.ops@.len() < BATCH_SIZE
    }

    /// Starts an import into a database with this record of its blobs.
    pub fn new(prev_blob_info: BlobInfo) -> (r: Self)
        ensures
            r.wf(),
            r.prev_blob_info == prev_blob_info,
            r.oldest_blob_slot == (match prev_blob_info.oldest_blob_slot {
                Some(slot) => slot,
                None => u64::MAX,
            }),
            r.num_already_known == 0,
            r.num_imported == 0,
            r.ops@.len() == 0,
    {
        BlobImport {
            prev_blob_info,
            oldest_blob_slot: match prev_blob_info.oldest_blob_slot {
                Some(slot) => slot,
                None => u64::MAX,
            },
            num_already_known: 0,
            num_imported: 0,
            ops: Vec::new(),
        }
    }

    /// Whether an entry is stored already, given how many blobs the database holds under its root,
    /// where it holds a list of them. Such an entry is counted; any other is to be imported.
    pub fn already_known(&mut self, stored: Option<usize>) -> (r: bool)
        requires
            old(self).num_already_known < MAX_ENTRIES,
        ensures
            r == (stored matches Some(count) && count > 0),
            *final(self) == (BlobImport {
                num_already_known: if r {
                    (old(self).num_already_known + 1) as u32
                } else {
                    old(self).num_already_known
                },
                ..*old(self)
            }),
    {
        let known = match stored {
            Some(count) => count > 0,
            None => false,
        };
        if known {
            self.num_already_known += 1;
        }
        known
    }

    /// Takes up an entry that is not stored yet, given the slot of its first blob. Returns the writes
    /// to commit now, once there are enough of them.
    pub fn import(&mut self, block_root: Hash256, blob_bytes: Vec<u8>, first_slot: Option<Slot>) -> (r:
        Option<Vec<PutBlobs>>)
        requires
            old(self).wf(),
            old(self).num_imported < MAX_ENTRIES,
        ensures
            final(self).wf(),
            final(self).prev_blob_info == old(self).prev_blob_info,
            final(self).num_already_known == old(self).num_already_known,
            final(self).num_imported == old(self).num_imported + 1,
            final(self).oldest_blob_slot == older(old(self).oldest_blob_slot, first_slot),
            ({
                let (commit, pending) = batched(old(self).ops@, PutBlobs { block_root, blob_bytes });
                &&& final(self).ops@ == pending
                &&& r is Some <==> commit is Some
                &&& r matches Some(batch) ==> Some(batch@) == commit
            }),
    {
        self.ops.push(PutBlobs { block_root, blob_bytes });
        if let Some(slot) = first_slot {
            if slot < self.oldest_blob_slot {
                self.oldest_blob_slot = slot;
            }
        }
        self.num_imported += 1;
        if self.ops.len() >= BATCH_SIZE {
            let mut batch: Vec<PutBlobs> = Vec::new();
            std::mem::swap(&mut batch, &mut self.ops);
            Some(batch)
        } else {
            None
        }
    }

    /// The last writes to commit, and the record of the blobs after the import.
    pub fn finish(self) -> (r: (Vec<PutBlobs>, BlobInfo))
        ensures
            r.0@ == self.ops@,
            r.1 == set_oldest_blob_slot(self.prev_blob_info, self.oldest_blob_slot),
    {
        (self.ops, set_oldest_blob_slot(self.prev_blob_info, self.oldest_blob_slot))
    }
}

/// The writes committed so far, one after the other, and those pending, once `entries` were taken up.
pub open spec fn committed_and_pending<A>(entries: Seq<A>) -> (Seq<Seq<A>>, Seq<A>)
    decreases entries.len(),
{
    if entries.len() == 0 {
        (Seq::empty(), Seq::empty())
    } else {
        let (batches, pending) = committed_and_pending(entries.drop_last());
        match batched(pending, entries.last()) {
            (Some(batch), rest) => (batches.push(batch), rest),
            (None, rest) => (batches, rest),
        }
    }
}

/// Every entry that is taken up is written once, in its order: the batches and what is pending make
/// up the entries. Each batch is full, and what is pending is not.
pub proof fn law_every_entry_is_written_once<A>(entries: Seq<A>)
    ensures
        committed_and_pending(entries).0.flatten() + committed_and_pending(entries).1 == entries,
        committed_and_pending(entries).1.len() < BATCH_SIZE,
        forall|i: int|
            0 <= i < committed_and_pending(entries).0.len() ==> (
            #[trigger] committed_and_pending(entries).0[i]).len() == BATCH_SIZE,
    decreases entries.len(),
{
    if entries.len() > 0 {
        let short = entries.drop_last();
        law_every_entry_is_written_once(short);
        let (batches, pending) = committed_and_pending(short);
        let last = entries.last();
        assert(entries =~= short.push(last));
        if pending.len() + 1 >= BATCH_SIZE {
            batches.lemma_flatten_push(pending.push(last));
            assert(batches.flatten() + pending.push(last) =~= short.push(last));
            assert(batches.push(pending.push(last)).flatten() + Seq::<A>::empty() =~= entries);
        } else {
            assert(batches.flatten() + pending.push(last) =~= entries);
        }
    } else {
        assert(Seq::<Seq<A>>::empty().flatten() + Seq::<A>::empty() =~= entries);
    }
}

/// The oldest blob slot once entries with these first slots were taken up.
pub open spec fn oldest_of(start: Slot, first_slots: Seq<Option<Slot>>) -> Slot
    decreases first_slots.len(),
{
    if first_slots.len() == 0 {
        start
    } else {
        older(oldest_of(start, first_slots.drop_last()), first_slots.last())
    }
}

/// After an import the recorded slot is not above that of any blob imported nor above the one
/// recorded before, and it is one of them.
pub proof fn law_oldest_slot_is_the_least(start: Slot, first_slots: Seq<Option<Slot>>)
    ensures
        oldest_of(start, first_slots) <= start,
        forall|i: int|
            0 <= i < first_slots.len() ==> (#[trigger] first_slots[i] matches Some(slot) ==> oldest_of(
                start,
                first_slots,
            ) <= slot),
        oldest_of(start, first_slots) == start || first_slots.contains(
            Some(oldest_of(start, first_slots)),
        ),
    decreases first_slots.len(),
{
    if first_slots.len() > 0 {
        let short = first_slots.drop_last();
        law_oldest_slot_is_the_least(start, short);
        let before = oldest_of(start, short);
        let now = oldest_of(start, first_slots);
        assert forall|i: int| 0 <= i < first_slots.len() implies (
        #[trigger] first_slots[i] matches Some(slot) ==> now <= slot) by {
            if i < short.len() {
                assert(short[i] == first_slots[i]);
            }
        }
        if now == before {
            if before != start {
                let i = choose|i: int| 0 <= i < short.len() && short[i] == Some(before);
                assert(first_slots[i] == Some(now));
            }
        } else {
            assert(first_slots[first_slots.len() - 1] == Some(now));
        }
    }
}

/// The blocks that can have blobs are those of the fork's epoch and later ones; without the fork the
/// look through the blobs starts at the first slot.
pub proof fn law_blobs_start_with_their_fork(spec: ChainSpec, slot: Slot)
    requires
        spec.wf(),
    ensures
        spec.deneb_fork_epoch is None ==> deneb_start_slot(spec) == 0,
        spec.deneb_fork_epoch matches Some(epoch) ==> (epoch * spec.slots_per_epoch <= u64::MAX ==> (
        slot >= deneb_start_slot(spec) <==> spec.spec_epoch_of(slot) >= epoch)),
{
    if let Some(epoch) = spec.deneb_fork_epoch {
        crate::types::law_slots_belong_to_their_epoch(spec, slot, epoch);
        let n = spec.slots_per_epoch as int;
        let s = slot as int;
        let e = epoch as int;
        assert(s >= e * n <==> s / n >= e) by (nonlinear_arith)
            requires
                n > 0,
                s >= 0,
                e >= 0,
        ;
    }
}

} // verus!
