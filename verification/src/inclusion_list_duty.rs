//! The duty of a validator to produce an inclusion list.
use crate::types::{Hash256, Slot};
use vstd::prelude::*;

verus! {

/// A 48 byte public key, as three little endian numbers of sixteen bytes each.
#[derive(Clone, Copy, PartialEq, Eq, Structural, Debug)]
pub struct PublicKeyBytes {
    pub lo: u128,
    pub mid: u128,
    pub hi: u128,
}

/// The duty to produce an inclusion list.
#[derive(Clone, Copy, PartialEq, Eq, Structural, Debug)]
pub struct InclusionListDuty {
    /// The slot during which the validator must produce an inclusion list.
    pub slot: Slot,
    /// The index of the validator.
    pub validator_index: u64,
    /// The hash tree root of the inclusion list committee.
    pub committee_root: Hash256,
    /// The public key of the validator.
    pub pubkey: PublicKeyBytes,
}

} // verus!
