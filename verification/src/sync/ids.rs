//! Identifiers of requests, and how they are written.
use crate::strings::decimal_string;
use crate::strings;
use crate::types::{Epoch, Id};
use vstd::prelude::*;
use vstd::string::*;

verus! {

/// Identifies a lookup of a single block.
pub type SingleLookupId = u32;

/// An identifier that is told apart by its number alone.
pub trait RequestId: Copy {
    /// The number, different for every request that was made.
    spec fn number(self) -> u64;

    /// How the identifier is written.
    spec fn text(self) -> Seq<char>;

    fn get_number(&self) -> (r: u64)
        ensures
            r == self.number(),
    ;

    fn same_as(&self, other: &Self) -> (r: bool)
        ensures
            r == (*self == *other),
    ;

    fn to_text(&self) -> (r: String)
        ensures
            r@ == self.text(),
    ;
}

/// `left`, a slash and `right`.
pub open spec fn slash(left: Seq<char>, right: Seq<char>) -> Seq<char> {
    left + "/"@ + right
}

fn slash_string(left: &str, right: &str) -> (r: String)
    ensures
        r@ == slash(left@, right@),
{
    let mut r = left.to_owned();
    r.append("/");
    r.append(right);
    r
}

/// What a range request is made for.
#[derive(Clone, Copy, PartialEq, Eq, Structural, Debug)]
pub enum RangeRequestId {
    RangeSync { chain_id: u64, batch_id: Epoch },
    BackfillSync { batch_id: Epoch },
}

impl RangeRequestId {
    pub open spec fn text(self) -> Seq<char> {
        match self {
            RangeRequestId::RangeSync { chain_id, batch_id } => slash(
                slash("RangeSync"@, strings::decimal(batch_id as nat)),
                strings::decimal(chain_id as nat),
            ),
            RangeRequestId::BackfillSync { batch_id } => slash(
                "BackfillSync"@,
                strings::decimal(batch_id as nat),
            ),
        }
    }

    pub fn to_text(&self) -> (r: String)
        ensures
            r@ == self.text(),
    {
        match self {
            RangeRequestId::RangeSync { chain_id, batch_id } => {
                let batch = slash_string("RangeSync", decimal_string(*batch_id as u128).as_str());
                slash_string(batch.as_str(), decimal_string(*chain_id as u128).as_str())
            },
            RangeRequestId::BackfillSync { batch_id } => slash_string(
                "BackfillSync",
                decimal_string(*batch_id as u128).as_str(),
            ),
        }
    }
}

/// A request for the blocks of a range with all their data.
#[derive(Clone, Copy, PartialEq, Eq, Structural, Debug)]
pub struct ComponentsByRangeRequestId {
    pub id: Id,
    pub requester: RangeRequestId,
}

impl RequestId for ComponentsByRangeRequestId {
    open spec fn number(self) -> u64 {
        self.id as u64
    }

    open spec fn text(self) -> Seq<char> {
        slash(strings::decimal(self.id as nat), self.requester.text())
    }

    fn get_number(&self) -> (r: u64) {
        self.id as u64
    }

    fn same_as(&self, other: &Self) -> (r: bool) {
        *self == *other
    }

    fn to_text(&self) -> (r: String) {
        slash_string(
            decimal_string(self.id as u128).as_str(),
            self.requester.to_text().as_str(),
        )
    }
}

/// A request for the blocks of a range.
#[derive(Clone, Copy, PartialEq, Eq, Structural, Debug)]
pub struct BlocksByRangeRequestId {
    pub id: Id,
    pub parent_request_id: ComponentsByRangeRequestId,
}

impl RequestId for BlocksByRangeRequestId {
    open spec fn number(self) -> u64 {
        self.id as u64
    }

    open spec fn text(self) -> Seq<char> {
        slash(strings::decimal(self.id as nat), self.parent_request_id.text())
    }

    fn get_number(&self) -> (r: u64) {
        self.id as u64
    }

    fn same_as(&self, other: &Self) -> (r: bool) {
        *self == *other
    }

    fn to_text(&self) -> (r: String) {
        slash_string(
            decimal_string(self.id as u128).as_str(),
            self.parent_request_id.to_text().as_str(),
        )
    }
}

/// A request for the blobs of a range.
#[derive(Clone, Copy, PartialEq, Eq, Structural, Debug)]
pub struct BlobsByRangeRequestId {
    pub id: Id,
    pub parent_request_id: ComponentsByRangeRequestId,
}

impl RequestId for BlobsByRangeRequestId {
    open spec fn number(self) -> u64 {
        self.id as u64
    }

    open spec fn text(self) -> Seq<char> {
        slash(strings::decimal(self.id as nat), self.parent_request_id.text())
    }

    fn get_number(&self) -> (r: u64) {
        self.id as u64
    }

    fn same_as(&self, other: &Self) -> (r: bool) {
        *self == *other
    }

    fn to_text(&self) -> (r: String) {
        slash_string(
            decimal_string(self.id as u128).as_str(),
            self.parent_request_id.to_text().as_str(),
        )
    }
}

/// A request for the custody columns of a range.
#[derive(Clone, Copy, PartialEq, Eq, Structural, Debug)]
pub struct CustodyByRangeRequestId {
    pub id: Id,
    pub parent_request_id: ComponentsByRangeRequestId,
}

impl RequestId for CustodyByRangeRequestId {
    open spec fn number(self) -> u64 {
        self.id as u64
    }

    open spec fn text(self) -> Seq<char> {
        slash(strings::decimal(self.id as nat), self.parent_request_id.text())
    }

    fn get_number(&self) -> (r: u64) {
        self.id as u64
    }

    fn same_as(&self, other: &Self) -> (r: bool) {
        *self == *other
    }

    fn to_text(&self) -> (r: String) {
        slash_string(
            decimal_string(self.id as u128).as_str(),
            self.parent_request_id.to_text().as_str(),
        )
    }
}

/// A request to one peer for some columns of a range.
#[derive(Clone, Copy, PartialEq, Eq, Structural, Debug)]
pub struct DataColumnsByRangeRequestId {
    pub id: Id,
    pub parent_request_id: CustodyByRangeRequestId,
}

impl RequestId for DataColumnsByRangeRequestId {
    open spec fn number(self) -> u64 {
        self.id as u64
    }

    open spec fn text(self) -> Seq<char> {
        slash(strings::decimal(self.id as nat), self.parent_request_id.text())
    }

    fn get_number(&self) -> (r: u64) {
        self.id as u64
    }

    fn same_as(&self, other: &Self) -> (r: bool) {
        *self == *other
    }

    fn to_text(&self) -> (r: String) {
        slash_string(
            decimal_string(self.id as u128).as_str(),
            self.parent_request_id.to_text().as_str(),
        )
    }
}

/// A request made by the lookup of a single block.
#[derive(Clone, Copy, PartialEq, Eq, Structural, Debug)]
pub struct SingleLookupReqId {
    pub lookup_id: SingleLookupId,
    pub req_id: Id,
}

impl RequestId for SingleLookupReqId {
    open spec fn number(self) -> u64 {
        self.req_id as u64
    }

    open spec fn text(self) -> Seq<char> {
        slash(
            slash(strings::decimal(self.req_id as nat), "Lookup"@),
            strings::decimal(self.lookup_id as nat),
        )
    }

    fn get_number(&self) -> (r: u64) {
        self.req_id as u64
    }

    fn same_as(&self, other: &Self) -> (r: bool) {
        *self == *other
    }

    fn to_text(&self) -> (r: String) {
        let lookup = slash_string(decimal_string(self.req_id as u128).as_str(), "Lookup");
        slash_string(lookup.as_str(), decimal_string(self.lookup_id as u128).as_str())
    }
}

/// The lookup that custody columns of a block are fetched for.
#[derive(Clone, Copy, PartialEq, Eq, Structural, Debug)]
pub struct CustodyRequester {
    pub id: SingleLookupReqId,
}

/// A request for the custody columns of a block.
#[derive(Clone, Copy, PartialEq, Eq, Structural, Debug)]
pub struct CustodyId {
    pub requester: CustodyRequester,
}

/// What columns of a block are requested for.
#[derive(Clone, Copy, PartialEq, Eq, Structural, Debug)]
pub enum DataColumnsByRootRequester {
    Custody(CustodyId),
}

impl DataColumnsByRootRequester {
    pub open spec fn text(self) -> Seq<char> {
        match self {
            DataColumnsByRootRequester::Custody(id) => id.requester.id.text(),
        }
    }

    pub fn to_text(&self) -> (r: String)
        ensures
            r@ == self.text(),
    {
        match self {
            DataColumnsByRootRequester::Custody(id) => id.requester.id.to_text(),
        }
    }
}

/// A request to one peer for some columns of a block.
#[derive(Clone, Copy, PartialEq, Eq, Structural, Debug)]
pub struct DataColumnsByRootRequestId {
    pub id: Id,
    pub requester: DataColumnsByRootRequester,
}

impl RequestId for DataColumnsByRootRequestId {
    open spec fn number(self) -> u64 {
        self.id as u64
    }

    open spec fn text(self) -> Seq<char> {
        slash(strings::decimal(self.id as nat), self.requester.text())
    }

    fn get_number(&self) -> (r: u64) {
        self.id as u64
    }

    fn same_as(&self, other: &Self) -> (r: bool) {
        *self == *other
    }

    fn to_text(&self) -> (r: String) {
        slash_string(
            decimal_string(self.id as u128).as_str(),
            self.requester.to_text().as_str(),
        )
    }
}

/// Any request that sync makes to a peer.
#[derive(Clone, Copy, PartialEq, Eq, Structural, Debug)]
pub enum SyncRequestId {
    SingleBlock { id: SingleLookupReqId },
    SingleBlob { id: SingleLookupReqId },
    DataColumnsByRoot(DataColumnsByRootRequestId),
    BlocksByRange(BlocksByRangeRequestId),
    BlobsByRange(BlobsByRangeRequestId),
    DataColumnsByRange(DataColumnsByRangeRequestId),
}

} // verus!
