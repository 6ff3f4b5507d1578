//! Why requests fail.
use crate::types::{ColumnIndex, Hash256, Nanos, Slot};
use vstd::prelude::*;

verus! {

/// What is wrong with the data that a peer sent.
#[derive(Debug, PartialEq)]
pub enum LookupVerifyError {
    NotEnoughResponsesReturned { actual: usize },
    TooManyResponses,
    UnrequestedBlockRoot(Hash256),
    UnrequestedIndex(u64),
    UnrequestedSlot(Slot),
    InvalidInclusionProof,
    DuplicatedData(Slot, u64),
    InternalError(String),
}

impl LookupVerifyError {
    pub fn copy(&self) -> (r: Self)
        ensures
            r == *self,
    {
        match self {
            LookupVerifyError::NotEnoughResponsesReturned { actual } => {
                LookupVerifyError::NotEnoughResponsesReturned { actual: *actual }
            },
            LookupVerifyError::TooManyResponses => LookupVerifyError::TooManyResponses,
            LookupVerifyError::UnrequestedBlockRoot(root) => {
                LookupVerifyError::UnrequestedBlockRoot(*root)
            },
            LookupVerifyError::UnrequestedIndex(index) => LookupVerifyError::UnrequestedIndex(*index),
            LookupVerifyError::UnrequestedSlot(slot) => LookupVerifyError::UnrequestedSlot(*slot),
            LookupVerifyError::InvalidInclusionProof => LookupVerifyError::InvalidInclusionProof,
            LookupVerifyError::DuplicatedData(slot, index) => {
                LookupVerifyError::DuplicatedData(*slot, *index)
            },
            LookupVerifyError::InternalError(e) => LookupVerifyError::InternalError(e.clone()),
        }
    }

    /// The name of the error, as peers are reported for it.
    pub open spec fn spec_name(self) -> Seq<char> {
        match self {
            LookupVerifyError::NotEnoughResponsesReturned { actual: _ } => "NotEnoughResponsesReturned"@,
            LookupVerifyError::TooManyResponses => "TooManyResponses"@,
            LookupVerifyError::UnrequestedBlockRoot(_) => "UnrequestedBlockRoot"@,
            LookupVerifyError::UnrequestedIndex(_) => "UnrequestedIndex"@,
            LookupVerifyError::UnrequestedSlot(_) => "UnrequestedSlot"@,
            LookupVerifyError::InvalidInclusionProof => "InvalidInclusionProof"@,
            LookupVerifyError::DuplicatedData(_, _) => "DuplicatedData"@,
            LookupVerifyError::InternalError(_) => "InternalError"@,
        }
    }

    pub fn name(&self) -> (r: &'static str)
        ensures
            r@ == self.spec_name(),
    {
        match self {
            LookupVerifyError::NotEnoughResponsesReturned { .. } => "NotEnoughResponsesReturned",
            LookupVerifyError::TooManyResponses => "TooManyResponses",
            LookupVerifyError::UnrequestedBlockRoot(_) => "UnrequestedBlockRoot",
            LookupVerifyError::UnrequestedIndex(_) => "UnrequestedIndex",
            LookupVerifyError::UnrequestedSlot(_) => "UnrequestedSlot",
            LookupVerifyError::InvalidInclusionProof => "InvalidInclusionProof",
            LookupVerifyError::DuplicatedData(_, _) => "DuplicatedData",
            LookupVerifyError::InternalError(_) => "InternalError",
        }
    }
}

/// An error of the request protocol; the number is the caller's key for it.
#[derive(Clone, Copy, PartialEq, Eq, Structural, Debug)]
pub struct RPCError {
    pub key: u64,
}

/// Why a request did not get its data.
#[derive(Debug, PartialEq)]
pub enum RpcResponseError {
    RpcError(RPCError),
    VerifyError(LookupVerifyError),
    RequestExpired(String),
    InternalError(String),
}

impl RpcResponseError {
    pub fn copy(&self) -> (r: Self)
        ensures
            r == *self,
    {
        match self {
            RpcResponseError::RpcError(e) => RpcResponseError::RpcError(*e),
            RpcResponseError::VerifyError(e) => RpcResponseError::VerifyError(e.copy()),
            RpcResponseError::RequestExpired(e) => RpcResponseError::RequestExpired(e.clone()),
            RpcResponseError::InternalError(e) => RpcResponseError::InternalError(e.clone()),
        }
    }
}

impl From<RPCError> for RpcResponseError {
    fn from(e: RPCError) -> (r: Self) {
        RpcResponseError::RpcError(e)
    }
}

impl vstd::std_specs::convert::FromSpecImpl<RPCError> for RpcResponseError {
    open spec fn obeys_from_spec() -> bool {
        true
    }

    open spec fn from_spec(e: RPCError) -> Self {
        RpcResponseError::RpcError(e)
    }
}

impl From<LookupVerifyError> for RpcResponseError {
    fn from(e: LookupVerifyError) -> (r: Self) {
        RpcResponseError::VerifyError(e)
    }
}

impl vstd::std_specs::convert::FromSpecImpl<LookupVerifyError> for RpcResponseError {
    open spec fn obeys_from_spec() -> bool {
        true
    }

    open spec fn from_spec(e: LookupVerifyError) -> Self {
        RpcResponseError::VerifyError(e)
    }
}

/// Why a request could not be sent. Sends are expected to succeed: the only errors are internal.
#[derive(Debug, PartialEq)]
pub enum RpcRequestSendError {
    InternalError(String),
}

impl RpcRequestSendError {
    /// The text of the error.
    pub open spec fn text(self) -> Seq<char> {
        match self {
            RpcRequestSendError::InternalError(e) => e@,
        }
    }
}

/// Why data could not be handed on for processing.
#[derive(Clone, Copy, PartialEq, Eq, Structural, Debug)]
pub enum SendErrorProcessor {
    SendError,
    ProcessorNotAvailable,
}

/// A response with the time at which its last part was seen, or why there is none.
pub type RpcResponseResult<T> = Result<(T, Nanos), RpcResponseError>;

/// What a request sees of its response stream.
#[derive(Debug, PartialEq)]
pub enum RpcEvent<T> {
    StreamTermination,
    Response(T, Nanos),
    RPCError(RPCError),
}

impl<T> RpcEvent<T> {
    /// The event for the next part of a stream, or for its end.
    pub fn from_chunk(chunk: Option<T>, seen_timestamp: Nanos) -> (r: Self)
        ensures
            r == (match chunk {
                Some(item) => RpcEvent::Response(item, seen_timestamp),
                None => RpcEvent::StreamTermination,
            }),
    {
        match chunk {
            Some(item) => RpcEvent::Response(item, seen_timestamp),
            None => RpcEvent::StreamTermination,
        }
    }
}

/// What became of the request of a lookup.
#[derive(Debug, PartialEq)]
pub enum LookupRequestResult<I> {
    /// A request was sent; its response or failure is to come.
    RequestSent(I),
    /// Nothing was sent, and nothing more is needed.
    NoRequestNeeded(&'static str),
    /// Nothing was sent; some later event will carry on.
    Pending(&'static str),
}

/// Why the custody columns of a request could not be fetched.
#[derive(Debug, PartialEq)]
pub enum CustodyError {
    InternalError(String),
    /// A column failed too often; the last failure.
    TooManyDownloadErrors(RpcResponseError),
    /// No peer could be found for these columns in time.
    ExpiredNoCustodyPeers(Vec<ColumnIndex>),
}

} // verus!
