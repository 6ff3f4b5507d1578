//! The download of one column.
use crate::sync::errors::{CustodyError, RpcResponseError};
use crate::sync::ids::{DataColumnsByRangeRequestId, RequestId};
use crate::sync::messages::DataColumnSidecar;
use crate::types::{Nanos, PeerId};
use vstd::prelude::*;
use vstd::string::*;

verus! {

enum Status {
    NotStarted,
    Downloading(DataColumnsByRangeRequestId),
    Downloaded(PeerId, Vec<DataColumnSidecar>, Nanos),
}

/// One column of every block of a range: whether it has been requested and received, and how its
/// earlier requests failed.
pub struct ColumnRequest {
    status: Status,
    download_failures: Vec<RpcResponseError>,
}

/// How far a column is.
pub enum StatusView {
    NotStarted,
    Downloading(DataColumnsByRangeRequestId),
    Downloaded(PeerId, Seq<DataColumnSidecar>, Nanos),
}

/// A column with its failures, oldest first.
pub struct ColumnRequestView {
    pub status: StatusView,
    pub failures: Seq<RpcResponseError>,
}

/// The name of a status.
pub open spec fn status_name(status: StatusView) -> Seq<char> {
    match status {
        StatusView::NotStarted => "NotStarted"@,
        StatusView::Downloading(_) => "Downloading"@,
        StatusView::Downloaded(_, _, _) => "Downloaded"@,
    }
}

/// The error text of a step that the status does not allow.
pub open spec fn bad_state(step: Seq<char>, expected: Seq<char>, status: StatusView) -> Seq<char> {
    "bad state "@ + step + " expected "@ + expected + " got "@ + status_name(status)
}

/// The error text of a result that belongs to another request.
pub open spec fn unexpected_request(
    expected: DataColumnsByRangeRequestId,
    got: DataColumnsByRangeRequestId,
) -> Seq<char> {
    "received download result for req_id "@ + got.text() + " expecting "@ + expected.text()
}

/// The column after a request for it was sent, or why it cannot be requested.
pub open spec fn started(c: ColumnRequestView, req_id: DataColumnsByRangeRequestId) -> Result<
    ColumnRequestView,
    Seq<char>,
> {
    if c.status is NotStarted {
        Ok(ColumnRequestView { status: StatusView::Downloading(req_id), ..c })
    } else {
        Err(bad_state("on_download_start"@, "NotStarted"@, c.status))
    }
}

/// The column after its request failed, or why the failure does not belong to it.
pub open spec fn failed(c: ColumnRequestView, req_id: DataColumnsByRangeRequestId) -> Result<
    ColumnRequestView,
    Seq<char>,
> {
    match c.status {
        StatusView::Downloading(expected) => if expected == req_id {
            Ok(ColumnRequestView { status: StatusView::NotStarted, ..c })
        } else {
            Err(unexpected_request(expected, req_id))
        },
        _ => Err(bad_state("on_download_error"@, "Downloading"@, c.status)),
    }
}

/// The column after its data arrived, or why the data does not belong to it.
pub open spec fn succeeded(
    c: ColumnRequestView,
    req_id: DataColumnsByRangeRequestId,
    peer_id: PeerId,
    data: Seq<DataColumnSidecar>,
    seen: Nanos,
) -> Result<ColumnRequestView, Seq<char>> {
    match c.status {
        StatusView::Downloading(expected) => if expected == req_id {
            Ok(ColumnRequestView { status: StatusView::Downloaded(peer_id, data, seen), ..c })
        } else {
            Err(unexpected_request(expected, req_id))
        },
        _ => Err(bad_state("on_download_success"@, "Downloading"@, c.status)),
    }
}

/// Whether an outcome carries the error text `text`.
pub open spec fn is_internal<T>(r: Result<T, CustodyError>, text: Seq<char>) -> bool {
    r matches Err(CustodyError::InternalError(e)) && e@ == text
}

fn bad_state_error(step: &str, expected: &str, got: &str) -> (r: CustodyError)
    ensures
        r matches CustodyError::InternalError(e) && e@ == "bad state "@ + step@ + " expected "@
            + expected@ + " got "@ + got@,
{
    let mut text = "bad state ".to_owned();
    text.append(step);
    text.append(" expected ");
    text.append(expected);
    text.append(" got ");
    text.append(got);
    CustodyError::InternalError(text)
}

fn unexpected_request_error(
    expected: &DataColumnsByRangeRequestId,
    got: &DataColumnsByRangeRequestId,
) -> (r: CustodyError)
    ensures
        r matches CustodyError::InternalError(e) && e@ == unexpected_request(*expected, *got),
{
    let mut text = "received download result for req_id ".to_owned();
    text.append(got.to_text().as_str());
    text.append(" expecting ");
    text.append(expected.to_text().as_str());
    CustodyError::InternalError(text)
}

impl Status {
    closed spec fn view(self) -> StatusView {
        match self {
            Status::NotStarted => StatusView::NotStarted,
            Status::Downloading(id) => StatusView::Downloading(id),
            Status::Downloaded(peer, data, seen) => StatusView::Downloaded(peer, data@, seen),
        }
    }

    fn name(&self) -> (r: &'static str)
        ensures
            r@ == status_name(self@),
    {
        match self {
            Status::NotStarted => "NotStarted",
            Status::Downloading(_) => "Downloading",
            Status::Downloaded(_, _, _) => "Downloaded",
        }
    }
}

impl ColumnRequest {
    pub closed spec fn view(self) -> ColumnRequestView {
        ColumnRequestView { status: self.status@, failures: self.download_failures@ }
    }

    pub fn new() -> (r: Self)
        ensures
            r@ == (ColumnRequestView { status: StatusView::NotStarted, failures: Seq::empty() }),
    {
        let r = ColumnRequest { status: Status::NotStarted, download_failures: Vec::new() };
        assert(r@.failures =~= Seq::empty());
        r
    }

    pub fn is_awaiting_download(&self) -> (r: bool)
        ensures
            r == (self@.status is NotStarted),
    {
        match &self.status {
            Status::NotStarted => true,
            _ => false,
        }
    }

    pub fn is_downloading(&self) -> (r: bool)
        ensures
            r == (self@.status is Downloading),
    {
        match &self.status {
            Status::Downloading(_) => true,
            _ => false,
        }
    }

    pub fn is_downloaded(&self) -> (r: bool)
        ensures
            r == (self@.status is Downloaded),
    {
        match &self.status {
            Status::Downloaded(_, _, _) => true,
            _ => false,
        }
    }

    /// The last failure, where there were more than `limit`.
    pub fn too_many_failures(&self, limit: usize) -> (r: Option<RpcResponseError>)
        ensures
            r == (if self@.failures.len() > limit {
                Some(self@.failures.last())
            } else {
                None
            }),
    {
        let n: usize = self.download_failures.len();
        if n > limit {
            Some(self.download_failures[n - 1].copy())
        } else {
            None
        }
    }

    pub fn on_download_start(&mut self, req_id: DataColumnsByRangeRequestId) -> (r: Result<
        (),
        CustodyError,
    >)
        ensures
            match started(old(self)@, req_id) {
                Ok(next) => r is Ok && final(self)@ == next,
                Err(text) => is_internal(r, text) && final(self)@ == old(self)@,
            },
    {
        match &self.status {
            Status::NotStarted => {
                self.status = Status::Downloading(req_id);
                Ok(())
            },
            other => Err(bad_state_error("on_download_start", "NotStarted", other.name())),
        }
    }

    pub fn on_download_error(&mut self, req_id: DataColumnsByRangeRequestId) -> (r: Result<
        (),
        CustodyError,
    >)
        ensures
            match failed(old(self)@, req_id) {
                Ok(next) => r is Ok && final(self)@ == next,
                Err(text) => is_internal(r, text) && final(self)@ == old(self)@,
            },
    {
        match &self.status {
            Status::Downloading(expected) => {
                if *expected == req_id {
                    self.status = Status::NotStarted;
                    Ok(())
                } else {
                    Err(unexpected_request_error(expected, &req_id))
                }
            },
            other => Err(bad_state_error("on_download_error", "Downloading", other.name())),
        }
    }

    /// Records the failure and takes the column back to its start.
    pub fn on_download_error_and_mark_failure(
        &mut self,
        req_id: DataColumnsByRangeRequestId,
        err: RpcResponseError,
    ) -> (r: Result<(), CustodyError>)
        ensures
            ({
                let marked = ColumnRequestView {
                    failures: old(self)@.failures.push(err),
                    ..old(self)@
                };
                match failed(marked, req_id) {
                    Ok(next) => r is Ok && final(self)@ == next,
                    Err(text) => is_internal(r, text) && final(self)@ == marked,
                }
            }),
    {
        self.download_failures.push(err);
        self.on_download_error(req_id)
    }

    pub fn on_download_success(
        &mut self,
        req_id: DataColumnsByRangeRequestId,
        peer_id: PeerId,
        data: Vec<DataColumnSidecar>,
        seen_timestamp: Nanos,
    ) -> (r: Result<(), CustodyError>)
        ensures
            match succeeded(old(self)@, req_id, peer_id, data@, seen_timestamp) {
                Ok(next) => r is Ok && final(self)@ == next,
                Err(text) => is_internal(r, text) && final(self)@ == old(self)@,
            },
    {
        match &self.status {
            Status::Downloading(expected) => {
                if *expected == req_id {
                    self.status = Status::Downloaded(peer_id, data, seen_timestamp);
                    Ok(())
                } else {
                    Err(unexpected_request_error(expected, &req_id))
                }
            },
            other => Err(bad_state_error("on_download_success", "Downloading", other.name())),
        }
    }

    /// Hands out the data of a downloaded column.
    pub fn complete(self) -> (r: Result<(PeerId, Vec<DataColumnSidecar>, Nanos), CustodyError>)
        ensures
            match self@.status {
                StatusView::Downloaded(peer, data, seen) => r matches Ok(d) && d.0 == peer && d.1@ == data
                    && d.2 == seen,
                _ => is_internal(r, bad_state("complete"@, "Downloaded"@, self@.status)),
            },
    {
        match self.status {
            Status::Downloaded(peer_id, data, seen_timestamp) => Ok((peer_id, data, seen_timestamp)),
            Status::NotStarted => Err(bad_state_error("complete", "Downloaded", "NotStarted")),
            Status::Downloading(_) => Err(bad_state_error("complete", "Downloaded", "Downloading")),
        }
    }
}

} // verus!
