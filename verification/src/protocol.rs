//! The exchange between a state machine of this crate and its driver.
//!
//! A machine asks for one piece of outside work at a time with a
//! [`Request`]. The driver performs it and reports how it went with the
//! [`Event`] that answers the request; the machine then says what it needs
//! next. An event that does not answer the outstanding request is turned
//! down with [`Rejected`] and changes nothing.

use vstd::prelude::*;
use crate::probe::{SystemError, SystemState};
use crate::workload::WorkloadResult;

verus! {

/// The outside work that a machine asks its driver to perform.
#[derive(Clone, Debug, PartialEq, Eq)]
pub enum Request {
    /// Launch the workload as a task of its own.
    SpawnWorkload,
    /// Wait for `interval` time units.
    Sleep { interval: u64 },
    /// Take one reading of the system state.
    ReadProbe,
    /// Tell the workload to stop.
    SignalCancel,
    /// Wait until the workload has ended and fetch its result.
    JoinWorkload,
    /// Store `content` as the artifact `name`.
    PersistArtifact { name: String, content: String },
    /// Nothing is left to do.
    Done,
}

/// A [`Request`] as contracts see it.
pub enum RequestView {
    SpawnWorkload,
    Sleep { interval: u64 },
    ReadProbe,
    SignalCancel,
    JoinWorkload,
    PersistArtifact { name: Seq<char>, content: Seq<char> },
    Done,
}

impl View for Request {
    type V = RequestView;

    open spec fn view(&self) -> RequestView {
        match *self {
            Request::SpawnWorkload => RequestView::SpawnWorkload,
            Request::Sleep { interval } => RequestView::Sleep { interval },
            Request::ReadProbe => RequestView::ReadProbe,
            Request::SignalCancel => RequestView::SignalCancel,
            Request::JoinWorkload => RequestView::JoinWorkload,
            Request::PersistArtifact { name, content } => RequestView::PersistArtifact {
                name: name@,
                content: content@,
            },
            Request::Done => RequestView::Done,
        }
    }
}

/// How a piece of outside work went.
#[derive(Debug, PartialEq, Eq)]
pub enum Event {
    /// The workload was launched.
    Spawned,
    /// The wait is over.
    Slept,
    /// The reading, or why there is none.
    Reading(Result<SystemState, SystemError>),
    /// The workload was told to stop.
    CancelSignalled,
    /// The workload has ended: its result, or `None` if it ended without one.
    Joined(Option<WorkloadResult>),
    /// The artifact was stored at the locator given, or could not be
    /// stored for the reason given.
    Persisted(Result<String, String>),
}

/// The event does not answer the request that was outstanding.
#[derive(Clone, Copy, Debug, PartialEq, Eq, Structural)]
pub struct Rejected;

/// `event` reports on the work that `request` asked for.
pub open spec fn answers(request: RequestView, event: Event) -> bool {
    match (request, event) {
        (RequestView::SpawnWorkload, Event::Spawned) => true,
        (RequestView::Sleep { .. }, Event::Slept) => true,
        (RequestView::ReadProbe, Event::Reading(_)) => true,
        (RequestView::SignalCancel, Event::CancelSignalled) => true,
        (RequestView::JoinWorkload, Event::Joined(_)) => true,
        (RequestView::PersistArtifact { .. }, Event::Persisted(_)) => true,
        _ => false,
    }
}

/// How often `request` occurs in `issued`.
pub open spec fn times(issued: Seq<RequestView>, request: RequestView) -> nat
    decreases issued.len(),
{
    if issued.len() == 0 {
        0
    } else {
        times(issued.drop_last(), request) + if issued.last() == request {
            1nat
        } else {
            0nat
        }
    }
}

} // verus!
