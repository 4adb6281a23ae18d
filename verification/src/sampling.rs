//! The sampling coordinator: a fixed number of probe readings, taken at a
//! fixed interval while the workload runs, after which the workload is
//! told to stop and is joined.
//!
//! The coordinator goes from idle through sampling and draining to done.
//! It launches the workload, then sleeps and reads the probe once per
//! sample and forwards each reading to the measurement series. When the
//! samples are taken, or as soon as a reading fails, it signals the
//! workload to stop, then joins it, whatever happened before.

use vstd::prelude::*;
use crate::probe::{SystemError, SystemState};
use crate::protocol::{Event, Rejected, Request, RequestView, answers, times};
use crate::record::{Failure, PayloadView, RecordView, ScopeId};
use crate::nesting::{
    extends, innermost, lemma_extends_push, lemma_extends_self, lemma_extends_twice,
    lemma_open_after_push, open_after, well_nested,
};
use crate::scope::{Sink, series_of, spec_emit};
use crate::workload::WorkloadResult;

verus! {

/// Where the coordinator stands, by the request that is outstanding.
#[derive(Clone, Copy, Debug, PartialEq, Eq, Structural)]
pub enum SamplingPhase {
    /// Nothing has happened yet; the workload is to be launched.
    Idle,
    /// Sampling: the wait before the next reading is on.
    Sleeping,
    /// Sampling: the next reading is being taken.
    Probing,
    /// Draining: the workload is being told to stop.
    Cancelling,
    /// Draining: the workload is being joined.
    Joining,
    /// The workload has ended.
    Done,
}

/// The four states of the coordinator.
#[derive(Clone, Copy, Debug, PartialEq, Eq, Structural)]
pub enum CoordinatorState {
    Idle,
    Sampling,
    Draining,
    Done,
}

/// The coordinator of one measurement series.
#[derive(Clone, Debug, PartialEq, Eq)]
pub struct SamplingCoordinator {
    /// How many samples to take.
    pub count: u32,
    /// How long to wait before each sample.
    pub interval: u64,
    /// The name that the measurements carry.
    pub name: String,
    /// The unit that the measurements carry.
    pub unit: String,
    pub phase: SamplingPhase,
    /// How many samples were forwarded so far.
    pub taken: u32,
    /// What cut the sampling short or made the join fail, if anything did.
    pub failure: Option<Failure>,
    /// What the workload handed back when it was joined.
    pub value: Option<WorkloadResult>,
}

/// What the measurement record of one sample says, after `log`.
pub open spec fn sample_record(
    log: Seq<RecordView>,
    name: Seq<char>,
    unit: Seq<char>,
    value: u32,
) -> PayloadView {
    PayloadView::Measurement { name, value, unit, series: series_of(open_after(log).unwrap()) }
}

impl SamplingCoordinator {
    /// No more samples are taken than were asked for, and while sampling
    /// is on at least one is still missing and nothing has failed.
    pub open spec fn wf(&self) -> bool {
        &&& self.taken <= self.count
        &&& (self.phase == SamplingPhase::Sleeping || self.phase == SamplingPhase::Probing) ==> (
        self.taken < self.count && self.failure is None)
        &&& self.phase == SamplingPhase::Idle ==> self.taken == 0 && self.failure is None
        &&& self.phase != SamplingPhase::Done ==> self.value is None
        &&& (self.phase == SamplingPhase::Cancelling || self.phase == SamplingPhase::Joining
            || self.phase == SamplingPhase::Done) && self.failure is None ==> self.taken
            == self.count
        &&& self.phase == SamplingPhase::Done && self.failure is None ==> self.value is Some
    }

    /// The state of the coordinator.
    pub open spec fn spec_state(&self) -> CoordinatorState {
        match self.phase {
            SamplingPhase::Idle => CoordinatorState::Idle,
            SamplingPhase::Sleeping => CoordinatorState::Sampling,
            SamplingPhase::Probing => CoordinatorState::Sampling,
            SamplingPhase::Cancelling => CoordinatorState::Draining,
            SamplingPhase::Joining => CoordinatorState::Draining,
            SamplingPhase::Done => CoordinatorState::Done,
        }
    }

    /// The request that is outstanding.
    pub open spec fn spec_awaiting(&self) -> Request {
        match self.phase {
            SamplingPhase::Idle => Request::SpawnWorkload,
            SamplingPhase::Sleeping => Request::Sleep { interval: self.interval },
            SamplingPhase::Probing => Request::ReadProbe,
            SamplingPhase::Cancelling => Request::SignalCancel,
            SamplingPhase::Joining => Request::JoinWorkload,
            SamplingPhase::Done => Request::Done,
        }
    }

    /// The phase to go to once `taken` samples are in: the wait before the
    /// next sample while one is missing, the stop signal after the last.
    pub open spec fn phase_after(count: u32, taken: u32) -> SamplingPhase {
        if taken < count {
            SamplingPhase::Sleeping
        } else {
            SamplingPhase::Cancelling
        }
    }

    /// The coordinator in `phase`, all else unchanged.
    pub open spec fn at(self, phase: SamplingPhase) -> SamplingCoordinator {
        SamplingCoordinator { phase, ..self }
    }

    /// The coordinator after `event`, the stream after it, and the answer:
    /// the next request, or the refusal of an event that does not answer
    /// the outstanding one.
    pub open spec fn spec_step(self, log: Seq<RecordView>, series: ScopeId, event: Event) -> (
        SamplingCoordinator,
        Seq<RecordView>,
        Result<Request, Rejected>,
    ) {
        match (self.phase, event) {
            (SamplingPhase::Idle, Event::Spawned) => {
                let next = self.at(Self::phase_after(self.count, self.taken));
                (next, log, Ok(next.spec_awaiting()))
            },
            (SamplingPhase::Sleeping, Event::Slept) => {
                (self.at(SamplingPhase::Probing), log, Ok(Request::ReadProbe))
            },
            (SamplingPhase::Probing, Event::Reading(Ok(state))) => {
                let emitted = spec_emit(
                    log,
                    series,
                    sample_record(log, self.name@, self.unit@, state.temperature),
                );
                if emitted.1 is Ok {
                    let taken = (self.taken + 1) as u32;
                    let next = SamplingCoordinator {
                        taken,
                        phase: Self::phase_after(self.count, taken),
                        ..self
                    };
                    (next, emitted.0, Ok(next.spec_awaiting()))
                } else {
                    (
                        SamplingCoordinator {
                            phase: SamplingPhase::Cancelling,
                            failure: Some(Failure::ScopeProtocolViolation),
                            ..self
                        },
                        log,
                        Ok(Request::SignalCancel),
                    )
                }
            },
            (SamplingPhase::Probing, Event::Reading(Err(_))) => {
                (
                    SamplingCoordinator {
                        phase: SamplingPhase::Cancelling,
                        failure: Some(Failure::ProbeFailure),
                        ..self
                    },
                    log,
                    Ok(Request::SignalCancel),
                )
            },
            (SamplingPhase::Cancelling, Event::CancelSignalled) => {
                (self.at(SamplingPhase::Joining), log, Ok(Request::JoinWorkload))
            },
            (SamplingPhase::Joining, Event::Joined(Some(result))) => {
                (
                    SamplingCoordinator { phase: SamplingPhase::Done, value: Some(result), ..self },
                    log,
                    Ok(Request::Done),
                )
            },
            (SamplingPhase::Joining, Event::Joined(None)) => {
                (
                    SamplingCoordinator {
                        phase: SamplingPhase::Done,
                        failure: Some(Failure::WorkloadJoinFailure),
                        ..self
                    },
                    log,
                    Ok(Request::Done),
                )
            },
            _ => (self, log, Err(Rejected)),
        }
    }

    /// A coordinator that is to take `count` samples, `interval` time
    /// units apart, and to forward them under `name` with `unit`.
    pub fn new(count: u32, interval: u64, name: &str, unit: &str) -> (coordinator:
        SamplingCoordinator)
        ensures
            coordinator.wf(),
            coordinator.count == count,
            coordinator.interval == interval,
            coordinator.name@ == name@,
            coordinator.unit@ == unit@,
            coordinator.phase == SamplingPhase::Idle,
            coordinator.taken == 0,
            coordinator.failure is None,
            coordinator.value is None,
    {
        SamplingCoordinator {
            count,
            interval,
            name: name.to_owned(),
            unit: unit.to_owned(),
            phase: SamplingPhase::Idle,
            taken: 0,
            failure: None,
            value: None,
        }
    }

    /// Whether the coordinator is one that [`SamplingCoordinator::step`]
    /// accepts: its fields are open to its users, who may have set them.
    pub fn is_valid(&self) -> (ok: bool)
        ensures
            ok == self.wf(),
    {
        let sampling = match self.phase {
            SamplingPhase::Sleeping => true,
            SamplingPhase::Probing => true,
            _ => false,
        };
        let idle = match self.phase {
            SamplingPhase::Idle => true,
            _ => false,
        };
        let done = match self.phase {
            SamplingPhase::Done => true,
            _ => false,
        };
        let failed = self.failure.is_some();
        let valued = self.value.is_some();
        self.taken <= self.count && (!sampling || (self.taken < self.count && !failed)) && (!idle
            || (self.taken == 0 && !failed)) && (done || !valued) && (sampling || idle || failed
            || self.taken == self.count) && (!done || failed || valued)
    }

    /// The state of the coordinator.
    #[verifier::when_used_as_spec(spec_state)]
    pub fn state(&self) -> (state: CoordinatorState)
        ensures
            state == self.spec_state(),
    {
        match self.phase {
            SamplingPhase::Idle => CoordinatorState::Idle,
            SamplingPhase::Sleeping => CoordinatorState::Sampling,
            SamplingPhase::Probing => CoordinatorState::Sampling,
            SamplingPhase::Cancelling => CoordinatorState::Draining,
            SamplingPhase::Joining => CoordinatorState::Draining,
            SamplingPhase::Done => CoordinatorState::Done,
        }
    }

    /// The request that is outstanding.
    #[verifier::when_used_as_spec(spec_awaiting)]
    pub fn awaiting(&self) -> (request: Request)
        ensures
            request == self.spec_awaiting(),
    {
        match self.phase {
            SamplingPhase::Idle => Request::SpawnWorkload,
            SamplingPhase::Sleeping => Request::Sleep { interval: self.interval },
            SamplingPhase::Probing => Request::ReadProbe,
            SamplingPhase::Cancelling => Request::SignalCancel,
            SamplingPhase::Joining => Request::JoinWorkload,
            SamplingPhase::Done => Request::Done,
        }
    }

    /// Takes the event that answers the outstanding request, forwards a
    /// reading to the series `series` of `sink`, and says what is needed
    /// next. An event that does not answer the outstanding request is
    /// refused and changes nothing.
    pub fn step(&mut self, sink: &mut Sink, series: ScopeId, event: Event) -> (answer: Result<
        Request,
        Rejected,
    >)
        requires
            old(self).wf(),
            old(sink).wf(),
        ensures
            final(self).wf(),
            final(sink).wf(),
            *final(self) == old(self).spec_step(old(sink)@, series, event).0,
            final(sink)@ == old(self).spec_step(old(sink)@, series, event).1,
            answer == old(self).spec_step(old(sink)@, series, event).2,
            answer is Ok <==> answers(old(self).spec_awaiting()@, event),
            extends(final(sink)@, old(sink)@),
    {
        proof {
            lemma_extends_self(sink@);
        }
        match (self.phase, event) {
            (SamplingPhase::Idle, Event::Spawned) => {
                self.phase = if self.taken < self.count {
                    SamplingPhase::Sleeping
                } else {
                    SamplingPhase::Cancelling
                };
                Ok(self.awaiting())
            },
            (SamplingPhase::Sleeping, Event::Slept) => {
                self.phase = SamplingPhase::Probing;
                Ok(Request::ReadProbe)
            },
            (SamplingPhase::Probing, Event::Reading(Ok(state))) => {
                let forwarded = sink.add_measurement(
                    series,
                    self.name.as_str(),
                    state.temperature,
                    self.unit.as_str(),
                );
                match forwarded {
                    Ok(()) => {
                        self.taken = self.taken + 1;
                        self.phase = if self.taken < self.count {
                            SamplingPhase::Sleeping
                        } else {
                            SamplingPhase::Cancelling
                        };
                        Ok(self.awaiting())
                    },
                    Err(_) => {
                        self.phase = SamplingPhase::Cancelling;
                        self.failure = Some(Failure::ScopeProtocolViolation);
                        Ok(Request::SignalCancel)
                    },
                }
            },
            (SamplingPhase::Probing, Event::Reading(Err(_))) => {
                self.phase = SamplingPhase::Cancelling;
                self.failure = Some(Failure::ProbeFailure);
                Ok(Request::SignalCancel)
            },
            (SamplingPhase::Cancelling, Event::CancelSignalled) => {
                self.phase = SamplingPhase::Joining;
                Ok(Request::JoinWorkload)
            },
            (SamplingPhase::Joining, Event::Joined(Some(result))) => {
                self.phase = SamplingPhase::Done;
                self.value = Some(result);
                Ok(Request::Done)
            },
            (SamplingPhase::Joining, Event::Joined(None)) => {
                self.phase = SamplingPhase::Done;
                self.failure = Some(Failure::WorkloadJoinFailure);
                Ok(Request::Done)
            },
            _ => Err(Rejected),
        }
    }
}

/// How far along `phase` is.
pub open spec fn rank(phase: SamplingPhase) -> int {
    match phase {
        SamplingPhase::Idle => 0,
        SamplingPhase::Sleeping => 1,
        SamplingPhase::Probing => 2,
        SamplingPhase::Cancelling => 3,
        SamplingPhase::Joining => 4,
        SamplingPhase::Done => 5,
    }
}

/// The events of one wait and one reading for each of `readings`, in order.
pub open spec fn rounds(readings: Seq<Result<SystemState, SystemError>>) -> Seq<Event>
    decreases readings.len(),
{
    if readings.len() == 0 {
        Seq::empty()
    } else {
        rounds(readings.drop_last()).push(Event::Slept).push(Event::Reading(readings.last()))
    }
}

/// The events that a faithful driver reports while the probe gives
/// `readings` and the join gives `join`: the launch, one wait and one
/// reading per sample, the stop signal, the join.
pub open spec fn faithful_events(
    readings: Seq<Result<SystemState, SystemError>>,
    join: Option<WorkloadResult>,
) -> Seq<Event> {
    (seq![Event::Spawned] + rounds(readings)).push(Event::CancelSignalled).push(Event::Joined(join))
}

/// `readings` is what the probe gives in a run of `count` samples: every
/// reading but the last is good, and the last is the `count`-th or a bad one.
pub open spec fn readings_of_a_run(
    count: u32,
    readings: Seq<Result<SystemState, SystemError>>,
) -> bool {
    &&& readings.len() <= count
    &&& forall|i: int| 0 <= i < readings.len() - 1 ==> (#[trigger] readings[i]) is Ok
    &&& readings.len() == count || (readings.len() > 0 && readings.last() is Err)
}

/// `log` followed by one measurement of the series for each good reading
/// among `readings`, in order.
pub open spec fn with_samples(
    log: Seq<RecordView>,
    series: ScopeId,
    name: Seq<char>,
    unit: Seq<char>,
    readings: Seq<Result<SystemState, SystemError>>,
) -> Seq<RecordView>
    decreases readings.len(),
{
    if readings.len() == 0 {
        log
    } else {
        let front = with_samples(log, series, name, unit, readings.drop_last());
        match readings.last() {
            Ok(state) => front.push(
                RecordView {
                    scope: series,
                    payload: PayloadView::Measurement {
                        name,
                        value: state.temperature,
                        unit,
                        series: Some(series),
                    },
                },
            ),
            Err(_) => front,
        }
    }
}

/// How many of `readings` are good.
pub open spec fn good(readings: Seq<Result<SystemState, SystemError>>) -> nat
    decreases readings.len(),
{
    if readings.len() == 0 {
        0
    } else {
        good(readings.drop_last()) + if readings.last() is Ok {
            1nat
        } else {
            0nat
        }
    }
}

impl SamplingCoordinator {
    /// The coordinator after `events` in order, the stream after them, and
    /// the requests that it answered them with, refused events left out.
    pub open spec fn spec_run(self, log: Seq<RecordView>, series: ScopeId, events: Seq<Event>) -> (
        SamplingCoordinator,
        Seq<RecordView>,
        Seq<RequestView>,
    )
        decreases events.len(),
    {
        if events.len() == 0 {
            (self, log, Seq::empty())
        } else {
            let before = self.spec_run(log, series, events.drop_last());
            let stepped = before.0.spec_step(before.1, series, events.last());
            (
                stepped.0,
                stepped.1,
                match stepped.2 {
                    Ok(request) => before.2.push(request@),
                    Err(_) => before.2,
                },
            )
        }
    }

    /// Hands the events to [`SamplingCoordinator::step`] in order and
    /// collects the requests that it answers with.
    pub fn replay(&mut self, sink: &mut Sink, series: ScopeId, events: Vec<Event>) -> (issued: Vec<
        Request,
    >)
        requires
            old(self).wf(),
            old(sink).wf(),
        ensures
            final(self).wf(),
            final(sink).wf(),
            *final(self) == old(self).spec_run(old(sink)@, series, events@).0,
            final(sink)@ == old(self).spec_run(old(sink)@, series, events@).1,
            issued@.map_values(|r: Request| r@) == old(self).spec_run(
                old(sink)@,
                series,
                events@,
            ).2,
            extends(final(sink)@, old(sink)@),
    {
        proof {
            lemma_extends_self(sink@);
        }
        let ghost all = events@;
        let ghost start = *self;
        let ghost log = sink@;
        let mut events = events;
        let mut issued: Vec<Request> = Vec::new();
        let ghost mut done: int = 0;
        proof {
            assert(all.take(0) =~= Seq::<Event>::empty());
            assert(issued@.map_values(|r: Request| r@) =~= Seq::<RequestView>::empty());
        }
        while events.len() > 0
            invariant
                self.wf(),
                sink.wf(),
                0 <= done <= all.len(),
                events@ =~= all.skip(done),
                extends(sink@, log),
                *self == start.spec_run(log, series, all.take(done)).0,
                sink@ == start.spec_run(log, series, all.take(done)).1,
                issued@.map_values(|r: Request| r@) == start.spec_run(
                    log,
                    series,
                    all.take(done),
                ).2,
            decreases events.len(),
        {
            let event = events.remove(0);
            proof {
                assert(event == all[done]);
                assert(all.take(done + 1).drop_last() =~= all.take(done));
                assert(all.take(done + 1).last() == all[done]);
            }
            let ghost before = issued@;
            let ghost so_far = sink@;
            match self.step(sink, series, event) {
                Ok(request) => {
                    issued.push(request);
                    proof {
                        assert(issued@.map_values(|r: Request| r@) =~= before.map_values(
                            |r: Request| r@,
                        ).push(request@));
                    }
                },
                Err(_) => {},
            }
            proof {
                lemma_extends_twice(sink@, so_far, log);
                done = done + 1;
            }
        }
        proof {
            assert(all.take(done) =~= all);
        }
        issued
    }

    /// Hands back what the workload returned and what went wrong, if
    /// anything: a failed reading, a broken nesting, or a failed join.
    pub fn into_result(self) -> (result: (Option<WorkloadResult>, Option<Failure>))
        ensures
            result.0 == self.value,
            result.1 == self.failure,
    {
        (self.value, self.failure)
    }
}

/// One more event is one more step.
pub proof fn lemma_run_push(
    start: SamplingCoordinator,
    log: Seq<RecordView>,
    series: ScopeId,
    events: Seq<Event>,
    event: Event,
)
    ensures
        ({
            let before = start.spec_run(log, series, events);
            let stepped = before.0.spec_step(before.1, series, event);
            start.spec_run(log, series, events.push(event)) == (
                stepped.0,
                stepped.1,
                match stepped.2 {
                    Ok(request) => before.2.push(request@),
                    Err(_) => before.2,
                },
            )
        }),
{
    assert(events.push(event).drop_last() =~= events);
}

/// What one more request does to the count of `request`.
pub proof fn lemma_times_push(issued: Seq<RequestView>, last: RequestView, request: RequestView)
    ensures
        times(issued.push(last), request) == times(issued, request) + if last == request {
            1nat
        } else {
            0nat
        },
{
    assert(issued.push(last).drop_last() =~= issued);
}

/// What holds between a coordinator and the requests it has issued since
/// it was idle.
pub open spec fn lifecycle(coordinator: SamplingCoordinator, issued: Seq<RequestView>) -> bool {
    let n = issued.len() as int;
    let r = rank(coordinator.phase);
    &&& coordinator.wf()
    &&& times(issued, RequestView::SpawnWorkload) == 0
    &&& times(issued, RequestView::SignalCancel) == if r >= 3 {
        1nat
    } else {
        0nat
    }
    &&& times(issued, RequestView::JoinWorkload) == if r >= 4 {
        1nat
    } else {
        0nat
    }
    &&& times(issued, RequestView::Done) == if r >= 5 {
        1nat
    } else {
        0nat
    }
    &&& r == 3 ==> n >= 1 && issued[n - 1] == RequestView::SignalCancel
    &&& r == 4 ==> n >= 2 && issued[n - 2] == RequestView::SignalCancel && issued[n - 1]
        == RequestView::JoinWorkload
    &&& r == 5 ==> n >= 3 && issued[n - 3] == RequestView::SignalCancel && issued[n - 2]
        == RequestView::JoinWorkload && issued[n - 1] == RequestView::Done
}

/// Whatever events arrive, in whatever order, a coordinator that started
/// idle never asks for a second launch, asks for the stop signal at most
/// once and for the join at most once, and once it is done it has asked for
/// each exactly once: first the stop signal, then the join, then nothing.
/// What it was told to do (how many samples, how far apart, under which
/// name and unit) never changes.
pub proof fn law_stop_and_join_once(
    start: SamplingCoordinator,
    log: Seq<RecordView>,
    series: ScopeId,
    events: Seq<Event>,
)
    requires
        start.wf(),
        start.phase == SamplingPhase::Idle,
    ensures
        lifecycle(start.spec_run(log, series, events).0, start.spec_run(log, series, events).2),
        start.spec_run(log, series, events).0.count == start.count,
        start.spec_run(log, series, events).0.interval == start.interval,
        start.spec_run(log, series, events).0.name == start.name,
        start.spec_run(log, series, events).0.unit == start.unit,
    decreases events.len(),
{
    if events.len() > 0 {
        let front = events.drop_last();
        law_stop_and_join_once(start, log, series, front);
        let before = start.spec_run(log, series, front);
        let stepped = before.0.spec_step(before.1, series, events.last());
        match stepped.2 {
            Ok(request) => {
                lemma_times_push(before.2, request@, RequestView::SpawnWorkload);
                lemma_times_push(before.2, request@, RequestView::SignalCancel);
                lemma_times_push(before.2, request@, RequestView::JoinWorkload);
                lemma_times_push(before.2, request@, RequestView::Done);
            },
            Err(_) => {},
        }
    }
}

/// Whatever events arrive, the coordinator only ever appends to the
/// stream, and what it appends are measurements in the scope it was given,
/// one for each sample it counts; it opens and closes nothing.
pub proof fn law_only_samples_are_emitted(
    start: SamplingCoordinator,
    log: Seq<RecordView>,
    series: ScopeId,
    events: Seq<Event>,
)
    requires
        start.wf(),
        well_nested(log),
    ensures
        ({
            let end = start.spec_run(log, series, events);
            &&& end.0.wf()
            &&& end.0.taken >= start.taken
            &&& end.1.len() == log.len() + (end.0.taken - start.taken)
            &&& end.1.take(log.len() as int) == log
            &&& forall|i: int|
                log.len() <= i < end.1.len() ==> (#[trigger] end.1[i]).scope == series
                    && end.1[i].payload is Measurement
            &&& open_after(end.1) == open_after(log)
        }),
    decreases events.len(),
{
    if events.len() == 0 {
        assert(log.take(log.len() as int) =~= log);
    } else {
        let front = events.drop_last();
        law_only_samples_are_emitted(start, log, series, front);
        let before = start.spec_run(log, series, front);
        let stepped = before.0.spec_step(before.1, series, events.last());
        if stepped.1 != before.1 {
            let last = stepped.1.last();
            assert(stepped.1 == before.1.push(last));
            lemma_open_after_push(before.1, last);
            assert(stepped.1.take(log.len() as int) =~= before.1.take(log.len() as int));
        }
    }
}

/// A run with a faithful driver. The coordinator starts idle, with the
/// series as the innermost open scope; the probe gives `readings`, which
/// are as many as the run asks for unless one fails, and the join gives
/// `join`. Then the coordinator ends up done; the stream has gained one
/// measurement for each good reading, in the order they were taken, and
/// nothing else; the stop signal and the join were each asked for exactly
/// once, although a reading may have failed; the value is what the join
/// gave; and the failure is that of the join if it failed, else that of the
/// probe if a reading failed, else none.
pub proof fn law_faithful_run(
    start: SamplingCoordinator,
    log: Seq<RecordView>,
    series: ScopeId,
    readings: Seq<Result<SystemState, SystemError>>,
    join: Option<WorkloadResult>,
)
    requires
        start.wf(),
        start.phase == SamplingPhase::Idle,
        well_nested(log),
        open_after(log).unwrap().len() == 3,
        innermost(open_after(log).unwrap()) == Some(series),
        readings_of_a_run(start.count, readings),
    ensures
        ({
            let end = start.spec_run(log, series, faithful_events(readings, join));
            &&& end.0.phase == SamplingPhase::Done
            &&& end.0.taken == good(readings)
            &&& end.0.value == join
            &&& end.0.failure == if join is None {
                Some(Failure::WorkloadJoinFailure)
            } else if readings.len() > 0 && readings.last() is Err {
                Some(Failure::ProbeFailure)
            } else {
                None
            }
            &&& end.1 == with_samples(log, series, start.name@, start.unit@, readings)
            &&& times(end.2, RequestView::SignalCancel) == 1
            &&& times(end.2, RequestView::JoinWorkload) == 1
        }),
{
    let sampled = seq![Event::Spawned] + rounds(readings);
    lemma_faithful_rounds(start, log, series, readings);
    lemma_run_push(start, log, series, sampled, Event::CancelSignalled);
    lemma_run_push(start, log, series, sampled.push(Event::CancelSignalled), Event::Joined(join));
    law_stop_and_join_once(start, log, series, faithful_events(readings, join));
}

/// The coordinator after the launch and the rounds of `readings`, before
/// the stop signal: it has forwarded the good readings and is about to ask
/// for the stop signal if the run of readings is over, for the next wait
/// if it is not.
pub proof fn lemma_faithful_rounds(
    start: SamplingCoordinator,
    log: Seq<RecordView>,
    series: ScopeId,
    readings: Seq<Result<SystemState, SystemError>>,
)
    requires
        start.wf(),
        start.phase == SamplingPhase::Idle,
        well_nested(log),
        open_after(log).unwrap().len() == 3,
        innermost(open_after(log).unwrap()) == Some(series),
        readings.len() <= start.count,
        forall|i: int| 0 <= i < readings.len() - 1 ==> (#[trigger] readings[i]) is Ok,
    ensures
        ({
            let end = start.spec_run(log, series, seq![Event::Spawned] + rounds(readings));
            let failed = readings.len() > 0 && readings.last() is Err;
            &&& end.0 == SamplingCoordinator {
                phase: if failed || readings.len() == start.count {
                    SamplingPhase::Cancelling
                } else {
                    SamplingPhase::Sleeping
                },
                taken: good(readings) as u32,
                failure: if failed {
                    Some(Failure::ProbeFailure)
                } else {
                    None
                },
                ..start
            }
            &&& good(readings) == if failed {
                readings.len() - 1
            } else {
                readings.len() as int
            }
            &&& end.1 == with_samples(log, series, start.name@, start.unit@, readings)
            &&& open_after(end.1) == open_after(log)
        }),
    decreases readings.len(),
{
    let launched = seq![Event::Spawned];
    if readings.len() == 0 {
        assert(launched + rounds(readings) =~= Seq::<Event>::empty().push(Event::Spawned));
        lemma_run_push(start, log, series, Seq::<Event>::empty(), Event::Spawned);
    } else {
        let front = readings.drop_last();
        assert forall|i: int| 0 <= i < front.len() - 1 implies (#[trigger] front[i]) is Ok by {
            assert(front[i] == readings[i]);
        }
        lemma_faithful_rounds(start, log, series, front);
        if front.len() > 0 {
            assert(front.last() == readings[readings.len() - 2]);
        }
        let events = launched + rounds(front);
        let before = start.spec_run(log, series, events);
        lemma_run_push(start, log, series, events, Event::Slept);
        let slept = events.push(Event::Slept);
        lemma_run_push(start, log, series, slept, Event::Reading(readings.last()));
        assert(launched + rounds(readings) =~= slept.push(Event::Reading(readings.last())));
        let after = start.spec_run(log, series, launched + rounds(readings));
        if readings.last() is Ok {
            lemma_open_after_push(before.1, after.1.last());
        }
    }
}

/// One step appends at most one record to the stream, a measurement in
/// the scope it was given, and leaves the stack of open scopes as it was.
pub proof fn lemma_step_emits_at_most_one(
    coordinator: SamplingCoordinator,
    log: Seq<RecordView>,
    series: ScopeId,
    event: Event,
)
    requires
        coordinator.wf(),
        well_nested(log),
    ensures
        ({
            let stepped = coordinator.spec_step(log, series, event);
            &&& stepped.0.wf()
            &&& stepped.0.count == coordinator.count
            &&& stepped.0.interval == coordinator.interval
            &&& stepped.0.name == coordinator.name
            &&& stepped.0.unit == coordinator.unit
            &&& open_after(stepped.1) == open_after(log)
            &&& stepped.1.len() == log.len() + (stepped.0.taken - coordinator.taken)
            &&& stepped.0.taken == coordinator.taken || stepped.0.taken == coordinator.taken + 1
            &&& stepped.2 is Err ==> stepped.0 == coordinator && stepped.1 == log
            &&& extends(stepped.1, log)
        }),
{
    let stepped = coordinator.spec_step(log, series, event);
    lemma_extends_self(log);
    if stepped.1 != log {
        lemma_open_after_push(log, stepped.1.last());
        lemma_extends_push(log, log, stepped.1.last());
    }
}

/// A coordinator that is done refuses every event, so it stays as it is.
pub proof fn lemma_done_is_final(
    coordinator: SamplingCoordinator,
    log: Seq<RecordView>,
    series: ScopeId,
    event: Event,
)
    requires
        coordinator.phase == SamplingPhase::Done,
    ensures
        coordinator.spec_step(log, series, event) == (
            coordinator,
            log,
            Err::<Request, Rejected>(Rejected),
        ),
{
}

/// How far along `state` is.
pub open spec fn state_rank(state: CoordinatorState) -> int {
    match state {
        CoordinatorState::Idle => 0,
        CoordinatorState::Sampling => 1,
        CoordinatorState::Draining => 2,
        CoordinatorState::Done => 3,
    }
}

/// The coordinator only ever moves forward, from idle over sampling and
/// draining to done, and it never skips the draining: whatever the event,
/// it stays in its state or goes to the next, except that an idle
/// coordinator with no sample to take goes straight to draining.
pub proof fn law_states_only_advance(
    coordinator: SamplingCoordinator,
    log: Seq<RecordView>,
    series: ScopeId,
    event: Event,
)
    requires
        coordinator.wf(),
    ensures
        ({
            let before = state_rank(coordinator.spec_state());
            let after = state_rank(coordinator.spec_step(log, series, event).0.spec_state());
            &&& before <= after <= before + 1 || (before == 0 && after == 2 && coordinator.count
                == 0)
            &&& after == 3 ==> before >= 2
        }),
{
}

} // verus!
