//! The diagnostic engine: one run with two steps.
//!
//! The engine reads the probe once before it opens anything. If that
//! reading fails, the run is opened, the failure is logged in it, and the
//! run is closed as skipped. Otherwise the run holds two steps, one after
//! the other. The first takes an initial reading, judges it against
//! [`TEMPERATURE_LIMIT`] and is skipped unless an external stressor is
//! configured. The second holds a measurement series that the sampling
//! coordinator fills while the workload runs, then has the workload's
//! final number stored as an artifact and closes with a passing diagnosis.
//! Whatever happens on the way, every scope that was opened is closed,
//! innermost first, before the engine is finished.

use vstd::prelude::*;
use crate::nesting::{
    balanced, extends, innermost, kind_at_depth, law_child_ends_before_parent,
    law_end_has_one_start, law_start_has_one_end, lemma_extends_self, lemma_extends_twice,
    lemma_open_after_push, open_after, parent_of, well_nested,
};
use crate::probe::{SystemError, SystemState};
use crate::protocol::{Event, Rejected, Request, RequestView, answers};
use crate::record::{
    Failure, Field, FieldView, LogLevel, Outcome, PayloadView, RecordView, ScopeId, ScopeKind,
    Verdict, fields_view,
};
use crate::sampling::{
    SamplingCoordinator, SamplingPhase, faithful_events, law_only_samples_are_emitted,
    lemma_done_is_final, lemma_faithful_rounds, lemma_run_push, lemma_step_emits_at_most_one,
    readings_of_a_run, rounds, with_samples,
};
use crate::scope::{Sink, end_record, start_record};
use crate::workload::{artifact_text, render_artifact};

verus! {

/// The highest initial temperature that is within limits.
pub const TEMPERATURE_LIMIT: u32 = 30;

/// How many samples the measurement series takes.
pub const SAMPLE_COUNT: u32 = 5;

/// How many time units lie between two samples.
pub const SAMPLE_INTERVAL: u64 = 1;

/// No run emits more records than this.
pub const MAX_RECORDS: usize = 21;

/// Where the engine stands.
#[derive(Clone, Copy, Debug, PartialEq, Eq, Structural)]
pub enum EnginePhase {
    /// Nothing is open; the first reading is being taken.
    PreCheck,
    /// The first step is open; its initial reading is being taken.
    StepA,
    /// The second step and its series are open; the coordinator is at work.
    Sampling,
    /// The second step is open; the artifact is being stored.
    Persist,
    /// Every scope is closed and the outcome of the run is known.
    Finished,
}

/// The innermost open scope after `log`.
pub open spec fn top(log: Seq<RecordView>) -> ScopeId {
    innermost(open_after(log).unwrap()).unwrap()
}

/// `log` and the start of a new scope inside the innermost open one.
pub open spec fn with_start(log: Seq<RecordView>, kind: ScopeKind, name: Seq<char>) -> Seq<
    RecordView,
> {
    log.push(
        start_record(ScopeId(log.len() as usize), kind, name, innermost(open_after(log).unwrap())),
    )
}

/// `log` and one more record of the innermost open scope.
pub open spec fn with_entry(log: Seq<RecordView>, payload: PayloadView) -> Seq<RecordView> {
    log.push(RecordView { scope: top(log), payload })
}

/// `log` and the end of the innermost open scope.
pub open spec fn with_end(log: Seq<RecordView>, result: Result<Outcome, Failure>) -> Seq<
    RecordView,
> {
    log.push(end_record(top(log), result))
}

/// The text of the log record for a failed first reading.
pub open spec fn precheck_failure_text(error: SystemError) -> Seq<char> {
    "system state cannot be retrieved: "@ + error.spec_message()
}

/// The text of the log record for an artifact that could not be stored.
pub open spec fn persist_failure_text(reason: Seq<char>) -> Seq<char> {
    "failed to write output file: "@ + reason
}

/// What the extension of the second step holds.
pub open spec fn extension_fields() -> Seq<FieldView> {
    seq![FieldView { key: "type"@, value: "test_42"@ }]
}

/// The stream after a failed first reading: the run, the failure logged
/// in it, and its end as skipped.
pub open spec fn skipped_run_log(log: Seq<RecordView>, error: SystemError) -> Seq<RecordView> {
    with_end(
        with_entry(
            with_start(log, ScopeKind::Run, "hello_world"@),
            PayloadView::Log { level: LogLevel::Error, text: precheck_failure_text(error) },
        ),
        Ok(Outcome::spec_skip()),
    )
}

/// The stream after a good first reading: the run, its opening message,
/// and the start of the first step.
pub open spec fn started_run_log(log: Seq<RecordView>) -> Seq<RecordView> {
    with_start(
        with_entry(
            with_start(log, ScopeKind::Run, "hello_world"@),
            PayloadView::Log {
                level: LogLevel::Info,
                text: "We are starting the Hello World diagnostic"@,
            },
        ),
        ScopeKind::Step,
        "run binary"@,
    )
}

/// The stream after the initial reading of the first step: the reading
/// as a measurement; above the limit an error log and a failing diagnosis,
/// else a log that all is well.
pub open spec fn judged_log(log: Seq<RecordView>, temperature: u32) -> Seq<RecordView> {
    let measured = with_entry(
        log,
        PayloadView::Measurement {
            name: "initial temperature"@,
            value: temperature,
            unit: "C"@,
            series: None,
        },
    );
    if temperature > TEMPERATURE_LIMIT {
        with_entry(
            with_entry(
                measured,
                PayloadView::Log {
                    level: LogLevel::Error,
                    text: "initial temperature too high to proceed with the test"@,
                },
            ),
            PayloadView::Diagnosis { id: "high-initial-temperature"@, verdict: Verdict::Fail },
        )
    } else {
        with_entry(
            measured,
            PayloadView::Log { level: LogLevel::Info, text: "temperature is within limits"@ },
        )
    }
}

/// The stream after the first step: skipped where no stressor is
/// configured, else closed as passed after a passing diagnosis.
pub open spec fn step_a_log(
    log: Seq<RecordView>,
    stressor_configured: bool,
    temperature: u32,
) -> Seq<RecordView> {
    let judged = judged_log(log, temperature);
    if stressor_configured {
        with_end(
            with_entry(
                judged,
                PayloadView::Diagnosis { id: "binary-pass"@, verdict: Verdict::Pass },
            ),
            Ok(Outcome::spec_pass()),
        )
    } else {
        with_end(judged, Ok(Outcome::spec_skip()))
    }
}

/// The stream once the second step and its series are open.
pub open spec fn step_b_log(log: Seq<RecordView>) -> Seq<RecordView> {
    with_start(
        with_start(log, ScopeKind::Step, "stress system without an external binary"@),
        ScopeKind::MeasurementSeries,
        "temperature"@,
    )
}

/// The stream after the artifact was stored, or was not: the reference to
/// it or the logged error, then the extension, the passing diagnosis, and
/// the ends of the step and of the run.
pub open spec fn closing_log(log: Seq<RecordView>, stored: Result<Seq<char>, Seq<char>>) -> Seq<
    RecordView,
> {
    let noted = match stored {
        Ok(locator) => with_entry(
            log,
            PayloadView::FileRef { name: "stressor_output.txt"@, locator },
        ),
        Err(reason) => with_entry(
            log,
            PayloadView::Log { level: LogLevel::Error, text: persist_failure_text(reason) },
        ),
    };
    with_end(
        with_end(
            with_entry(
                with_entry(
                    noted,
                    PayloadView::Extension {
                        name: "mycompany-test_plan"@,
                        fields: extension_fields(),
                    },
                ),
                PayloadView::Diagnosis { id: "no-binary-pass"@, verdict: Verdict::Pass },
            ),
            Ok(Outcome::spec_pass()),
        ),
        Ok(Outcome::spec_pass()),
    )
}

/// The stream after the three innermost scopes were closed for `cause`.
pub open spec fn aborted_log(log: Seq<RecordView>, cause: Failure) -> Seq<RecordView> {
    with_end(with_end(with_end(log, Err(cause)), Err(cause)), Err(cause))
}

/// Why the series ends in error, if it does: a failed reading shows as
/// an aborted sampling, any other failure as itself.
pub open spec fn abort_cause(coordinator: SamplingCoordinator) -> Option<Failure> {
    match coordinator.failure {
        None => match coordinator.value {
            Some(_) => None,
            None => Some(Failure::WorkloadJoinFailure),
        },
        Some(Failure::ProbeFailure) => Some(Failure::SamplingAbort),
        Some(other) => Some(other),
    }
}

/// The state of the engine as contracts see it.
pub struct EngineView {
    pub phase: EnginePhase,
    /// The records emitted so far.
    pub log: Seq<RecordView>,
    /// Whether an external stressor is configured.
    pub stressor_configured: bool,
    pub coordinator: SamplingCoordinator,
    /// The text that is being stored, once there is one.
    pub artifact: Seq<char>,
    /// The outcome of the run, once it is finished.
    pub outcome: Option<Outcome>,
}

impl EngineView {
    /// The number of open scopes.
    pub open spec fn depth(self) -> nat {
        open_after(self.log).unwrap().len()
    }

    /// What holds of the engine at every moment.
    pub open spec fn inv(self) -> bool {
        &&& well_nested(self.log)
        &&& self.log.len() <= MAX_RECORDS
        &&& self.coordinator.wf()
        &&& self.coordinator.count == SAMPLE_COUNT
        &&& self.coordinator.interval == SAMPLE_INTERVAL
        &&& self.coordinator.name@ == "temperature"@
        &&& self.coordinator.unit@ == "C"@
        &&& self.outcome is Some <==> self.phase == EnginePhase::Finished
        &&& match self.phase {
            EnginePhase::PreCheck => self.log.len() == 0 && self.coordinator.phase
                == SamplingPhase::Idle,
            EnginePhase::StepA => self.depth() == 2 && self.log.len() == 3
                && self.coordinator.phase == SamplingPhase::Idle,
            EnginePhase::Sampling => self.depth() == 3 && self.log.len() <= 10
                + self.coordinator.taken && self.coordinator.phase != SamplingPhase::Done,
            EnginePhase::Persist => self.depth() == 2 && self.log.len() <= 16
                && self.coordinator.phase == SamplingPhase::Done,
            EnginePhase::Finished => balanced(self.log) && self.outcome.unwrap().is_final(),
        }
    }

    /// The request that is outstanding.
    pub open spec fn awaiting(self) -> RequestView {
        match self.phase {
            EnginePhase::PreCheck => RequestView::ReadProbe,
            EnginePhase::StepA => RequestView::ReadProbe,
            EnginePhase::Sampling => self.coordinator.spec_awaiting()@,
            EnginePhase::Persist => RequestView::PersistArtifact {
                name: "stressor_output.txt"@,
                content: self.artifact,
            },
            EnginePhase::Finished => RequestView::Done,
        }
    }

    /// The engine once the coordinator is done: with the series closed and
    /// the artifact to store, or with every scope closed in error.
    pub open spec fn after_sampling(
        self,
        coordinator: SamplingCoordinator,
        log: Seq<RecordView>,
    ) -> (EngineView, Result<RequestView, Rejected>) {
        match abort_cause(coordinator) {
            None => {
                let next = EngineView {
                    phase: EnginePhase::Persist,
                    log: with_end(log, Ok(Outcome::spec_pass())),
                    coordinator,
                    artifact: artifact_text(coordinator.value.unwrap().number()),
                    ..self
                };
                (next, Ok(next.awaiting()))
            },
            Some(cause) => (
                EngineView {
                    phase: EnginePhase::Finished,
                    log: aborted_log(log, cause),
                    coordinator,
                    outcome: Some(Outcome::spec_error()),
                    ..self
                },
                Ok(RequestView::Done),
            ),
        }
    }

    /// The engine after `event`, and its answer: the next request, or the
    /// refusal of an event that does not answer the outstanding one.
    pub open spec fn spec_step(self, event: Event) -> (EngineView, Result<RequestView, Rejected>) {
        match (self.phase, event) {
            (EnginePhase::PreCheck, Event::Reading(Err(error))) => (
                EngineView {
                    phase: EnginePhase::Finished,
                    log: skipped_run_log(self.log, error),
                    outcome: Some(Outcome::spec_skip()),
                    ..self
                },
                Ok(RequestView::Done),
            ),
            (EnginePhase::PreCheck, Event::Reading(Ok(_))) => (
                EngineView { phase: EnginePhase::StepA, log: started_run_log(self.log), ..self },
                Ok(RequestView::ReadProbe),
            ),
            (EnginePhase::StepA, Event::Reading(Err(_))) => (
                EngineView {
                    phase: EnginePhase::Finished,
                    log: with_end(
                        with_end(self.log, Err(Failure::ProbeFailure)),
                        Err(Failure::ProbeFailure),
                    ),
                    outcome: Some(Outcome::spec_error()),
                    ..self
                },
                Ok(RequestView::Done),
            ),
            (EnginePhase::StepA, Event::Reading(Ok(state))) => (
                EngineView {
                    phase: EnginePhase::Sampling,
                    log: step_b_log(
                        step_a_log(self.log, self.stressor_configured, state.temperature),
                    ),
                    ..self
                },
                Ok(RequestView::SpawnWorkload),
            ),
            (EnginePhase::Sampling, event) => {
                let stepped = self.coordinator.spec_step(self.log, top(self.log), event);
                match stepped.2 {
                    Err(rejected) => (self, Err(rejected)),
                    Ok(request) => if stepped.0.phase != SamplingPhase::Done {
                        (
                            EngineView { coordinator: stepped.0, log: stepped.1, ..self },
                            Ok(request@),
                        )
                    } else {
                        self.after_sampling(stepped.0, stepped.1)
                    },
                }
            },
            (EnginePhase::Persist, Event::Persisted(stored)) => (
                EngineView {
                    phase: EnginePhase::Finished,
                    log: closing_log(
                        self.log,
                        match stored {
                            Ok(locator) => Ok(locator@),
                            Err(reason) => Err(reason@),
                        },
                    ),
                    outcome: Some(Outcome::spec_pass()),
                    ..self
                },
                Ok(RequestView::Done),
            ),
            _ => (self, Err(Rejected)),
        }
    }
}

impl EngineView {
    /// The engine before anything has happened.
    pub open spec fn initial(
        stressor_configured: bool,
        coordinator: SamplingCoordinator,
    ) -> EngineView {
        EngineView {
            phase: EnginePhase::PreCheck,
            log: Seq::empty(),
            stressor_configured,
            coordinator,
            artifact: Seq::empty(),
            outcome: None,
        }
    }

    /// The engine after `events` in order, and the requests that it
    /// answered them with, refused events left out.
    pub open spec fn spec_run(self, events: Seq<Event>) -> (EngineView, Seq<RequestView>)
        decreases events.len(),
    {
        if events.len() == 0 {
            (self, Seq::empty())
        } else {
            let before = self.spec_run(events.drop_last());
            let stepped = before.0.spec_step(events.last());
            (
                stepped.0,
                match stepped.1 {
                    Ok(request) => before.1.push(request),
                    Err(_) => before.1,
                },
            )
        }
    }
}

/// The engine of one run.
pub struct DiagnosticEngine {
    sink: Sink,
    phase: EnginePhase,
    stressor_configured: bool,
    run: ScopeId,
    step: ScopeId,
    series: ScopeId,
    coordinator: SamplingCoordinator,
    artifact: String,
    outcome: Option<Outcome>,
}

impl View for DiagnosticEngine {
    type V = EngineView;

    closed spec fn view(&self) -> EngineView {
        EngineView {
            phase: self.phase,
            log: self.sink@,
            stressor_configured: self.stressor_configured,
            coordinator: self.coordinator,
            artifact: self.artifact@,
            outcome: self.outcome,
        }
    }
}

impl DiagnosticEngine {
    /// The engine keeps its invariant, and the scopes it holds ids of are
    /// the ones that are open.
    pub closed spec fn wf(&self) -> bool {
        &&& self@.inv()
        &&& self.sink.wf()
        &&& match self.phase {
            EnginePhase::StepA => self.sink.open_scopes() == seq![self.run, self.step],
            EnginePhase::Sampling => self.sink.open_scopes() == seq![
                self.run,
                self.step,
                self.series,
            ],
            EnginePhase::Persist => self.sink.open_scopes() == seq![self.run, self.step],
            _ => true,
        }
    }

    /// An engine for a run with the external stressor at `stressor_bin`;
    /// the empty path means that none is configured.
    pub fn new(stressor_bin: &str) -> (engine: DiagnosticEngine)
        ensures
            engine.wf(),
            engine@.inv(),
            engine@.phase == EnginePhase::PreCheck,
            engine@.log == Seq::<RecordView>::empty(),
            engine@.stressor_configured == (stressor_bin@.len() > 0),
            engine@ == EngineView::initial(stressor_bin@.len() > 0, engine@.coordinator),
            fresh(engine@.coordinator),
            engine@.coordinator.taken == 0,
            engine@.coordinator.failure is None,
            engine@.coordinator.value is None,
    {
        let engine = DiagnosticEngine {
            sink: Sink::new(),
            phase: EnginePhase::PreCheck,
            stressor_configured: stressor_bin.unicode_len() > 0,
            run: ScopeId(0),
            step: ScopeId(0),
            series: ScopeId(0),
            coordinator: SamplingCoordinator::new(
                SAMPLE_COUNT,
                SAMPLE_INTERVAL,
                "temperature",
                "C",
            ),
            artifact: String::new(),
            outcome: None,
        };
        proof {
            assert(engine@.artifact =~= Seq::<char>::empty());
        }
        engine
    }

    /// Where the engine stands.
    pub fn phase(&self) -> (phase: EnginePhase)
        ensures
            phase == self@.phase,
    {
        self.phase
    }

    /// Whether the run is over.
    pub fn is_finished(&self) -> (finished: bool)
        ensures
            finished == (self@.phase == EnginePhase::Finished),
    {
        match self.phase {
            EnginePhase::Finished => true,
            _ => false,
        }
    }

    /// The outcome of the run, once it is over.
    pub fn outcome(&self) -> (outcome: Option<Outcome>)
        ensures
            outcome == self@.outcome,
    {
        self.outcome
    }

    /// The stream of records.
    pub fn sink(&self) -> (sink: &Sink)
        requires
            self.wf(),
        ensures
            sink@ == self@.log,
            sink.wf(),
    {
        &self.sink
    }

    /// The request that is outstanding.
    pub fn awaiting(&self) -> (request: Request)
        requires
            self.wf(),
        ensures
            request@ == self@.awaiting(),
    {
        match self.phase {
            EnginePhase::PreCheck => Request::ReadProbe,
            EnginePhase::StepA => Request::ReadProbe,
            EnginePhase::Sampling => self.coordinator.awaiting(),
            EnginePhase::Persist => Request::PersistArtifact {
                name: "stressor_output.txt".to_owned(),
                content: self.artifact.clone(),
            },
            EnginePhase::Finished => Request::Done,
        }
    }

    /// The first reading: opens the run and, on a good reading, its first
    /// step; on a failed one logs the failure and closes the run as skipped.
    fn pre_check(&mut self, reading: Result<SystemState, SystemError>) -> (request: Request)
        requires
            old(self).wf(),
            old(self)@.phase == EnginePhase::PreCheck,
        ensures
            final(self).wf(),
            final(self)@ == old(self)@.spec_step(Event::Reading(reading)).0,
            Ok::<RequestView, Rejected>(request@) == old(self)@.spec_step(
                Event::Reading(reading),
            ).1,
    {
        let run = match self.sink.begin(None, ScopeKind::Run, "hello_world") {
            Ok(id) => id,
            Err(_) => {
                assert(false);
                ScopeId(0)
            },
        };
        self.run = run;
        match reading {
            Err(error) => {
                let text = "system state cannot be retrieved: ".to_owned().concat(
                    error.message().as_str(),
                );
                let _ = self.sink.log(run, LogLevel::Error, text.as_str());
                let _ = self.sink.end(run, Ok(Outcome::skip()));
                self.phase = EnginePhase::Finished;
                self.outcome = Some(Outcome::skip());
                proof {
                    assert(self.sink.open_scopes() =~= Seq::<ScopeId>::empty());
                }
                Request::Done
            },
            Ok(_) => {
                let _ = self.sink.log(
                    run,
                    LogLevel::Info,
                    "We are starting the Hello World diagnostic",
                );
                let step = match self.sink.begin(Some(run), ScopeKind::Step, "run binary") {
                    Ok(id) => id,
                    Err(_) => {
                        assert(false);
                        ScopeId(0)
                    },
                };
                self.step = step;
                self.phase = EnginePhase::StepA;
                proof {
                    assert(self.sink.open_scopes() =~= seq![self.run, self.step]);
                }
                Request::ReadProbe
            },
        }
    }

    /// The first step, which would stress the system with the external
    /// stressor: records and judges the initial reading, closes the step,
    /// and opens the second step with its series. A failed reading closes
    /// the step and the run in error.
    fn stress_system_with_binary(&mut self, reading: Result<SystemState, SystemError>) -> (request:
        Request)
        requires
            old(self).wf(),
            old(self)@.phase == EnginePhase::StepA,
        ensures
            final(self).wf(),
            final(self)@ == old(self)@.spec_step(Event::Reading(reading)).0,
            Ok::<RequestView, Rejected>(request@) == old(self)@.spec_step(
                Event::Reading(reading),
            ).1,
    {
        match reading {
            Err(_) => {
                let _ = self.sink.end(self.step, Err(Failure::ProbeFailure));
                proof {
                    assert(self.sink.open_scopes() =~= seq![self.run]);
                }
                let _ = self.sink.end(self.run, Err(Failure::ProbeFailure));
                self.phase = EnginePhase::Finished;
                self.outcome = Some(Outcome::error());
                proof {
                    assert(self.sink.open_scopes() =~= Seq::<ScopeId>::empty());
                }
                Request::Done
            },
            Ok(state) => {
                let _ = self.sink.add_measurement(
                    self.step,
                    "initial temperature",
                    state.temperature,
                    "C",
                );
                if state.temperature > TEMPERATURE_LIMIT {
                    let _ = self.sink.log(
                        self.step,
                        LogLevel::Error,
                        "initial temperature too high to proceed with the test",
                    );
                    let _ = self.sink.add_diagnosis(
                        self.step,
                        "high-initial-temperature",
                        Verdict::Fail,
                    );
                } else {
                    let _ = self.sink.log(
                        self.step,
                        LogLevel::Info,
                        "temperature is within limits",
                    );
                }
                if self.stressor_configured {
                    let _ = self.sink.add_diagnosis(self.step, "binary-pass", Verdict::Pass);
                    let _ = self.sink.end(self.step, Ok(Outcome::pass()));
                } else {
                    let _ = self.sink.end(self.step, Ok(Outcome::skip()));
                }
                proof {
                    assert(self.sink.open_scopes() =~= seq![self.run]);
                    assert(self.sink@ == step_a_log(
                        old(self)@.log,
                        self.stressor_configured,
                        state.temperature,
                    ));
                }
                let step = match self.sink.begin(
                    Some(self.run),
                    ScopeKind::Step,
                    "stress system without an external binary",
                ) {
                    Ok(id) => id,
                    Err(_) => {
                        assert(false);
                        ScopeId(0)
                    },
                };
                self.step = step;
                let series = match self.sink.begin(
                    Some(step),
                    ScopeKind::MeasurementSeries,
                    "temperature",
                ) {
                    Ok(id) => id,
                    Err(_) => {
                        assert(false);
                        ScopeId(0)
                    },
                };
                self.series = series;
                self.phase = EnginePhase::Sampling;
                proof {
                    assert(self.sink.open_scopes() =~= seq![self.run, self.step, self.series]);
                }
                Request::SpawnWorkload
            },
        }
    }

    /// What follows the coordinator's last step: the series is closed, and
    /// either the artifact is rendered or every scope is closed in error.
    fn after_sampling(&mut self) -> (request: Request)
        requires
            old(self).sink.wf(),
            well_nested(old(self).sink@),
            old(self).sink.open_scopes() == seq![old(self).run, old(self).step, old(self).series],
            old(self).phase == EnginePhase::Sampling,
            old(self).coordinator.phase == SamplingPhase::Done,
            old(self).coordinator.wf(),
            old(self).outcome is None,
        ensures
            final(self).sink.wf(),
            final(self).run == old(self).run,
            final(self).step == old(self).step,
            final(self).sink.open_scopes() == if abort_cause(old(self).coordinator) is None {
                seq![old(self).run, old(self).step]
            } else {
                Seq::<ScopeId>::empty()
            },
            final(self)@ == old(self)@.after_sampling(old(self).coordinator, old(self).sink@).0,
            Ok::<RequestView, Rejected>(request@) == old(self)@.after_sampling(
                old(self).coordinator,
                old(self).sink@,
            ).1,
    {
        let cause = match self.coordinator.failure {
            None => match &self.coordinator.value {
                Some(_) => None,
                None => Some(Failure::WorkloadJoinFailure),
            },
            Some(Failure::ProbeFailure) => Some(Failure::SamplingAbort),
            Some(other) => Some(other),
        };
        match cause {
            None => {
                let text = match &self.coordinator.value {
                    Some(result) => render_artifact(result),
                    None => {
                        assert(false);
                        String::new()
                    },
                };
                let _ = self.sink.end(self.series, Ok(Outcome::pass()));
                self.artifact = text;
                self.phase = EnginePhase::Persist;
                proof {
                    assert(self.sink.open_scopes() =~= seq![self.run, self.step]);
                }
                Request::PersistArtifact {
                    name: "stressor_output.txt".to_owned(),
                    content: self.artifact.clone(),
                }
            },
            Some(cause) => {
                let _ = self.sink.end(self.series, Err(cause));
                proof {
                    assert(self.sink.open_scopes() =~= seq![self.run, self.step]);
                }
                let _ = self.sink.end(self.step, Err(cause));
                proof {
                    assert(self.sink.open_scopes() =~= seq![self.run]);
                }
                let _ = self.sink.end(self.run, Err(cause));
                self.phase = EnginePhase::Finished;
                self.outcome = Some(Outcome::error());
                proof {
                    assert(self.sink.open_scopes() =~= Seq::<ScopeId>::empty());
                }
                Request::Done
            },
        }
    }

    /// One event of the measurement series, handed to the coordinator.
    fn sampling(&mut self, event: Event) -> (answer: Result<Request, Rejected>)
        requires
            old(self).wf(),
            old(self)@.phase == EnginePhase::Sampling,
        ensures
            final(self).wf(),
            final(self)@ == old(self)@.spec_step(event).0,
            match answer {
                Ok(request) => Ok::<RequestView, Rejected>(request@) == old(self)@.spec_step(
                    event,
                ).1,
                Err(rejected) => Err::<RequestView, Rejected>(rejected) == old(self)@.spec_step(
                    event,
                ).1,
            },
    {
        proof {
            lemma_step_emits_at_most_one(
                self.coordinator,
                self.sink@,
                self.series,
                event,
            );
        }
        match self.coordinator.step(&mut self.sink, self.series, event) {
            Err(rejected) => Err(rejected),
            Ok(request) => {
                let done = match self.coordinator.phase {
                    SamplingPhase::Done => true,
                    _ => false,
                };
                if done {
                    Ok(self.after_sampling())
                } else {
                    Ok(request)
                }
            },
        }
    }

    /// The end of the second step: the reference to the artifact or the
    /// logged error, the extension, the passing diagnosis, and the ends of
    /// the step and of the run.
    fn persist(&mut self, stored: Result<String, String>) -> (request: Request)
        requires
            old(self).wf(),
            old(self)@.phase == EnginePhase::Persist,
        ensures
            final(self).wf(),
            final(self)@ == old(self)@.spec_step(Event::Persisted(stored)).0,
            Ok::<RequestView, Rejected>(request@) == old(self)@.spec_step(
                Event::Persisted(stored),
            ).1,
    {
        match stored {
            Ok(locator) => {
                let _ = self.sink.add_file(self.step, "stressor_output.txt", locator.as_str());
            },
            Err(reason) => {
                let text = "failed to write output file: ".to_owned().concat(reason.as_str());
                let _ = self.sink.log(self.step, LogLevel::Error, text.as_str());
            },
        }
        let mut fields: Vec<Field> = Vec::new();
        fields.push(Field { key: "type".to_owned(), value: "test_42".to_owned() });
        proof {
            assert(fields_view(fields@) =~= extension_fields());
        }
        let _ = self.sink.add_extension(self.step, "mycompany-test_plan", fields);
        let _ = self.sink.add_diagnosis(self.step, "no-binary-pass", Verdict::Pass);
        let _ = self.sink.end(self.step, Ok(Outcome::pass()));
        proof {
            assert(self.sink.open_scopes() =~= seq![self.run]);
        }
        let _ = self.sink.end(self.run, Ok(Outcome::pass()));
        self.phase = EnginePhase::Finished;
        self.outcome = Some(Outcome::pass());
        proof {
            assert(self.sink.open_scopes() =~= Seq::<ScopeId>::empty());
        }
        Request::Done
    }

    /// Takes the event that answers the outstanding request, emits what
    /// follows from it, and says what is needed next; [`Request::Done`]
    /// once the run is over. An event that does not answer the outstanding
    /// request is refused and changes nothing.
    pub fn step(&mut self, event: Event) -> (answer: Result<Request, Rejected>)
        requires
            old(self).wf(),
        ensures
            final(self).wf(),
            final(self)@.inv(),
            final(self)@ == old(self)@.spec_step(event).0,
            match answer {
                Ok(request) => Ok::<RequestView, Rejected>(request@) == old(self)@.spec_step(
                    event,
                ).1,
                Err(rejected) => Err::<RequestView, Rejected>(rejected) == old(self)@.spec_step(
                    event,
                ).1,
            },
            answer is Ok <==> answers(old(self)@.awaiting(), event),
            extends(final(self)@.log, old(self)@.log),
    {
        proof {
            law_step_only_appends(self@, event);
        }
        match self.phase {
            EnginePhase::PreCheck => match event {
                Event::Reading(reading) => Ok(self.pre_check(reading)),
                _ => Err(Rejected),
            },
            EnginePhase::StepA => match event {
                Event::Reading(reading) => Ok(self.stress_system_with_binary(reading)),
                _ => Err(Rejected),
            },
            EnginePhase::Sampling => self.stress_system_without_binary(event),
            EnginePhase::Persist => self.stress_system_without_binary(event),
            EnginePhase::Finished => Err(Rejected),
        }
    }

    /// The second step, which stresses the system with the workload of
    /// this crate: while the series is open the event goes to the
    /// coordinator; once the workload is joined the event says whether
    /// its number could be stored.
    fn stress_system_without_binary(&mut self, event: Event) -> (answer: Result<Request, Rejected>)
        requires
            old(self).wf(),
            old(self)@.phase == EnginePhase::Sampling || old(self)@.phase == EnginePhase::Persist,
        ensures
            final(self).wf(),
            final(self)@ == old(self)@.spec_step(event).0,
            match answer {
                Ok(request) => Ok::<RequestView, Rejected>(request@) == old(self)@.spec_step(
                    event,
                ).1,
                Err(rejected) => Err::<RequestView, Rejected>(rejected) == old(self)@.spec_step(
                    event,
                ).1,
            },
    {
        match self.phase {
            EnginePhase::Sampling => self.sampling(event),
            _ => match event {
                Event::Persisted(stored) => Ok(self.persist(stored)),
                _ => Err(Rejected),
            },
        }
    }
}

impl DiagnosticEngine {
    /// Hands the events to [`DiagnosticEngine::step`] in order and collects
    /// the requests that it answers with.
    pub fn replay(&mut self, events: Vec<Event>) -> (issued: Vec<Request>)
        requires
            old(self).wf(),
        ensures
            final(self).wf(),
            final(self)@.inv(),
            final(self)@ == old(self)@.spec_run(events@).0,
            issued@.map_values(|r: Request| r@) == old(self)@.spec_run(events@).1,
            extends(final(self)@.log, old(self)@.log),
    {
        proof {
            lemma_extends_self(self@.log);
        }
        let ghost all = events@;
        let ghost start = self@;
        let mut events = events;
        let mut issued: Vec<Request> = Vec::new();
        let ghost mut done: int = 0;
        proof {
            assert(all.take(0) =~= Seq::<Event>::empty());
            assert(issued@.map_values(|r: Request| r@) =~= Seq::<RequestView>::empty());
        }
        while events.len() > 0
            invariant
                self.wf(),
                self@.inv(),
                0 <= done <= all.len(),
                events@ =~= all.skip(done),
                extends(self@.log, start.log),
                self@ == start.spec_run(all.take(done)).0,
                issued@.map_values(|r: Request| r@) == start.spec_run(all.take(done)).1,
            decreases events.len(),
        {
            let event = events.remove(0);
            proof {
                assert(event == all[done]);
                assert(all.take(done + 1).drop_last() =~= all.take(done));
                assert(all.take(done + 1).last() == all[done]);
            }
            let ghost before = issued@;
            let ghost so_far = self@.log;
            match self.step(event) {
                Ok(request) => {
                    issued.push(request);
                    proof {
                        assert(issued@.map_values(|r: Request| r@) =~= before.map_values(
                            |r: Request| r@,
                        ).push(request@));
                    }
                },
                Err(_) => {},
            }
            proof {
                lemma_extends_twice(self@.log, so_far, start.log);
                done = done + 1;
            }
        }
        proof {
            assert(all.take(done) =~= all);
        }
        issued
    }
}

/// What a new scope does to the stack.
pub proof fn lemma_with_start(log: Seq<RecordView>, kind: ScopeKind, name: Seq<char>)
    requires
        well_nested(log),
        log.len() <= MAX_RECORDS,
        kind_at_depth(open_after(log).unwrap().len()) == Some(kind),
    ensures
        open_after(with_start(log, kind, name)) == Some(
            open_after(log).unwrap().push(ScopeId(log.len() as usize)),
        ),
{
    lemma_open_after_push(
        log,
        start_record(ScopeId(log.len() as usize), kind, name, innermost(open_after(log).unwrap())),
    );
}

/// A record of the innermost open scope leaves the stack as it is.
pub proof fn lemma_with_entry(log: Seq<RecordView>, payload: PayloadView)
    requires
        well_nested(log),
        open_after(log).unwrap().len() > 0,
        !(payload is ScopeStart),
        !(payload is ScopeEnd),
    ensures
        open_after(with_entry(log, payload)) == open_after(log),
{
    lemma_open_after_push(log, RecordView { scope: top(log), payload });
}

/// The end of the innermost open scope takes it off the stack.
pub proof fn lemma_with_end(log: Seq<RecordView>, result: Result<Outcome, Failure>)
    requires
        well_nested(log),
        open_after(log).unwrap().len() > 0,
    ensures
        open_after(with_end(log, result)) == Some(open_after(log).unwrap().drop_last()),
{
    lemma_open_after_push(log, end_record(top(log), result));
}

proof fn lemma_skipped_run_log(error: SystemError)
    ensures
        balanced(skipped_run_log(Seq::empty(), error)),
        skipped_run_log(Seq::empty(), error).len() == 3,
{
    let empty = Seq::<RecordView>::empty();
    let a = with_start(empty, ScopeKind::Run, "hello_world"@);
    lemma_with_start(empty, ScopeKind::Run, "hello_world"@);
    let b = with_entry(
        a,
        PayloadView::Log { level: LogLevel::Error, text: precheck_failure_text(error) },
    );
    lemma_with_entry(
        a,
        PayloadView::Log { level: LogLevel::Error, text: precheck_failure_text(error) },
    );
    lemma_with_end(b, Ok(Outcome::spec_skip()));
    assert(open_after(a).unwrap().drop_last() =~= Seq::<ScopeId>::empty());
}

proof fn lemma_started_run_log()
    ensures
        well_nested(started_run_log(Seq::empty())),
        open_after(started_run_log(Seq::empty())).unwrap().len() == 2,
        started_run_log(Seq::empty()).len() == 3,
{
    let empty = Seq::<RecordView>::empty();
    let a = with_start(empty, ScopeKind::Run, "hello_world"@);
    lemma_with_start(empty, ScopeKind::Run, "hello_world"@);
    let said = PayloadView::Log {
        level: LogLevel::Info,
        text: "We are starting the Hello World diagnostic"@,
    };
    lemma_with_entry(a, said);
    lemma_with_start(with_entry(a, said), ScopeKind::Step, "run binary"@);
}

proof fn lemma_judged_log(log: Seq<RecordView>, temperature: u32)
    requires
        well_nested(log),
        open_after(log).unwrap().len() > 0,
    ensures
        open_after(judged_log(log, temperature)) == open_after(log),
        judged_log(log, temperature).len() == log.len() + if temperature > TEMPERATURE_LIMIT {
            3int
        } else {
            2int
        },
{
    let reading = PayloadView::Measurement {
        name: "initial temperature"@,
        value: temperature,
        unit: "C"@,
        series: None,
    };
    lemma_with_entry(log, reading);
    let measured = with_entry(log, reading);
    if temperature > TEMPERATURE_LIMIT {
        let alarm = PayloadView::Log {
            level: LogLevel::Error,
            text: "initial temperature too high to proceed with the test"@,
        };
        lemma_with_entry(measured, alarm);
        lemma_with_entry(
            with_entry(measured, alarm),
            PayloadView::Diagnosis { id: "high-initial-temperature"@, verdict: Verdict::Fail },
        );
    } else {
        lemma_with_entry(
            measured,
            PayloadView::Log { level: LogLevel::Info, text: "temperature is within limits"@ },
        );
    }
}

proof fn lemma_step_a_log(log: Seq<RecordView>, stressor_configured: bool, temperature: u32)
    requires
        well_nested(log),
        open_after(log).unwrap().len() == 2,
    ensures
        well_nested(step_a_log(log, stressor_configured, temperature)),
        open_after(step_a_log(log, stressor_configured, temperature)).unwrap().len() == 1,
        log.len() + 3 <= step_a_log(log, stressor_configured, temperature).len() <= log.len() + 5,
{
    lemma_judged_log(log, temperature);
    let judged = judged_log(log, temperature);
    if stressor_configured {
        let passed = PayloadView::Diagnosis { id: "binary-pass"@, verdict: Verdict::Pass };
        lemma_with_entry(judged, passed);
        lemma_with_end(with_entry(judged, passed), Ok(Outcome::spec_pass()));
    } else {
        lemma_with_end(judged, Ok(Outcome::spec_skip()));
    }
}

proof fn lemma_step_b_log(log: Seq<RecordView>)
    requires
        well_nested(log),
        open_after(log).unwrap().len() == 1,
        log.len() + 2 <= MAX_RECORDS,
    ensures
        well_nested(step_b_log(log)),
        open_after(step_b_log(log)).unwrap().len() == 3,
        step_b_log(log).len() == log.len() + 2,
{
    lemma_with_start(log, ScopeKind::Step, "stress system without an external binary"@);
    lemma_with_start(
        with_start(log, ScopeKind::Step, "stress system without an external binary"@),
        ScopeKind::MeasurementSeries,
        "temperature"@,
    );
}

proof fn lemma_closing_log(log: Seq<RecordView>, stored: Result<Seq<char>, Seq<char>>)
    requires
        well_nested(log),
        open_after(log).unwrap().len() == 2,
    ensures
        balanced(closing_log(log, stored)),
        closing_log(log, stored).len() == log.len() + 5,
{
    let first = match stored {
        Ok(locator) => PayloadView::FileRef { name: "stressor_output.txt"@, locator },
        Err(reason) => PayloadView::Log {
            level: LogLevel::Error,
            text: persist_failure_text(reason),
        },
    };
    lemma_with_entry(log, first);
    let a = with_entry(log, first);
    let second = PayloadView::Extension {
        name: "mycompany-test_plan"@,
        fields: extension_fields(),
    };
    lemma_with_entry(a, second);
    let b = with_entry(a, second);
    let third = PayloadView::Diagnosis { id: "no-binary-pass"@, verdict: Verdict::Pass };
    lemma_with_entry(b, third);
    let c = with_entry(b, third);
    lemma_with_end(c, Ok(Outcome::spec_pass()));
    let d = with_end(c, Ok(Outcome::spec_pass()));
    lemma_with_end(d, Ok(Outcome::spec_pass()));
    assert(open_after(d).unwrap().drop_last() =~= Seq::<ScopeId>::empty());
}

proof fn lemma_ends(log: Seq<RecordView>, cause: Failure)
    requires
        well_nested(log),
        open_after(log).unwrap().len() == 2,
    ensures
        balanced(with_end(with_end(log, Err(cause)), Err(cause))),
        with_end(with_end(log, Err(cause)), Err(cause)).len() == log.len() + 2,
{
    lemma_with_end(log, Err(cause));
    let a = with_end(log, Err(cause));
    lemma_with_end(a, Err(cause));
    assert(open_after(a).unwrap().drop_last() =~= Seq::<ScopeId>::empty());
}

proof fn lemma_aborted_log(log: Seq<RecordView>, cause: Failure)
    requires
        well_nested(log),
        open_after(log).unwrap().len() == 3,
    ensures
        balanced(aborted_log(log, cause)),
        aborted_log(log, cause).len() == log.len() + 3,
{
    lemma_with_end(log, Err(cause));
    lemma_ends(with_end(log, Err(cause)), cause);
}

/// Whatever event arrives, the engine keeps its invariant: the stream
/// stays well nested, and when the engine is finished no scope is open and
/// the outcome is one that a run may end with.
pub proof fn law_step_keeps_invariant(engine: EngineView, event: Event)
    requires
        engine.inv(),
    ensures
        engine.spec_step(event).0.inv(),
        engine.spec_step(event).0.stressor_configured == engine.stressor_configured,
{
    let next = engine.spec_step(event).0;
    match (engine.phase, event) {
        (EnginePhase::PreCheck, Event::Reading(Err(error))) => {
            assert(engine.log =~= Seq::<RecordView>::empty());
            lemma_skipped_run_log(error);
        },
        (EnginePhase::PreCheck, Event::Reading(Ok(_))) => {
            assert(engine.log =~= Seq::<RecordView>::empty());
            lemma_started_run_log();
        },
        (EnginePhase::StepA, Event::Reading(Err(_))) => {
            lemma_ends(engine.log, Failure::ProbeFailure);
        },
        (EnginePhase::StepA, Event::Reading(Ok(state))) => {
            lemma_step_a_log(engine.log, engine.stressor_configured, state.temperature);
            lemma_step_b_log(step_a_log(engine.log, engine.stressor_configured, state.temperature));
        },
        (EnginePhase::Sampling, event) => {
            lemma_step_emits_at_most_one(engine.coordinator, engine.log, top(engine.log), event);
            let stepped = engine.coordinator.spec_step(engine.log, top(engine.log), event);
            if stepped.2 is Ok && stepped.0.phase == SamplingPhase::Done {
                match abort_cause(stepped.0) {
                    None => {
                        lemma_with_end(stepped.1, Ok(Outcome::spec_pass()));
                    },
                    Some(cause) => {
                        lemma_aborted_log(stepped.1, cause);
                    },
                }
            }
        },
        (EnginePhase::Persist, Event::Persisted(stored)) => {
            lemma_closing_log(
                engine.log,
                match stored {
                    Ok(locator) => Ok(locator@),
                    Err(reason) => Err(reason@),
                },
            );
        },
        _ => {},
    }
}

/// Whatever event arrives, the engine only appends to the stream: what
/// was emitted is never taken back or changed.
pub proof fn law_step_only_appends(engine: EngineView, event: Event)
    requires
        engine.inv(),
    ensures
        extends(engine.spec_step(event).0.log, engine.log),
{
    let next = engine.spec_step(event).0;
    let n = engine.log.len() as int;
    match (engine.phase, event) {
        (EnginePhase::Sampling, event) => {
            lemma_step_emits_at_most_one(engine.coordinator, engine.log, top(engine.log), event);
            let stepped = engine.coordinator.spec_step(engine.log, top(engine.log), event);
            assert(next.log.take(stepped.1.len() as int) =~= stepped.1);
            lemma_extends_twice(next.log, stepped.1, engine.log);
        },
        _ => {
            assert(next.log.take(n) =~= engine.log);
        },
    }
}

/// Whatever events arrive, in whatever order, the stream at the end of
/// them extends the stream at their beginning.
pub proof fn law_run_only_appends(engine: EngineView, events: Seq<Event>)
    requires
        engine.inv(),
    ensures
        engine.spec_run(events).0.inv(),
        extends(engine.spec_run(events).0.log, engine.log),
    decreases events.len(),
{
    if events.len() == 0 {
        lemma_extends_self(engine.log);
    } else {
        let front = events.drop_last();
        law_run_only_appends(engine, front);
        let before = engine.spec_run(front).0;
        law_step_keeps_invariant(before, events.last());
        law_step_only_appends(before, events.last());
        lemma_extends_twice(engine.spec_run(events).0.log, before.log, engine.log);
    }
}

/// A coordinator as the engine sets it up, before it has done anything.
pub open spec fn fresh(coordinator: SamplingCoordinator) -> bool {
    &&& coordinator.wf()
    &&& coordinator.phase == SamplingPhase::Idle
    &&& coordinator.count == SAMPLE_COUNT
    &&& coordinator.interval == SAMPLE_INTERVAL
    &&& coordinator.name@ == "temperature"@
    &&& coordinator.unit@ == "C"@
}

/// On every path of execution the stream is well nested, and once the
/// engine is finished every scope that was started has exactly one end
/// record, which comes after its start; the end record of a scope comes
/// before that of its parent; and the outcome is one of complete and
/// passed, complete and failed, skipped, and error. This holds whatever
/// events the driver reports, in whatever order.
pub proof fn law_every_scope_is_closed(
    stressor_configured: bool,
    coordinator: SamplingCoordinator,
    events: Seq<Event>,
)
    requires
        fresh(coordinator),
    ensures
        ({
            let end = EngineView::initial(stressor_configured, coordinator).spec_run(events).0;
            &&& end.inv()
            &&& well_nested(end.log)
            &&& end.phase == EnginePhase::Finished ==> {
                &&& balanced(end.log)
                &&& end.outcome is Some && end.outcome.unwrap().is_final()
                &&& forall|i: int|
                    0 <= i < end.log.len() && (#[trigger] end.log[i]).is_start() ==> exists|j: int|
                        i < j < end.log.len() && (#[trigger] end.log[j]).ends(end.log[i].scope)
                &&& forall|j: int, k: int|
                    0 <= j < end.log.len() && 0 <= k < end.log.len() && (
                    #[trigger] end.log[j]).is_end() && (#[trigger] end.log[k]).is_end()
                        && end.log[j].scope == end.log[k].scope ==> j == k
                &&& forall|c: int, j: int, k: int|
                    0 <= c < end.log.len() && 0 <= j < end.log.len() && 0 <= k < end.log.len() && (
                    #[trigger] end.log[c]).is_start() && (#[trigger] end.log[j]).ends(
                        end.log[c].scope,
                    )
                        && (#[trigger] end.log[k]).is_end() && parent_of(end.log[c])
                        == Some(end.log[k].scope) ==> j < k
            }
        }),
    decreases events.len(),
{
    let start = EngineView::initial(stressor_configured, coordinator);
    if events.len() > 0 {
        law_every_scope_is_closed(stressor_configured, coordinator, events.drop_last());
        law_step_keeps_invariant(start.spec_run(events.drop_last()).0, events.last());
    }
    let end = start.spec_run(events).0;
    if end.phase == EnginePhase::Finished {
        assert forall|i: int|
            0 <= i < end.log.len() && (#[trigger] end.log[i]).is_start() implies exists|j: int|
            i < j < end.log.len() && (#[trigger] end.log[j]).ends(end.log[i].scope) by {
            law_start_has_one_end(end.log, i);
        }
        assert forall|j: int, k: int|
            0 <= j < end.log.len() && 0 <= k < end.log.len() && (#[trigger] end.log[j]).is_end()
                && (#[trigger] end.log[k]).is_end() && end.log[j].scope
                == end.log[k].scope implies j
            == k by {
            law_end_has_one_start(end.log, j);
        }
        assert forall|c: int, j: int, k: int|
            0 <= c < end.log.len() && 0 <= j < end.log.len() && 0 <= k < end.log.len() && (
            #[trigger] end.log[c]).is_start() && (#[trigger] end.log[j]).ends(end.log[c].scope) && (
            #[trigger] end.log[k]).is_end() && parent_of(end.log[c]) == Some(
                end.log[k].scope,
            ) implies j < k by {
            law_child_ends_before_parent(end.log, c, j, k);
        }
    }
}

/// If the first reading fails, the engine is finished at once and the run
/// is skipped: the stream holds the start of the run, one error log in the
/// run, and the end of the run, and so no step was opened.
pub proof fn law_failed_precheck_skips_run(
    stressor_configured: bool,
    coordinator: SamplingCoordinator,
    error: SystemError,
)
    ensures
        ({
            let start = EngineView::initial(stressor_configured, coordinator);
            let stepped = start.spec_step(Event::Reading(Err(error)));
            let run = ScopeId(0);
            &&& stepped.1 == Ok::<RequestView, Rejected>(RequestView::Done)
            &&& stepped.0.phase == EnginePhase::Finished
            &&& stepped.0.outcome == Some(Outcome::spec_skip())
            &&& stepped.0.log == seq![
                start_record(run, ScopeKind::Run, "hello_world"@, None),
                RecordView {
                    scope: run,
                    payload: PayloadView::Log {
                        level: LogLevel::Error,
                        text: precheck_failure_text(error),
                    },
                },
                end_record(run, Ok(Outcome::spec_skip())),
            ]
            &&& forall|i: int|
                0 <= i < stepped.0.log.len() ==> ((
                #[trigger] stepped.0.log[i]).payload matches PayloadView::Log {
                    level: LogLevel::Error,
                    ..
                } <==> i == 1)
            &&& forall|i: int|
                0 <= i < stepped.0.log.len() ==> !((
                #[trigger] stepped.0.log[i]).payload matches PayloadView::ScopeStart {
                    kind: ScopeKind::Step,
                    ..
                })
        }),
{
    let empty = Seq::<RecordView>::empty();
    let a = with_start(empty, ScopeKind::Run, "hello_world"@);
    lemma_with_start(empty, ScopeKind::Run, "hello_world"@);
    let said = PayloadView::Log { level: LogLevel::Error, text: precheck_failure_text(error) };
    lemma_with_entry(a, said);
    let stepped = EngineView::initial(stressor_configured, coordinator).spec_step(
        Event::Reading(Err(error)),
    );
    assert(stepped.0.log =~= seq![
        start_record(ScopeId(0), ScopeKind::Run, "hello_world"@, None),
        RecordView { scope: ScopeId(0), payload: said },
        end_record(ScopeId(0), Ok(Outcome::spec_skip())),
    ]);
}

/// An initial reading above the limit does not end the run: the first
/// step records the reading, an error log and a failing diagnosis, and
/// still closes without a failure, skipped or passed; the engine goes on
/// to the second step.
pub proof fn law_hot_start_is_not_fatal(engine: EngineView, state: SystemState)
    requires
        engine.inv(),
        engine.phase == EnginePhase::StepA,
        state.temperature > TEMPERATURE_LIMIT,
    ensures
        ({
            let stepped = engine.spec_step(Event::Reading(Ok(state)));
            let n = engine.log.len() as int;
            let step = top(engine.log);
            let close = if engine.stressor_configured {
                n + 4
            } else {
                n + 3
            };
            &&& stepped.1 == Ok::<RequestView, Rejected>(RequestView::SpawnWorkload)
            &&& stepped.0.phase == EnginePhase::Sampling
            &&& stepped.0.outcome is None
            &&& stepped.0.log.take(n) == engine.log
            &&& stepped.0.log[n + 1] == RecordView {
                scope: step,
                payload: PayloadView::Log {
                    level: LogLevel::Error,
                    text: "initial temperature too high to proceed with the test"@,
                },
            }
            &&& stepped.0.log[n + 2] == RecordView {
                scope: step,
                payload: PayloadView::Diagnosis {
                    id: "high-initial-temperature"@,
                    verdict: Verdict::Fail,
                },
            }
            &&& stepped.0.log[close] == end_record(
                step,
                Ok(
                    if engine.stressor_configured {
                        Outcome::spec_pass()
                    } else {
                        Outcome::spec_skip()
                    },
                ),
            )
        }),
{
    lemma_judged_log(engine.log, state.temperature);
    lemma_step_a_log(engine.log, engine.stressor_configured, state.temperature);
    let reading = PayloadView::Measurement {
        name: "initial temperature"@,
        value: state.temperature,
        unit: "C"@,
        series: None,
    };
    lemma_with_entry(engine.log, reading);
    let measured = with_entry(engine.log, reading);
    let alarm = PayloadView::Log {
        level: LogLevel::Error,
        text: "initial temperature too high to proceed with the test"@,
    };
    lemma_with_entry(measured, alarm);
    let alarmed = with_entry(measured, alarm);
    let verdict = PayloadView::Diagnosis {
        id: "high-initial-temperature"@,
        verdict: Verdict::Fail,
    };
    lemma_with_entry(alarmed, verdict);
    let judged = with_entry(alarmed, verdict);
    assert(judged == judged_log(engine.log, state.temperature));
    if engine.stressor_configured {
        lemma_with_entry(
            judged,
            PayloadView::Diagnosis { id: "binary-pass"@, verdict: Verdict::Pass },
        );
    }
    let stepped = engine.spec_step(Event::Reading(Ok(state)));
    assert(stepped.0.log.take(engine.log.len() as int) =~= engine.log);
}

/// An artifact that cannot be stored costs the step nothing: the stream
/// gains one error log where the reference to the artifact would stand,
/// and then, as after a stored artifact, the extension, the passing
/// diagnosis and the ends of the step and of the run, both passed.
pub proof fn law_persist_failure_is_only_logged(engine: EngineView, reason: String, locator: String)
    requires
        engine.inv(),
        engine.phase == EnginePhase::Persist,
    ensures
        ({
            let failed = engine.spec_step(Event::Persisted(Err(reason)));
            let stored = engine.spec_step(Event::Persisted(Ok(locator)));
            let n = engine.log.len() as int;
            &&& failed.1 == stored.1
            &&& failed.0.phase == EnginePhase::Finished
            &&& failed.0.outcome == Some(Outcome::spec_pass())
            &&& failed.0.outcome == stored.0.outcome
            &&& failed.0.log.len() == n + 5
            &&& stored.0.log.len() == n + 5
            &&& failed.0.log.take(n) == engine.log
            &&& failed.0.log[n] == RecordView {
                scope: top(engine.log),
                payload: PayloadView::Log {
                    level: LogLevel::Error,
                    text: persist_failure_text(reason@),
                },
            }
            &&& stored.0.log[n] == RecordView {
                scope: top(engine.log),
                payload: PayloadView::FileRef { name: "stressor_output.txt"@, locator: locator@ },
            }
            &&& failed.0.log.skip(n + 1) == stored.0.log.skip(n + 1)
            &&& failed.0.log[n + 1].payload == PayloadView::Extension {
                name: "mycompany-test_plan"@,
                fields: extension_fields(),
            }
            &&& failed.0.log[n + 2].payload == PayloadView::Diagnosis {
                id: "no-binary-pass"@,
                verdict: Verdict::Pass,
            }
            &&& failed.0.log[n + 3] == end_record(top(engine.log), Ok(Outcome::spec_pass()))
            &&& failed.0.log[n + 4].payload == PayloadView::ScopeEnd {
                outcome: Outcome::spec_pass(),
                cause: None,
            }
        }),
{
    let n = engine.log.len() as int;
    let failed = engine.spec_step(Event::Persisted(Err(reason)));
    let stored = engine.spec_step(Event::Persisted(Ok(locator)));
    lemma_closing_tail(engine.log, Err(reason@));
    lemma_closing_tail(engine.log, Ok(locator@));
    assert(failed.0.log.take(n) =~= engine.log);
    assert(failed.0.log.skip(n + 1) =~= stored.0.log.skip(n + 1));
}

/// The five records that close the run, one by one.
proof fn lemma_closing_tail(log: Seq<RecordView>, stored: Result<Seq<char>, Seq<char>>)
    requires
        well_nested(log),
        open_after(log).unwrap().len() == 2,
    ensures
        ({
            let end = closing_log(log, stored);
            let n = log.len() as int;
            let step = top(log);
            let run = open_after(log).unwrap()[0];
            &&& end.len() == n + 5
            &&& forall|i: int| 0 <= i < n ==> end[i] == log[i]
            &&& end[n] == RecordView {
                scope: step,
                payload: match stored {
                    Ok(locator) => PayloadView::FileRef { name: "stressor_output.txt"@, locator },
                    Err(reason) => PayloadView::Log {
                        level: LogLevel::Error,
                        text: persist_failure_text(reason),
                    },
                },
            }
            &&& end[n + 1] == RecordView {
                scope: step,
                payload: PayloadView::Extension {
                    name: "mycompany-test_plan"@,
                    fields: extension_fields(),
                },
            }
            &&& end[n + 2] == RecordView {
                scope: step,
                payload: PayloadView::Diagnosis { id: "no-binary-pass"@, verdict: Verdict::Pass },
            }
            &&& end[n + 3] == end_record(step, Ok(Outcome::spec_pass()))
            &&& end[n + 4] == end_record(run, Ok(Outcome::spec_pass()))
        }),
{
    let first = match stored {
        Ok(locator) => PayloadView::FileRef { name: "stressor_output.txt"@, locator },
        Err(reason) => PayloadView::Log {
            level: LogLevel::Error,
            text: persist_failure_text(reason),
        },
    };
    lemma_with_entry(log, first);
    let a = with_entry(log, first);
    let second = PayloadView::Extension {
        name: "mycompany-test_plan"@,
        fields: extension_fields(),
    };
    lemma_with_entry(a, second);
    let b = with_entry(a, second);
    let third = PayloadView::Diagnosis { id: "no-binary-pass"@, verdict: Verdict::Pass };
    lemma_with_entry(b, third);
    let c = with_entry(b, third);
    lemma_with_end(c, Ok(Outcome::spec_pass()));
}

/// One more event is one more step.
pub proof fn lemma_engine_run_push(start: EngineView, events: Seq<Event>, event: Event)
    ensures
        start.spec_run(events.push(event)).0 == start.spec_run(events).0.spec_step(event).0,
{
    assert(events.push(event).drop_last() =~= events);
}

/// The engine after `first` and then `second` is the engine after both.
pub proof fn lemma_runs_compose(start: EngineView, first: Seq<Event>, second: Seq<Event>)
    ensures
        start.spec_run(first + second).0 == start.spec_run(first).0.spec_run(second).0,
    decreases second.len(),
{
    if second.len() == 0 {
        assert(first + second =~= first);
    } else {
        lemma_runs_compose(start, first, second.drop_last());
        assert((first + second).drop_last() =~= first + second.drop_last());
    }
}

/// While its coordinator is not done, an engine that is sampling does
/// what its coordinator does, and nothing else.
proof fn lemma_sampling_lifts(engine: EngineView, events: Seq<Event>)
    requires
        engine.inv(),
        engine.phase == EnginePhase::Sampling,
        engine.coordinator.spec_run(engine.log, top(engine.log), events).0.phase
            != SamplingPhase::Done,
    ensures
        ({
            let sampled = engine.coordinator.spec_run(engine.log, top(engine.log), events);
            &&& engine.spec_run(events).0 == EngineView {
                coordinator: sampled.0,
                log: sampled.1,
                ..engine
            }
            &&& open_after(sampled.1) == open_after(engine.log)
            &&& sampled.0.wf()
        }),
    decreases events.len(),
{
    let series = top(engine.log);
    law_only_samples_are_emitted(engine.coordinator, engine.log, series, events);
    if events.len() > 0 {
        let front = events.drop_last();
        let before = engine.coordinator.spec_run(engine.log, series, front);
        if before.0.phase == SamplingPhase::Done {
            lemma_done_is_final(before.0, before.1, series, events.last());
        }
        lemma_sampling_lifts(engine, front);
    }
}

/// A whole run with a faithful driver, from two good readings on. The
/// first step is judged on the second reading; the series gains one
/// measurement for each good sample. If every sample was good and the
/// workload was joined, the series closes as passed and the engine asks for
/// the workload's number to be stored. Otherwise the series, the step and
/// the run close in error, innermost first, as an aborted sampling after a
/// failed reading or as a failed join, and the run ends in error.
pub proof fn law_faithful_run_of_the_engine(
    stressor_configured: bool,
    coordinator: SamplingCoordinator,
    first: SystemState,
    initial: SystemState,
    readings: Seq<Result<SystemState, SystemError>>,
    join: Option<crate::workload::WorkloadResult>,
)
    requires
        fresh(coordinator),
        readings_of_a_run(SAMPLE_COUNT, readings),
    ensures
        ({
            let start = EngineView::initial(stressor_configured, coordinator);
            let events = seq![Event::Reading(Ok(first)), Event::Reading(Ok(initial))]
                + faithful_events(readings, join);
            let end = start.spec_run(events).0;
            let opened = step_b_log(
                step_a_log(
                    started_run_log(Seq::empty()),
                    stressor_configured,
                    initial.temperature,
                ),
            );
            let sampled = with_samples(opened, top(opened), "temperature"@, "C"@, readings);
            let failed = readings.len() > 0 && readings.last() is Err;
            if join is Some && !failed {
                &&& end.phase == EnginePhase::Persist
                &&& end.outcome is None
                &&& end.log == with_end(sampled, Ok(Outcome::spec_pass()))
                &&& end.awaiting() == RequestView::PersistArtifact {
                    name: "stressor_output.txt"@,
                    content: artifact_text(join.unwrap().number()),
                }
            } else {
                &&& end.phase == EnginePhase::Finished
                &&& end.outcome == Some(Outcome::spec_error())
                &&& end.log == aborted_log(
                    sampled,
                    if join is None {
                        Failure::WorkloadJoinFailure
                    } else {
                        Failure::SamplingAbort
                    },
                )
            }
        }),
{
    let start = EngineView::initial(stressor_configured, coordinator);
    let head = seq![Event::Reading(Ok(first)), Event::Reading(Ok(initial))];
    let tail = faithful_events(readings, join);
    lemma_runs_compose(start, head, tail);
    // The two readings that open the run and close its first step.
    let none = Seq::<Event>::empty();
    let one = none.push(Event::Reading(Ok(first)));
    assert(head =~= one.push(Event::Reading(Ok(initial))));
    assert(start.spec_run(none).0 == start);
    lemma_engine_run_push(start, none, Event::Reading(Ok(first)));
    let a = start.spec_step(Event::Reading(Ok(first))).0;
    law_step_keeps_invariant(start, Event::Reading(Ok(first)));
    lemma_engine_run_push(start, one, Event::Reading(Ok(initial)));
    let b = a.spec_step(Event::Reading(Ok(initial))).0;
    law_step_keeps_invariant(a, Event::Reading(Ok(initial)));
    // The sampling, up to the join.
    let series = top(b.log);
    let until_stop = seq![Event::Spawned] + rounds(readings);
    let until_join = until_stop.push(Event::CancelSignalled);
    assert(tail =~= until_join.push(Event::Joined(join)));
    assert(tail.drop_last() =~= until_join);
    lemma_faithful_rounds(coordinator, b.log, series, readings);
    lemma_run_push(coordinator, b.log, series, until_stop, Event::CancelSignalled);
    lemma_sampling_lifts(b, until_join);
    // The join, and what the engine makes of it.
    let c = b.spec_run(until_join).0;
    lemma_engine_run_push(b, until_join, Event::Joined(join));
    assert(top(c.log) == series);
}

} // verus!
