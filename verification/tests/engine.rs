use diag_engine::engine::{
    DiagnosticEngine, EnginePhase, MAX_RECORDS, SAMPLE_COUNT, SAMPLE_INTERVAL, TEMPERATURE_LIMIT,
};
use diag_engine::probe::{get_system_state, SystemError, SystemState};
use diag_engine::protocol::{Event, Rejected, Request};
use diag_engine::record::{
    Failure, Field, LogLevel, Outcome, Payload, Record, ScopeId, ScopeKind, TestResult,
    TestStatus, Verdict,
};
use diag_engine::scope::check_nesting;
use diag_engine::workload::WorkloadResult;

fn start(id: usize, kind: ScopeKind, name: &str, parent: Option<usize>) -> Record {
    Record {
        scope: ScopeId(id),
        payload: Payload::ScopeStart { kind, name: name.to_string(), parent: parent.map(ScopeId) },
    }
}

fn end(id: usize, outcome: Outcome, cause: Option<Failure>) -> Record {
    Record { scope: ScopeId(id), payload: Payload::ScopeEnd { outcome, cause } }
}

fn log(id: usize, level: LogLevel, text: &str) -> Record {
    Record { scope: ScopeId(id), payload: Payload::Log { level, text: text.to_string() } }
}

fn diagnosis(id: usize, name: &str, verdict: Verdict) -> Record {
    Record { scope: ScopeId(id), payload: Payload::Diagnosis { id: name.to_string(), verdict } }
}

fn measurement(id: usize, name: &str, value: u32, series: Option<usize>) -> Record {
    Record {
        scope: ScopeId(id),
        payload: Payload::Measurement {
            name: name.to_string(),
            value,
            unit: "C".to_string(),
            series: series.map(ScopeId),
        },
    }
}

fn extension(id: usize) -> Record {
    Record {
        scope: ScopeId(id),
        payload: Payload::Extension {
            name: "mycompany-test_plan".to_string(),
            fields: vec![Field { key: "type".to_string(), value: "test_42".to_string() }],
        },
    }
}

fn good(temperature: u32) -> Event {
    Event::Reading(Ok(SystemState { temperature }))
}

fn bad() -> Event {
    Event::Reading(Err(SystemError::Fail))
}

fn joined() -> Event {
    Event::Joined(Some(WorkloadResult { value: vec![0x00, 0x04], completed: true }))
}

fn sampling_events() -> Vec<Event> {
    let mut events = vec![Event::Spawned];
    for _ in 0..5 {
        events.push(Event::Slept);
        events.push(good(25));
    }
    events.push(Event::CancelSignalled);
    events.push(joined());
    events
}

/// Start and end records pair up, each start before its end, children closed first.
fn every_scope_is_closed_once(records: &[Record]) {
    assert_eq!(check_nesting(&records.to_vec()), Some(vec![]));
    for (i, record) in records.iter().enumerate() {
        if let Payload::ScopeStart { parent, .. } = &record.payload {
            assert_eq!(record.scope, ScopeId(i));
            let ends: Vec<usize> = records
                .iter()
                .enumerate()
                .filter(|(_, r)| {
                    r.scope == record.scope && matches!(r.payload, Payload::ScopeEnd { .. })
                })
                .map(|(j, _)| j)
                .collect();
            assert_eq!(ends.len(), 1);
            assert!(ends[0] > i);
            if let Some(p) = parent {
                let parent_end = records
                    .iter()
                    .position(|r| r.scope == *p && matches!(r.payload, Payload::ScopeEnd { .. }))
                    .unwrap();
                assert!(ends[0] < parent_end);
            }
        }
    }
}

#[test]
fn the_constants_of_the_run() {
    assert_eq!(TEMPERATURE_LIMIT, 30);
    assert_eq!(SAMPLE_COUNT, 5);
    assert_eq!(SAMPLE_INTERVAL, 1);
    assert_eq!(MAX_RECORDS, 21);
}

#[test]
fn a_new_engine_asks_for_the_first_reading() {
    let engine = DiagnosticEngine::new("");
    assert_eq!(engine.phase(), EnginePhase::PreCheck);
    assert_eq!(engine.awaiting(), Request::ReadProbe);
    assert!(!engine.is_finished());
    assert_eq!(engine.outcome(), None);
    assert_eq!(engine.sink().len(), 0);
}

#[test]
fn a_failed_first_reading_skips_the_run() {
    let mut engine = DiagnosticEngine::new("");
    assert_eq!(engine.step(bad()), Ok(Request::Done));
    assert!(engine.is_finished());
    assert_eq!(
        engine.outcome(),
        Some(Outcome { status: TestStatus::Skip, result: TestResult::NotApplicable })
    );
    let records = engine.sink().records();
    assert_eq!(
        records,
        &vec![
            start(0, ScopeKind::Run, "hello_world", None),
            log(0, LogLevel::Error, "system state cannot be retrieved: cannot get system state"),
            end(0, Outcome::skip(), None),
        ]
    );
    let error_logs = records
        .iter()
        .filter(|r| matches!(r.payload, Payload::Log { level: LogLevel::Error, .. }))
        .count();
    assert_eq!(error_logs, 1);
    let steps = records
        .iter()
        .filter(|r| matches!(r.payload, Payload::ScopeStart { kind: ScopeKind::Step, .. }))
        .count();
    assert_eq!(steps, 0);
    every_scope_is_closed_once(records);
}

#[test]
fn a_whole_run_with_the_stand_in_probe() {
    let mut engine = DiagnosticEngine::new("");
    let mut requests = vec![engine.awaiting()];
    let mut events = vec![Event::Reading(get_system_state()), Event::Reading(get_system_state())];
    events.extend(sampling_events());
    events.push(Event::Persisted(Ok("file:///work/stressor_output.txt".to_string())));
    requests.extend(engine.replay(events));
    let sleep = Request::Sleep { interval: 1 };
    assert_eq!(
        requests,
        vec![
            Request::ReadProbe,
            Request::ReadProbe,
            Request::SpawnWorkload,
            sleep.clone(),
            Request::ReadProbe,
            sleep.clone(),
            Request::ReadProbe,
            sleep.clone(),
            Request::ReadProbe,
            sleep.clone(),
            Request::ReadProbe,
            sleep.clone(),
            Request::ReadProbe,
            Request::SignalCancel,
            Request::JoinWorkload,
            Request::PersistArtifact {
                name: "stressor_output.txt".to_string(),
                content: "Calculated n:\n1024\n".to_string(),
            },
            Request::Done,
        ]
    );
    assert!(engine.is_finished());
    assert_eq!(
        engine.outcome(),
        Some(Outcome { status: TestStatus::Complete, result: TestResult::Pass })
    );
    let records = engine.sink().records();
    assert_eq!(
        records,
        &vec![
            start(0, ScopeKind::Run, "hello_world", None),
            log(0, LogLevel::Info, "We are starting the Hello World diagnostic"),
            start(2, ScopeKind::Step, "run binary", Some(0)),
            measurement(2, "initial temperature", 25, None),
            log(2, LogLevel::Info, "temperature is within limits"),
            end(2, Outcome::skip(), None),
            start(6, ScopeKind::Step, "stress system without an external binary", Some(0)),
            start(7, ScopeKind::MeasurementSeries, "temperature", Some(6)),
            measurement(7, "temperature", 25, Some(7)),
            measurement(7, "temperature", 25, Some(7)),
            measurement(7, "temperature", 25, Some(7)),
            measurement(7, "temperature", 25, Some(7)),
            measurement(7, "temperature", 25, Some(7)),
            end(7, Outcome::pass(), None),
            Record {
                scope: ScopeId(6),
                payload: Payload::FileRef {
                    name: "stressor_output.txt".to_string(),
                    locator: "file:///work/stressor_output.txt".to_string(),
                },
            },
            extension(6),
            diagnosis(6, "no-binary-pass", Verdict::Pass),
            end(6, Outcome::pass(), None),
            end(0, Outcome::pass(), None),
        ]
    );
    every_scope_is_closed_once(records);
}

#[test]
fn the_second_step_does_not_start_before_the_first_has_closed() {
    let mut engine = DiagnosticEngine::new("");
    engine.replay(vec![good(25), good(25)]);
    let records = engine.sink().records();
    let first_end = records.iter().position(|r| *r == end(2, Outcome::skip(), None)).unwrap();
    let second_start = records
        .iter()
        .position(|r| {
            *r == start(6, ScopeKind::Step, "stress system without an external binary", Some(0))
        })
        .unwrap();
    assert!(first_end < second_start);
}

#[test]
fn an_initial_reading_above_the_limit_fails_a_diagnosis_but_not_the_run() {
    let mut engine = DiagnosticEngine::new("");
    assert_eq!(engine.step(good(25)), Ok(Request::ReadProbe));
    assert_eq!(engine.step(good(31)), Ok(Request::SpawnWorkload));
    assert_eq!(engine.phase(), EnginePhase::Sampling);
    assert_eq!(engine.outcome(), None);
    assert_eq!(
        &engine.sink().records()[3..7],
        &[
            measurement(2, "initial temperature", 31, None),
            log(2, LogLevel::Error, "initial temperature too high to proceed with the test"),
            diagnosis(2, "high-initial-temperature", Verdict::Fail),
            end(2, Outcome::skip(), None),
        ]
    );
    let mut rest = sampling_events();
    rest.push(Event::Persisted(Ok("file:///x".to_string())));
    engine.replay(rest);
    assert_eq!(engine.outcome(), Some(Outcome::pass()));
    every_scope_is_closed_once(engine.sink().records());
}

#[test]
fn a_reading_at_the_limit_is_within_limits() {
    let mut engine = DiagnosticEngine::new("");
    engine.replay(vec![good(25), good(30)]);
    assert_eq!(
        engine.sink().records()[4],
        log(2, LogLevel::Info, "temperature is within limits")
    );
}

#[test]
fn a_configured_stressor_makes_the_first_step_pass() {
    let mut engine = DiagnosticEngine::new("/usr/bin/stress");
    engine.replay(vec![good(25), good(25)]);
    assert_eq!(
        &engine.sink().records()[3..7],
        &[
            measurement(2, "initial temperature", 25, None),
            log(2, LogLevel::Info, "temperature is within limits"),
            diagnosis(2, "binary-pass", Verdict::Pass),
            end(2, Outcome::pass(), None),
        ]
    );
    assert_eq!(
        engine.sink().records()[7],
        start(7, ScopeKind::Step, "stress system without an external binary", Some(0))
    );
}

#[test]
fn the_longest_run_stays_within_the_record_bound() {
    let mut engine = DiagnosticEngine::new("/usr/bin/stress");
    let mut events = vec![good(25), good(99)];
    events.extend(sampling_events());
    events.push(Event::Persisted(Err("disk full".to_string())));
    engine.replay(events);
    assert!(engine.is_finished());
    assert_eq!(engine.sink().len(), MAX_RECORDS);
    every_scope_is_closed_once(engine.sink().records());
}

#[test]
fn a_failed_reading_in_the_first_step_ends_the_run_in_error() {
    let mut engine = DiagnosticEngine::new("");
    assert_eq!(engine.step(good(25)), Ok(Request::ReadProbe));
    assert_eq!(engine.step(bad()), Ok(Request::Done));
    assert_eq!(
        engine.outcome(),
        Some(Outcome { status: TestStatus::Error, result: TestResult::NotApplicable })
    );
    let records = engine.sink().records();
    assert_eq!(
        &records[3..],
        &[
            end(2, Outcome::error(), Some(Failure::ProbeFailure)),
            end(0, Outcome::error(), Some(Failure::ProbeFailure)),
        ]
    );
    every_scope_is_closed_once(records);
}

#[test]
fn a_failed_sample_aborts_the_series_and_closes_every_scope() {
    let mut engine = DiagnosticEngine::new("");
    let issued = engine.replay(vec![
        good(25),
        good(25),
        Event::Spawned,
        Event::Slept,
        good(26),
        Event::Slept,
        good(27),
        Event::Slept,
        bad(),
        Event::CancelSignalled,
        joined(),
    ]);
    assert_eq!(
        &issued[issued.len() - 3..],
        &[Request::SignalCancel, Request::JoinWorkload, Request::Done]
    );
    assert_eq!(engine.outcome(), Some(Outcome::error()));
    let records = engine.sink().records();
    assert_eq!(
        &records[8..],
        &[
            measurement(7, "temperature", 26, Some(7)),
            measurement(7, "temperature", 27, Some(7)),
            end(7, Outcome::error(), Some(Failure::SamplingAbort)),
            end(6, Outcome::error(), Some(Failure::SamplingAbort)),
            end(0, Outcome::error(), Some(Failure::SamplingAbort)),
        ]
    );
    every_scope_is_closed_once(records);
}

#[test]
fn a_workload_that_cannot_be_joined_ends_the_run_in_error() {
    let mut engine = DiagnosticEngine::new("");
    let mut events = vec![good(25), good(25)];
    let mut sampling = sampling_events();
    sampling.pop();
    events.extend(sampling);
    events.push(Event::Joined(None));
    let issued = engine.replay(events);
    assert_eq!(issued.last(), Some(&Request::Done));
    assert_eq!(engine.outcome(), Some(Outcome::error()));
    let records = engine.sink().records();
    assert_eq!(
        &records[13..],
        &[
            end(7, Outcome::error(), Some(Failure::WorkloadJoinFailure)),
            end(6, Outcome::error(), Some(Failure::WorkloadJoinFailure)),
            end(0, Outcome::error(), Some(Failure::WorkloadJoinFailure)),
        ]
    );
    every_scope_is_closed_once(records);
}

#[test]
fn an_artifact_that_cannot_be_stored_is_logged_and_the_step_still_passes() {
    let mut engine = DiagnosticEngine::new("");
    let mut events = vec![good(25), good(25)];
    events.extend(sampling_events());
    engine.replay(events);
    assert_eq!(engine.phase(), EnginePhase::Persist);
    assert_eq!(
        engine.awaiting(),
        Request::PersistArtifact {
            name: "stressor_output.txt".to_string(),
            content: "Calculated n:\n1024\n".to_string(),
        }
    );
    assert_eq!(
        engine.step(Event::Persisted(Err("permission denied".to_string()))),
        Ok(Request::Done)
    );
    assert_eq!(engine.outcome(), Some(Outcome::pass()));
    let records = engine.sink().records();
    assert_eq!(
        &records[14..],
        &[
            log(6, LogLevel::Error, "failed to write output file: permission denied"),
            extension(6),
            diagnosis(6, "no-binary-pass", Verdict::Pass),
            end(6, Outcome::pass(), None),
            end(0, Outcome::pass(), None),
        ]
    );
    let error_logs = records
        .iter()
        .filter(|r| matches!(r.payload, Payload::Log { level: LogLevel::Error, .. }))
        .count();
    assert_eq!(error_logs, 1);
    let files = records.iter().filter(|r| matches!(r.payload, Payload::FileRef { .. })).count();
    assert_eq!(files, 0);
    every_scope_is_closed_once(records);
}

#[test]
fn a_stored_artifact_is_referred_to_exactly_once() {
    let mut engine = DiagnosticEngine::new("");
    let mut events = vec![good(25), good(25)];
    events.extend(sampling_events());
    events.push(Event::Persisted(Ok("file:///a".to_string())));
    events.push(Event::Persisted(Ok("file:///b".to_string())));
    engine.replay(events);
    let files = engine
        .sink()
        .records()
        .iter()
        .filter(|r| matches!(r.payload, Payload::FileRef { .. }))
        .count();
    assert_eq!(files, 1);
}

#[test]
fn events_that_were_not_asked_for_are_refused_in_every_phase() {
    let mut engine = DiagnosticEngine::new("");
    assert_eq!(engine.step(Event::Spawned), Err(Rejected));
    assert_eq!(engine.step(Event::Persisted(Ok("x".to_string()))), Err(Rejected));
    assert_eq!(engine.sink().len(), 0);
    assert_eq!(engine.step(good(25)), Ok(Request::ReadProbe));
    assert_eq!(engine.step(Event::Slept), Err(Rejected));
    assert_eq!(engine.step(joined()), Err(Rejected));
    assert_eq!(engine.sink().len(), 3);
    assert_eq!(engine.step(good(25)), Ok(Request::SpawnWorkload));
    assert_eq!(engine.step(good(25)), Err(Rejected));
    assert_eq!(engine.step(Event::CancelSignalled), Err(Rejected));
    assert_eq!(engine.awaiting(), Request::SpawnWorkload);
    assert_eq!(engine.sink().len(), 8);
    let mut rest = sampling_events();
    rest.push(Event::Spawned);
    let issued = engine.replay(rest);
    assert_eq!(issued.len(), 13);
    assert_eq!(engine.phase(), EnginePhase::Persist);
    assert_eq!(engine.step(bad()), Err(Rejected));
    assert_eq!(engine.step(Event::Persisted(Ok("file:///a".to_string()))), Ok(Request::Done));
    assert_eq!(engine.step(Event::Persisted(Ok("file:///a".to_string()))), Err(Rejected));
    assert_eq!(engine.step(good(25)), Err(Rejected));
    assert_eq!(engine.awaiting(), Request::Done);
    assert_eq!(engine.sink().len(), 19);
}

#[test]
fn the_stream_is_well_nested_at_every_moment_of_a_run() {
    let mut engine = DiagnosticEngine::new("");
    let mut events = vec![good(25), good(40)];
    events.extend(sampling_events());
    events.push(Event::Persisted(Ok("file:///a".to_string())));
    for event in events {
        engine.step(event).unwrap();
        let open = check_nesting(engine.sink().records()).unwrap();
        assert_eq!(open.len(), engine.sink().depth());
        assert_eq!(open.is_empty(), engine.sink().is_balanced());
        if engine.is_finished() {
            assert!(open.is_empty());
        }
    }
    assert!(engine.is_finished());
}
