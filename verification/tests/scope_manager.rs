use diag_engine::record::{
    Failure, Field, LogLevel, Outcome, Payload, Record, ScopeId, ScopeKind, TestResult,
    TestStatus, Verdict,
};
use diag_engine::scope::{check_nesting, enter_scope, Sink};

fn start(id: usize, kind: ScopeKind, name: &str, parent: Option<usize>) -> Record {
    Record {
        scope: ScopeId(id),
        payload: Payload::ScopeStart { kind, name: name.to_string(), parent: parent.map(ScopeId) },
    }
}

fn end(id: usize, outcome: Outcome, cause: Option<Failure>) -> Record {
    Record { scope: ScopeId(id), payload: Payload::ScopeEnd { outcome, cause } }
}

fn log(id: usize, level: LogLevel, text: &str) -> Record {
    Record { scope: ScopeId(id), payload: Payload::Log { level, text: text.to_string() } }
}

#[test]
fn new_sink_is_empty_and_balanced() {
    let sink = Sink::new();
    assert_eq!(sink.len(), 0);
    assert_eq!(sink.depth(), 0);
    assert_eq!(sink.innermost(), None);
    assert!(sink.is_balanced());
    assert!(sink.records().is_empty());
}

#[test]
fn outcome_constructors_give_the_three_outcomes() {
    assert_eq!(
        Outcome::pass(),
        Outcome { status: TestStatus::Complete, result: TestResult::Pass }
    );
    assert_eq!(
        Outcome::skip(),
        Outcome { status: TestStatus::Skip, result: TestResult::NotApplicable }
    );
    assert_eq!(
        Outcome::error(),
        Outcome { status: TestStatus::Error, result: TestResult::NotApplicable }
    );
}

#[test]
fn a_scope_id_is_the_position_of_its_start_record() {
    let mut sink = Sink::new();
    let run = sink.begin(None, ScopeKind::Run, "run").unwrap();
    assert_eq!(run, ScopeId(0));
    sink.log(run, LogLevel::Info, "hello").unwrap();
    let step = sink.begin(Some(run), ScopeKind::Step, "step").unwrap();
    assert_eq!(step, ScopeId(2));
    let series = sink.begin(Some(step), ScopeKind::MeasurementSeries, "series").unwrap();
    assert_eq!(series, ScopeId(3));
    assert_eq!(sink.depth(), 3);
    assert_eq!(sink.innermost(), Some(series));
    assert_eq!(sink.position(run), Some(0));
    assert_eq!(sink.position(step), Some(1));
    assert_eq!(sink.position(series), Some(2));
    assert_eq!(sink.position(ScopeId(1)), None);
}

#[test]
fn nested_scopes_close_innermost_first() {
    let mut sink = Sink::new();
    let run = sink.begin(None, ScopeKind::Run, "run").unwrap();
    let step = sink.begin(Some(run), ScopeKind::Step, "step").unwrap();
    let series = sink.begin(Some(step), ScopeKind::MeasurementSeries, "series").unwrap();
    assert_eq!(sink.end(series, Ok(Outcome::pass())), Ok(Outcome::pass()));
    assert_eq!(sink.end(step, Ok(Outcome::skip())), Ok(Outcome::skip()));
    assert_eq!(sink.end(run, Ok(Outcome::pass())), Ok(Outcome::pass()));
    assert!(sink.is_balanced());
    assert_eq!(
        sink.records(),
        &vec![
            start(0, ScopeKind::Run, "run", None),
            start(1, ScopeKind::Step, "step", Some(0)),
            start(2, ScopeKind::MeasurementSeries, "series", Some(1)),
            end(2, Outcome::pass(), None),
            end(1, Outcome::skip(), None),
            end(0, Outcome::pass(), None),
        ]
    );
}

#[test]
fn a_failure_is_written_into_the_end_record_and_handed_on() {
    let mut sink = Sink::new();
    let run = sink.begin(None, ScopeKind::Run, "run").unwrap();
    assert_eq!(sink.end(run, Err(Failure::ProbeFailure)), Err(Failure::ProbeFailure));
    assert_eq!(
        sink.records(),
        &vec![
            start(0, ScopeKind::Run, "run", None),
            end(0, Outcome::error(), Some(Failure::ProbeFailure)),
        ]
    );
    assert!(sink.is_balanced());
}

#[test]
fn begin_refuses_a_parent_that_is_not_innermost() {
    let mut sink = Sink::new();
    let run = sink.begin(None, ScopeKind::Run, "run").unwrap();
    let step = sink.begin(Some(run), ScopeKind::Step, "a").unwrap();
    // The run is open but the step is innermost.
    assert_eq!(
        sink.begin(Some(run), ScopeKind::Step, "b"),
        Err(Failure::ScopeProtocolViolation)
    );
    assert_eq!(
        sink.begin(None, ScopeKind::MeasurementSeries, "s"),
        Err(Failure::ScopeProtocolViolation)
    );
    sink.end(step, Ok(Outcome::pass())).unwrap();
    // The step is closed: nothing can be entered under it any more.
    assert_eq!(
        sink.begin(Some(step), ScopeKind::MeasurementSeries, "s"),
        Err(Failure::ScopeProtocolViolation)
    );
    assert_eq!(sink.len(), 3);
}

#[test]
fn begin_refuses_a_kind_out_of_place() {
    let mut sink = Sink::new();
    assert_eq!(sink.begin(None, ScopeKind::Step, "s"), Err(Failure::ScopeProtocolViolation));
    assert_eq!(
        sink.begin(None, ScopeKind::MeasurementSeries, "s"),
        Err(Failure::ScopeProtocolViolation)
    );
    let run = sink.begin(None, ScopeKind::Run, "run").unwrap();
    assert_eq!(sink.begin(Some(run), ScopeKind::Run, "r"), Err(Failure::ScopeProtocolViolation));
    assert_eq!(
        sink.begin(Some(run), ScopeKind::MeasurementSeries, "s"),
        Err(Failure::ScopeProtocolViolation)
    );
    let step = sink.begin(Some(run), ScopeKind::Step, "step").unwrap();
    assert_eq!(sink.begin(Some(step), ScopeKind::Step, "s"), Err(Failure::ScopeProtocolViolation));
    let series = sink.begin(Some(step), ScopeKind::MeasurementSeries, "series").unwrap();
    assert_eq!(
        sink.begin(Some(series), ScopeKind::MeasurementSeries, "deeper"),
        Err(Failure::ScopeProtocolViolation)
    );
    assert_eq!(sink.len(), 3);
}

#[test]
fn a_second_run_may_follow_a_closed_one() {
    let mut sink = Sink::new();
    let first = sink.begin(None, ScopeKind::Run, "one").unwrap();
    sink.end(first, Ok(Outcome::pass())).unwrap();
    let second = sink.begin(None, ScopeKind::Run, "two").unwrap();
    assert_eq!(second, ScopeId(2));
    sink.end(second, Ok(Outcome::skip())).unwrap();
    assert!(sink.is_balanced());
}

#[test]
fn emission_goes_to_the_innermost_scope_only() {
    let mut sink = Sink::new();
    assert_eq!(
        sink.log(ScopeId(0), LogLevel::Info, "too early"),
        Err(Failure::ScopeProtocolViolation)
    );
    let run = sink.begin(None, ScopeKind::Run, "run").unwrap();
    let step = sink.begin(Some(run), ScopeKind::Step, "step").unwrap();
    assert_eq!(sink.log(run, LogLevel::Info, "in run"), Err(Failure::ScopeProtocolViolation));
    assert_eq!(sink.log(step, LogLevel::Error, "in step"), Ok(()));
    sink.end(step, Ok(Outcome::pass())).unwrap();
    assert_eq!(
        sink.add_diagnosis(step, "late", Verdict::Pass),
        Err(Failure::ScopeProtocolViolation)
    );
    assert_eq!(sink.log(run, LogLevel::Info, "in run"), Ok(()));
    assert_eq!(
        sink.records(),
        &vec![
            start(0, ScopeKind::Run, "run", None),
            start(1, ScopeKind::Step, "step", Some(0)),
            log(1, LogLevel::Error, "in step"),
            end(1, Outcome::pass(), None),
            log(0, LogLevel::Info, "in run"),
        ]
    );
}

#[test]
fn emit_refuses_start_and_end_payloads() {
    let mut sink = Sink::new();
    let run = sink.begin(None, ScopeKind::Run, "run").unwrap();
    assert_eq!(
        sink.emit(run, Payload::ScopeEnd { outcome: Outcome::pass(), cause: None }),
        Err(Failure::ScopeProtocolViolation)
    );
    assert_eq!(
        sink.emit(
            run,
            Payload::ScopeStart { kind: ScopeKind::Step, name: "s".to_string(), parent: Some(run) }
        ),
        Err(Failure::ScopeProtocolViolation)
    );
    assert_eq!(sink.len(), 1);
    assert_eq!(sink.depth(), 1);
}

#[test]
fn each_emission_writes_its_record() {
    let mut sink = Sink::new();
    let run = sink.begin(None, ScopeKind::Run, "run").unwrap();
    let step = sink.begin(Some(run), ScopeKind::Step, "step").unwrap();
    sink.log(step, LogLevel::Info, "text").unwrap();
    sink.add_measurement(step, "speed", 7, "rpm").unwrap();
    sink.add_diagnosis(step, "check", Verdict::Fail).unwrap();
    sink.add_extension(
        step,
        "ext",
        vec![Field { key: "k".to_string(), value: "v".to_string() }],
    )
    .unwrap();
    sink.add_file(step, "out.txt", "file:///tmp/out.txt").unwrap();
    let series = sink.begin(Some(step), ScopeKind::MeasurementSeries, "speeds").unwrap();
    sink.add_measurement(series, "speed", 8, "rpm").unwrap();
    let records = sink.records();
    assert_eq!(records[2], log(1, LogLevel::Info, "text"));
    assert_eq!(
        records[3],
        Record {
            scope: step,
            payload: Payload::Measurement {
                name: "speed".to_string(),
                value: 7,
                unit: "rpm".to_string(),
                series: None
            }
        }
    );
    assert_eq!(
        records[4],
        Record {
            scope: step,
            payload: Payload::Diagnosis { id: "check".to_string(), verdict: Verdict::Fail }
        }
    );
    assert_eq!(
        records[5],
        Record {
            scope: step,
            payload: Payload::Extension {
                name: "ext".to_string(),
                fields: vec![Field { key: "k".to_string(), value: "v".to_string() }]
            }
        }
    );
    assert_eq!(
        records[6],
        Record {
            scope: step,
            payload: Payload::FileRef {
                name: "out.txt".to_string(),
                locator: "file:///tmp/out.txt".to_string()
            }
        }
    );
    assert_eq!(
        records[8],
        Record {
            scope: series,
            payload: Payload::Measurement {
                name: "speed".to_string(),
                value: 8,
                unit: "rpm".to_string(),
                series: Some(series)
            }
        }
    );
}

#[test]
fn end_closes_children_that_were_left_open() {
    let mut sink = Sink::new();
    let run = sink.begin(None, ScopeKind::Run, "run").unwrap();
    let step = sink.begin(Some(run), ScopeKind::Step, "step").unwrap();
    let series = sink.begin(Some(step), ScopeKind::MeasurementSeries, "series").unwrap();
    assert_eq!(sink.end(run, Ok(Outcome::pass())), Err(Failure::ScopeProtocolViolation));
    assert!(sink.is_balanced());
    let violation = Some(Failure::ScopeProtocolViolation);
    assert_eq!(
        &sink.records()[3..],
        &[
            end(series.0, Outcome::error(), violation),
            end(step.0, Outcome::error(), violation),
            end(run.0, Outcome::error(), violation),
        ]
    );
}

#[test]
fn end_refuses_a_scope_that_is_not_open() {
    let mut sink = Sink::new();
    assert_eq!(sink.end(ScopeId(0), Ok(Outcome::pass())), Err(Failure::ScopeProtocolViolation));
    let run = sink.begin(None, ScopeKind::Run, "run").unwrap();
    sink.end(run, Ok(Outcome::pass())).unwrap();
    assert_eq!(sink.end(run, Ok(Outcome::pass())), Err(Failure::ScopeProtocolViolation));
    assert_eq!(sink.len(), 2);
}

#[test]
fn unwind_closes_down_to_the_depth_given() {
    let mut sink = Sink::new();
    let run = sink.begin(None, ScopeKind::Run, "run").unwrap();
    let step = sink.begin(Some(run), ScopeKind::Step, "step").unwrap();
    let series = sink.begin(Some(step), ScopeKind::MeasurementSeries, "series").unwrap();
    sink.unwind(5, Failure::WorkloadJoinFailure);
    assert_eq!(sink.len(), 3);
    sink.unwind(1, Failure::WorkloadJoinFailure);
    assert_eq!(sink.innermost(), Some(run));
    assert_eq!(
        &sink.records()[3..],
        &[
            end(series.0, Outcome::error(), Some(Failure::WorkloadJoinFailure)),
            end(step.0, Outcome::error(), Some(Failure::WorkloadJoinFailure)),
        ]
    );
    sink.unwind(0, Failure::ProbeFailure);
    assert!(sink.is_balanced());
    assert_eq!(sink.records()[5], end(run.0, Outcome::error(), Some(Failure::ProbeFailure)));
}

#[test]
fn enter_scope_closes_the_scope_after_a_body_that_succeeds() {
    let (sink, outcome) = enter_scope(Sink::new(), None, ScopeKind::Run, "run", |mut sink, id| {
        sink.log(id, LogLevel::Info, "inside").unwrap();
        (sink, Ok(Outcome::skip()))
    });
    assert_eq!(outcome, Ok(Outcome::skip()));
    assert_eq!(
        sink.records(),
        &vec![
            start(0, ScopeKind::Run, "run", None),
            log(0, LogLevel::Info, "inside"),
            end(0, Outcome::skip(), None),
        ]
    );
}

#[test]
fn enter_scope_closes_the_scope_after_a_body_that_fails() {
    let (sink, outcome) = enter_scope(Sink::new(), None, ScopeKind::Run, "run", |sink, run| {
        enter_scope(sink, Some(run), ScopeKind::Step, "step", |mut sink, step| {
            sink.log(step, LogLevel::Error, "about to fail").unwrap();
            (sink, Err(Failure::WorkloadJoinFailure))
        })
    });
    assert_eq!(outcome, Err(Failure::WorkloadJoinFailure));
    assert_eq!(
        sink.records(),
        &vec![
            start(0, ScopeKind::Run, "run", None),
            start(1, ScopeKind::Step, "step", Some(0)),
            log(1, LogLevel::Error, "about to fail"),
            end(1, Outcome::error(), Some(Failure::WorkloadJoinFailure)),
            end(0, Outcome::error(), Some(Failure::WorkloadJoinFailure)),
        ]
    );
    assert!(sink.is_balanced());
}

#[test]
fn enter_scope_closes_what_the_body_left_open() {
    let (sink, outcome) = enter_scope(Sink::new(), None, ScopeKind::Run, "run", |mut sink, run| {
        sink.begin(Some(run), ScopeKind::Step, "forgotten").unwrap();
        (sink, Ok(Outcome::pass()))
    });
    assert_eq!(outcome, Err(Failure::ScopeProtocolViolation));
    assert!(sink.is_balanced());
    assert_eq!(sink.len(), 4);
}

#[test]
fn enter_scope_does_not_run_the_body_where_the_scope_may_not_open() {
    let (sink, outcome) = enter_scope(Sink::new(), None, ScopeKind::Step, "step", |mut sink, id| {
        sink.log(id, LogLevel::Info, "never").unwrap();
        (sink, Ok(Outcome::pass()))
    });
    assert_eq!(outcome, Err(Failure::ScopeProtocolViolation));
    assert_eq!(sink.len(), 0);
}

#[test]
fn check_nesting_accepts_what_a_sink_wrote() {
    let mut sink = Sink::new();
    let run = sink.begin(None, ScopeKind::Run, "run").unwrap();
    let step = sink.begin(Some(run), ScopeKind::Step, "step").unwrap();
    sink.log(step, LogLevel::Info, "x").unwrap();
    assert_eq!(check_nesting(sink.records()), Some(vec![run, step]));
    sink.end(step, Ok(Outcome::pass())).unwrap();
    sink.end(run, Ok(Outcome::pass())).unwrap();
    assert_eq!(check_nesting(sink.records()), Some(vec![]));
}

#[test]
fn check_nesting_refuses_streams_that_break_the_discipline() {
    // An end without a start.
    assert_eq!(check_nesting(&vec![end(0, Outcome::pass(), None)]), None);
    // A start whose id is not its position.
    assert_eq!(check_nesting(&vec![start(1, ScopeKind::Run, "run", None)]), None);
    // The parent closed before the child.
    assert_eq!(
        check_nesting(&vec![
            start(0, ScopeKind::Run, "run", None),
            start(1, ScopeKind::Step, "step", Some(0)),
            end(0, Outcome::pass(), None),
            end(1, Outcome::pass(), None),
        ]),
        None
    );
    // A scope closed twice.
    assert_eq!(
        check_nesting(&vec![
            start(0, ScopeKind::Run, "run", None),
            end(0, Outcome::pass(), None),
            end(0, Outcome::pass(), None),
        ]),
        None
    );
    // A record of a scope after its end.
    assert_eq!(
        check_nesting(&vec![
            start(0, ScopeKind::Run, "run", None),
            end(0, Outcome::pass(), None),
            log(0, LogLevel::Info, "late"),
        ]),
        None
    );
    // A step that names no parent.
    assert_eq!(
        check_nesting(&vec![
            start(0, ScopeKind::Run, "run", None),
            start(1, ScopeKind::Step, "step", None),
        ]),
        None
    );
    assert_eq!(check_nesting(&vec![]), Some(vec![]));
}
