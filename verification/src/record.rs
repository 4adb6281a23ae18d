//! The records of a run and the values they carry.

use vstd::prelude::*;

verus! {

/// The three levels of the run hierarchy, outermost first.
#[derive(Clone, Copy, Debug, PartialEq, Eq, Structural)]
pub enum ScopeKind {
    Run,
    Step,
    MeasurementSeries,
}

/// How far a scope got.
#[derive(Clone, Copy, Debug, PartialEq, Eq, Structural)]
pub enum TestStatus {
    Complete,
    Skip,
    Error,
}

/// How a scope that ran is classified.
#[derive(Clone, Copy, Debug, PartialEq, Eq, Structural)]
pub enum TestResult {
    Pass,
    Fail,
    NotApplicable,
}

/// What the body of a scope produced.
#[derive(Clone, Copy, Debug, PartialEq, Eq, Structural)]
pub struct Outcome {
    pub status: TestStatus,
    pub result: TestResult,
}

impl Outcome {
    /// The scope ran to its end and passed.
    pub open spec fn spec_pass() -> Outcome {
        Outcome { status: TestStatus::Complete, result: TestResult::Pass }
    }

    /// The scope was skipped.
    pub open spec fn spec_skip() -> Outcome {
        Outcome { status: TestStatus::Skip, result: TestResult::NotApplicable }
    }

    /// The scope was cut short by a failure.
    pub open spec fn spec_error() -> Outcome {
        Outcome { status: TestStatus::Error, result: TestResult::NotApplicable }
    }

    /// The outcome is one of the four a run may end with: complete and
    /// passed, complete and failed, skipped, or error.
    pub open spec fn is_final(self) -> bool {
        ||| self == Outcome { status: TestStatus::Complete, result: TestResult::Pass }
        ||| self == Outcome { status: TestStatus::Complete, result: TestResult::Fail }
        ||| self == Self::spec_skip()
        ||| self == Self::spec_error()
    }

    /// The scope ran to its end and passed.
    #[verifier::when_used_as_spec(spec_pass)]
    pub fn pass() -> (o: Outcome)
        ensures
            o == Self::spec_pass(),
    {
        Outcome { status: TestStatus::Complete, result: TestResult::Pass }
    }

    /// The scope was skipped.
    #[verifier::when_used_as_spec(spec_skip)]
    pub fn skip() -> (o: Outcome)
        ensures
            o == Self::spec_skip(),
    {
        Outcome { status: TestStatus::Skip, result: TestResult::NotApplicable }
    }

    /// The scope was cut short by a failure.
    #[verifier::when_used_as_spec(spec_error)]
    pub fn error() -> (o: Outcome)
        ensures
            o == Self::spec_error(),
    {
        Outcome { status: TestStatus::Error, result: TestResult::NotApplicable }
    }
}

/// The verdict of one check.
#[derive(Clone, Copy, Debug, PartialEq, Eq, Structural)]
pub enum Verdict {
    Pass,
    Fail,
}

/// Severity of a log record.
#[derive(Clone, Copy, Debug, PartialEq, Eq, Structural)]
pub enum LogLevel {
    Info,
    Error,
}

/// The failures that end a scope early.
#[derive(Clone, Copy, Debug, PartialEq, Eq, Structural)]
pub enum Failure {
    /// A state reading could not be retrieved.
    ProbeFailure,
    /// A scope was used against the nesting rules.
    ScopeProtocolViolation,
    /// The probe failed in the middle of a series; the samples taken so far stay.
    SamplingAbort,
    /// The background workload did not hand back a value.
    WorkloadJoinFailure,
}

/// Names a scope: the position of its start record in the stream.
#[derive(Clone, Copy, Debug, PartialEq, Eq, Structural)]
pub struct ScopeId(pub usize);

/// One named entry of a structured extension.
#[derive(Clone, Debug, PartialEq, Eq)]
pub struct Field {
    pub key: String,
    pub value: String,
}

/// A [`Field`] as contracts see it.
pub struct FieldView {
    pub key: Seq<char>,
    pub value: Seq<char>,
}

impl View for Field {
    type V = FieldView;

    open spec fn view(&self) -> FieldView {
        FieldView { key: self.key@, value: self.value@ }
    }
}

/// The views of a list of fields, in order.
pub open spec fn fields_view(fields: Seq<Field>) -> Seq<FieldView> {
    fields.map_values(|f: Field| f@)
}

/// What a record says.
#[derive(Clone, Debug, PartialEq, Eq)]
pub enum Payload {
    ScopeStart { kind: ScopeKind, name: String, parent: Option<ScopeId> },
    ScopeEnd { outcome: Outcome, cause: Option<Failure> },
    Log { level: LogLevel, text: String },
    Measurement { name: String, value: u32, unit: String, series: Option<ScopeId> },
    Diagnosis { id: String, verdict: Verdict },
    Extension { name: String, fields: Vec<Field> },
    FileRef { name: String, locator: String },
}

/// A [`Payload`] as contracts see it.
pub enum PayloadView {
    ScopeStart { kind: ScopeKind, name: Seq<char>, parent: Option<ScopeId> },
    ScopeEnd { outcome: Outcome, cause: Option<Failure> },
    Log { level: LogLevel, text: Seq<char> },
    Measurement { name: Seq<char>, value: u32, unit: Seq<char>, series: Option<ScopeId> },
    Diagnosis { id: Seq<char>, verdict: Verdict },
    Extension { name: Seq<char>, fields: Seq<FieldView> },
    FileRef { name: Seq<char>, locator: Seq<char> },
}

impl View for Payload {
    type V = PayloadView;

    open spec fn view(&self) -> PayloadView {
        match *self {
            Payload::ScopeStart { kind, name, parent } => PayloadView::ScopeStart {
                kind,
                name: name@,
                parent,
            },
            Payload::ScopeEnd { outcome, cause } => PayloadView::ScopeEnd { outcome, cause },
            Payload::Log { level, text } => PayloadView::Log { level, text: text@ },
            Payload::Measurement { name, value, unit, series } => PayloadView::Measurement {
                name: name@,
                value,
                unit: unit@,
                series,
            },
            Payload::Diagnosis { id, verdict } => PayloadView::Diagnosis { id: id@, verdict },
            Payload::Extension { name, fields } => PayloadView::Extension {
                name: name@,
                fields: fields_view(fields@),
            },
            Payload::FileRef { name, locator } => PayloadView::FileRef {
                name: name@,
                locator: locator@,
            },
        }
    }
}

/// One entry of the stream: what was said, and in which scope.
#[derive(Clone, Debug, PartialEq, Eq)]
pub struct Record {
    pub scope: ScopeId,
    pub payload: Payload,
}

/// A [`Record`] as contracts see it.
pub struct RecordView {
    pub scope: ScopeId,
    pub payload: PayloadView,
}

impl View for Record {
    type V = RecordView;

    open spec fn view(&self) -> RecordView {
        RecordView { scope: self.scope, payload: self.payload@ }
    }
}

impl RecordView {
    /// This record opens a scope.
    pub open spec fn is_start(self) -> bool {
        self.payload is ScopeStart
    }

    /// This record closes a scope.
    pub open spec fn is_end(self) -> bool {
        self.payload is ScopeEnd
    }

    /// This record closes the scope `id`.
    pub open spec fn ends(self, id: ScopeId) -> bool {
        self.is_end() && self.scope == id
    }
}

/// The views of a list of records, in order.
pub open spec fn records_view(records: Seq<Record>) -> Seq<RecordView> {
    records.map_values(|r: Record| r@)
}

} // verus!
