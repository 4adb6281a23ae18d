//! The scope manager: an append-only, ordered stream of records that keeps
//! the nesting discipline whatever its callers do.
//!
//! A scope is entered with [`Sink::begin`] and left with [`Sink::end`], which
//! takes what the body of the scope produced, a result or a failure, and
//! writes it into the end record. A call that would break the discipline is
//! answered with [`Failure::ScopeProtocolViolation`] and leaves no record.

use vstd::prelude::*;
use crate::nesting::{
    advance, balanced, extends, innermost, kind_at_depth, law_prefix_well_nested,
    lemma_extends_push, lemma_extends_self, lemma_open_after_push, lemma_well_nested_inv,
    open_after, well_nested,
};
use crate::record::{
    Failure, Field, LogLevel, Outcome, Payload, PayloadView, Record, RecordView, ScopeId,
    ScopeKind, Verdict, fields_view, records_view,
};

verus! {

/// The start record of the scope `id`.
pub open spec fn start_record(
    id: ScopeId,
    kind: ScopeKind,
    name: Seq<char>,
    parent: Option<ScopeId>,
) -> RecordView {
    RecordView { scope: id, payload: PayloadView::ScopeStart { kind, name, parent } }
}

/// The end record of the scope `id` whose body produced `result`: the
/// outcome as returned, or the error outcome together with the failure.
pub open spec fn end_record(id: ScopeId, result: Result<Outcome, Failure>) -> RecordView {
    match result {
        Ok(outcome) => RecordView {
            scope: id,
            payload: PayloadView::ScopeEnd { outcome, cause: None },
        },
        Err(failure) => RecordView {
            scope: id,
            payload: PayloadView::ScopeEnd { outcome: Outcome::spec_error(), cause: Some(failure) },
        },
    }
}

/// A scope of `kind` may be opened under `parent` while `open` is the stack.
pub open spec fn may_begin(open: Seq<ScopeId>, parent: Option<ScopeId>, kind: ScopeKind) -> bool {
    parent == innermost(open) && kind_at_depth(open.len()) == Some(kind)
}

/// The payload is neither a start nor an end.
pub open spec fn is_emission(payload: PayloadView) -> bool {
    !(payload is ScopeStart) && !(payload is ScopeEnd)
}

/// How many scopes are open below `scope`, if `scope` is open.
pub open spec fn depth_of(open: Seq<ScopeId>, scope: ScopeId) -> Option<nat>
    decreases open.len(),
{
    if open.len() == 0 {
        None
    } else if open.last() == scope {
        Some((open.len() - 1) as nat)
    } else {
        depth_of(open.drop_last(), scope)
    }
}

/// `log` followed by the end records, innermost first, of the scopes of
/// `open` above `depth`, each closed as an error caused by `cause`.
pub open spec fn close_down_to(
    log: Seq<RecordView>,
    open: Seq<ScopeId>,
    depth: nat,
    cause: Failure,
) -> Seq<RecordView>
    decreases open.len(),
{
    if open.len() <= depth {
        log
    } else {
        close_down_to(log.push(end_record(open.last(), Err(cause))), open.drop_last(), depth, cause)
    }
}

/// The stream after an attempt to open a scope, and the id it got.
pub open spec fn spec_begin(
    log: Seq<RecordView>,
    parent: Option<ScopeId>,
    kind: ScopeKind,
    name: Seq<char>,
) -> (Seq<RecordView>, Result<ScopeId, Failure>) {
    if may_begin(open_after(log).unwrap(), parent, kind) {
        let id = ScopeId(log.len() as usize);
        (log.push(start_record(id, kind, name, parent)), Ok(id))
    } else {
        (log, Err(Failure::ScopeProtocolViolation))
    }
}

/// The stream after an attempt to emit `payload` in `scope`.
pub open spec fn spec_emit(log: Seq<RecordView>, scope: ScopeId, payload: PayloadView) -> (
    Seq<RecordView>,
    Result<(), Failure>,
) {
    if is_emission(payload) && innermost(open_after(log).unwrap()) == Some(scope) {
        (log.push(RecordView { scope, payload }), Ok(()))
    } else {
        (log, Err(Failure::ScopeProtocolViolation))
    }
}

/// The stream after `scope` is left with `result`, and what is handed on.
///
/// If `scope` is the innermost open scope, its end record carries `result`,
/// which is handed on unchanged. If scopes opened inside it are still open,
/// they are closed first, innermost first, and `scope` after them, all as
/// protocol violations. If `scope` is not open, nothing is written.
pub open spec fn spec_end(
    log: Seq<RecordView>,
    scope: ScopeId,
    result: Result<Outcome, Failure>,
) -> (Seq<RecordView>, Result<Outcome, Failure>) {
    let open = open_after(log).unwrap();
    match depth_of(open, scope) {
        None => (log, Err(Failure::ScopeProtocolViolation)),
        Some(depth) => {
            let handed_on = if depth + 1 == open.len() {
                result
            } else {
                Err(Failure::ScopeProtocolViolation)
            };
            (
                close_down_to(log, open, depth + 1, Failure::ScopeProtocolViolation).push(
                    end_record(scope, handed_on),
                ),
                handed_on,
            )
        },
    }
}

/// The ordered stream of records, with the stack of scopes that are open.
pub struct Sink {
    records: Vec<Record>,
    open: Vec<ScopeId>,
}

impl View for Sink {
    type V = Seq<RecordView>;

    closed spec fn view(&self) -> Seq<RecordView> {
        records_view(self.records@)
    }
}

impl Sink {
    /// The stack that the sink keeps beside its records.
    pub closed spec fn stack(&self) -> Seq<ScopeId> {
        self.open@
    }

    /// The stream is well nested and the stack kept beside it is the stack
    /// of its open scopes.
    pub open spec fn wf(&self) -> bool {
        open_after(self@) == Some(self.stack())
    }

    /// The scopes that are open, outermost first.
    pub open spec fn open_scopes(&self) -> Seq<ScopeId> {
        open_after(self@).unwrap()
    }

    /// An empty stream.
    pub fn new() -> (sink: Sink)
        ensures
            sink.wf(),
            sink@ == Seq::<RecordView>::empty(),
    {
        let sink = Sink { records: Vec::new(), open: Vec::new() };
        assert(sink@ =~= Seq::<RecordView>::empty());
        sink
    }

    /// The records emitted so far, oldest first.
    pub fn records(&self) -> (records: &Vec<Record>)
        ensures
            records_view(records@) == self@,
    {
        &self.records
    }

    /// The number of records emitted so far.
    pub fn len(&self) -> (n: usize)
        ensures
            n == self@.len(),
    {
        self.records.len()
    }

    /// The innermost open scope.
    pub fn innermost(&self) -> (top: Option<ScopeId>)
        requires
            self.wf(),
        ensures
            top == innermost(self.open_scopes()),
    {
        let depth = self.open.len();
        if depth == 0 {
            None
        } else {
            Some(self.open[depth - 1])
        }
    }

    /// The number of open scopes; never more than three.
    pub fn depth(&self) -> (depth: usize)
        requires
            self.wf(),
        ensures
            depth == self.open_scopes().len(),
            depth <= 3,
    {
        proof {
            lemma_well_nested_inv(self@);
        }
        self.open.len()
    }

    /// Whether no scope is open.
    pub fn is_balanced(&self) -> (b: bool)
        requires
            self.wf(),
        ensures
            b == balanced(self@),
    {
        let b = self.open.len() == 0;
        proof {
            if b {
                assert(self.stack() =~= Seq::<ScopeId>::empty());
            }
        }
        b
    }

    /// Whether `scope` is open, and below how many scopes.
    pub fn position(&self, scope: ScopeId) -> (at: Option<usize>)
        requires
            self.wf(),
        ensures
            match at {
                Some(depth) => depth_of(self.open_scopes(), scope) == Some(depth as nat),
                None => depth_of(self.open_scopes(), scope) is None,
            },
    {
        let mut k: usize = self.open.len();
        proof {
            assert(self.open@.take(k as int) =~= self.open@);
        }
        while k > 0
            invariant
                self.wf(),
                k <= self.open.len(),
                depth_of(self.open@, scope) == depth_of(self.open@.take(k as int), scope),
            decreases k,
        {
            proof {
                assert(self.open@.take(k as int).drop_last() =~= self.open@.take(k as int - 1));
            }
            if self.open[k - 1] == scope {
                return Some(k - 1);
            }
            k = k - 1;
        }
        None
    }

    fn append(&mut self, record: Record)
        ensures
            final(self)@ == old(self)@.push(record@),
            final(self).stack() == old(self).stack(),
            extends(final(self)@, old(self)@),
            open_after(final(self)@) == match open_after(old(self)@) {
                Some(open) => advance(open, record@, old(self)@.len() as int),
                None => None,
            },
    {
        proof {
            lemma_open_after_push(self@, record@);
            lemma_extends_self(self@);
            lemma_extends_push(self@, self@, record@);
            assert(self.records@.push(record).map_values(|r: Record| r@) =~= self@.push(record@));
        }
        self.records.push(record);
    }

    /// Opens a scope of `kind` as a child of `parent`, which must be the
    /// innermost open scope (`None` for a run, at the root), and returns
    /// its id. A run holds steps and a step holds measurement series; any
    /// other request is a protocol violation and leaves no record.
    pub fn begin(&mut self, parent: Option<ScopeId>, kind: ScopeKind, name: &str) -> (id: Result<
        ScopeId,
        Failure,
    >)
        requires
            old(self).wf(),
        ensures
            final(self).wf(),
            final(self)@ == spec_begin(old(self)@, parent, kind, name@).0,
            id == spec_begin(old(self)@, parent, kind, name@).1,
            id is Ok <==> may_begin(old(self).open_scopes(), parent, kind),
            extends(final(self)@, old(self)@),
            id is Ok ==> id == Ok::<ScopeId, Failure>(ScopeId(old(self)@.len() as usize))
                && old(self)@.len() == (old(self)@.len() as usize) && final(self).open_scopes()
                == old(self).open_scopes().push(ScopeId(old(self)@.len() as usize)),
    {
        let depth = self.open.len();
        let fits = match kind {
            ScopeKind::Run => depth == 0,
            ScopeKind::Step => depth == 1,
            ScopeKind::MeasurementSeries => depth == 2,
        };
        let top = self.innermost();
        let under_parent = match (parent, top) {
            (None, None) => true,
            (Some(p), Some(t)) => p == t,
            _ => false,
        };
        proof {
            lemma_extends_self(self@);
        }
        if fits && under_parent {
            let id = ScopeId(self.records.len());
            self.append(
                Record {
                    scope: id,
                    payload: Payload::ScopeStart { kind, name: name.to_owned(), parent },
                },
            );
            self.open.push(id);
            Ok(id)
        } else {
            Err(Failure::ScopeProtocolViolation)
        }
    }

    /// Emits `payload` in `scope`, which must be the innermost open scope.
    /// Start and end records are written by [`Sink::begin`] and
    /// [`Sink::end`] alone; handing one in is a protocol violation, as is
    /// naming a scope that is not the innermost open one.
    pub fn emit(&mut self, scope: ScopeId, payload: Payload) -> (done: Result<(), Failure>)
        requires
            old(self).wf(),
        ensures
            final(self).wf(),
            final(self)@ == spec_emit(old(self)@, scope, payload@).0,
            done == spec_emit(old(self)@, scope, payload@).1,
            done is Ok <==> is_emission(payload@) && innermost(old(self).open_scopes()) == Some(
                scope,
            ),
            final(self).open_scopes() == old(self).open_scopes(),
            extends(final(self)@, old(self)@),
    {
        let plain = match &payload {
            Payload::ScopeStart { .. } => false,
            Payload::ScopeEnd { .. } => false,
            _ => true,
        };
        let top = self.innermost();
        let inside = match top {
            Some(t) => t == scope,
            None => false,
        };
        proof {
            lemma_extends_self(self@);
        }
        if plain && inside {
            self.append(Record { scope, payload });
            Ok(())
        } else {
            Err(Failure::ScopeProtocolViolation)
        }
    }

    /// Emits a log line in `scope`.
    pub fn log(&mut self, scope: ScopeId, level: LogLevel, text: &str) -> (done: Result<
        (),
        Failure,
    >)
        requires
            old(self).wf(),
        ensures
            final(self).wf(),
            final(self)@ == spec_emit(old(self)@, scope, PayloadView::Log { level, text: text@ }).0,
            done is Ok <==> innermost(old(self).open_scopes()) == Some(scope),
            done is Err ==> done == Err::<(), Failure>(Failure::ScopeProtocolViolation),
            final(self).open_scopes() == old(self).open_scopes(),
            extends(final(self)@, old(self)@),
    {
        self.emit(scope, Payload::Log { level, text: text.to_owned() })
    }

    /// Emits a measurement in `scope`. Inside a measurement series the
    /// record names that series; in a run or a step it names none.
    pub fn add_measurement(&mut self, scope: ScopeId, name: &str, value: u32, unit: &str) -> (done:
        Result<(), Failure>)
        requires
            old(self).wf(),
        ensures
            final(self).wf(),
            final(self)@ == spec_emit(
                old(self)@,
                scope,
                PayloadView::Measurement {
                    name: name@,
                    value,
                    unit: unit@,
                    series: series_of(old(self).open_scopes()),
                },
            ).0,
            done is Ok <==> innermost(old(self).open_scopes()) == Some(scope),
            done is Err ==> done == Err::<(), Failure>(Failure::ScopeProtocolViolation),
            final(self).open_scopes() == old(self).open_scopes(),
            extends(final(self)@, old(self)@),
    {
        let series = if self.open.len() == 3 {
            Some(self.open[2])
        } else {
            None
        };
        self.emit(
            scope,
            Payload::Measurement { name: name.to_owned(), value, unit: unit.to_owned(), series },
        )
    }

    /// Emits the verdict of the check `id` in `scope`.
    pub fn add_diagnosis(&mut self, scope: ScopeId, id: &str, verdict: Verdict) -> (done: Result<
        (),
        Failure,
    >)
        requires
            old(self).wf(),
        ensures
            final(self).wf(),
            final(self)@ == spec_emit(
                old(self)@,
                scope,
                PayloadView::Diagnosis { id: id@, verdict },
            ).0,
            done is Ok <==> innermost(old(self).open_scopes()) == Some(scope),
            done is Err ==> done == Err::<(), Failure>(Failure::ScopeProtocolViolation),
            final(self).open_scopes() == old(self).open_scopes(),
            extends(final(self)@, old(self)@),
    {
        self.emit(scope, Payload::Diagnosis { id: id.to_owned(), verdict })
    }

    /// Emits a structured extension in `scope`.
    pub fn add_extension(&mut self, scope: ScopeId, name: &str, fields: Vec<Field>) -> (done:
        Result<(), Failure>)
        requires
            old(self).wf(),
        ensures
            final(self).wf(),
            final(self)@ == spec_emit(
                old(self)@,
                scope,
                PayloadView::Extension { name: name@, fields: fields_view(fields@) },
            ).0,
            done is Ok <==> innermost(old(self).open_scopes()) == Some(scope),
            done is Err ==> done == Err::<(), Failure>(Failure::ScopeProtocolViolation),
            final(self).open_scopes() == old(self).open_scopes(),
            extends(final(self)@, old(self)@),
    {
        self.emit(scope, Payload::Extension { name: name.to_owned(), fields })
    }

    /// Emits a reference to the stored artifact `name` in `scope`.
    pub fn add_file(&mut self, scope: ScopeId, name: &str, locator: &str) -> (done: Result<
        (),
        Failure,
    >)
        requires
            old(self).wf(),
        ensures
            final(self).wf(),
            final(self)@ == spec_emit(
                old(self)@,
                scope,
                PayloadView::FileRef { name: name@, locator: locator@ },
            ).0,
            done is Ok <==> innermost(old(self).open_scopes()) == Some(scope),
            done is Err ==> done == Err::<(), Failure>(Failure::ScopeProtocolViolation),
            final(self).open_scopes() == old(self).open_scopes(),
            extends(final(self)@, old(self)@),
    {
        self.emit(scope, Payload::FileRef { name: name.to_owned(), locator: locator.to_owned() })
    }

    /// Closes the scopes above `depth`, innermost first, each as an error
    /// caused by `cause`.
    pub fn unwind(&mut self, depth: usize, cause: Failure)
        requires
            old(self).wf(),
        ensures
            final(self).wf(),
            final(self)@ == close_down_to(old(self)@, old(self).open_scopes(), depth as nat, cause),
            extends(final(self)@, old(self)@),
            final(self).open_scopes() == if old(self).open_scopes().len() <= depth {
                old(self).open_scopes()
            } else {
                old(self).open_scopes().take(depth as int)
            },
    {
        proof {
            lemma_extends_self(self@);
        }
        while self.open.len() > depth
            invariant
                self.wf(),
                extends(self@, old(self)@),
                close_down_to(self@, self.open_scopes(), depth as nat, cause) == close_down_to(
                    old(self)@,
                    old(self).open_scopes(),
                    depth as nat,
                    cause,
                ),
                self.open_scopes().len() <= old(self).open_scopes().len(),
                old(self).open_scopes().len() > depth ==> self.open_scopes().len() >= depth
                    && self.open_scopes() =~= old(self).open_scopes().take(
                    self.open_scopes().len() as int,
                ),
                old(self).open_scopes().len() <= depth ==> self.open_scopes()
                    == old(self).open_scopes(),
            decreases self.open.len(),
        {
            let ghost before = self.open_scopes();
            let ghost so_far = self@;
            let top = self.open[self.open.len() - 1];
            self.append(
                Record {
                    scope: top,
                    payload: Payload::ScopeEnd { outcome: Outcome::error(), cause: Some(cause) },
                },
            );
            self.open.pop();
            proof {
                assert(self.open_scopes() == before.drop_last());
                assert(before.drop_last() =~= old(self).open_scopes().take(before.len() - 1));
                lemma_extends_push(so_far, old(self)@, self@.last());
            }
        }
    }

    /// Leaves `scope` with what its body produced.
    ///
    /// The end record carries the outcome that the body returned, or the
    /// error outcome and the failure that the body raised, and the same
    /// result is handed on to the caller. Scopes that were opened inside
    /// `scope` and are still open are closed first, innermost first, and
    /// `scope` after them, all as protocol violations. If `scope` is not
    /// open, nothing is written and the call fails.
    pub fn end(&mut self, scope: ScopeId, result: Result<Outcome, Failure>) -> (handed_on: Result<
        Outcome,
        Failure,
    >)
        requires
            old(self).wf(),
        ensures
            final(self).wf(),
            final(self)@ == spec_end(old(self)@, scope, result).0,
            handed_on == spec_end(old(self)@, scope, result).1,
            innermost(old(self).open_scopes()) == Some(scope) ==> handed_on == result
                && final(self)@ == old(self)@.push(end_record(scope, result))
                && final(self).open_scopes() == old(self).open_scopes().drop_last(),
            match depth_of(old(self).open_scopes(), scope) {
                Some(depth) => final(self).open_scopes() == old(self).open_scopes().take(
                    depth as int,
                ),
                None => final(self)@ == old(self)@ && handed_on == Err::<Outcome, Failure>(
                    Failure::ScopeProtocolViolation,
                ),
            },
            depth_of(final(self).open_scopes(), scope) is None,
            extends(final(self)@, old(self)@),
    {
        proof {
            lemma_extends_self(self@);
            lemma_depth_of_top(self.open_scopes(), scope);
            lemma_depth_of_sound(self.open_scopes(), scope);
            lemma_closed_below(self@, scope);
        }
        match self.position(scope) {
            None => Err(Failure::ScopeProtocolViolation),
            Some(depth) => {
                assert(depth < self.open.len());
                let handed_on = if depth + 1 == self.open.len() {
                    result
                } else {
                    Err(Failure::ScopeProtocolViolation)
                };
                self.unwind(depth + 1, Failure::ScopeProtocolViolation);
                let payload = match handed_on {
                    Ok(outcome) => Payload::ScopeEnd { outcome, cause: None },
                    Err(failure) => Payload::ScopeEnd {
                        outcome: Outcome::error(),
                        cause: Some(failure),
                    },
                };
                let ghost before = self.open_scopes();
                let ghost unwound = self@;
                self.append(Record { scope, payload });
                self.open.pop();
                proof {
                    assert(before.drop_last() =~= old(self).open_scopes().take(depth as int));
                    lemma_extends_push(unwound, old(self)@, self@.last());
                }
                handed_on
            },
        }
    }
}

/// The measurement series that is open, if the stack reaches that deep.
pub open spec fn series_of(open: Seq<ScopeId>) -> Option<ScopeId> {
    if open.len() == 3 {
        Some(open[2])
    } else {
        None
    }
}

/// If `scope` is open at some depth, it is the entry of the stack there.
pub proof fn lemma_depth_of_sound(open: Seq<ScopeId>, scope: ScopeId)
    ensures
        match depth_of(open, scope) {
            Some(depth) => depth < open.len() && open[depth as int] == scope,
            None => forall|k: int| 0 <= k < open.len() ==> open[k] != scope,
        },
    decreases open.len(),
{
    if open.len() > 0 && open.last() != scope {
        let front = open.drop_last();
        lemma_depth_of_sound(front, scope);
        if depth_of(open, scope) is None {
            assert forall|k: int| 0 <= k < open.len() implies open[k] != scope by {
                if k < front.len() {
                    assert(front[k] == open[k]);
                }
            }
        }
    }
}

/// An open scope is not open a second time further down the stack.
pub proof fn lemma_closed_below(log: Seq<RecordView>, scope: ScopeId)
    requires
        well_nested(log),
    ensures
        match depth_of(open_after(log).unwrap(), scope) {
            Some(depth) => depth_of(open_after(log).unwrap().take(depth as int), scope) is None,
            None => true,
        },
{
    let open = open_after(log).unwrap();
    lemma_well_nested_inv(log);
    lemma_depth_of_sound(open, scope);
    if let Some(depth) = depth_of(open, scope) {
        let below = open.take(depth as int);
        lemma_depth_of_sound(below, scope);
        if let Some(deeper) = depth_of(below, scope) {
            assert(below[deeper as int] == open[deeper as int]);
            assert(open[deeper as int].0 < open[depth as int].0);
        }
    }
}

/// The innermost open scope is found on top of the stack.
pub proof fn lemma_depth_of_top(open: Seq<ScopeId>, scope: ScopeId)
    ensures
        innermost(open) == Some(scope) ==> depth_of(open, scope) == Some((open.len() - 1) as nat),
{
}

/// Runs `body` inside a new scope and always closes that scope.
///
/// The start record is written before `body` runs. `body` receives the sink
/// and the id of its scope, and hands the sink back with its result or its
/// failure, which [`Sink::end`] writes into the end record and hands on.
/// However `body` ends, its scope is not open when this function returns.
/// Where the scope may not be opened under `parent`, `body` is not run and
/// nothing is written.
pub fn enter_scope<B>(
    sink: Sink,
    parent: Option<ScopeId>,
    kind: ScopeKind,
    name: &str,
    body: B,
) -> (out: (Sink, Result<Outcome, Failure>)) where
    B: FnOnce(Sink, ScopeId) -> (Sink, Result<Outcome, Failure>),

    requires
        sink.wf(),
        forall|inner: Sink, id: ScopeId|
            inner.wf() && inner@ == spec_begin(sink@, parent, kind, name@).0 && spec_begin(
                sink@,
                parent,
                kind,
                name@,
            ).1 == Ok::<ScopeId, Failure>(id) ==> call_requires(body, (inner, id)),
        forall|inner: Sink, id: ScopeId, mid: (Sink, Result<Outcome, Failure>)|
            call_ensures(body, (inner, id), mid) ==> mid.0.wf(),
    ensures
        out.0.wf(),
        !may_begin(sink.open_scopes(), parent, kind) ==> out.0@ == sink@ && out.1 == Err::<
            Outcome,
            Failure,
        >(Failure::ScopeProtocolViolation),
        may_begin(sink.open_scopes(), parent, kind) ==> depth_of(
            out.0.open_scopes(),
            ScopeId(sink@.len() as usize),
        ) is None,
        may_begin(sink.open_scopes(), parent, kind) ==> exists|
            inner: Sink,
            mid: (Sink, Result<Outcome, Failure>),
        |
            {
                &&& inner@ == sink@.push(
                    start_record(ScopeId(sink@.len() as usize), kind, name@, parent),
                )
                &&& #[trigger] call_ensures(body, (inner, ScopeId(sink@.len() as usize)), mid)
                &&& out.0@ == spec_end(mid.0@, ScopeId(sink@.len() as usize), mid.1).0
                &&& out.1 == spec_end(mid.0@, ScopeId(sink@.len() as usize), mid.1).1
            },
{
    let mut sink = sink;
    let ghost before = sink@;
    match sink.begin(parent, kind, name) {
        Err(failure) => (sink, Err(failure)),
        Ok(id) => {
            let ghost inner = sink;
            let (mut sink, result) = body(sink, id);
            let ghost mid = (sink, result);
            let handed_on = sink.end(id, result);
            proof {
                assert(inner@ == before.push(start_record(id, kind, name@, parent)));
                assert(call_ensures(body, (inner, id), mid));
            }
            (sink, handed_on)
        },
    }
}

/// Reads `records` against the nesting discipline: the stack of scopes
/// that they leave open, or `None` if some record breaks the discipline.
pub fn check_nesting(records: &Vec<Record>) -> (open: Option<Vec<ScopeId>>)
    ensures
        match open {
            Some(stack) => open_after(records_view(records@)) == Some(stack@),
            None => !well_nested(records_view(records@)),
        },
{
    let ghost log = records_view(records@);
    let mut stack: Vec<ScopeId> = Vec::new();
    let mut i: usize = 0;
    proof {
        assert(log.take(0) =~= Seq::<RecordView>::empty());
    }
    while i < records.len()
        invariant
            i <= records.len(),
            log == records_view(records@),
            open_after(log.take(i as int)) == Some(stack@),
        decreases records.len() - i,
    {
        let record = &records[i];
        let depth = stack.len();
        let kept = match &record.payload {
            Payload::ScopeStart { kind, parent, .. } => {
                let fits = match kind {
                    ScopeKind::Run => depth == 0,
                    ScopeKind::Step => depth == 1,
                    ScopeKind::MeasurementSeries => depth == 2,
                };
                let under_parent = match parent {
                    None => depth == 0,
                    Some(p) => depth > 0 && stack[depth - 1] == *p,
                };
                if fits && under_parent && record.scope.0 == i {
                    stack.push(record.scope);
                    true
                } else {
                    false
                }
            },
            Payload::ScopeEnd { .. } => {
                if depth > 0 && stack[depth - 1] == record.scope {
                    stack.pop();
                    true
                } else {
                    false
                }
            },
            _ => depth > 0 && stack[depth - 1] == record.scope,
        };
        proof {
            assert(log.take(i + 1).drop_last() =~= log.take(i as int));
            assert(log.take(i + 1).last() == records[i as int]@);
            if !kept {
                assert(!well_nested(log.take(i + 1)));
                if well_nested(log) {
                    law_prefix_well_nested(log, i + 1);
                }
            }
        }
        if !kept {
            return None;
        }
        i = i + 1;
    }
    proof {
        assert(log.take(i as int) =~= log);
    }
    Some(stack)
}

} // verus!
