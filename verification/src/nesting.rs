//! The nesting discipline of the record stream, and what follows from it.
//!
//! A stream is read from its first record on while a stack of open scopes is
//! kept. A start record opens a child of the innermost open scope, an end
//! record closes the innermost open scope, and every other record belongs to
//! the innermost open scope. A stream that can be read this way to its end
//! is well nested; one that leaves no scope open is balanced.

use vstd::prelude::*;
use crate::record::{PayloadView, RecordView, ScopeId, ScopeKind};

verus! {

/// The scope on top of the stack, if any is open.
pub open spec fn innermost(open: Seq<ScopeId>) -> Option<ScopeId> {
    if open.len() == 0 {
        None
    } else {
        Some(open.last())
    }
}

/// The kind of scope that may be opened below `depth` open scopes: a run
/// at the root, a step in a run, a measurement series in a step.
pub open spec fn kind_at_depth(depth: nat) -> Option<ScopeKind> {
    if depth == 0 {
        Some(ScopeKind::Run)
    } else if depth == 1 {
        Some(ScopeKind::Step)
    } else if depth == 2 {
        Some(ScopeKind::MeasurementSeries)
    } else {
        None
    }
}

/// The parent that a start record names; `None` for any other record.
pub open spec fn parent_of(rec: RecordView) -> Option<ScopeId> {
    match rec.payload {
        PayloadView::ScopeStart { parent, .. } => parent,
        _ => None,
    }
}

/// The stack after `rec` is appended at position `pos` below the stack
/// `open`, or `None` if `rec` breaks the discipline there.
pub open spec fn advance(open: Seq<ScopeId>, rec: RecordView, pos: int) -> Option<Seq<ScopeId>> {
    match rec.payload {
        PayloadView::ScopeStart { kind, parent, .. } => {
            if rec.scope.0 == pos && parent == innermost(open) && kind_at_depth(open.len())
                == Some(kind) {
                Some(open.push(rec.scope))
            } else {
                None
            }
        },
        PayloadView::ScopeEnd { .. } => {
            if innermost(open) == Some(rec.scope) {
                Some(open.drop_last())
            } else {
                None
            }
        },
        _ => {
            if innermost(open) == Some(rec.scope) {
                Some(open)
            } else {
                None
            }
        },
    }
}

/// The stack of open scopes after the whole of `log`, outermost first, or
/// `None` if some record of `log` breaks the discipline.
pub open spec fn open_after(log: Seq<RecordView>) -> Option<Seq<ScopeId>>
    decreases log.len(),
{
    if log.len() == 0 {
        Some(Seq::empty())
    } else {
        match open_after(log.drop_last()) {
            Some(open) => advance(open, log.last(), log.len() - 1),
            None => None,
        }
    }
}

/// Every record of `log` keeps the discipline.
pub open spec fn well_nested(log: Seq<RecordView>) -> bool {
    open_after(log) is Some
}

/// `log` is well nested and leaves no scope open.
pub open spec fn balanced(log: Seq<RecordView>) -> bool {
    open_after(log) == Some(Seq::<ScopeId>::empty())
}

/// `new` is `old` with records appended: nothing was taken back or changed.
pub open spec fn extends(new: Seq<RecordView>, old: Seq<RecordView>) -> bool {
    old.len() <= new.len() && new.take(old.len() as int) == old
}

/// A stream extends itself.
pub proof fn lemma_extends_self(log: Seq<RecordView>)
    ensures
        extends(log, log),
{
    assert(log.take(log.len() as int) =~= log);
}

/// One more record extends what the stream before it extended.
pub proof fn lemma_extends_push(new: Seq<RecordView>, old: Seq<RecordView>, rec: RecordView)
    requires
        extends(new, old),
    ensures
        extends(new.push(rec), old),
{
    assert(new.push(rec).take(old.len() as int) =~= new.take(old.len() as int));
}

/// What extends an extension extends the stream that was extended.
pub proof fn lemma_extends_twice(
    newest: Seq<RecordView>,
    new: Seq<RecordView>,
    old: Seq<RecordView>,
)
    requires
        extends(newest, new),
        extends(new, old),
    ensures
        extends(newest, old),
{
    assert(newest.take(old.len() as int) =~= newest.take(new.len() as int).take(old.len() as int));
}

/// The stack after one more record, in terms of the stack before it.
pub proof fn lemma_open_after_push(log: Seq<RecordView>, rec: RecordView)
    ensures
        open_after(log.push(rec)) == match open_after(log) {
            Some(open) => advance(open, rec, log.len() as int),
            None => None,
        },
{
    assert(log.push(rec).drop_last() =~= log);
}

/// The open scopes are start records of `log`, each at the position its
/// id names, in the order they were opened, each the parent of the next.
pub open spec fn stack_sound(log: Seq<RecordView>, open: Seq<ScopeId>) -> bool {
    &&& open.len() <= 3
    &&& forall|k: int|
        0 <= k < open.len() ==> {
            &&& (#[trigger] open[k]).0 < log.len()
            &&& log[open[k].0 as int].is_start()
            &&& log[open[k].0 as int].scope == open[k]
            &&& parent_of(log[open[k].0 as int]) == if k == 0 {
                None
            } else {
                Some(open[k - 1])
            }
        }
    &&& forall|k1: int, k2: int|
        0 <= k1 < k2 < open.len() ==> (#[trigger] open[k1]).0 < (#[trigger] open[k2]).0
}

/// A start record sits where its id says; any other record comes after
/// the start of its scope.
pub open spec fn ids_sound(log: Seq<RecordView>) -> bool {
    forall|i: int|
        0 <= i < log.len() ==> if (#[trigger] log[i]).is_start() {
            log[i].scope.0 == i
        } else {
            log[i].scope.0 < i && log[log[i].scope.0 as int].is_start()
        }
}

/// No scope that has an end record is open, has a second end record, or
/// has a record of its own after its end.
pub open spec fn ends_sound(log: Seq<RecordView>, open: Seq<ScopeId>) -> bool {
    &&& forall|j: int, k: int|
        0 <= j < log.len() && (#[trigger] log[j]).is_end() && 0 <= k < open.len()
            ==> #[trigger] open[k] != log[j].scope
    &&& forall|j: int, k: int|
        0 <= j < k < log.len() && (#[trigger] log[j]).is_end() ==> (#[trigger] log[k]).scope
            != log[j].scope
}

/// Every scope that was started is open or has an end record after its start.
pub open spec fn starts_sound(log: Seq<RecordView>, open: Seq<ScopeId>) -> bool {
    forall|i: int|
        0 <= i < log.len() && (#[trigger] log[i]).is_start() ==> {
            ||| exists|k: int| 0 <= k < open.len() && #[trigger] open[k] == log[i].scope
            ||| exists|j: int| i < j < log.len() && (#[trigger] log[j]).ends(log[i].scope)
        }
}

/// The end record of a scope comes before the end record of its parent.
pub open spec fn children_first(log: Seq<RecordView>) -> bool {
    forall|j: int, k: int|
        0 <= j < log.len() && 0 <= k < log.len() && (#[trigger] log[j]).is_end() && (
        #[trigger] log[k]).is_end() && log[j].scope.0 < log.len() && parent_of(
            log[log[j].scope.0 as int],
        ) == Some(log[k].scope) ==> j < k
}

/// What holds of a well-nested stream and its stack of open scopes.
pub open spec fn nest_inv(log: Seq<RecordView>, open: Seq<ScopeId>) -> bool {
    &&& stack_sound(log, open)
    &&& ids_sound(log)
    &&& ends_sound(log, open)
    &&& starts_sound(log, open)
    &&& children_first(log)
}

/// One more record that keeps the discipline keeps [`nest_inv`].
proof fn lemma_advance_keeps_inv(log: Seq<RecordView>, open: Seq<ScopeId>, rec: RecordView)
    requires
        nest_inv(log, open),
        advance(open, rec, log.len() as int) is Some,
    ensures
        nest_inv(log.push(rec), advance(open, rec, log.len() as int).unwrap()),
{
    let n = log.len() as int;
    let log2 = log.push(rec);
    let open2 = advance(open, rec, n).unwrap();
    assert(forall|i: int| 0 <= i < n ==> log2[i] == log[i]);
    assert(log2[n] == rec);
    if rec.is_start() {
        assert(open2 == open.push(rec.scope));
        assert(forall|k: int| 0 <= k < open.len() ==> open2[k] == open[k]);
        assert(open2[open.len() as int] == rec.scope);
        assert(stack_sound(log2, open2));
        assert(ids_sound(log2));
        assert(ends_sound(log2, open2)) by {
            assert forall|j: int, k: int|
                0 <= j < log2.len() && (#[trigger] log2[j]).is_end() && 0 <= k < open2.len()
                implies #[trigger] open2[k] != log2[j].scope by {
                assert(j < n);
                assert(log[j].is_end());
                if k < open.len() {
                    assert(open[k] != log[j].scope);
                }
            }
            assert forall|j: int, k: int|
                0 <= j < k < log2.len() && (#[trigger] log2[j]).is_end() implies (
            #[trigger] log2[k]).scope != log2[j].scope by {
                assert(log[j].is_end());
                if k < n {
                    assert(log[k].scope != log[j].scope);
                }
            }
        }
        assert(starts_sound(log2, open2)) by {
            assert forall|i: int| 0 <= i < log2.len() && (#[trigger] log2[i]).is_start() implies ({
                ||| exists|k: int| 0 <= k < open2.len() && #[trigger] open2[k] == log2[i].scope
                ||| exists|j: int| i < j < log2.len() && (#[trigger] log2[j]).ends(log2[i].scope)
            }) by {
                if i == n {
                    assert(open2[open.len() as int] == log2[i].scope);
                } else {
                    assert(log[i].is_start());
                    if exists|k: int| 0 <= k < open.len() && #[trigger] open[k] == log[i].scope {
                        let k = choose|k: int|
                            0 <= k < open.len() && #[trigger] open[k] == log[i].scope;
                        assert(open2[k] == log2[i].scope);
                    } else {
                        let j = choose|j: int|
                            i < j < log.len() && (#[trigger] log[j]).ends(log[i].scope);
                        assert(log2[j].ends(log2[i].scope));
                    }
                }
            }
        }
        assert(children_first(log2)) by {
            assert forall|j: int, k: int|
                0 <= j < log2.len() && 0 <= k < log2.len() && (#[trigger] log2[j]).is_end() && (
                #[trigger] log2[k]).is_end() && log2[j].scope.0 < log2.len() && parent_of(
                    log2[log2[j].scope.0 as int],
                ) == Some(log2[k].scope) implies j < k by {
                assert(log[j].is_end() && log[k].is_end());
                assert(log[j].scope.0 < j);
            }
        }
    } else if rec.is_end() {
        let top = open.len() - 1;
        assert(open[top] == rec.scope);
        assert(open2 == open.drop_last());
        assert(forall|k: int| 0 <= k < open2.len() ==> open2[k] == open[k]);
        assert(stack_sound(log2, open2));
        assert(ids_sound(log2)) by {
            assert(log[open[top].0 as int].is_start());
        }
        assert(ends_sound(log2, open2)) by {
            assert forall|j: int, k: int|
                0 <= j < log2.len() && (#[trigger] log2[j]).is_end() && 0 <= k < open2.len()
                implies #[trigger] open2[k] != log2[j].scope by {
                if j < n {
                    assert(log[j].is_end());
                    assert(open[k] != log[j].scope);
                } else {
                    assert(open[k].0 < open[top].0);
                }
            }
            assert forall|j: int, k: int|
                0 <= j < k < log2.len() && (#[trigger] log2[j]).is_end() implies (
            #[trigger] log2[k]).scope != log2[j].scope by {
                assert(log[j].is_end());
                if k < n {
                    assert(log[k].scope != log[j].scope);
                } else {
                    assert(open[top] != log[j].scope);
                }
            }
        }
        assert(starts_sound(log2, open2)) by {
            assert forall|i: int| 0 <= i < log2.len() && (#[trigger] log2[i]).is_start() implies ({
                ||| exists|k: int| 0 <= k < open2.len() && #[trigger] open2[k] == log2[i].scope
                ||| exists|j: int| i < j < log2.len() && (#[trigger] log2[j]).ends(log2[i].scope)
            }) by {
                assert(i < n);
                assert(log[i].is_start());
                if exists|k: int| 0 <= k < open.len() && #[trigger] open[k] == log[i].scope {
                    let k = choose|k: int|
                        0 <= k < open.len() && #[trigger] open[k] == log[i].scope;
                    if k == top {
                        assert(log2[n].ends(log2[i].scope));
                    } else {
                        assert(open2[k] == log2[i].scope);
                    }
                } else {
                    let j = choose|j: int|
                        i < j < log.len() && (#[trigger] log[j]).ends(log[i].scope);
                    assert(log2[j].ends(log2[i].scope));
                }
            }
        }
        assert(children_first(log2)) by {
            assert forall|j: int, k: int|
                0 <= j < log2.len() && 0 <= k < log2.len() && (#[trigger] log2[j]).is_end() && (
                #[trigger] log2[k]).is_end() && log2[j].scope.0 < log2.len() && parent_of(
                    log2[log2[j].scope.0 as int],
                ) == Some(log2[k].scope) implies j < k by {
                if j < n && k < n {
                    assert(log[j].is_end() && log[k].is_end());
                    assert(log[j].scope.0 < j);
                } else if j == n && k < n {
                    // The parent of the scope that is closing is still open.
                    assert(log[k].is_end());
                    assert(parent_of(log[open[top].0 as int]) == Some(log[k].scope));
                    assert(top > 0);
                    assert(open[top - 1] != log[k].scope);
                }
            }
        }
    } else {
        let top = open.len() - 1;
        assert(open[top] == rec.scope);
        assert(open2 == open);
        assert(stack_sound(log2, open2));
        assert(ids_sound(log2)) by {
            assert(log[open[top].0 as int].is_start());
        }
        assert(ends_sound(log2, open2)) by {
            assert forall|j: int, k: int|
                0 <= j < k < log2.len() && (#[trigger] log2[j]).is_end() implies (
            #[trigger] log2[k]).scope != log2[j].scope by {
                assert(log[j].is_end());
                if k < n {
                    assert(log[k].scope != log[j].scope);
                } else {
                    assert(open[top] != log[j].scope);
                }
            }
        }
        assert(starts_sound(log2, open2)) by {
            assert forall|i: int| 0 <= i < log2.len() && (#[trigger] log2[i]).is_start() implies ({
                ||| exists|k: int| 0 <= k < open2.len() && #[trigger] open2[k] == log2[i].scope
                ||| exists|j: int| i < j < log2.len() && (#[trigger] log2[j]).ends(log2[i].scope)
            }) by {
                assert(log[i].is_start());
                if !(exists|k: int| 0 <= k < open.len() && #[trigger] open[k] == log[i].scope) {
                    let j = choose|j: int|
                        i < j < log.len() && (#[trigger] log[j]).ends(log[i].scope);
                    assert(log2[j].ends(log2[i].scope));
                }
            }
        }
        assert(children_first(log2)) by {
            assert forall|j: int, k: int|
                0 <= j < log2.len() && 0 <= k < log2.len() && (#[trigger] log2[j]).is_end() && (
                #[trigger] log2[k]).is_end() && log2[j].scope.0 < log2.len() && parent_of(
                    log2[log2[j].scope.0 as int],
                ) == Some(log2[k].scope) implies j < k by {
                assert(log[j].is_end() && log[k].is_end());
                assert(log[j].scope.0 < j);
            }
        }
    }
}

/// A well-nested stream and its stack satisfy [`nest_inv`].
pub proof fn lemma_well_nested_inv(log: Seq<RecordView>)
    requires
        well_nested(log),
    ensures
        nest_inv(log, open_after(log).unwrap()),
    decreases log.len(),
{
    if log.len() > 0 {
        let front = log.drop_last();
        lemma_well_nested_inv(front);
        lemma_advance_keeps_inv(front, open_after(front).unwrap(), log.last());
        assert(front.push(log.last()) =~= log);
    }
}

/// Every prefix of a well-nested stream is well nested: the discipline held
/// at every moment of the run.
pub proof fn law_prefix_well_nested(log: Seq<RecordView>, n: int)
    requires
        well_nested(log),
        0 <= n <= log.len(),
    ensures
        well_nested(log.take(n)),
    decreases log.len(),
{
    if n == log.len() {
        assert(log.take(n) =~= log);
    } else {
        law_prefix_well_nested(log.drop_last(), n);
        assert(log.drop_last().take(n) =~= log.take(n));
    }
}

/// In a balanced stream every start record has exactly one end record, and
/// that record comes after it.
pub proof fn law_start_has_one_end(log: Seq<RecordView>, i: int)
    requires
        balanced(log),
        0 <= i < log.len(),
        log[i].is_start(),
    ensures
        exists|j: int| i < j < log.len() && (#[trigger] log[j]).ends(log[i].scope),
        forall|j: int, k: int|
            0 <= j < log.len() && 0 <= k < log.len() && (#[trigger] log[j]).ends(log[i].scope) && (
            #[trigger] log[k]).ends(log[i].scope) ==> j == k,
{
    lemma_well_nested_inv(log);
    assert forall|j: int, k: int|
        0 <= j < log.len() && 0 <= k < log.len() && (#[trigger] log[j]).ends(log[i].scope) && (
        #[trigger] log[k]).ends(log[i].scope) implies j == k by {
        if j < k {
            assert(log[k].scope != log[j].scope);
        } else if k < j {
            assert(log[j].scope != log[k].scope);
        }
    }
}

/// In a well-nested stream every end record closes a scope that was started
/// before it, and no scope is closed twice.
pub proof fn law_end_has_one_start(log: Seq<RecordView>, j: int)
    requires
        well_nested(log),
        0 <= j < log.len(),
        log[j].is_end(),
    ensures
        log[j].scope.0 < j,
        log[log[j].scope.0 as int].is_start(),
        log[log[j].scope.0 as int].scope == log[j].scope,
        forall|i: int|
            0 <= i < log.len() && (#[trigger] log[i]).is_start() && log[i].scope == log[j].scope
                ==> i == log[j].scope.0,
        forall|k: int| 0 <= k < log.len() && (#[trigger] log[k]).ends(log[j].scope) ==> k == j,
{
    lemma_well_nested_inv(log);
    assert(!log[j].is_start());
    let s = log[j].scope.0 as int;
    assert(log[s].is_start());
    assert forall|k: int| 0 <= k < log.len() && (#[trigger] log[k]).ends(log[j].scope) implies k
        == j by {
        if j < k {
            assert(log[k].scope != log[j].scope);
        } else if k < j {
            assert(log[j].scope != log[k].scope);
        }
    }
}

/// In a well-nested stream the end record of a scope comes before the end
/// record of its parent.
pub proof fn law_child_ends_before_parent(log: Seq<RecordView>, child: int, j: int, k: int)
    requires
        well_nested(log),
        0 <= child < log.len(),
        log[child].is_start(),
        0 <= j < log.len(),
        log[j].ends(log[child].scope),
        0 <= k < log.len(),
        log[k].is_end(),
        parent_of(log[child]) == Some(log[k].scope),
    ensures
        child < j < k,
{
    lemma_well_nested_inv(log);
    assert(log[child].scope.0 == child);
    assert(!log[j].is_start());
}

/// In a well-nested stream what a scope emits lies between its start record
/// and its end record.
pub proof fn law_scope_encloses_its_records(log: Seq<RecordView>, j: int, e: int)
    requires
        well_nested(log),
        0 <= j < log.len(),
        0 <= e < log.len(),
        log[e].ends(log[j].scope),
    ensures
        log[j].scope.0 <= j <= e,
{
    lemma_well_nested_inv(log);
    if e < j {
        assert(log[j].scope != log[e].scope);
    }
}

/// A child scope is started while its parent is open: after the start of
/// the parent and before its end.
pub proof fn law_child_starts_inside_parent(log: Seq<RecordView>, child: int, k: int)
    requires
        well_nested(log),
        0 <= child < log.len(),
        log[child].is_start(),
        0 <= k < log.len(),
        log[k].is_end(),
        parent_of(log[child]) == Some(log[k].scope),
    ensures
        log[k].scope.0 < child < k,
        log[log[k].scope.0 as int].is_start(),
{
    law_end_has_one_start(log, k);
    // Up to and including the child's start record the stream is well nested,
    // and there the parent is the scope below the child on the stack.
    let upto = log.take(child + 1);
    law_prefix_well_nested(log, child + 1);
    assert(upto.drop_last() =~= log.take(child));
    assert(upto.last() == log[child]);
    let before = open_after(log.take(child)).unwrap();
    law_prefix_well_nested(log, child);
    lemma_well_nested_inv(log.take(child));
    assert(innermost(before) == Some(log[k].scope));
    assert(before[before.len() - 1].0 < child);
    if k <= child {
        assert(log.take(child)[k] == log[k]);
        assert(before[before.len() - 1] != log.take(child)[k].scope);
    }
}

} // verus!
