//! The laws of the scheduler: what every operation keeps, how the status of
//! a transaction may move, and what the dependency graph promises.
use vstd::prelude::*;
use crate::types::{TxAccess, is_done, FinishExecFlags, IncarnationStatus, NextTask, Task, TxStatus, TxVersion};
use crate::scheduler::{
    finish_execution_model, finish_validation_model, first_blocking_parent,
    lemma_first_blocking_parent, lemma_try_execute_model, next_task_model, pop_default,
    pop_priority, resume_children, set_ready_status_model, try_execute_model,
    try_execute_popped, try_validate_model, try_validation_abort_model, SchedulerView,
    initial_view, roots_split,
};
use crate::graph::{
    children_upto, critical_children_upto, critical_parent, critical_scan, gas_of, keys_of,
    last_toucher, lemma_children_upto, lemma_critical_children_upto, lemma_critical_scan,
    lemma_last_toucher, lemma_parent_scan, lemma_path_costs_prefix, lemma_roots_upto,
    parent_scan, parents_of, path_costs, roots_upto, stored_parents,
};

verus! {

broadcast use {
    vstd::seq_lib::lemma_seq_contains_after_push,
    vstd::seq_lib::lemma_seq_empty_contains_nothing,
};

/// An operation of the scheduler, with its arguments.
pub enum SchedulerOp {
    Abort,
    TryExecute(usize),
    TryValidate,
    NextTask,
    SetReadyStatus(usize),
    TryValidationAbort(usize),
    FinishValidation(usize, bool),
    FinishExecution(TxVersion, FinishExecFlags),
}

/// Whether `op` may be applied to `s`: the precondition of its method.
pub open spec fn op_allowed(s: SchedulerView, op: SchedulerOp) -> bool {
    &&& s.wf()
    &&& match op {
        SchedulerOp::Abort => true,
        SchedulerOp::TryExecute(_) => s.has_room(1),
        SchedulerOp::TryValidate => true,
        SchedulerOp::NextTask => s.aborted || s.has_room(2),
        SchedulerOp::SetReadyStatus(tx) => tx < s.block_size && s.status_of(tx as int)
            == IncarnationStatus::Aborting && s.statuses[tx as int].incarnation < usize::MAX,
        SchedulerOp::TryValidationAbort(tx) => tx < s.block_size,
        SchedulerOp::FinishValidation(tx, aborted) => tx < s.block_size && (aborted ==> s.status_of(tx as int)
            == IncarnationStatus::Aborting && s.statuses[tx as int].incarnation < usize::MAX),
        SchedulerOp::FinishExecution(v, _) => v.tx_idx < s.block_size && s.status_of(v.tx_idx as int)
            == IncarnationStatus::Executing && s.statuses[v.tx_idx as int].incarnation == v.tx_incarnation
            && s.has_room(s.critical_children[v.tx_idx as int].len()),
    }
}

/// The state after `op`.
pub open spec fn apply_op(s: SchedulerView, op: SchedulerOp) -> SchedulerView {
    match op {
        SchedulerOp::Abort => SchedulerView { aborted: true, ..s },
        SchedulerOp::TryExecute(tx) => try_execute_model(s, tx).0,
        SchedulerOp::TryValidate => try_validate_model(s).0,
        SchedulerOp::NextTask => next_task_model(s).0,
        SchedulerOp::SetReadyStatus(tx) => set_ready_status_model(s, tx),
        SchedulerOp::TryValidationAbort(tx) => try_validation_abort_model(s, tx).0,
        SchedulerOp::FinishValidation(tx, aborted) => finish_validation_model(s, tx, aborted),
        SchedulerOp::FinishExecution(v, flags) => finish_execution_model(s, v.tx_idx, flags).0,
    }
}

/// The moves a transaction's status may make in one operation: stay; start
/// executing; finish executing; be validated after executing; be aborted
/// after executing; become ready again, one incarnation later, after an abort.
pub open spec fn status_step(a: TxStatus, b: TxStatus) -> bool {
    ||| a == b
    ||| a.status == IncarnationStatus::ReadyToExecute && b == (TxStatus { incarnation: a.incarnation, status: IncarnationStatus::Executing })
    ||| a.status == IncarnationStatus::Executing && b.incarnation == a.incarnation && is_done(b.status)
    ||| a.status == IncarnationStatus::Executed && b == (TxStatus { incarnation: a.incarnation, status: IncarnationStatus::Validated })
    ||| is_done(a.status) && b == (TxStatus { incarnation: a.incarnation, status: IncarnationStatus::Aborting })
    ||| a.status == IncarnationStatus::Aborting && b.status == IncarnationStatus::ReadyToExecute && b.incarnation == a.incarnation + 1
}

/// A status that stays, or moves from ready to executing.
pub open spec fn started_or_kept(a: TxStatus, b: TxStatus) -> bool {
    a == b || (a.status == IncarnationStatus::ReadyToExecute && b == (TxStatus { incarnation: a.incarnation, status: IncarnationStatus::Executing }))
}

/// In `t`, transaction `v.tx_idx` executes incarnation `v.tx_incarnation`
/// and all of its parents have finished executing.
pub open spec fn executes_after_parents(t: SchedulerView, v: TxVersion) -> bool {
    &&& v.tx_idx < t.block_size
    &&& t.statuses[v.tx_idx as int] == (TxStatus { incarnation: v.tx_incarnation, status: IncarnationStatus::Executing })
    &&& forall|k: int| 0 <= k < t.parents[v.tx_idx as int].len() ==> is_done(t.status_of(#[trigger] t.parents[v.tx_idx as int][k] as int))
}

/// Everything in `t` but the statuses and the parked lists is as in `s`,
/// and every status stayed or started executing.
pub open spec fn only_starts(s: SchedulerView, t: SchedulerView) -> bool {
    &&& t.wf()
    &&& t.block_size == s.block_size
    &&& t.validation_idx == s.validation_idx
    &&& t.aborted == s.aborted
    &&& t.children == s.children
    &&& t.parents == s.parents
    &&& forall|i: int| 0 <= i < s.block_size ==> started_or_kept(s.statuses[i], #[trigger] t.statuses[i])
}

/// What trying one execution does, in the terms of `only_starts`.
proof fn lemma_try_execute_starts(s: SchedulerView, tx: usize, room: nat)
    requires
        s.wf(),
        s.has_room(room + 1),
    ensures
        only_starts(s, try_execute_model(s, tx).0),
        try_execute_model(s, tx).0.has_room(room),
        try_execute_model(s, tx).0.default_queue == s.default_queue,
        try_execute_model(s, tx).0.priority_queue == s.priority_queue,
        try_execute_model(s, tx).1 matches Some(v) ==> v.tx_idx == tx && s.statuses[tx as int]
            == (TxStatus { incarnation: v.tx_incarnation, status: IncarnationStatus::ReadyToExecute })
            && executes_after_parents(try_execute_model(s, tx).0, v),
{
    lemma_try_execute_model(s, tx, room);
    let t = try_execute_model(s, tx).0;
    if tx < s.block_size && s.status_of(tx as int) == IncarnationStatus::ReadyToExecute {
        lemma_first_blocking_parent(s, s.parents[tx as int]);
        if first_blocking_parent(s, s.parents[tx as int]) is None {
            assert forall|k: int| 0 <= k < t.parents[tx as int].len() implies is_done(t.status_of(#[trigger] t.parents[tx as int][k] as int)) by {
                assert(is_done(s.status_of(s.parents[tx as int][k] as int)));
            }
        }
    }
}

/// `only_starts` composes.
proof fn lemma_only_starts_trans(a: SchedulerView, b: SchedulerView, c: SchedulerView)
    requires
        only_starts(a, b),
        only_starts(b, c),
    ensures
        only_starts(a, c),
{
    assert forall|i: int| 0 <= i < a.block_size implies started_or_kept(a.statuses[i], #[trigger] c.statuses[i]) by {
        assert(started_or_kept(a.statuses[i], b.statuses[i]));
        assert(started_or_kept(b.statuses[i], c.statuses[i]));
    }
}

/// What handing out the parked transactions `items` does: only starts, and
/// when it starts an execution that is returned, that transaction was
/// ready and executes after its parents.
proof fn lemma_resume_children(s: SchedulerView, items: Seq<usize>, next: Option<TxVersion>)
    requires
        s.wf(),
        s.has_room(items.len()),
        forall|k: int| 0 <= k < items.len() ==> #[trigger] items[k] < s.block_size,
        next matches Some(v) ==> executes_after_parents(s, v),
    ensures
        only_starts(s, resume_children(s, items, next).0),
        resume_children(s, items, next).1 matches Some(v) ==> executes_after_parents(resume_children(s, items, next).0, v),
        resume_children(s, items, next).1 matches Some(v) ==> next == Some(v) || (s.statuses[v.tx_idx as int]
            == (TxStatus { incarnation: v.tx_incarnation, status: IncarnationStatus::ReadyToExecute })),
    decreases items.len(),
{
    if items.len() > 0 {
        let c = items[0];
        let rest = items.drop_first();
        assert forall|k: int| 0 <= k < rest.len() implies #[trigger] rest[k] < s.block_size by {
            assert(rest[k] == items[k + 1]);
        }
        if s.children[c as int].len() == 0 {
            let s2 = SchedulerView { default_queue: s.default_queue.push(c), ..s };
            assert(s2.has_room(rest.len()));
            lemma_resume_children(s2, rest, next);
            assert(only_starts(s, s2));
            lemma_only_starts_trans(s, s2, resume_children(s2, rest, next).0);
        } else if next is None {
            lemma_try_execute_starts(s, c, rest.len());
            let (s2, next2) = try_execute_model(s, c);
            lemma_resume_children(s2, rest, next2);
            lemma_only_starts_trans(s, s2, resume_children(s2, rest, next2).0);
            if let Some(v) = resume_children(s2, rest, next2).1 {
                if next2 != Some(v) {
                    assert(started_or_kept(s.statuses[v.tx_idx as int], s2.statuses[v.tx_idx as int]));
                }
            }
        } else {
            let s2 = SchedulerView { priority_queue: s.priority_queue.push(c), ..s };
            assert(s2.has_room(rest.len()));
            lemma_resume_children(s2, rest, next);
            assert(only_starts(s, s2));
            lemma_only_starts_trans(s, s2, resume_children(s2, rest, next).0);
        }
    } else {
        assert(only_starts(s, s));
    }
}


/// The execution that `op` hands out, if any.
pub open spec fn handed_out_execution(s: SchedulerView, op: SchedulerOp) -> Option<TxVersion> {
    match op {
        SchedulerOp::TryExecute(tx) => try_execute_model(s, tx).1,
        SchedulerOp::NextTask => match next_task_model(s).1 {
            NextTask::Run(Task::Execution(v)) => Some(v),
            _ => None,
        },
        SchedulerOp::FinishExecution(v, flags) => match finish_execution_model(s, v.tx_idx, flags).1 {
            Some(Task::Execution(w)) => Some(w),
            _ => None,
        },
        _ => None,
    }
}

/// The facts about one operation that the laws below are read off.
proof fn lemma_op(s: SchedulerView, op: SchedulerOp)
    requires
        op_allowed(s, op),
    ensures
        apply_op(s, op).wf(),
        apply_op(s, op).block_size == s.block_size,
        apply_op(s, op).children == s.children,
        apply_op(s, op).parents == s.parents,
        forall|i: int| 0 <= i < s.block_size ==> status_step(s.statuses[i], #[trigger] apply_op(s, op).statuses[i]),
        handed_out_execution(s, op) matches Some(v) ==> s.statuses[v.tx_idx as int]
            == (TxStatus { incarnation: v.tx_incarnation, status: IncarnationStatus::ReadyToExecute })
            && executes_after_parents(apply_op(s, op), v),
        apply_op(s, op).validation_idx == s.validation_idx || (apply_op(s, op).validation_idx == s.validation_idx + 1
            && s.status_of(s.validation_idx as int) == IncarnationStatus::Executed),
        apply_op(s, op).aborted == (s.aborted || op is Abort),
{
    let t = apply_op(s, op);
    match op {
        SchedulerOp::TryExecute(tx) => {
            lemma_try_execute_starts(s, tx, 0);
            assert forall|i: int| 0 <= i < s.block_size implies status_step(s.statuses[i], #[trigger] t.statuses[i]) by {
                assert(started_or_kept(s.statuses[i], t.statuses[i]));
            }
        },
        SchedulerOp::NextTask => {
            if !s.aborted {
                let (a, first) = pop_priority(s);
                lemma_try_execute_starts(a, first->0, 1);
                let (b, started) = try_execute_popped(a, first);
                assert(only_starts(s, a));
                if first is None {
                    assert(only_starts(a, b));
                }
                lemma_only_starts_trans(s, a, b);
                let (c, second) = pop_default(b);
                lemma_try_execute_starts(c, second->0, 0);
                let (d, started2) = try_execute_popped(c, second);
                assert(only_starts(b, c));
                if second is None {
                    assert(only_starts(c, d));
                }
                lemma_only_starts_trans(b, c, d);
                lemma_only_starts_trans(s, b, d);
                assert forall|i: int| 0 <= i < s.block_size implies status_step(s.statuses[i], #[trigger] t.statuses[i]) by {
                    assert(started_or_kept(s.statuses[i], d.statuses[i]));
                    if started is None && started2 is None && d.validation_idx < d.block_size {
                        assert(t.statuses == d.statuses);
                    }
                }
                if let Some(v) = started {
                    assert(started_or_kept(s.statuses[v.tx_idx as int], a.statuses[v.tx_idx as int]));
                } else if let Some(v) = started2 {
                    assert(started_or_kept(s.statuses[v.tx_idx as int], c.statuses[v.tx_idx as int]));
                }
            } else {
                assert forall|i: int| 0 <= i < s.block_size implies status_step(s.statuses[i], #[trigger] t.statuses[i]) by {}
            }
        },
        SchedulerOp::FinishExecution(v, flags) => {
            let tx = v.tx_idx;
            let status = if flags.need_validation {
                IncarnationStatus::Executed
            } else {
                IncarnationStatus::Validated
            };
            let s1 = s.with_status(tx as int, status);
            let items = s1.critical_children[tx as int];
            assert(s1.wf());
            lemma_resume_children(s1, items, None);
            let t1 = resume_children(s1, items, None).0;
            assert forall|i: int| 0 <= i < s.block_size implies status_step(s.statuses[i], #[trigger] t.statuses[i]) by {
                assert(started_or_kept(s1.statuses[i], t1.statuses[i]));
            }
            if let Some(w) = resume_children(s1, items, None).1 {
                assert(w.tx_idx != tx);
            }
        },
        SchedulerOp::SetReadyStatus(tx) => {
            assert forall|i: int| 0 <= i < s.block_size implies status_step(s.statuses[i], #[trigger] t.statuses[i]) by {}
        },
        SchedulerOp::TryValidationAbort(tx) => {
            assert forall|i: int| 0 <= i < s.block_size implies status_step(s.statuses[i], #[trigger] t.statuses[i]) by {}
        },
        SchedulerOp::FinishValidation(tx, aborted) => {
            assert forall|i: int| 0 <= i < s.block_size implies status_step(s.statuses[i], #[trigger] t.statuses[i]) by {}
        },
        _ => {
            assert forall|i: int| 0 <= i < s.block_size implies status_step(s.statuses[i], #[trigger] t.statuses[i]) by {}
        },
    }
}

/// The validation that `op` hands out, if any.
pub open spec fn handed_out_validation(s: SchedulerView, op: SchedulerOp) -> Option<TxVersion> {
    match op {
        SchedulerOp::TryValidate => try_validate_model(s).1,
        SchedulerOp::NextTask => match next_task_model(s).1 {
            NextTask::Run(Task::Validation(v)) => Some(v),
            _ => None,
        },
        _ => None,
    }
}

/// Whether `op` finishes the execution of transaction `tx`.
pub open spec fn finishes(op: SchedulerOp, tx: usize) -> bool {
    op matches SchedulerOp::FinishExecution(w, _) && w.tx_idx == tx
}

/// What one operation does to the validation cursor and to executing
/// transactions.
proof fn lemma_op_cursor_and_executing(s: SchedulerView, op: SchedulerOp)
    requires
        op_allowed(s, op),
    ensures
        handed_out_validation(s, op) matches Some(v) ==> v.tx_idx == s.validation_idx
            && apply_op(s, op).validation_idx == s.validation_idx + 1
            && s.statuses[v.tx_idx as int] == (TxStatus { incarnation: v.tx_incarnation, status: IncarnationStatus::Executed }),
        handed_out_validation(s, op) is None ==> apply_op(s, op).validation_idx == s.validation_idx,
        forall|i: usize| i < s.block_size && s.status_of(i as int) == IncarnationStatus::Executing && !finishes(op, i)
            ==> #[trigger] apply_op(s, op).statuses[i as int] == s.statuses[i as int],
{
    let t = apply_op(s, op);
    match op {
        SchedulerOp::TryExecute(tx) => {
            lemma_try_execute_starts(s, tx, 0);
            assert forall|i: usize| i < s.block_size && s.status_of(i as int) == IncarnationStatus::Executing && !finishes(op, i)
                implies #[trigger] t.statuses[i as int] == s.statuses[i as int] by {
                assert(started_or_kept(s.statuses[i as int], t.statuses[i as int]));
            }
        },
        SchedulerOp::NextTask => {
            if !s.aborted {
                let (a, first) = pop_priority(s);
                lemma_try_execute_starts(a, first->0, 1);
                let (b, started) = try_execute_popped(a, first);
                assert(only_starts(s, a));
                if first is None {
                    assert(only_starts(a, b));
                }
                lemma_only_starts_trans(s, a, b);
                let (c, second) = pop_default(b);
                lemma_try_execute_starts(c, second->0, 0);
                let (d, started2) = try_execute_popped(c, second);
                assert(only_starts(b, c));
                if second is None {
                    assert(only_starts(c, d));
                }
                lemma_only_starts_trans(b, c, d);
                lemma_only_starts_trans(s, b, d);
                assert forall|i: usize| i < s.block_size && s.status_of(i as int) == IncarnationStatus::Executing && !finishes(op, i)
                    implies #[trigger] t.statuses[i as int] == s.statuses[i as int] by {
                    assert(started_or_kept(s.statuses[i as int], d.statuses[i as int]));
                }
                if let Some(v) = handed_out_validation(s, op) {
                    assert(started_or_kept(s.statuses[v.tx_idx as int], d.statuses[v.tx_idx as int]));
                }
            }
        },
        SchedulerOp::FinishExecution(v, flags) => {
            let tx = v.tx_idx;
            let status = if flags.need_validation {
                IncarnationStatus::Executed
            } else {
                IncarnationStatus::Validated
            };
            let s1 = s.with_status(tx as int, status);
            let items = s1.critical_children[tx as int];
            assert(s1.wf());
            lemma_resume_children(s1, items, None);
            let t1 = resume_children(s1, items, None).0;
            assert forall|i: usize| i < s.block_size && s.status_of(i as int) == IncarnationStatus::Executing && !finishes(op, i)
                implies #[trigger] t.statuses[i as int] == s.statuses[i as int] by {
                assert(started_or_kept(s1.statuses[i as int], t1.statuses[i as int]));
            }
        },
        _ => {},
    }
}

/// The state after the operations `ops`, applied in order.
pub open spec fn run_state(s: SchedulerView, ops: Seq<SchedulerOp>) -> SchedulerView
    decreases ops.len(),
{
    if ops.len() == 0 {
        s
    } else {
        run_state(apply_op(s, ops[0]), ops.drop_first())
    }
}

/// Each of the operations `ops` is allowed in the state it is applied to.
pub open spec fn run_allowed(s: SchedulerView, ops: Seq<SchedulerOp>) -> bool
    decreases ops.len(),
{
    ops.len() == 0 || (op_allowed(s, ops[0]) && run_allowed(apply_op(s, ops[0]), ops.drop_first()))
}

/// The transactions whose validations the operations `ops` hand out, in order.
pub open spec fn run_validations(s: SchedulerView, ops: Seq<SchedulerOp>) -> Seq<usize>
    decreases ops.len(),
{
    if ops.len() == 0 {
        Seq::empty()
    } else {
        let first = match handed_out_validation(s, ops[0]) {
            Some(v) => seq![v.tx_idx],
            None => Seq::empty(),
        };
        first + run_validations(apply_op(s, ops[0]), ops.drop_first())
    }
}

/// Over any run of allowed operations, validations are handed out once
/// each and in order: the k-th validation handed out is for transaction
/// `validation_idx + k` of the state the run starts from, and the cursor
/// ends just past the last of them. (Each was executed when handed out:
/// `law_validation_in_order`.)
pub proof fn law_validations_over_runs(s: SchedulerView, ops: Seq<SchedulerOp>)
    requires
        run_allowed(s, ops),
    ensures
        run_state(s, ops).validation_idx == s.validation_idx + run_validations(s, ops).len(),
        forall|k: int| 0 <= k < run_validations(s, ops).len() ==> #[trigger] run_validations(s, ops)[k] == s.validation_idx + k,
    decreases ops.len(),
{
    if ops.len() > 0 {
        let t = apply_op(s, ops[0]);
        lemma_op_cursor_and_executing(s, ops[0]);
        law_validations_over_runs(t, ops.drop_first());
        let rest = run_validations(t, ops.drop_first());
        if let Some(v) = handed_out_validation(s, ops[0]) {
            assert forall|k: int| 0 <= k < run_validations(s, ops).len() implies #[trigger] run_validations(s, ops)[k] == s.validation_idx + k by {
                if k > 0 {
                    assert(run_validations(s, ops)[k] == rest[k - 1]);
                }
            }
        } else {
            assert(run_validations(s, ops) =~= rest);
        }
    }
}

/// Over any run of allowed operations, a transaction that is executing
/// stays executing, at the same incarnation, as long as no operation
/// finishes its execution.
pub proof fn law_execution_runs_until_finished(s: SchedulerView, ops: Seq<SchedulerOp>, tx: usize)
    requires
        run_allowed(s, ops),
        tx < s.block_size,
        s.status_of(tx as int) == IncarnationStatus::Executing,
        forall|k: int| 0 <= k < ops.len() ==> !finishes(#[trigger] ops[k], tx),
    ensures
        run_state(s, ops).block_size == s.block_size,
        run_state(s, ops).statuses[tx as int] == s.statuses[tx as int],
    decreases ops.len(),
{
    if ops.len() > 0 {
        lemma_op(s, ops[0]);
        lemma_op_cursor_and_executing(s, ops[0]);
        assert(!finishes(ops[0], tx));
        let rest = ops.drop_first();
        assert forall|k: int| 0 <= k < rest.len() implies !finishes(#[trigger] rest[k], tx) by {
            assert(rest[k] == ops[k + 1]);
        }
        law_execution_runs_until_finished(apply_op(s, ops[0]), rest, tx);
    }
}

/// A version handed out for execution is still executing, at its
/// incarnation, until its execution is finished: after any run of allowed
/// operations that starts with the hand-out and finishes nothing of that
/// transaction, finishing the version meets the status its finish requires.
pub proof fn law_handed_out_execution_until_finished(s: SchedulerView, ops: Seq<SchedulerOp>)
    requires
        run_allowed(s, ops),
        ops.len() > 0,
        handed_out_execution(s, ops[0]) is Some,
        forall|k: int| 1 <= k < ops.len() ==> !finishes(#[trigger] ops[k], handed_out_execution(s, ops[0])->0.tx_idx),
    ensures
        ({
            let v = handed_out_execution(s, ops[0])->0;
            run_state(s, ops).statuses[v.tx_idx as int]
                == (TxStatus { incarnation: v.tx_incarnation, status: IncarnationStatus::Executing })
        }),
{
    let v = handed_out_execution(s, ops[0])->0;
    lemma_op(s, ops[0]);
    let rest = ops.drop_first();
    assert forall|k: int| 0 <= k < rest.len() implies !finishes(#[trigger] rest[k], v.tx_idx) by {
        assert(rest[k] == ops[k + 1]);
    }
    law_execution_runs_until_finished(apply_op(s, ops[0]), rest, v.tx_idx);
}

/// Of `items`, those that no transaction depends on, in order.
pub open spec fn leaf_items(s: SchedulerView, items: Seq<usize>) -> Seq<usize>
    decreases items.len(),
{
    if items.len() == 0 {
        Seq::empty()
    } else if s.children[items[0] as int].len() == 0 {
        seq![items[0]] + leaf_items(s, items.drop_first())
    } else {
        leaf_items(s, items.drop_first())
    }
}

/// Of `items`, those that other transactions depend on, in order.
pub open spec fn inner_items(s: SchedulerView, items: Seq<usize>) -> Seq<usize>
    decreases items.len(),
{
    if items.len() == 0 {
        Seq::empty()
    } else if s.children[items[0] as int].len() == 0 {
        inner_items(s, items.drop_first())
    } else {
        seq![items[0]] + inner_items(s, items.drop_first())
    }
}

/// The position in `items` of the first transaction that others depend on
/// and that can start executing in `s`, if any.
pub open spec fn first_startable(s: SchedulerView, items: Seq<usize>) -> Option<int>
    decreases items.len(),
{
    if items.len() == 0 {
        None
    } else if s.children[items[0] as int].len() > 0 && try_execute_model(s, items[0]).1 is Some {
        Some(0)
    } else {
        match first_startable(s, items.drop_first()) {
            Some(k) => Some(k + 1),
            None => None,
        }
    }
}

/// `a` and `b` differ at most in their queues and parked lists.
pub open spec fn same_but_queues(a: SchedulerView, b: SchedulerView) -> bool {
    &&& a.block_size == b.block_size
    &&& a.statuses == b.statuses
    &&& a.parents == b.parents
    &&& a.children == b.children
}

/// Which entries have dependents depends only on the children lists.
proof fn lemma_items_agree(a: SchedulerView, b: SchedulerView, items: Seq<usize>)
    requires
        a.children == b.children,
    ensures
        leaf_items(a, items) == leaf_items(b, items),
        inner_items(a, items) == inner_items(b, items),
    decreases items.len(),
{
    if items.len() > 0 {
        lemma_items_agree(a, b, items.drop_first());
    }
}

/// Whether a transaction can start depends only on the statuses and the parents.
proof fn lemma_first_blocking_agree(a: SchedulerView, b: SchedulerView, ps: Seq<u16>)
    requires
        a.statuses == b.statuses,
    ensures
        first_blocking_parent(a, ps) == first_blocking_parent(b, ps),
    decreases ps.len(),
{
    if ps.len() > 0 {
        lemma_first_blocking_agree(a, b, ps.drop_first());
    }
}

/// States that differ only in their queues and lists start the same transactions.
proof fn lemma_first_startable_agree(a: SchedulerView, b: SchedulerView, items: Seq<usize>)
    requires
        same_but_queues(a, b),
    ensures
        first_startable(a, items) == first_startable(b, items),
        leaf_items(a, items) == leaf_items(b, items),
        inner_items(a, items) == inner_items(b, items),
        forall|c: usize| #[trigger] try_execute_model(a, c).1 == try_execute_model(b, c).1,
    decreases items.len(),
{
    assert forall|c: usize| #[trigger] try_execute_model(a, c).1 == try_execute_model(b, c).1 by {
        if c < a.block_size {
            lemma_first_blocking_agree(a, b, a.parents[c as int]);
        }
    }
    if items.len() > 0 {
        lemma_first_startable_agree(a, b, items.drop_first());
    }
}

/// Once an execution has been found, the rest of the list is only queued:
/// those nothing depends on on the default queue, the others on the
/// priority queue, in order.
proof fn lemma_resume_after_found(s: SchedulerView, items: Seq<usize>, v: TxVersion)
    ensures
        resume_children(s, items, Some(v)).1 == Some(v),
        resume_children(s, items, Some(v)).0 == (SchedulerView {
            default_queue: s.default_queue + leaf_items(s, items),
            priority_queue: s.priority_queue + inner_items(s, items),
            ..s
        }),
    decreases items.len(),
{
    if items.len() == 0 {
        assert(s.default_queue + leaf_items(s, items) =~= s.default_queue);
        assert(s.priority_queue + inner_items(s, items) =~= s.priority_queue);
    } else {
        let c = items[0];
        let rest = items.drop_first();
        if s.children[c as int].len() == 0 {
            let s2 = SchedulerView { default_queue: s.default_queue.push(c), ..s };
            lemma_resume_after_found(s2, rest, v);
            lemma_items_agree(s2, s, rest);
            assert(s2.default_queue + leaf_items(s2, rest) =~= s.default_queue + leaf_items(s, items));
            assert(s2.priority_queue + inner_items(s2, rest) =~= s.priority_queue + inner_items(s, items));
        } else {
            let s2 = SchedulerView { priority_queue: s.priority_queue.push(c), ..s };
            lemma_resume_after_found(s2, rest, v);
            lemma_items_agree(s2, s, rest);
            assert(s2.default_queue + leaf_items(s2, rest) =~= s.default_queue + leaf_items(s, items));
            assert(s2.priority_queue + inner_items(s2, rest) =~= s.priority_queue + inner_items(s, items));
        }
    }
}

/// What handing out `items` returns and adds to the priority queue when no
/// execution has been found yet (see `lemma_resume_before_found`).
spec fn resume_found_as_stated(s: SchedulerView, items: Seq<usize>) -> bool {
    match first_startable(s, items) {
        None => resume_children(s, items, None).1 is None
            && resume_children(s, items, None).0.priority_queue == s.priority_queue,
        Some(k) => 0 <= k < items.len()
            && resume_children(s, items, None).1 == try_execute_model(s, items[k]).1
            && resume_children(s, items, None).0.priority_queue
                == s.priority_queue + inner_items(s, items.skip(k + 1)),
    }
}

/// Before an execution has been found: the default queue gains every list
/// entry that nothing depends on; the first entry with dependents that can
/// start is started and returned; the entries with dependents after it join
/// the priority queue, and none before it is queued.
proof fn lemma_resume_before_found(s: SchedulerView, items: Seq<usize>)
    ensures
        resume_children(s, items, None).0.default_queue == s.default_queue + leaf_items(s, items),
        resume_found_as_stated(s, items),
    decreases items.len(),
{
    if items.len() == 0 {
        assert(s.default_queue + leaf_items(s, items) =~= s.default_queue);
    } else {
        let c = items[0];
        let rest = items.drop_first();
        if s.children[c as int].len() == 0 {
            let s2 = SchedulerView { default_queue: s.default_queue.push(c), ..s };
            assert(resume_children(s, items, None) == resume_children(s2, rest, None));
            lemma_resume_before_found(s2, rest);
            lemma_first_startable_agree(s2, s, rest);
            lemma_items_agree(s2, s, rest);
            assert(s2.default_queue + leaf_items(s2, rest) =~= s.default_queue + leaf_items(s, items));
            if let Some(k) = first_startable(s, rest) {
                assert(items.skip(k + 2) =~= rest.skip(k + 1));
                assert(items[k + 1] == rest[k]);
                lemma_items_agree(s2, s, rest.skip(k + 1));
                assert(try_execute_model(s2, rest[k]).1 == try_execute_model(s, rest[k]).1);
            }
            assert(resume_found_as_stated(s, items));
        } else {
            let (s2, started) = try_execute_model(s, c);
            assert(resume_children(s, items, None) == resume_children(s2, rest, started));
            if let Some(w) = started {
                lemma_resume_after_found(s2, rest, w);
                lemma_try_execute_model_queues(s, c);
                lemma_items_agree(s2, s, rest);
                assert(items.skip(1) =~= rest);
                assert(s2.default_queue + leaf_items(s2, rest) =~= s.default_queue + leaf_items(s, items));
                assert(resume_found_as_stated(s, items));
            } else {
                lemma_try_execute_model_queues(s, c);
                lemma_resume_before_found(s2, rest);
                lemma_first_startable_agree(s2, s, rest);
                lemma_items_agree(s2, s, rest);
                assert(leaf_items(s, items) == leaf_items(s, rest));
                assert(first_startable(s, items) == match first_startable(s, rest) {
                    Some(k) => Some(k + 1),
                    None => None,
                });
                if let Some(k) = first_startable(s, rest) {
                    assert(items.skip(k + 2) =~= rest.skip(k + 1));
                    assert(items[k + 1] == rest[k]);
                    lemma_items_agree(s2, s, rest.skip(k + 1));
                    assert(try_execute_model(s2, rest[k]).1 == try_execute_model(s, rest[k]).1);
                }
                assert(resume_found_as_stated(s, items));
            }
        }
    }
}

/// What finishing an execution does to the queues. Let `items` be the
/// list of the finished transaction. The default queue gains exactly the
/// entries of `items` that nothing depends on, in order. Among the entries
/// that others depend on, the first that can start executing (once the
/// finished transaction counts as executed) is started and returned as the
/// next task; those after it join the priority queue, in order, and none
/// before it is queued. When none can start, nothing is returned and the
/// priority queue is unchanged.
pub proof fn law_finish_execution_queues(s: SchedulerView, v: TxVersion, flags: FinishExecFlags)
    requires
        op_allowed(s, SchedulerOp::FinishExecution(v, flags)),
    ensures
        ({
            let status = if flags.need_validation {
                IncarnationStatus::Executed
            } else {
                IncarnationStatus::Validated
            };
            let s1 = s.with_status(v.tx_idx as int, status);
            let items = s.critical_children[v.tx_idx as int];
            let (t, r) = finish_execution_model(s, v.tx_idx, flags);
            &&& t.default_queue == s.default_queue + leaf_items(s, items)
            &&& match first_startable(s1, items) {
                None => r is None && t.priority_queue == s.priority_queue,
                Some(k) => 0 <= k < items.len() && try_execute_model(s1, items[k]).1 is Some
                    && r == Some(Task::Execution(try_execute_model(s1, items[k]).1->0))
                    && t.priority_queue == s.priority_queue + inner_items(s, items.skip(k + 1)),
            }
        }),
{
    let status = if flags.need_validation {
        IncarnationStatus::Executed
    } else {
        IncarnationStatus::Validated
    };
    let s1 = s.with_status(v.tx_idx as int, status);
    let items = s.critical_children[v.tx_idx as int];
    lemma_resume_before_found(s1, items);
    lemma_items_agree(s1, s, items);
    if let Some(k) = first_startable(s1, items) {
        lemma_items_agree(s1, s, items.skip(k + 1));
        lemma_first_startable_position(s1, items);
    }
}

/// Trying an execution leaves the queues and the children as they are, and
/// changes no status when it starts nothing.
proof fn lemma_try_execute_model_queues(s: SchedulerView, c: usize)
    ensures
        try_execute_model(s, c).0.default_queue == s.default_queue,
        try_execute_model(s, c).0.priority_queue == s.priority_queue,
        try_execute_model(s, c).0.children == s.children,
        try_execute_model(s, c).1 is None ==> same_but_queues(try_execute_model(s, c).0, s),
{
}

/// The position that `first_startable` gives names a startable entry.
proof fn lemma_first_startable_position(s: SchedulerView, items: Seq<usize>)
    ensures
        first_startable(s, items) matches Some(k) ==> 0 <= k < items.len() && try_execute_model(s, items[k]).1 is Some,
    decreases items.len(),
{
    if items.len() > 0 {
        lemma_first_startable_position(s, items.drop_first());
        if let Some(k) = first_startable(s, items.drop_first()) {
            assert(items[k + 1] == items.drop_first()[k]);
        }
    }
}

/// Every operation keeps the shape of the state (`wf`), and leaves the
/// block size and the dependency graph as they were.
pub proof fn law_shape_kept(s: SchedulerView, op: SchedulerOp)
    requires
        op_allowed(s, op),
    ensures
        apply_op(s, op).wf(),
        apply_op(s, op).block_size == s.block_size,
        apply_op(s, op).children == s.children,
        apply_op(s, op).parents == s.parents,
{
    lemma_op(s, op);
}

/// Every operation moves the status of each transaction by at most one
/// step of the protocol (see `status_step`): ready, executing, executed or
/// validated, aborting, and ready again one incarnation later.
pub proof fn law_status_protocol(s: SchedulerView, op: SchedulerOp, tx: int)
    requires
        op_allowed(s, op),
        0 <= tx < s.block_size,
    ensures
        status_step(s.statuses[tx], apply_op(s, op).statuses[tx]),
{
    lemma_op(s, op);
}

/// Incarnation numbers never decrease, and grow only by one, when an
/// aborted transaction is made ready again.
pub proof fn law_incarnations_grow_only_on_retry(s: SchedulerView, op: SchedulerOp, tx: int)
    requires
        op_allowed(s, op),
        0 <= tx < s.block_size,
    ensures
        apply_op(s, op).statuses[tx].incarnation == s.statuses[tx].incarnation || (
            apply_op(s, op).statuses[tx].incarnation == s.statuses[tx].incarnation + 1
            && s.status_of(tx) == IncarnationStatus::Aborting
            && apply_op(s, op).status_of(tx) == IncarnationStatus::ReadyToExecute),
{
    lemma_op(s, op);
    assert(status_step(s.statuses[tx], apply_op(s, op).statuses[tx]));
}

/// A transaction becomes ready again only with a new incarnation number,
/// so each incarnation is handed out for execution at most once.
pub proof fn law_each_incarnation_executes_once(s: SchedulerView, op: SchedulerOp, tx: int)
    requires
        op_allowed(s, op),
        0 <= tx < s.block_size,
        apply_op(s, op).status_of(tx) == IncarnationStatus::ReadyToExecute,
        apply_op(s, op).statuses[tx] != s.statuses[tx],
    ensures
        s.status_of(tx) == IncarnationStatus::Aborting,
        apply_op(s, op).statuses[tx].incarnation == s.statuses[tx].incarnation + 1,
{
    lemma_op(s, op);
    assert(status_step(s.statuses[tx], apply_op(s, op).statuses[tx]));
}

/// An execution is handed out only for a transaction that was ready, at its
/// latest incarnation, and only once every transaction it depends on has
/// finished executing; the transaction is then executing.
pub proof fn law_execution_after_dependencies(s: SchedulerView, op: SchedulerOp)
    requires
        op_allowed(s, op),
    ensures
        handed_out_execution(s, op) matches Some(v) ==> s.statuses[v.tx_idx as int]
            == (TxStatus { incarnation: v.tx_incarnation, status: IncarnationStatus::ReadyToExecute })
            && executes_after_parents(apply_op(s, op), v),
{
    lemma_op(s, op);
}

/// The validation cursor never moves back, and moves on by one only past
/// a transaction that has executed; it never passes the end of the block.
pub proof fn law_validation_cursor(s: SchedulerView, op: SchedulerOp)
    requires
        op_allowed(s, op),
    ensures
        apply_op(s, op).validation_idx == s.validation_idx || (apply_op(s, op).validation_idx == s.validation_idx + 1
            && s.status_of(s.validation_idx as int) == IncarnationStatus::Executed),
        apply_op(s, op).validation_idx <= apply_op(s, op).block_size,
{
    lemma_op(s, op);
}

/// Validations are handed out in transaction order: the one handed out is
/// for the transaction at the cursor, which has executed, at its latest
/// incarnation.
pub proof fn law_validation_in_order(s: SchedulerView)
    requires
        s.wf(),
        s.aborted || s.has_room(2),
    ensures
        try_validate_model(s).1 matches Some(v) ==> v.tx_idx == s.validation_idx
            && s.statuses[v.tx_idx as int] == (TxStatus { incarnation: v.tx_incarnation, status: IncarnationStatus::Executed }),
        next_task_model(s).1 matches NextTask::Run(Task::Validation(v)) ==> v.tx_idx == s.validation_idx
            && next_task_model(s).0.validation_idx == s.validation_idx + 1,
{
    if !s.aborted {
        let (a, first) = pop_priority(s);
        lemma_try_execute_model(a, first->0, 1);
        let (b, started) = try_execute_popped(a, first);
        let (c, second) = pop_default(b);
        lemma_try_execute_model(c, second->0, 0);
    }
}

/// Only one failed validation of an incarnation can abort it: once a
/// validation abort succeeds, the next one fails.
pub proof fn law_single_abort(s: SchedulerView, tx: usize)
    requires
        s.wf(),
        tx < s.block_size,
        try_validation_abort_model(s, tx).1,
    ensures
        !try_validation_abort_model(try_validation_abort_model(s, tx).0, tx).1,
{
}

/// An aborted block hands out nothing more: the task search reports it
/// finished at once and changes nothing (no queue is read, no status, list
/// or cursor moves), and every operation leaves it aborted.
pub proof fn law_abort_is_final(s: SchedulerView, op: SchedulerOp)
    requires
        s.aborted,
    ensures
        next_task_model(s) == (s, NextTask::Finished),
        op_allowed(s, op) ==> apply_op(s, op).aborted,
{
    if op_allowed(s, op) {
        lemma_op(s, op);
    }
}

/// The task search reports the block finished only when it was aborted or
/// the validation cursor has passed the last transaction.
pub proof fn law_finished_only_at_end(s: SchedulerView)
    requires
        s.wf(),
        s.aborted || s.has_room(2),
        next_task_model(s).1 == NextTask::Finished,
    ensures
        s.aborted || s.validation_idx >= s.block_size,
{
    if !s.aborted {
        let (a, first) = pop_priority(s);
        lemma_try_execute_model(a, first->0, 1);
        let (b, started) = try_execute_popped(a, first);
        let (c, second) = pop_default(b);
        lemma_try_execute_model(c, second->0, 0);
    }
}

/// A ready transaction that cannot start because a dependency has not
/// finished executing is parked on that dependency's list, to be handed out
/// again when the dependency finishes.
pub proof fn law_blocked_execution_waits(s: SchedulerView, tx: usize)
    requires
        s.wf(),
        tx < s.block_size,
        s.status_of(tx as int) == IncarnationStatus::ReadyToExecute,
        try_execute_model(s, tx).1 is None,
    ensures
        exists|p: int| #![trigger s.critical_children[p]]
            0 <= p < tx && s.parents[tx as int].contains(p as u16) && !is_done(s.status_of(p))
            && try_execute_model(s, tx).0.critical_children == s.critical_children.update(p, s.critical_children[p].push(tx)),
{
    lemma_first_blocking_parent(s, s.parents[tx as int]);
    let p = first_blocking_parent(s, s.parents[tx as int])->0;
    let k = choose|k: int| 0 <= k < s.parents[tx as int].len() && s.parents[tx as int][k] == p as u16;
    assert(s.parents[tx as int][k] as int == p);
    assert(s.critical_children[p] == s.critical_children[p]);
}


// ---------------------------------------------------------------------
// What each operation does, stated directly
// ---------------------------------------------------------------------

/// Transaction `c` can start executing in `s`: it is in the block, ready to
/// execute, and each of its (stored) parents is Executed or Validated.
pub open spec fn can_start(s: SchedulerView, c: usize) -> bool {
    &&& c < s.block_size
    &&& s.statuses[c as int].status == IncarnationStatus::ReadyToExecute
    &&& forall|k: int| 0 <= k < s.parents[c as int].len() ==> {
        let st = #[trigger] s.statuses[s.parents[c as int][k] as int].status;
        st == IncarnationStatus::Executed || st == IncarnationStatus::Validated
    }
}

/// The first blocking parent comes first among the parents that have not
/// finished executing.
proof fn lemma_first_blocking_is_first(s: SchedulerView, ps: Seq<u16>)
    ensures
        first_blocking_parent(s, ps) matches Some(p) ==> exists|k: int| 0 <= k < ps.len() && ps[k] as int == p
            && !is_done(s.status_of(p))
            && forall|j: int| 0 <= j < k ==> #[trigger] is_done(s.status_of(ps[j] as int)),
    decreases ps.len(),
{
    if ps.len() > 0 && is_done(s.status_of(ps[0] as int)) {
        lemma_first_blocking_is_first(s, ps.drop_first());
        if let Some(p) = first_blocking_parent(s, ps) {
            let k = choose|k: int| 0 <= k < ps.drop_first().len() && ps.drop_first()[k] as int == p
                && !is_done(s.status_of(p))
                && forall|j: int| 0 <= j < k ==> #[trigger] is_done(s.status_of(ps.drop_first()[j] as int));
            assert forall|j: int| 0 <= j < k + 1 implies #[trigger] is_done(s.status_of(ps[j] as int)) by {
                if j > 0 {
                    assert(ps[j] == ps.drop_first()[j - 1]);
                }
            }
            assert(ps[k + 1] == ps.drop_first()[k]);
        }
    } else if ps.len() > 0 {
        assert(forall|j: int| 0 <= j < 0 ==> #[trigger] is_done(s.status_of(ps[j] as int)));
    }
}

/// Trying to start `tx`: it starts, at its latest incarnation, exactly when
/// it can start; then it becomes Executing and nothing else changes. When
/// it is ready but a parent has not finished executing, it is parked on the
/// first such parent in the order of its parents list, and nothing else
/// changes. Otherwise nothing changes at all.
pub proof fn law_try_execute(s: SchedulerView, tx: usize)
    requires
        s.wf(),
    ensures
        ({
            let (t, r) = try_execute_model(s, tx);
            &&& r is Some <==> can_start(s, tx)
            &&& can_start(s, tx) ==> r == Some(TxVersion { tx_idx: tx, tx_incarnation: s.statuses[tx as int].incarnation })
                && t.statuses == s.statuses.update(tx as int, TxStatus {
                    incarnation: s.statuses[tx as int].incarnation,
                    status: IncarnationStatus::Executing,
                })
                && t.critical_children == s.critical_children
            &&& (tx < s.block_size && s.statuses[tx as int].status == IncarnationStatus::ReadyToExecute && !can_start(s, tx))
                ==> exists|k: int| #![trigger s.parents[tx as int][k]] 0 <= k < s.parents[tx as int].len() && {
                    let p = s.parents[tx as int][k] as int;
                    &&& s.statuses[p].status != IncarnationStatus::Executed
                    &&& s.statuses[p].status != IncarnationStatus::Validated
                    &&& (forall|j: int| 0 <= j < k ==> {
                        let st = #[trigger] s.statuses[s.parents[tx as int][j] as int].status;
                        st == IncarnationStatus::Executed || st == IncarnationStatus::Validated
                    })
                    &&& t.critical_children == s.critical_children.update(p, s.critical_children[p].push(tx))
                    &&& t.statuses == s.statuses
                }
            &&& (tx >= s.block_size || s.statuses[tx as int].status != IncarnationStatus::ReadyToExecute) ==> t == s
            &&& t.default_queue == s.default_queue && t.priority_queue == s.priority_queue
            &&& t.validation_idx == s.validation_idx && t.aborted == s.aborted
            &&& t.children == s.children && t.parents == s.parents && t.block_size == s.block_size
        }),
{
    if tx < s.block_size && s.status_of(tx as int) == IncarnationStatus::ReadyToExecute {
        let ps = s.parents[tx as int];
        lemma_first_blocking_parent(s, ps);
        lemma_first_blocking_is_first(s, ps);
        match first_blocking_parent(s, ps) {
            Some(p) => {
                let k = choose|k: int| 0 <= k < ps.len() && ps[k] as int == p
                    && !is_done(s.status_of(p))
                    && forall|j: int| 0 <= j < k ==> #[trigger] is_done(s.status_of(ps[j] as int));
                assert(!can_start(s, tx)) by {
                    assert(!is_done(s.status_of(ps[k] as int)));
                }
                assert forall|j: int| 0 <= j < k implies {
                    let st = #[trigger] s.statuses[s.parents[tx as int][j] as int].status;
                    st == IncarnationStatus::Executed || st == IncarnationStatus::Validated
                } by {
                    assert(is_done(s.status_of(ps[j] as int)));
                }
            },
            None => {
                assert forall|k: int| 0 <= k < s.parents[tx as int].len() implies {
                    let st = #[trigger] s.statuses[s.parents[tx as int][k] as int].status;
                    st == IncarnationStatus::Executed || st == IncarnationStatus::Validated
                } by {
                    assert(is_done(s.status_of(ps[k] as int)));
                }
            },
        }
    }
}

/// A validation abort succeeds exactly when the transaction has Executed or
/// Validated; it then becomes Aborting at the same incarnation, and nothing
/// else changes. Otherwise nothing changes.
pub proof fn law_try_validation_abort(s: SchedulerView, tx: usize)
    requires
        s.wf(),
        tx < s.block_size,
    ensures
        ({
            let (t, r) = try_validation_abort_model(s, tx);
            let st = s.statuses[tx as int].status;
            &&& r <==> (st == IncarnationStatus::Executed || st == IncarnationStatus::Validated)
            &&& r ==> t == (SchedulerView {
                statuses: s.statuses.update(tx as int, TxStatus {
                    incarnation: s.statuses[tx as int].incarnation,
                    status: IncarnationStatus::Aborting,
                }),
                ..s
            })
            &&& !r ==> t == s
        }),
{
}

/// Finishing an execution leaves the finished transaction Executed when
/// its flags ask for validation and Validated when they do not, at the same
/// incarnation, whatever its other flags say.
pub proof fn law_finish_execution_status(s: SchedulerView, v: TxVersion, flags: FinishExecFlags)
    requires
        op_allowed(s, SchedulerOp::FinishExecution(v, flags)),
    ensures
        finish_execution_model(s, v.tx_idx, flags).0.statuses[v.tx_idx as int] == (TxStatus {
            incarnation: s.statuses[v.tx_idx as int].incarnation,
            status: if flags.need_validation {
                IncarnationStatus::Executed
            } else {
                IncarnationStatus::Validated
            },
        }),
{
    let tx = v.tx_idx;
    let status = if flags.need_validation {
        IncarnationStatus::Executed
    } else {
        IncarnationStatus::Validated
    };
    let s1 = s.with_status(tx as int, status);
    let items = s1.critical_children[tx as int];
    assert(s1.wf());
    lemma_resume_children(s1, items, None);
    let t1 = resume_children(s1, items, None).0;
    assert(started_or_kept(s1.statuses[tx as int], t1.statuses[tx as int]));
}

/// The front of a queue, if any.
pub open spec fn front(q: Seq<usize>) -> Option<usize> {
    if q.len() > 0 {
        Some(q[0])
    } else {
        None
    }
}

/// A queue with its front taken off, if any.
pub open spec fn without_front(q: Seq<usize>) -> Seq<usize> {
    if q.len() > 0 {
        q.drop_first()
    } else {
        q
    }
}

/// One round of the task search on a block that is not aborted. If the
/// front of the priority queue can start, it is taken off and started.
/// Otherwise the front of the priority queue (if any) is taken off, and then
/// the front of the default queue (if any) is taken off and started if it
/// can start. Only when neither starts does the round look at validation: it
/// reports the block finished when the cursor has reached the end, hands out
/// the validation at the cursor when that transaction has Executed, and
/// otherwise returns `Retry` with every status and the cursor unchanged.
pub proof fn law_next_task(s: SchedulerView)
    requires
        s.wf(),
        !s.aborted,
        s.has_room(2),
    ensures
        ({
            let (t, r) = next_task_model(s);
            let pf = front(s.priority_queue);
            let df = front(s.default_queue);
            let p_starts = pf matches Some(c) && can_start(s, c);
            let d_starts = !p_starts && (df matches Some(c) && can_start(s, c));
            &&& p_starts ==> r == NextTask::Run(Task::Execution(TxVersion {
                tx_idx: pf->0,
                tx_incarnation: s.statuses[pf->0 as int].incarnation,
            })) && t.priority_queue == without_front(s.priority_queue) && t.default_queue == s.default_queue
            &&& d_starts ==> r == NextTask::Run(Task::Execution(TxVersion {
                tx_idx: df->0,
                tx_incarnation: s.statuses[df->0 as int].incarnation,
            })) && t.priority_queue == without_front(s.priority_queue)
                && t.default_queue == without_front(s.default_queue)
            &&& (!p_starts && !d_starts) ==> {
                &&& t.priority_queue == without_front(s.priority_queue)
                &&& t.default_queue == without_front(s.default_queue)
                &&& t.statuses == s.statuses
                &&& (s.validation_idx >= s.block_size ==> r == NextTask::Finished)
                &&& (s.validation_idx < s.block_size && s.statuses[s.validation_idx as int].status == IncarnationStatus::Executed
                    ==> r == NextTask::Run(Task::Validation(TxVersion {
                        tx_idx: s.validation_idx,
                        tx_incarnation: s.statuses[s.validation_idx as int].incarnation,
                    })) && t.validation_idx == s.validation_idx + 1)
                &&& (s.validation_idx < s.block_size && s.statuses[s.validation_idx as int].status != IncarnationStatus::Executed
                    ==> r == NextTask::Retry && t.validation_idx == s.validation_idx)
            }
        }),
{
    let (a, first) = pop_priority(s);
    law_try_execute(a, first->0);
    lemma_try_execute_model(a, first->0, 1);
    let (b, started) = try_execute_popped(a, first);
    let (c, second) = pop_default(b);
    law_try_execute(c, second->0);
    lemma_try_execute_model(c, second->0, 0);
    if let Some(x) = first {
        assert(can_start(a, x) == can_start(s, x));
    }
    if started is None {
        if let Some(y) = second {
            assert(can_start(c, y) == can_start(s, y));
        }
    }
}


// ---------------------------------------------------------------------
// The dependency graph
// ---------------------------------------------------------------------

/// The last toucher of a key is the latest transaction before `i` whose
/// access list names the key.
pub proof fn law_last_toucher(s: Seq<TxAccess>, i: int, key: u64, p: int)
    ensures
        last_toucher(s, i, key) == Some(p) <==> (0 <= p < i && keys_of(s, p).contains(key)
            && forall|j: int| p < j < i ==> !#[trigger] keys_of(s, j).contains(key)),
{
    lemma_last_toucher(s, i, key);
    if 0 <= p < i && keys_of(s, p).contains(key) && forall|j: int| p < j < i ==> !#[trigger] keys_of(s, j).contains(key) {
        match last_toucher(s, i, key) {
            Some(q) => {
                if q < p {
                    assert(!keys_of(s, p).contains(key));
                } else if q > p {
                    assert(!keys_of(s, q).contains(key));
                }
            },
            None => {
                assert(!keys_of(s, p).contains(key));
            },
        }
    }
}

/// The parents of a transaction are exactly the last touchers of its keys:
/// each comes before it, and each appears once.
pub proof fn law_parents_are_last_touchers(s: Seq<TxAccess>, i: int, p: int)
    ensures
        parents_of(s, i).contains(p) <==> exists|k: int| 0 <= k < keys_of(s, i).len()
            && last_toucher(s, i, #[trigger] keys_of(s, i)[k]) == Some(p),
        parents_of(s, i).contains(p) ==> 0 <= p < i,
        parents_of(s, i).no_duplicates(),
{
    lemma_parent_scan_members(s, i, keys_of(s, i).len() as int, p);
    lemma_parent_scan(s, i, keys_of(s, i).len() as int);
}

/// The members of a partial parent scan.
proof fn lemma_parent_scan_members(s: Seq<TxAccess>, i: int, k: int, p: int)
    requires
        0 <= k <= keys_of(s, i).len(),
    ensures
        parent_scan(s, i, k).contains(p) <==> exists|j: int| 0 <= j < k
            && last_toucher(s, i, #[trigger] keys_of(s, i)[j]) == Some(p),
    decreases k,
{
    if k > 0 {
        lemma_parent_scan_members(s, i, k - 1, p);
        if last_toucher(s, i, keys_of(s, i)[k - 1]) == Some(p) {
            assert(parent_scan(s, i, k).contains(p));
        }
        if parent_scan(s, i, k).contains(p) && !parent_scan(s, i, k - 1).contains(p) {
            assert(last_toucher(s, i, keys_of(s, i)[k - 1]) == Some(p));
        }
    }
}

/// A transaction is a child of `p` exactly when `p` is one of its parents;
/// the children of `p` are listed once each, in increasing order.
pub proof fn law_children_mirror_parents(s: Seq<TxAccess>, n: int, p: int, c: int)
    requires
        0 <= c < n <= usize::MAX,
    ensures
        children_upto(s, p, n).contains(c as usize) <==> parents_of(s, c).contains(p),
        forall|a: int, b: int| 0 <= a < b < children_upto(s, p, n).len() ==> children_upto(s, p, n)[a] < children_upto(s, p, n)[b],
{
    lemma_children_upto(s, p, n);
}

/// The scans, side by side: the heaviest dependency is one of the
/// dependencies, and none is heavier.
proof fn lemma_scans(s: Seq<TxAccess>, costs: Seq<int>, i: int, k: int)
    requires
        0 <= k <= keys_of(s, i).len(),
        costs.len() == i,
        forall|j: int| 0 <= j < i ==> #[trigger] costs[j] >= 0,
    ensures
        critical_scan(s, costs, i, k).1 matches Some(p) ==> parent_scan(s, i, k).contains(p),
        forall|q: int| #[trigger] parent_scan(s, i, k).contains(q) ==> costs[q] <= critical_scan(s, costs, i, k).0,
    decreases k,
{
    if k > 0 {
        lemma_scans(s, costs, i, k - 1);
        lemma_last_toucher(s, i, keys_of(s, i)[k - 1]);
        lemma_critical_scan(s, costs, i, k - 1);
        lemma_parent_scan(s, i, k - 1);
    }
}

/// The critical parent of a transaction is its heaviest parent: one of its
/// parents, with a path cost above 0 that no other parent exceeds (the
/// first such in access-list order). A transaction has no critical parent
/// exactly when all of its parents cost 0; the path cost of a transaction
/// is its gas plus the path cost of its critical parent.
pub proof fn law_critical_parent_is_heaviest(s: Seq<TxAccess>, i: int)
    requires
        i >= 0,
    ensures
        critical_parent(s, i) matches Some(p) ==> parents_of(s, i).contains(p) && path_costs(s, i)[p] > 0
            && forall|q: int| #[trigger] parents_of(s, i).contains(q) ==> path_costs(s, i)[q] <= path_costs(s, i)[p],
        critical_parent(s, i) is None ==> forall|q: int| #[trigger] parents_of(s, i).contains(q) ==> path_costs(s, i)[q] == 0,
        path_costs(s, i + 1)[i] == gas_of(s, i) + match critical_parent(s, i) {
            Some(p) => path_costs(s, i)[p],
            None => 0,
        },
{
    let costs = path_costs(s, i);
    let k = keys_of(s, i).len() as int;
    lemma_path_costs_prefix(s, i, i);
    lemma_scans(s, costs, i, k);
    lemma_critical_scan(s, costs, i, k);
    lemma_parent_scan(s, i, k);
    assert forall|q: int| #[trigger] parents_of(s, i).contains(q) implies costs[q] >= 0 by {
        let a = choose|a: int| 0 <= a < parents_of(s, i).len() && parents_of(s, i)[a] == q;
        assert(0 <= parents_of(s, i)[a] < i);
    }
}

/// The scan keeps the heaviest dependency met so far, and the first met
/// among the heaviest: every dependency met before it is strictly lighter.
proof fn lemma_scan_first_heaviest(s: Seq<TxAccess>, costs: Seq<int>, i: int, k: int)
    requires
        0 <= k <= keys_of(s, i).len(),
    ensures
        forall|j: int| 0 <= j < k ==> (#[trigger] last_toucher(s, i, keys_of(s, i)[j]) matches Some(q)
            ==> costs[q] <= critical_scan(s, costs, i, k).0),
        critical_scan(s, costs, i, k).1 matches Some(p) ==> exists|k0: int| 0 <= k0 < k
            && #[trigger] last_toucher(s, i, keys_of(s, i)[k0]) == Some(p)
            && forall|j: int| 0 <= j < k0 ==> (#[trigger] last_toucher(s, i, keys_of(s, i)[j]) matches Some(q)
                ==> costs[q] < costs[p]),
    decreases k,
{
    if k > 0 {
        lemma_scan_first_heaviest(s, costs, i, k - 1);
        lemma_critical_scan(s, costs, i, k - 1);
        lemma_critical_scan(s, costs, i, k);
        let prev = critical_scan(s, costs, i, k - 1);
        let key = keys_of(s, i)[k - 1];
        if let Some(q) = last_toucher(s, i, key) {
            if costs[q] > prev.0 {
                assert(last_toucher(s, i, keys_of(s, i)[k - 1]) == Some(q));
                assert forall|j: int| 0 <= j < k - 1 implies (#[trigger] last_toucher(s, i, keys_of(s, i)[j]) matches Some(r)
                    ==> costs[r] < costs[q]) by {}
            }
        }
    }
}

/// Among parents of equal path cost, the critical parent is the first that
/// the access list leads to: it is reached through some key of the list,
/// and every dependency reached through an earlier key is strictly lighter.
pub proof fn law_critical_parent_is_first_heaviest(s: Seq<TxAccess>, i: int)
    requires
        i >= 0,
    ensures
        critical_parent(s, i) matches Some(p) ==> exists|k0: int| 0 <= k0 < keys_of(s, i).len()
            && #[trigger] last_toucher(s, i, keys_of(s, i)[k0]) == Some(p)
            && forall|j: int| 0 <= j < k0 ==> (#[trigger] last_toucher(s, i, keys_of(s, i)[j]) matches Some(q)
                ==> path_costs(s, i)[q] < path_costs(s, i)[p]),
{
    lemma_scan_first_heaviest(s, path_costs(s, i), i, keys_of(s, i).len() as int);
}

/// Each transaction is placed once: it either has no critical parent, and
/// is one of the roots, or it is on the critical list of its critical
/// parent and of no other transaction.
pub proof fn law_each_transaction_placed_once(s: Seq<TxAccess>, n: int, i: int, p: int)
    requires
        0 <= i < n <= usize::MAX,
    ensures
        roots_upto(s, n).contains(i as usize) <==> critical_parent(s, i) is None,
        critical_children_upto(s, p, n).contains(i as usize) <==> critical_parent(s, i) == Some(p),
{
    lemma_roots_upto(s, n);
    lemma_critical_children_upto(s, p, n);
}

/// A transaction none of whose keys an earlier transaction names depends
/// on nothing: it has no parents, no critical parent, and its path cost is
/// its own gas.
pub proof fn law_independent_transaction(s: Seq<TxAccess>, i: int)
    requires
        i >= 0,
        forall|j: int, k: int| 0 <= j < i && 0 <= k < keys_of(s, i).len() ==> !#[trigger] keys_of(s, j).contains(#[trigger] keys_of(s, i)[k]),
    ensures
        parents_of(s, i).len() == 0,
        critical_parent(s, i) is None,
        path_costs(s, i + 1)[i] == gas_of(s, i),
{
    law_critical_parent_is_heaviest(s, i);
    if parents_of(s, i).len() > 0 {
        let p = parents_of(s, i)[0];
        law_parents_are_last_touchers(s, i, p);
        let k = choose|k: int| 0 <= k < keys_of(s, i).len() && last_toucher(s, i, #[trigger] keys_of(s, i)[k]) == Some(p);
        lemma_last_toucher(s, i, keys_of(s, i)[k]);
    }
    if let Some(p) = critical_parent(s, i) {
        assert(parents_of(s, i).contains(p));
    }
}

/// The first `n` transactions of `s` and `t` name the same keys.
pub open spec fn same_access_lists(s: Seq<TxAccess>, t: Seq<TxAccess>, n: int) -> bool {
    forall|j: int| 0 <= j < n ==> #[trigger] keys_of(s, j) == keys_of(t, j)
}

/// Last touchers are read off the access lists alone.
proof fn lemma_same_last_toucher(s: Seq<TxAccess>, t: Seq<TxAccess>, n: int, i: int, key: u64)
    requires
        same_access_lists(s, t, n),
        i <= n,
    ensures
        last_toucher(s, i, key) == last_toucher(t, i, key),
    decreases i,
{
    if i > 0 {
        assert(keys_of(s, i - 1) == keys_of(t, i - 1));
        lemma_same_last_toucher(s, t, n, i - 1, key);
    }
}

/// Parent scans are read off the access lists alone.
proof fn lemma_same_parent_scan(s: Seq<TxAccess>, t: Seq<TxAccess>, n: int, i: int, k: int)
    requires
        same_access_lists(s, t, n),
        0 <= i < n,
    ensures
        parent_scan(s, i, k) == parent_scan(t, i, k),
    decreases k,
{
    if k > 0 {
        assert(keys_of(s, i) == keys_of(t, i));
        lemma_same_parent_scan(s, t, n, i, k - 1);
        lemma_same_last_toucher(s, t, n, i, keys_of(s, i)[k - 1]);
    }
}

/// Children lists are read off the access lists alone.
proof fn lemma_same_children(s: Seq<TxAccess>, t: Seq<TxAccess>, n: int, p: int, m: int)
    requires
        same_access_lists(s, t, n),
        m <= n,
    ensures
        children_upto(s, p, m) == children_upto(t, p, m),
    decreases m,
{
    if m > 0 {
        lemma_same_children(s, t, n, p, m - 1);
        assert(keys_of(s, m - 1) == keys_of(t, m - 1));
        lemma_same_parent_scan(s, t, n, m - 1, keys_of(s, m - 1).len() as int);
    }
}

/// The dependency graph depends only on the access lists of the first
/// `n` transactions: two blocks whose first `n` transactions name the same
/// keys, whatever their gas limits and whatever follows, get the same
/// parents and the same children.
pub proof fn law_graph_depends_only_on_access_lists(s: Seq<TxAccess>, t: Seq<TxAccess>, n: usize)
    requires
        same_access_lists(s, t, n as int),
    ensures
        initial_view(s, n).parents == initial_view(t, n).parents,
        initial_view(s, n).children == initial_view(t, n).children,
{
    assert forall|i: int| 0 <= i < n implies #[trigger] stored_parents(s, i) == stored_parents(t, i) by {
        assert(keys_of(s, i) == keys_of(t, i));
        lemma_same_parent_scan(s, t, n as int, i, keys_of(s, i).len() as int);
    }
    assert forall|p: int| 0 <= p < n implies #[trigger] children_upto(s, p, n as int) == children_upto(t, p, n as int) by {
        lemma_same_children(s, t, n as int, p, n as int);
    }
    assert(initial_view(s, n).parents =~= initial_view(t, n).parents);
    assert(initial_view(s, n).children =~= initial_view(t, n).children);
}

/// The members of a split of the roots.
proof fn lemma_roots_split(s: Seq<TxAccess>, n: int, roots: Seq<usize>, with_children: bool, j: usize)
    ensures
        roots_split(s, n, roots, with_children).contains(j) <==> roots.contains(j)
            && (children_upto(s, j as int, n).len() > 0) == with_children,
    decreases roots.len(),
{
    if roots.len() > 0 {
        lemma_roots_split(s, n, roots.drop_last(), with_children, j);
        assert(roots == roots.drop_last().push(roots.last()));
    }
}

/// A new scheduler queues each transaction without a critical parent once:
/// on the priority queue when others depend on it, on the default queue
/// when none do. Every transaction is ready for its incarnation 0.
pub proof fn law_initial_queues(s: Seq<TxAccess>, n: usize, i: usize)
    requires
        i < n,
    ensures
        initial_view(s, n).priority_queue.contains(i) <==> critical_parent(s, i as int) is None
            && children_upto(s, i as int, n as int).len() > 0,
        initial_view(s, n).default_queue.contains(i) <==> critical_parent(s, i as int) is None
            && children_upto(s, i as int, n as int).len() == 0,
        initial_view(s, n).statuses[i as int] == (TxStatus { incarnation: 0, status: IncarnationStatus::ReadyToExecute }),
{
    lemma_roots_split(s, n as int, roots_upto(s, n as int), true, i);
    lemma_roots_split(s, n as int, roots_upto(s, n as int), false, i);
    lemma_roots_upto(s, n as int);
}

// ---------------------------------------------------------------------
// No transaction is lost
// ---------------------------------------------------------------------

/// Transaction `i` waits where it will be handed out from: on one of the
/// queues, or parked on a transaction that has not finished executing.
pub open spec fn placed(s: SchedulerView, i: usize) -> bool {
    ||| s.default_queue.contains(i)
    ||| s.priority_queue.contains(i)
    ||| exists|p: int| 0 <= p < s.block_size && !is_done(s.status_of(p)) && #[trigger] s.critical_children[p].contains(i)
}

/// Every transaction that is ready to execute is placed.
pub open spec fn none_lost(s: SchedulerView) -> bool {
    forall|i: usize| i < s.block_size && s.status_of(i as int) == IncarnationStatus::ReadyToExecute ==> #[trigger] placed(s, i)
}

/// The transaction that `op` makes ready to execute again, if any.
pub open spec fn made_ready(op: SchedulerOp) -> Option<usize> {
    match op {
        SchedulerOp::SetReadyStatus(tx) => Some(tx),
        SchedulerOp::FinishValidation(tx, true) => Some(tx),
        _ => None,
    }
}

/// `w` keeps what places transactions in `u`: every queued and parked entry
/// stays, and no transaction that has not finished executing has finished.
pub open spec fn keeps_places(u: SchedulerView, w: SchedulerView) -> bool {
    &&& w.block_size == u.block_size
    &&& forall|p: int| 0 <= p < u.block_size && !is_done(u.status_of(p)) ==> !is_done(#[trigger] w.status_of(p))
    &&& forall|i: usize| #[trigger] u.default_queue.contains(i) ==> w.default_queue.contains(i)
    &&& forall|i: usize| #[trigger] u.priority_queue.contains(i) ==> w.priority_queue.contains(i)
    &&& forall|p: int, i: usize| 0 <= p < u.block_size && #[trigger] u.critical_children[p].contains(i)
        ==> w.critical_children[p].contains(i)
}

proof fn lemma_placed_kept(u: SchedulerView, w: SchedulerView, i: usize)
    requires
        keeps_places(u, w),
        placed(u, i),
    ensures
        placed(w, i),
{
    if !u.default_queue.contains(i) && !u.priority_queue.contains(i) {
        let p = choose|p: int| 0 <= p < u.block_size && !is_done(u.status_of(p)) && #[trigger] u.critical_children[p].contains(i);
        assert(w.critical_children[p].contains(i));
        assert(!is_done(w.status_of(p)));
    }
}

/// Trying an execution keeps every place, and a ready transaction tried is
/// either started or parked on a transaction that has not finished.
proof fn lemma_try_execute_places(s: SchedulerView, tx: usize)
    requires
        s.wf(),
        s.has_room(1),
    ensures
        keeps_places(s, try_execute_model(s, tx).0),
        try_execute_model(s, tx).0.status_of(tx as int) == IncarnationStatus::ReadyToExecute && tx < s.block_size
            ==> placed(try_execute_model(s, tx).0, tx),
        forall|j: int| 0 <= j < s.block_size ==> started_or_kept(s.statuses[j], #[trigger] try_execute_model(s, tx).0.statuses[j]),
{
    lemma_try_execute_starts(s, tx, 0);
    let t = try_execute_model(s, tx).0;
    assert forall|p: int| 0 <= p < s.block_size && !is_done(s.status_of(p)) implies !is_done(#[trigger] t.status_of(p)) by {
        assert(started_or_kept(s.statuses[p], t.statuses[p]));
    }
    if tx < s.block_size && s.status_of(tx as int) == IncarnationStatus::ReadyToExecute {
        lemma_first_blocking_parent(s, s.parents[tx as int]);
        if let Some(p) = first_blocking_parent(s, s.parents[tx as int]) {
            let k = choose|k: int| 0 <= k < s.parents[tx as int].len() && s.parents[tx as int][k] == p as u16;
            assert(s.parents[tx as int][k] as int == p);
            assert(t.critical_children[p] == s.critical_children[p].push(tx));
            assert(t.critical_children[p].contains(tx));
            assert(!is_done(t.status_of(p)));
        }
    }
    assert forall|p: int, i: usize| 0 <= p < s.block_size && #[trigger] s.critical_children[p].contains(i)
        implies t.critical_children[p].contains(i) by {
        let k = choose|k: int| 0 <= k < s.critical_children[p].len() && s.critical_children[p][k] == i;
        assert(t.critical_children[p][k] == i);
    }
}

/// Taking the front of a queue off and trying it keeps every ready
/// transaction placed.
proof fn lemma_pop_and_try(u: SchedulerView, a: SchedulerView, popped: Option<usize>)
    requires
        u.wf(),
        a.has_room(1),
        none_lost(u),
        a == pop_priority(u).0 && popped == pop_priority(u).1 || a == pop_default(u).0 && popped == pop_default(u).1,
    ensures
        none_lost(try_execute_popped(a, popped).0),
        try_execute_popped(a, popped).0.wf(),
{
    let b = try_execute_popped(a, popped).0;
    assert(a.wf());
    if let Some(c) = popped {
        lemma_try_execute_places(a, c);
        lemma_try_execute_model(a, c, 0);
    }
    assert forall|i: usize| i < b.block_size && b.status_of(i as int) == IncarnationStatus::ReadyToExecute implies #[trigger] placed(b, i) by {
        if let Some(c) = popped {
            assert(started_or_kept(a.statuses[i as int], b.statuses[i as int]));
        }
        assert(placed(u, i));
        if popped == Some(i) {
        } else {
            if u.default_queue.contains(i) {
                let k = choose|k: int| 0 <= k < u.default_queue.len() && u.default_queue[k] == i;
                if a.default_queue != u.default_queue {
                    assert(a.default_queue[k - 1] == i);
                }
            }
            if u.priority_queue.contains(i) {
                let k = choose|k: int| 0 <= k < u.priority_queue.len() && u.priority_queue[k] == i;
                if a.priority_queue != u.priority_queue {
                    assert(a.priority_queue[k - 1] == i);
                }
            }
            assert(placed(a, i));
            if popped is Some {
                lemma_placed_kept(a, b, i);
            }
        }
    }
}

/// Handing out the parked transactions `items` places every ready
/// transaction that was placed or on the list.
proof fn lemma_resume_places(u: SchedulerView, items: Seq<usize>, next: Option<TxVersion>)
    requires
        u.wf(),
        u.has_room(items.len()),
        forall|k: int| 0 <= k < items.len() ==> #[trigger] items[k] < u.block_size,
        forall|i: usize| i < u.block_size && u.status_of(i as int) == IncarnationStatus::ReadyToExecute
            ==> #[trigger] placed(u, i) || items.contains(i),
    ensures
        none_lost(resume_children(u, items, next).0),
    decreases items.len(),
{
    if items.len() > 0 {
        let c = items[0];
        let rest = items.drop_first();
        assert forall|k: int| 0 <= k < rest.len() implies #[trigger] rest[k] < u.block_size by {
            assert(rest[k] == items[k + 1]);
        }
        let s2 = if u.children[c as int].len() == 0 {
            SchedulerView { default_queue: u.default_queue.push(c), ..u }
        } else if next is None {
            try_execute_model(u, c).0
        } else {
            SchedulerView { priority_queue: u.priority_queue.push(c), ..u }
        };
        let next2 = if u.children[c as int].len() == 0 {
            next
        } else if next is None {
            try_execute_model(u, c).1
        } else {
            next
        };
        assert(resume_children(u, items, next) == resume_children(s2, rest, next2));
        if u.children[c as int].len() > 0 && next is None {
            lemma_try_execute_places(u, c);
            lemma_try_execute_model(u, c, rest.len());
        } else {
            assert(s2.has_room(rest.len()));
            assert(keeps_places(u, s2));
        }
        assert forall|i: usize| i < s2.block_size && s2.status_of(i as int) == IncarnationStatus::ReadyToExecute
            implies #[trigger] placed(s2, i) || rest.contains(i) by {
            if u.children[c as int].len() > 0 && next is None {
                assert(started_or_kept(u.statuses[i as int], s2.statuses[i as int]));
            }
            if i == c {
                if u.children[c as int].len() == 0 {
                    assert(s2.default_queue.contains(c));
                } else if next is Some {
                    assert(s2.priority_queue.contains(c));
                }
            } else if placed(u, i) {
                lemma_placed_kept(u, s2, i);
            } else {
                assert(items.contains(i));
                let k = choose|k: int| 0 <= k < items.len() && items[k] == i;
                assert(rest[k - 1] == i);
            }
        }
        lemma_resume_places(s2, rest, next2);
    } else {
        assert forall|i: usize| i < u.block_size && u.status_of(i as int) == IncarnationStatus::ReadyToExecute
            implies #[trigger] placed(u, i) by {
            assert(!items.contains(i));
        }
    }
}

/// A new scheduler has every transaction placed: those without a critical
/// parent are queued, the others are parked on their critical parent,
/// which is ready and so has not finished executing.
pub proof fn law_none_lost_initially(s: Seq<TxAccess>, n: usize)
    ensures
        none_lost(initial_view(s, n)),
{
    let v = initial_view(s, n);
    assert forall|i: usize| i < v.block_size && v.status_of(i as int) == IncarnationStatus::ReadyToExecute
        implies #[trigger] placed(v, i) by {
        law_initial_queues(s, n, i);
        match critical_parent(s, i as int) {
            Some(p) => {
                lemma_critical_scan(s, path_costs(s, i as int), i as int, keys_of(s, i as int).len() as int);
                lemma_critical_children_upto(s, p, n as int);
                assert(v.critical_children[p].contains(i));
                assert(!is_done(v.status_of(p)));
            },
            None => {
                if children_upto(s, i as int, n as int).len() > 0 {
                    assert(v.priority_queue.contains(i));
                } else {
                    assert(v.default_queue.contains(i));
                }
            },
        }
    }
}

/// No ready transaction is lost: every operation keeps every ready
/// transaction queued or parked on a transaction that has not finished
/// executing. The one exception is a transaction that an aborted
/// validation makes ready again (`set_ready_status`, or `finish_validation`
/// after an abort): those operations queue it nowhere, so the law holds of
/// them only when it already waits somewhere.
pub proof fn law_none_lost_kept(s: SchedulerView, op: SchedulerOp)
    requires
        op_allowed(s, op),
        none_lost(s),
        made_ready(op) matches Some(tx) ==> placed(s, tx),
    ensures
        none_lost(apply_op(s, op)),
{
    let t = apply_op(s, op);
    lemma_op(s, op);
    match op {
        SchedulerOp::TryExecute(tx) => {
            lemma_try_execute_places(s, tx);
            assert forall|i: usize| i < t.block_size && t.status_of(i as int) == IncarnationStatus::ReadyToExecute
                implies #[trigger] placed(t, i) by {
                assert(started_or_kept(s.statuses[i as int], t.statuses[i as int]));
                lemma_placed_kept(s, t, i);
            }
        },
        SchedulerOp::NextTask => {
            if !s.aborted {
                let (a, first) = pop_priority(s);
                lemma_pop_and_try(s, a, first);
                let b = try_execute_popped(a, first).0;
                lemma_try_execute_model(a, first->0, 1);
                let (c, second) = pop_default(b);
                lemma_pop_and_try(b, c, second);
                let d = try_execute_popped(c, second).0;
                let started = try_execute_popped(a, first).1;
                assert forall|i: usize| i < t.block_size && t.status_of(i as int) == IncarnationStatus::ReadyToExecute
                    implies #[trigger] placed(t, i) by {
                    if started is Some {
                        assert(t == b);
                        assert(placed(b, i));
                    } else {
                        assert(t.statuses == d.statuses);
                        assert(t.block_size == d.block_size);
                        assert(placed(d, i));
                        assert(t.default_queue == d.default_queue);
                        assert(t.priority_queue == d.priority_queue);
                        assert(t.critical_children == d.critical_children);
                    }
                }
            }
        },
        SchedulerOp::FinishExecution(v, flags) => {
            let tx = v.tx_idx;
            let status = if flags.need_validation {
                IncarnationStatus::Executed
            } else {
                IncarnationStatus::Validated
            };
            let s1 = s.with_status(tx as int, status);
            let items = s1.critical_children[tx as int];
            assert(s1.wf());
            assert forall|i: usize| i < s1.block_size && s1.status_of(i as int) == IncarnationStatus::ReadyToExecute
                implies #[trigger] placed(s1, i) || items.contains(i) by {
                assert(placed(s, i));
                if !s.default_queue.contains(i) && !s.priority_queue.contains(i) {
                    let p = choose|p: int| 0 <= p < s.block_size && !is_done(s.status_of(p)) && #[trigger] s.critical_children[p].contains(i);
                    if p != tx {
                        assert(s1.critical_children[p].contains(i));
                        assert(!is_done(s1.status_of(p)));
                    }
                }
            }
            lemma_resume_places(s1, items, None);
        },
        _ => {
            assert forall|i: usize| i < t.block_size && t.status_of(i as int) == IncarnationStatus::ReadyToExecute
                implies #[trigger] placed(t, i) by {
                assert(keeps_places(s, t));
                if made_ready(op) == Some(i) {
                    lemma_placed_kept(s, t, i);
                } else {
                    assert(s.status_of(i as int) == IncarnationStatus::ReadyToExecute);
                    lemma_placed_kept(s, t, i);
                }
            }
        },
    }
}

} // verus!
