//! The Chiron scheduler: which transaction to execute or validate next, and
//! how each reported outcome changes the state of the block.
//!
//! Execution tasks come from two queues: a priority queue for transactions
//! that others depend on, and a default queue for the rest. A transaction
//! is handed out for execution only once all of its dependencies have
//! executed; otherwise it is parked on the list of the first dependency that
//! has not, and that dependency hands it out again when it finishes.
//! Validation tasks are handed out in transaction order, one at a time, for
//! transactions whose latest incarnation has executed.
use vstd::prelude::*;
use crate::types::{is_done, FinishExecFlags, IncarnationStatus, NextTask, Task, TxAccess, TxIdx, TxStatus, TxVersion};
use crate::outside::{
    boxcar_capacity, boxcar_count, boxcar_index, boxcar_items, boxcar_push, channel_send,
    channel_try_recv, channel_unbounded, queued, TaskChannel,
};
use crate::laws::{law_shape_kept, SchedulerOp};
use crate::graph::{
    build_dependency_graph, children_upto, costs_fit, critical_children_upto, keys_of,
    lemma_children_upto, lemma_critical_children_upto, lemma_parent_scan, lemma_roots_upto,
    parents_of, roots_upto, stored_parents, DependencyGraph,
};

verus! {

/// The state of a scheduler as a plain value.
pub struct SchedulerView {
    /// The number of transactions in the block.
    pub block_size: usize,
    /// The latest incarnation of each transaction and its status.
    pub statuses: Seq<TxStatus>,
    /// The next transaction to validate.
    pub validation_idx: usize,
    /// Whether the block was aborted.
    pub aborted: bool,
    /// Transactions waiting for execution that nothing depends on, oldest first.
    pub default_queue: Seq<usize>,
    /// Transactions waiting for execution that others depend on, oldest first.
    pub priority_queue: Seq<usize>,
    /// For each transaction, the transactions to hand out again once it has
    /// executed (those whose critical parent it is, and those parked on it).
    pub critical_children: Seq<Seq<usize>>,
    /// For each transaction, the transactions that depend on it.
    pub children: Seq<Seq<usize>>,
    /// For each transaction, the transactions it depends on, cut to 16 bits.
    pub parents: Seq<Seq<u16>>,
}

impl SchedulerView {
    /// The shape that every operation keeps: one entry per transaction in
    /// each table, every stored index inside the block, every parent before
    /// its child, and the validation cursor at most the block size.
    pub open spec fn wf(self) -> bool {
        &&& self.statuses.len() == self.block_size
        &&& self.children.len() == self.block_size
        &&& self.parents.len() == self.block_size
        &&& self.critical_children.len() == self.block_size
        &&& self.validation_idx <= self.block_size
        &&& forall|p: int, k: int| 0 <= p < self.block_size && 0 <= k < self.children[p].len()
            ==> #[trigger] self.children[p][k] < self.block_size
        &&& forall|i: int, k: int| 0 <= i < self.block_size && 0 <= k < self.parents[i].len()
            ==> (#[trigger] self.parents[i][k] as int) < i
        &&& forall|p: int, k: int| 0 <= p < self.block_size && 0 <= k < self.critical_children[p].len()
            ==> #[trigger] self.critical_children[p][k] < self.block_size
    }

    /// Every list of parked transactions can take `extra` more entries.
    pub open spec fn has_room(self, extra: nat) -> bool {
        forall|p: int| 0 <= p < self.block_size ==> #[trigger] self.critical_children[p].len() + extra
            <= boxcar_capacity()
    }

    /// The status of transaction `tx`.
    pub open spec fn status_of(self, tx: int) -> IncarnationStatus {
        self.statuses[tx].status
    }

    /// The state with the status of `tx` replaced, its incarnation kept.
    pub open spec fn with_status(self, tx: int, status: IncarnationStatus) -> SchedulerView {
        SchedulerView {
            statuses: self.statuses.update(tx, TxStatus { incarnation: self.statuses[tx].incarnation, status }),
            ..self
        }
    }

    /// The state with `tx` parked on the list of `p`.
    pub open spec fn with_parked(self, p: int, tx: usize) -> SchedulerView {
        SchedulerView {
            critical_children: self.critical_children.update(p, self.critical_children[p].push(tx)),
            ..self
        }
    }
}

/// The first of the parents `ps` whose latest incarnation has not finished
/// executing (see `is_done`), if any.
pub open spec fn first_blocking_parent(s: SchedulerView, ps: Seq<u16>) -> Option<int>
    decreases ps.len(),
{
    if ps.len() == 0 {
        None
    } else if !is_done(s.status_of(ps[0] as int)) {
        Some(ps[0] as int)
    } else {
        first_blocking_parent(s, ps.drop_first())
    }
}

/// Trying to start the execution of `tx`: it must be in the block and ready
/// to execute. If a parent has not finished executing, `tx` is parked on
/// that parent's list and nothing is started; otherwise `tx` becomes
/// `Executing` and its latest incarnation is handed out.
pub open spec fn try_execute_model(s: SchedulerView, tx: usize) -> (SchedulerView, Option<TxVersion>) {
    if tx < s.block_size && s.status_of(tx as int) == IncarnationStatus::ReadyToExecute {
        match first_blocking_parent(s, s.parents[tx as int]) {
            Some(p) => (s.with_parked(p, tx), None),
            None => (
                s.with_status(tx as int, IncarnationStatus::Executing),
                Some(TxVersion { tx_idx: tx, tx_incarnation: s.statuses[tx as int].incarnation }),
            ),
        }
    } else {
        (s, None)
    }
}

/// Trying to hand out the next validation: the transaction at the
/// validation cursor, if it is in the block and has executed; the cursor
/// then moves on by one.
pub open spec fn try_validate_model(s: SchedulerView) -> (SchedulerView, Option<TxVersion>) {
    if s.validation_idx < s.block_size && s.status_of(s.validation_idx as int) == IncarnationStatus::Executed {
        (
            SchedulerView { validation_idx: (s.validation_idx + 1) as usize, ..s },
            Some(TxVersion { tx_idx: s.validation_idx, tx_incarnation: s.statuses[s.validation_idx as int].incarnation }),
        )
    } else {
        (s, None)
    }
}

/// Marking `tx` ready for its next incarnation.
pub open spec fn set_ready_status_model(s: SchedulerView, tx: usize) -> SchedulerView {
    SchedulerView {
        statuses: s.statuses.update(
            tx as int,
            TxStatus { incarnation: (s.statuses[tx as int].incarnation + 1) as usize, status: IncarnationStatus::ReadyToExecute },
        ),
        ..s
    }
}

/// Trying to abort the latest incarnation of a transaction after a failed
/// validation: succeeds, and marks it `Aborting`, only if it has finished
/// executing.
pub open spec fn try_validation_abort_model(s: SchedulerView, tx: usize) -> (SchedulerView, bool) {
    if is_done(s.status_of(tx as int)) {
        (s.with_status(tx as int, IncarnationStatus::Aborting), true)
    } else {
        (s, false)
    }
}

/// Finishing a validation: an aborted one makes the transaction ready for
/// its next incarnation; a passed one marks an executed transaction validated.
pub open spec fn finish_validation_model(s: SchedulerView, tx: usize, aborted: bool) -> SchedulerView {
    if aborted {
        set_ready_status_model(s, tx)
    } else if s.status_of(tx as int) == IncarnationStatus::Executed {
        s.with_status(tx as int, IncarnationStatus::Validated)
    } else {
        s
    }
}

/// Taking the oldest transaction off the priority queue, if any.
pub open spec fn pop_priority(s: SchedulerView) -> (SchedulerView, Option<usize>) {
    if s.priority_queue.len() == 0 {
        (s, None)
    } else {
        (SchedulerView { priority_queue: s.priority_queue.drop_first(), ..s }, Some(s.priority_queue[0]))
    }
}

/// Taking the oldest transaction off the default queue, if any.
pub open spec fn pop_default(s: SchedulerView) -> (SchedulerView, Option<usize>) {
    if s.default_queue.len() == 0 {
        (s, None)
    } else {
        (SchedulerView { default_queue: s.default_queue.drop_first(), ..s }, Some(s.default_queue[0]))
    }
}

/// Trying to start the execution of a transaction taken off a queue.
pub open spec fn try_execute_popped(s: SchedulerView, popped: Option<usize>) -> (SchedulerView, Option<TxVersion>) {
    match popped {
        Some(tx) => try_execute_model(s, tx),
        None => (s, None),
    }
}

/// One round of the task search. An aborted block has no more tasks.
/// Otherwise: the oldest transaction of the priority queue, then the oldest
/// of the default queue, is taken off its queue and tried for execution;
/// the first that starts is the task. If neither does, the block is
/// finished once the validation cursor has passed its end; before that,
/// the transaction at the cursor is validated if it has executed, and if
/// not, the round ends without a task (`Retry`).
pub open spec fn next_task_model(s: SchedulerView) -> (SchedulerView, NextTask) {
    if s.aborted {
        (s, NextTask::Finished)
    } else {
        let (a, first) = pop_priority(s);
        let (b, started) = try_execute_popped(a, first);
        if let Some(v) = started {
            (b, NextTask::Run(Task::Execution(v)))
        } else {
            let (c, second) = pop_default(b);
            let (d, started2) = try_execute_popped(c, second);
            if let Some(v) = started2 {
                (d, NextTask::Run(Task::Execution(v)))
            } else if d.validation_idx >= d.block_size {
                (d, NextTask::Finished)
            } else {
                let (e, validated) = try_validate_model(d);
                match validated {
                    Some(v) => (e, NextTask::Run(Task::Validation(v))),
                    None => (e, NextTask::Retry),
                }
            }
        }
    }
}

/// Handing out again the transactions `items` after their critical parent
/// executed, in order, given the execution `next` found so far. One that
/// nothing depends on joins the default queue. Of the others, until an
/// execution has been found each is tried for execution (and dropped if it
/// does not start, or parked on a parent that has not executed); once one
/// has been found the rest join the priority queue.
pub open spec fn resume_children(s: SchedulerView, items: Seq<usize>, next: Option<TxVersion>) -> (SchedulerView, Option<TxVersion>)
    decreases items.len(),
{
    if items.len() == 0 {
        (s, next)
    } else {
        let c = items[0];
        let (s2, next2) = if s.children[c as int].len() == 0 {
            (SchedulerView { default_queue: s.default_queue.push(c), ..s }, next)
        } else if next is None {
            try_execute_model(s, c)
        } else {
            (SchedulerView { priority_queue: s.priority_queue.push(c), ..s }, next)
        };
        resume_children(s2, items.drop_first(), next2)
    }
}

/// Finishing the execution of `tx`: it becomes `Executed`, or `Validated`
/// when it needs no validation; then the transactions on its list are
/// handed out again (see `resume_children`), and the first of them that
/// starts executing is the next task.
pub open spec fn finish_execution_model(s: SchedulerView, tx: usize, flags: FinishExecFlags) -> (SchedulerView, Option<Task>) {
    let status = if flags.need_validation {
        IncarnationStatus::Executed
    } else {
        IncarnationStatus::Validated
    };
    let s1 = s.with_status(tx as int, status);
    let (s2, next) = resume_children(s1, s1.critical_children[tx as int], None);
    (s2, match next {
        Some(v) => Some(Task::Execution(v)),
        None => None,
    })
}

/// What trying an execution keeps: the shape of the state, everything but
/// one status and one parked list, and room for one push less.
pub proof fn lemma_try_execute_model(s: SchedulerView, tx: usize, room: nat)
    requires
        s.wf(),
        s.has_room(room + 1),
    ensures
        try_execute_model(s, tx).0.wf(),
        try_execute_model(s, tx).0.has_room(room),
        try_execute_model(s, tx).0.block_size == s.block_size,
        try_execute_model(s, tx).0.validation_idx == s.validation_idx,
        try_execute_model(s, tx).0.aborted == s.aborted,
        try_execute_model(s, tx).0.default_queue == s.default_queue,
        try_execute_model(s, tx).0.priority_queue == s.priority_queue,
        try_execute_model(s, tx).0.children == s.children,
        try_execute_model(s, tx).0.parents == s.parents,
        forall|i: int| 0 <= i < s.block_size && i != tx ==> #[trigger] try_execute_model(s, tx).0.statuses[i] == s.statuses[i],
        forall|i: int| 0 <= i < s.block_size && s.status_of(i) != IncarnationStatus::ReadyToExecute ==> #[trigger] try_execute_model(s, tx).0.statuses[i] == s.statuses[i],
        forall|p: int| 0 <= p < s.block_size && !is_done(s.status_of(p)) && p != tx ==> #[trigger] try_execute_model(s, tx).0.critical_children[p].len() >= s.critical_children[p].len(),
        forall|p: int| 0 <= p < s.block_size && is_done(s.status_of(p)) ==> #[trigger] try_execute_model(s, tx).0.critical_children[p] == s.critical_children[p],
{
    if tx < s.block_size && s.status_of(tx as int) == IncarnationStatus::ReadyToExecute {
        lemma_first_blocking_parent(s, s.parents[tx as int]);
        match first_blocking_parent(s, s.parents[tx as int]) {
            Some(p) => {
                let t = s.with_parked(p, tx);
                assert forall|q: int, k: int| 0 <= q < t.block_size && 0 <= k < t.critical_children[q].len()
                    implies #[trigger] t.critical_children[q][k] < t.block_size by {
                    if q == p && k == s.critical_children[p].len() {
                    }
                }
            },
            None => {},
        }
    }
}

/// The first blocking parent is one of the parents and has not finished executing.
pub proof fn lemma_first_blocking_parent(s: SchedulerView, ps: Seq<u16>)
    ensures
        first_blocking_parent(s, ps) matches Some(p) ==> ps.contains(p as u16) && !is_done(s.status_of(p)) && p == (p as u16) as int,
        first_blocking_parent(s, ps) is None ==> forall|k: int| 0 <= k < ps.len() ==> is_done(s.status_of(#[trigger] ps[k] as int)),
    decreases ps.len(),
{
    if ps.len() > 0 {
        lemma_first_blocking_parent(s, ps.drop_first());
        if is_done(s.status_of(ps[0] as int)) {
            assert forall|k: int| 0 <= k < ps.len() && first_blocking_parent(s, ps) is None implies is_done(s.status_of(#[trigger] ps[k] as int)) by {
                if k > 0 {
                    assert(ps[k] == ps.drop_first()[k - 1]);
                }
            }
            if let Some(p) = first_blocking_parent(s, ps) {
                assert(ps.drop_first().contains(p as u16));
            }
        }
    }
}

/// The transactions of `roots` that have children among the first `n`
/// transactions (`with_children`), or that have none, in the order of `roots`.
pub open spec fn roots_split(s: Seq<TxAccess>, n: int, roots: Seq<usize>, with_children: bool) -> Seq<usize>
    decreases roots.len(),
{
    if roots.len() == 0 {
        Seq::empty()
    } else {
        let prev = roots_split(s, n, roots.drop_last(), with_children);
        let j = roots.last();
        if (children_upto(s, j as int, n).len() > 0) == with_children {
            prev.push(j)
        } else {
            prev
        }
    }
}

/// The state of a new scheduler for the first `n` transactions of `s`:
/// every transaction ready for its incarnation 0, the validation cursor at
/// 0, the dependency graph of the block, and the transactions without a
/// critical parent queued for execution: on the priority queue those that
/// others depend on, on the default queue the rest.
pub open spec fn initial_view(s: Seq<TxAccess>, n: usize) -> SchedulerView {
    SchedulerView {
        block_size: n,
        statuses: Seq::new(n as nat, |i: int| TxStatus { incarnation: 0, status: IncarnationStatus::ReadyToExecute }),
        validation_idx: 0,
        aborted: false,
        default_queue: roots_split(s, n as int, roots_upto(s, n as int), false),
        priority_queue: roots_split(s, n as int, roots_upto(s, n as int), true),
        critical_children: Seq::new(n as nat, |p: int| critical_children_upto(s, p, n as int)),
        children: Seq::new(n as nat, |p: int| children_upto(s, p, n as int)),
        parents: Seq::new(n as nat, |i: int| stored_parents(s, i)),
    }
}

/// A transaction index cut to 16 bits is no larger than it was.
pub proof fn lemma_cut_to_u16(p: int)
    requires
        0 <= p <= usize::MAX,
    ensures
        (p as u16) as int <= p,
{
    let q = p as usize;
    assert((q as u16) as usize <= q) by (bit_vector);
}

/// The scheduler of one block.
pub struct ChironScheduler {
    block_size: usize,
    transactions_status: Vec<TxStatus>,
    validation_idx: usize,
    aborted: bool,
    default_channel: TaskChannel,
    priority_channel: TaskChannel,
    critical_path_parent: Vec<boxcar::Vec<usize>>,
    children: Vec<Vec<TxIdx>>,
    parents: Vec<Vec<u16>>,
}

impl View for ChironScheduler {
    type V = SchedulerView;

    closed spec fn view(&self) -> SchedulerView {
        SchedulerView {
            block_size: self.block_size,
            statuses: self.transactions_status@,
            validation_idx: self.validation_idx,
            aborted: self.aborted,
            default_queue: queued(self.default_channel),
            priority_queue: queued(self.priority_channel),
            critical_children: self.critical_path_parent@.map_values(|v: boxcar::Vec<usize>| boxcar_items(v)),
            children: self.children@.map_values(|v: Vec<usize>| v@),
            parents: self.parents@.map_values(|v: Vec<u16>| v@),
        }
    }
}

impl ChironScheduler {
    /// A scheduler for the first `block_size` transactions of `txs` (see
    /// `initial_view`). The critical-path costs of the block must fit in 32
    /// bits (see `costs_fit`); `critical_costs_fit` tells whether they do.
    pub fn new(block_size: usize, txs: &Vec<TxAccess>) -> (sched: Self)
        requires
            block_size <= txs.len(),
            block_size < boxcar_capacity(),
            costs_fit(txs@, block_size as int),
        ensures
            sched@ == initial_view(txs@, block_size),
            sched@.wf(),
    {
        let ghost s = txs@;
        let ghost n = block_size as int;
        let mut default_channel = channel_unbounded();
        let mut priority_channel = channel_unbounded();
        let graph = build_dependency_graph(block_size, txs);
        let DependencyGraph { children, parents, critical_children, roots } = graph;
        let mut k: usize = 0;
        assert(roots@.take(0) =~= Seq::<usize>::empty());
        while k < roots.len()
            invariant
                roots@ == roots_upto(s, n),
                children@.len() == n,
                forall|p: int| 0 <= p < n ==> (#[trigger] children@[p])@ == children_upto(s, p, n),
                0 <= n <= usize::MAX,
                k <= roots.len(),
                queued(default_channel) == roots_split(s, n, roots@.take(k as int), false),
                queued(priority_channel) == roots_split(s, n, roots@.take(k as int), true),
            decreases roots.len() - k,
        {
            let i = roots[k];
            proof {
                lemma_roots_upto(s, n);
                assert(roots@.take(k + 1).drop_last() == roots@.take(k as int));
                assert(roots@.take(k + 1).last() == i);
            }
            if children[i].len() == 0 {
                channel_send(&mut default_channel, i);
            } else {
                channel_send(&mut priority_channel, i);
            }
            k = k + 1;
        }
        assert(roots@.take(k as int) == roots@);
        let mut transactions_status: Vec<TxStatus> = Vec::new();
        let mut j: usize = 0;
        while j < block_size
            invariant
                j <= block_size,
                transactions_status@ == Seq::new(j as nat, |i: int| TxStatus { incarnation: 0, status: IncarnationStatus::ReadyToExecute }),
            decreases block_size - j,
        {
            transactions_status.push(TxStatus { incarnation: 0, status: IncarnationStatus::ReadyToExecute });
            j = j + 1;
            assert(transactions_status@ =~= Seq::new(j as nat, |i: int| TxStatus { incarnation: 0, status: IncarnationStatus::ReadyToExecute }));
        }
        let sched = ChironScheduler {
            block_size,
            transactions_status,
            validation_idx: 0,
            aborted: false,
            default_channel,
            priority_channel,
            critical_path_parent: critical_children,
            children,
            parents,
        };
        let ghost v = initial_view(s, block_size);
        assert(sched@.critical_children =~= v.critical_children);
        assert(sched@.children =~= v.children);
        assert(sched@.parents =~= v.parents);
        proof {
            assert forall|p: int, k: int| 0 <= p < n && 0 <= k < v.children[p].len()
                implies #[trigger] v.children[p][k] < n by {
                lemma_children_upto(s, p, n);
            }
            assert forall|p: int, k: int| 0 <= p < n && 0 <= k < v.critical_children[p].len()
                implies #[trigger] v.critical_children[p][k] < n by {
                lemma_critical_children_upto(s, p, n);
            }
            assert forall|i: int, k: int| 0 <= i < n && 0 <= k < v.parents[i].len()
                implies (#[trigger] v.parents[i][k] as int) < i by {
                lemma_parent_scan(s, i, keys_of(s, i).len() as int);
                let p = parents_of(s, i)[k];
                lemma_cut_to_u16(p);
            }
        }
        sched
    }

    /// Marks the block aborted: no more tasks are handed out.
    pub fn abort(&mut self)
        ensures
            final(self)@ == (SchedulerView { aborted: true, ..old(self)@ }),
            old(self)@.wf() ==> final(self)@.wf(),
    {
        self.aborted = true;
    }

    /// Hands out the execution of `tx_idx` if it is ready and all of its
    /// parents have finished executing (see `try_execute_model`).
    pub fn try_execute(&mut self, tx_idx: TxIdx) -> (r: Option<TxVersion>)
        requires
            old(self)@.wf(),
            old(self)@.has_room(1),
        ensures
            (final(self)@, r) == try_execute_model(old(self)@, tx_idx),
            final(self)@.wf(),
    {
        proof {
            law_shape_kept(old(self)@, SchedulerOp::TryExecute(tx_idx));
        }
        if tx_idx < self.block_size {
            if self.transactions_status[tx_idx].status == IncarnationStatus::ReadyToExecute {
                let ghost s = self@;
                let n = self.parents[tx_idx].len();
                let mut k: usize = 0;
                assert(s.parents[tx_idx as int].skip(0) =~= s.parents[tx_idx as int]);
                while k < n
                    invariant
                        s == self@,
                        s == old(self)@,
                        s.wf(),
                        s.has_room(1),
                        tx_idx < s.block_size,
                        s.status_of(tx_idx as int) == IncarnationStatus::ReadyToExecute,
                        n == s.parents[tx_idx as int].len(),
                        self.parents@.len() == s.block_size,
                        self.parents@[tx_idx as int]@ == s.parents[tx_idx as int],
                        k <= n,
                        first_blocking_parent(s, s.parents[tx_idx as int])
                            == first_blocking_parent(s, s.parents[tx_idx as int].skip(k as int)),
                    decreases n - k,
                {
                    let usize_dep = self.parents[tx_idx][k] as usize;
                    proof {
                        assert(s.parents[tx_idx as int].skip(k as int)[0] == s.parents[tx_idx as int][k as int]);
                        assert(s.parents[tx_idx as int].skip(k as int).drop_first() == s.parents[tx_idx as int].skip(k + 1));
                    }
                    let status = self.transactions_status[usize_dep].status;
                    if status != IncarnationStatus::Executed && status != IncarnationStatus::Validated {
                        assert(usize_dep < s.block_size);
                        assert(boxcar_items(self.critical_path_parent@[usize_dep as int]) == s.critical_children[usize_dep as int]);
                        boxcar_push(&mut self.critical_path_parent[usize_dep], tx_idx);
                        assert(first_blocking_parent(s, s.parents[tx_idx as int].skip(k as int)) == Some(usize_dep as int));
                        assert(self@.critical_children =~= s.with_parked(usize_dep as int, tx_idx).critical_children);
                        assert(self@ == s.with_parked(usize_dep as int, tx_idx));
                        return None;
                    }
                    k = k + 1;
                }
                let incarnation = self.transactions_status[tx_idx].incarnation;
                self.transactions_status.set(tx_idx, TxStatus { incarnation, status: IncarnationStatus::Executing });
                return Some(TxVersion { tx_idx, tx_incarnation: incarnation });
            }
        }
        None
    }

    /// One round of the task search (see `next_task_model`). A worker calls
    /// it again after `Retry`, and stops after `Finished`.
    pub fn next_task(&mut self) -> (r: NextTask)
        requires
            old(self)@.wf(),
            old(self)@.aborted || old(self)@.has_room(2),
        ensures
            (final(self)@, r) == next_task_model(old(self)@),
            final(self)@.wf(),
    {
        proof {
            law_shape_kept(old(self)@, SchedulerOp::NextTask);
        }
        if self.aborted {
            return NextTask::Finished;
        }
        let ghost s0 = self@;
        // The priority queue first.
        let first = channel_try_recv(&mut self.priority_channel);
        assert(self@ == pop_priority(s0).0);
        proof {
            lemma_try_execute_model(self@, first->0, 1);
        }
        if let Some(tx_id) = first {
            if let Some(tx_version) = self.try_execute(tx_id) {
                return NextTask::Run(Task::Execution(tx_version));
            }
        }
        let ghost s1 = self@;
        assert(s1 == try_execute_popped(pop_priority(s0).0, first).0);
        // Then the default queue.
        let second = channel_try_recv(&mut self.default_channel);
        assert(self@ == pop_default(s1).0);
        proof {
            lemma_try_execute_model(self@, second->0, 0);
        }
        if let Some(tx_id) = second {
            if let Some(tx_version) = self.try_execute(tx_id) {
                return NextTask::Run(Task::Execution(tx_version));
            }
        }
        // Finished only once the validation cursor has reached the end of the block.
        if self.validation_idx >= self.block_size {
            return NextTask::Finished;
        }
        if let Some(tx_version) = self.try_validate() {
            return NextTask::Run(Task::Validation(tx_version));
        }
        NextTask::Retry
    }

    /// Finishes the execution of `tx_version` and hands out again the
    /// transactions parked on it (see `finish_execution_model`); returns the
    /// first of them that starts executing, as the worker's next task.
    pub fn finish_execution(&mut self, tx_version: TxVersion, flags: FinishExecFlags) -> (r: Option<Task>)
        requires
            old(self)@.wf(),
            tx_version.tx_idx < old(self)@.block_size,
            old(self)@.status_of(tx_version.tx_idx as int) == IncarnationStatus::Executing,
            old(self)@.statuses[tx_version.tx_idx as int].incarnation == tx_version.tx_incarnation,
            old(self)@.has_room(old(self)@.critical_children[tx_version.tx_idx as int].len()),
        ensures
            (final(self)@, r) == finish_execution_model(old(self)@, tx_version.tx_idx, flags),
            final(self)@.wf(),
    {
        proof {
            law_shape_kept(old(self)@, SchedulerOp::FinishExecution(tx_version, flags));
        }
        let tx_idx = tx_version.tx_idx;
        let status = if flags.contains_need_validation() {
            IncarnationStatus::Executed
        } else {
            IncarnationStatus::Validated
        };
        let incarnation = self.transactions_status[tx_idx].incarnation;
        self.transactions_status.set(tx_idx, TxStatus { incarnation, status });
        let ghost s1 = self@;
        assert(s1 == old(self)@.with_status(tx_idx as int, status));
        let ghost items = s1.critical_children[tx_idx as int];
        let count = boxcar_count(&self.critical_path_parent[tx_idx]);
        assert(items.skip(0) =~= items);
        let mut got_next = false;
        let mut next: Option<TxVersion> = None;
        let mut i: usize = 0;
        while i < count
            invariant
                self@.wf(),
                self@.has_room((count - i) as nat),
                self@.block_size == s1.block_size,
                tx_idx < self@.block_size,
                is_done(self@.status_of(tx_idx as int)),
                self@.critical_children[tx_idx as int] == items,
                count == items.len(),
                i <= count,
                got_next == next is Some,
                resume_children(self@, items.skip(i as int), next) == resume_children(s1, items, None),
            decreases count - i,
        {
            let ghost before = self@;
            assert(boxcar_items(self.critical_path_parent@[tx_idx as int]) == items);
            let tx = boxcar_index(&self.critical_path_parent[tx_idx], i);
            proof {
                assert(items.skip(i as int)[0] == tx);
                assert(items.skip(i as int).drop_first() == items.skip(i + 1));
                lemma_try_execute_model(before, tx, (count - i - 1) as nat);
            }
            if self.children[tx].len() == 0 {
                channel_send(&mut self.default_channel, tx);
                assert(self@ == (SchedulerView { default_queue: before.default_queue.push(tx), ..before }));
            } else if !got_next {
                if let Some(version) = self.try_execute(tx) {
                    next = Some(version);
                    got_next = true;
                }
            } else {
                channel_send(&mut self.priority_channel, tx);
                assert(self@ == (SchedulerView { priority_queue: before.priority_queue.push(tx), ..before }));
            }
            i = i + 1;
        }
        match next {
            Some(version) => Some(Task::Execution(version)),
            None => None,
        }
    }

    /// Hands out the validation of the transaction at the validation cursor
    /// if it has executed, and moves the cursor on (see `try_validate_model`).
    pub fn try_validate(&mut self) -> (r: Option<TxVersion>)
        requires
            old(self)@.wf(),
        ensures
            (final(self)@, r) == try_validate_model(old(self)@),
            final(self)@.wf(),
    {
        proof {
            law_shape_kept(old(self)@, SchedulerOp::TryValidate);
        }
        let tx_idx = self.validation_idx;
        if tx_idx < self.block_size {
            let tx = self.transactions_status[tx_idx];
            if tx.status == IncarnationStatus::Executed {
                self.validation_idx = self.validation_idx + 1;
                return Some(TxVersion { tx_idx, tx_incarnation: tx.incarnation });
            }
        }
        None
    }

    /// Marks the aborted transaction `tx_idx` ready for its next incarnation,
    /// whose number is one more.
    pub fn set_ready_status(&mut self, tx_idx: TxIdx)
        requires
            old(self)@.wf(),
            tx_idx < old(self)@.block_size,
            old(self)@.status_of(tx_idx as int) == IncarnationStatus::Aborting,
            old(self)@.statuses[tx_idx as int].incarnation < usize::MAX,
        ensures
            final(self)@ == set_ready_status_model(old(self)@, tx_idx),
            final(self)@.wf(),
    {
        proof {
            law_shape_kept(old(self)@, SchedulerOp::SetReadyStatus(tx_idx));
        }
        let incarnation = self.transactions_status[tx_idx].incarnation;
        self.transactions_status.set(
            tx_idx,
            TxStatus { incarnation: incarnation + 1, status: IncarnationStatus::ReadyToExecute },
        );
    }

    /// Aborts the latest incarnation of a transaction whose validation failed,
    /// if it has finished executing; returns whether it did. Only one of the
    /// failed validations of an incarnation can abort it.
    pub fn try_validation_abort(&mut self, tx_version: &TxVersion) -> (aborting: bool)
        requires
            old(self)@.wf(),
            tx_version.tx_idx < old(self)@.block_size,
        ensures
            (final(self)@, aborting) == try_validation_abort_model(old(self)@, tx_version.tx_idx),
            final(self)@.wf(),
    {
        proof {
            law_shape_kept(old(self)@, SchedulerOp::TryValidationAbort(tx_version.tx_idx));
        }
        let tx = self.transactions_status[tx_version.tx_idx];
        let aborting = tx.status == IncarnationStatus::Executed || tx.status == IncarnationStatus::Validated;
        if aborting {
            self.transactions_status.set(
                tx_version.tx_idx,
                TxStatus { incarnation: tx.incarnation, status: IncarnationStatus::Aborting },
            );
        }
        aborting
    }

    /// Finishes a validation. After a successful abort the transaction is
    /// made ready for its next incarnation; otherwise an executed transaction
    /// becomes validated. No task follows from it.
    pub fn finish_validation(&mut self, tx_version: &TxVersion, aborted: bool) -> (r: Option<Task>)
        requires
            old(self)@.wf(),
            tx_version.tx_idx < old(self)@.block_size,
            aborted ==> old(self)@.status_of(tx_version.tx_idx as int) == IncarnationStatus::Aborting,
            aborted ==> old(self)@.statuses[tx_version.tx_idx as int].incarnation < usize::MAX,
        ensures
            final(self)@ == finish_validation_model(old(self)@, tx_version.tx_idx, aborted),
            r is None,
            final(self)@.wf(),
    {
        proof {
            law_shape_kept(old(self)@, SchedulerOp::FinishValidation(tx_version.tx_idx, aborted));
        }
        if aborted {
            self.set_ready_status(tx_version.tx_idx);
        } else {
            let tx = self.transactions_status[tx_version.tx_idx];
            if tx.status == IncarnationStatus::Executed {
                self.transactions_status.set(
                    tx_version.tx_idx,
                    TxStatus { incarnation: tx.incarnation, status: IncarnationStatus::Validated },
                );
            }
        }
        None
    }

    /// Records that `tx_idx` read a value that `blocking_tx_idx` is yet to
    /// write. This scheduler orders transactions by their access lists up
    /// front, so the call is only meaningful for a blocking transaction that
    /// has already finished executing: the dependency is then moot and
    /// `false` is returned, with nothing changed.
    pub fn add_dependency(&mut self, tx_idx: TxIdx, blocking_tx_idx: TxIdx) -> (r: bool)
        requires
            old(self)@.wf(),
            blocking_tx_idx < old(self)@.block_size,
            is_done(old(self)@.status_of(blocking_tx_idx as int)),
        ensures
            final(self)@ == old(self)@,
            r == false,
    {
        // The precondition rules out a blocking transaction that has not
        // finished executing, on which this scheduler has no way to wait.
        false
    }

    /// The number of transactions in the block.
    pub fn block_size(&self) -> (n: usize)
        ensures
            n == self@.block_size,
    {
        self.block_size
    }

    /// The latest incarnation of transaction `tx_idx` and its status.
    pub fn tx_status(&self, tx_idx: TxIdx) -> (st: TxStatus)
        requires
            self@.wf(),
            tx_idx < self@.block_size,
        ensures
            st == self@.statuses[tx_idx as int],
    {
        self.transactions_status[tx_idx]
    }

    /// The next transaction to validate.
    pub fn validation_index(&self) -> (idx: usize)
        ensures
            idx == self@.validation_idx,
    {
        self.validation_idx
    }

    /// Whether the block was aborted.
    pub fn is_aborted(&self) -> (b: bool)
        ensures
            b == self@.aborted,
    {
        self.aborted
    }

    /// The transactions that depend on `tx_idx`.
    pub fn children_of(&self, tx_idx: TxIdx) -> (c: &Vec<TxIdx>)
        requires
            self@.wf(),
            tx_idx < self@.block_size,
        ensures
            c@ == self@.children[tx_idx as int],
    {
        &self.children[tx_idx]
    }

    /// The transactions that `tx_idx` depends on, cut to 16 bits.
    pub fn parents_of(&self, tx_idx: TxIdx) -> (p: &Vec<u16>)
        requires
            self@.wf(),
            tx_idx < self@.block_size,
        ensures
            p@ == self@.parents[tx_idx as int],
    {
        &self.parents[tx_idx]
    }

    /// The transactions to hand out again once `tx_idx` has executed.
    pub fn critical_children_of(&self, tx_idx: TxIdx) -> (c: Vec<TxIdx>)
        requires
            self@.wf(),
            tx_idx < self@.block_size,
        ensures
            c@ == self@.critical_children[tx_idx as int],
    {
        let list = &self.critical_path_parent[tx_idx];
        let count = boxcar_count(list);
        let mut c: Vec<TxIdx> = Vec::new();
        let mut i: usize = 0;
        while i < count
            invariant
                count == boxcar_items(*list).len(),
                i <= count,
                c@ == boxcar_items(*list).take(i as int),
            decreases count - i,
        {
            c.push(boxcar_index(list, i));
            i = i + 1;
            assert(c@ =~= boxcar_items(*list).take(i as int));
        }
        assert(boxcar_items(*list).take(count as int) =~= boxcar_items(*list));
        c
    }

    /// Whether every list of parked transactions can take `extra` more
    /// entries, which the operations that park transactions require.
    pub fn has_room(&self, extra: usize) -> (b: bool)
        requires
            self@.wf(),
        ensures
            b == self@.has_room(extra as nat),
    {
        let capacity: usize = usize::MAX / 2 - 31;
        let mut p: usize = 0;
        while p < self.block_size
            invariant
                self@.wf(),
                p <= self@.block_size,
                capacity == boxcar_capacity(),
                forall|q: int| 0 <= q < p ==> #[trigger] self@.critical_children[q].len() + extra <= boxcar_capacity(),
            decreases self@.block_size - p,
        {
            let len = boxcar_count(&self.critical_path_parent[p]);
            assert(self@.critical_children[p as int].len() == len);
            if len > capacity || capacity - len < extra {
                assert(self@.critical_children[p as int].len() + extra > boxcar_capacity());
                return false;
            }
            p = p + 1;
        }
        true
    }
}

} // verus!
