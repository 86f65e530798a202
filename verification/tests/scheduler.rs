use chiron::graph::critical_costs_fit;
use chiron::scheduler::ChironScheduler;
use chiron::types::{FinishExecFlags, IncarnationStatus, NextTask, Task, TxAccess, TxStatus, TxVersion};

fn tx(keys: &[u64], gas: u64) -> TxAccess {
    TxAccess { access_list: keys.to_vec(), gas_limit: gas }
}

fn version(tx_idx: usize, tx_incarnation: usize) -> TxVersion {
    TxVersion { tx_idx, tx_incarnation }
}

fn exec(tx_idx: usize, inc: usize) -> NextTask {
    NextTask::Run(Task::Execution(version(tx_idx, inc)))
}

fn validate(tx_idx: usize, inc: usize) -> NextTask {
    NextTask::Run(Task::Validation(version(tx_idx, inc)))
}

const VALIDATE: FinishExecFlags = FinishExecFlags { need_validation: true, wrote_new_location: false };
const NO_VALIDATION: FinishExecFlags = FinishExecFlags { need_validation: false, wrote_new_location: false };

fn status(s: &ChironScheduler, i: usize) -> IncarnationStatus {
    s.tx_status(i).status
}

#[test]
fn empty_block_is_finished_at_once() {
    let txs: Vec<TxAccess> = Vec::new();
    let mut s = ChironScheduler::new(0, &txs);
    assert_eq!(s.block_size(), 0);
    assert_eq!(s.next_task(), NextTask::Finished);
}

#[test]
fn new_scheduler_starts_every_transaction_ready() {
    let txs = vec![tx(&[1], 10), tx(&[2], 10), tx(&[1, 2], 10)];
    let s = ChironScheduler::new(3, &txs);
    for i in 0..3 {
        assert_eq!(s.tx_status(i), TxStatus { incarnation: 0, status: IncarnationStatus::ReadyToExecute });
    }
    assert_eq!(s.validation_index(), 0);
    assert!(!s.is_aborted());
}

#[test]
fn independent_transactions_run_in_order() {
    let txs = vec![tx(&[1], 21000), tx(&[2], 21000), tx(&[3], 21000), tx(&[4], 21000)];
    let mut s = ChironScheduler::new(4, &txs);
    for i in 0..4 {
        assert!(s.parents_of(i).is_empty());
        assert!(s.children_of(i).is_empty());
    }
    for i in 0..4 {
        assert_eq!(s.next_task(), exec(i, 0));
        assert_eq!(status(&s, i), IncarnationStatus::Executing);
    }
    // Nothing is queued and transaction 0 has not finished executing.
    assert_eq!(s.next_task(), NextTask::Retry);
    assert_eq!(s.finish_execution(version(0, 0), VALIDATE), None);
    assert_eq!(status(&s, 0), IncarnationStatus::Executed);
    assert_eq!(s.next_task(), validate(0, 0));
    assert_eq!(s.validation_index(), 1);
}

#[test]
fn only_part_of_a_block_is_scheduled() {
    let txs = vec![tx(&[1], 1), tx(&[1], 1), tx(&[1], 1)];
    let mut s = ChironScheduler::new(2, &txs);
    assert_eq!(s.block_size(), 2);
    assert_eq!(s.children_of(0), &vec![1]);
    assert!(s.children_of(1).is_empty());
    assert_eq!(s.next_task(), exec(0, 0));
}

#[test]
fn chain_hands_out_the_next_transaction_on_finish() {
    let txs = vec![tx(&[7], 10), tx(&[7], 10), tx(&[7], 10)];
    let mut s = ChironScheduler::new(3, &txs);
    assert_eq!(s.parents_of(1), &vec![0u16]);
    assert_eq!(s.parents_of(2), &vec![1u16]);
    assert_eq!(s.children_of(0), &vec![1]);
    assert_eq!(s.children_of(1), &vec![2]);
    assert_eq!(s.critical_children_of(0), vec![1]);
    assert_eq!(s.critical_children_of(1), vec![2]);
    assert_eq!(s.next_task(), exec(0, 0));
    assert_eq!(s.next_task(), NextTask::Retry);
    // Transaction 1 has a child of its own, so it is started right away.
    assert_eq!(s.finish_execution(version(0, 0), VALIDATE), Some(Task::Execution(version(1, 0))));
    assert_eq!(status(&s, 1), IncarnationStatus::Executing);
    assert_eq!(s.next_task(), validate(0, 0));
    assert_eq!(s.next_task(), NextTask::Retry);
}

#[test]
fn blocked_transaction_waits_for_its_parent() {
    // Transaction 2 depends on 0 (heavier, its critical parent) and on 1.
    let txs = vec![tx(&[1], 100), tx(&[2], 5), tx(&[1, 2], 1)];
    let mut s = ChironScheduler::new(3, &txs);
    assert_eq!(s.parents_of(2), &vec![0u16, 1u16]);
    assert_eq!(s.critical_children_of(0), vec![2]);
    assert!(s.critical_children_of(1).is_empty());
    // Both roots have a child: they come from the priority queue, in order.
    assert_eq!(s.next_task(), exec(0, 0));
    assert_eq!(s.next_task(), exec(1, 0));
    assert_eq!(s.next_task(), NextTask::Retry);
    // Transaction 2 has no child: it joins the default queue.
    assert_eq!(s.finish_execution(version(0, 0), VALIDATE), None);
    // It is taken off, refused (transaction 1 is still executing) and parked on 1.
    assert_eq!(s.next_task(), validate(0, 0));
    assert_eq!(status(&s, 2), IncarnationStatus::ReadyToExecute);
    assert_eq!(s.critical_children_of(1), vec![2]);
    assert_eq!(s.finish_execution(version(1, 0), VALIDATE), None);
    assert_eq!(s.next_task(), exec(2, 0));
    assert_eq!(s.next_task(), validate(1, 0));
    assert_eq!(s.next_task(), NextTask::Retry);
    assert_eq!(s.finish_execution(version(2, 0), VALIDATE), None);
    assert_eq!(s.next_task(), validate(2, 0));
    assert_eq!(s.validation_index(), 3);
    assert_eq!(s.next_task(), NextTask::Finished);
}

#[test]
fn try_execute_refuses_what_is_not_ready() {
    let txs = vec![tx(&[1], 1), tx(&[1], 1)];
    let mut s = ChironScheduler::new(2, &txs);
    assert_eq!(s.try_execute(5), None);
    assert_eq!(s.try_execute(0), Some(version(0, 0)));
    assert_eq!(s.try_execute(0), None);
    // Transaction 1 waits on transaction 0, and is parked on it again.
    assert_eq!(s.try_execute(1), None);
    assert_eq!(s.critical_children_of(0), vec![1, 1]);
}

#[test]
fn execution_without_validation_is_validated() {
    let txs = vec![tx(&[1], 1)];
    let mut s = ChironScheduler::new(1, &txs);
    assert_eq!(s.next_task(), exec(0, 0));
    assert_eq!(s.finish_execution(version(0, 0), NO_VALIDATION), None);
    assert_eq!(status(&s, 0), IncarnationStatus::Validated);
    // The validation cursor only passes executed transactions.
    assert_eq!(s.next_task(), NextTask::Retry);
    assert_eq!(s.validation_index(), 0);
}

#[test]
fn only_one_validation_abort_succeeds() {
    let txs = vec![tx(&[1], 1)];
    let mut s = ChironScheduler::new(1, &txs);
    assert_eq!(s.next_task(), exec(0, 0));
    assert_eq!(s.finish_execution(version(0, 0), VALIDATE), None);
    assert_eq!(s.next_task(), validate(0, 0));
    assert!(s.try_validation_abort(&version(0, 0)));
    assert_eq!(status(&s, 0), IncarnationStatus::Aborting);
    assert!(!s.try_validation_abort(&version(0, 0)));
    assert_eq!(s.finish_validation(&version(0, 0), true), None);
    assert_eq!(s.tx_status(0), TxStatus { incarnation: 1, status: IncarnationStatus::ReadyToExecute });
    // Incarnation 1 can run.
    assert_eq!(s.try_execute(0), Some(version(0, 1)));
}

#[test]
fn abort_refused_before_execution_finishes() {
    let txs = vec![tx(&[1], 1)];
    let mut s = ChironScheduler::new(1, &txs);
    assert!(!s.try_validation_abort(&version(0, 0)));
    assert_eq!(s.next_task(), exec(0, 0));
    assert!(!s.try_validation_abort(&version(0, 0)));
    assert_eq!(status(&s, 0), IncarnationStatus::Executing);
}

#[test]
fn passed_validation_marks_executed_validated() {
    let txs = vec![tx(&[1], 1), tx(&[2], 1)];
    let mut s = ChironScheduler::new(2, &txs);
    assert_eq!(s.next_task(), exec(0, 0));
    assert_eq!(s.finish_execution(version(0, 0), VALIDATE), None);
    assert_eq!(s.finish_validation(&version(0, 0), false), None);
    assert_eq!(status(&s, 0), IncarnationStatus::Validated);
    // A transaction that has not executed is left as it is.
    assert_eq!(s.finish_validation(&version(1, 0), false), None);
    assert_eq!(status(&s, 1), IncarnationStatus::ReadyToExecute);
}

#[test]
fn set_ready_status_starts_the_next_incarnation() {
    let txs = vec![tx(&[1], 1)];
    let mut s = ChironScheduler::new(1, &txs);
    assert_eq!(s.try_execute(0), Some(version(0, 0)));
    assert_eq!(s.finish_execution(version(0, 0), VALIDATE), None);
    assert!(s.try_validation_abort(&version(0, 0)));
    s.set_ready_status(0);
    assert_eq!(s.tx_status(0), TxStatus { incarnation: 1, status: IncarnationStatus::ReadyToExecute });
}

#[test]
fn aborted_block_hands_out_nothing() {
    let txs = vec![tx(&[1], 1), tx(&[2], 1)];
    let mut s = ChironScheduler::new(2, &txs);
    s.abort();
    assert!(s.is_aborted());
    assert_eq!(s.next_task(), NextTask::Finished);
    assert_eq!(s.next_task(), NextTask::Finished);
    assert_eq!(status(&s, 0), IncarnationStatus::ReadyToExecute);
}

#[test]
fn add_dependency_on_executed_transaction_is_moot() {
    let txs = vec![tx(&[1], 1), tx(&[1], 1)];
    let mut s = ChironScheduler::new(2, &txs);
    assert_eq!(s.next_task(), exec(0, 0));
    assert_eq!(s.finish_execution(version(0, 0), VALIDATE), None);
    assert!(!s.add_dependency(1, 0));
    assert_eq!(status(&s, 0), IncarnationStatus::Executed);
    assert_eq!(status(&s, 1), IncarnationStatus::ReadyToExecute);
}

#[test]
fn try_validate_goes_in_order() {
    let txs = vec![tx(&[1], 1), tx(&[2], 1)];
    let mut s = ChironScheduler::new(2, &txs);
    assert_eq!(s.try_validate(), None);
    assert_eq!(s.try_execute(1), Some(version(1, 0)));
    assert_eq!(s.finish_execution(version(1, 0), VALIDATE), None);
    // Transaction 1 has executed, but the cursor is at 0.
    assert_eq!(s.try_validate(), None);
    assert_eq!(s.try_execute(0), Some(version(0, 0)));
    assert_eq!(s.finish_execution(version(0, 0), VALIDATE), None);
    assert_eq!(s.try_validate(), Some(version(0, 0)));
    assert_eq!(s.try_validate(), Some(version(1, 0)));
    assert_eq!(s.try_validate(), None);
    assert_eq!(s.validation_index(), 2);
}

#[test]
fn room_for_parked_transactions() {
    let txs = vec![tx(&[1], 1), tx(&[1], 1)];
    let s = ChironScheduler::new(2, &txs);
    assert!(s.has_room(2));
    assert!(s.has_room(1000));
    assert!(!s.has_room(usize::MAX));
}

#[test]
fn costs_that_overflow_are_reported() {
    let max = u32::MAX as u64;
    assert!(critical_costs_fit(1, &vec![tx(&[1], max)]));
    assert!(!critical_costs_fit(2, &vec![tx(&[1], max), tx(&[1], 1)]));
    // Independent transactions do not add up.
    assert!(critical_costs_fit(2, &vec![tx(&[1], max), tx(&[2], max)]));
    // Only the first `block_size` transactions count.
    assert!(critical_costs_fit(1, &vec![tx(&[1], max), tx(&[1], 1)]));
    // The gas limit is cut to 32 bits: 2^32 + 5 counts as 5.
    assert!(critical_costs_fit(2, &vec![tx(&[1], (1u64 << 32) + 5), tx(&[1], max - 5)]));
    assert!(!critical_costs_fit(2, &vec![tx(&[1], (1u64 << 32) + 5), tx(&[1], max - 4)]));
}

#[test]
fn validations_come_once_each_in_order() {
    let txs = vec![tx(&[1], 1), tx(&[2], 1), tx(&[3], 1)];
    let mut s = ChironScheduler::new(3, &txs);
    let mut validated = Vec::new();
    for _ in 0..20 {
        match s.next_task() {
            NextTask::Run(Task::Execution(v)) => {
                assert_eq!(s.finish_execution(v, VALIDATE), None);
            }
            NextTask::Run(Task::Validation(v)) => validated.push(v.tx_idx),
            NextTask::Retry => {}
            NextTask::Finished => break,
        }
    }
    assert_eq!(validated, vec![0, 1, 2]);
    assert_eq!(s.validation_index(), 3);
}

#[test]
fn execution_stays_until_finished() {
    let txs = vec![tx(&[1], 1), tx(&[2], 1), tx(&[1], 1)];
    let mut s = ChironScheduler::new(3, &txs);
    assert_eq!(s.next_task(), exec(0, 0));
    assert_eq!(s.next_task(), exec(1, 0));
    assert_eq!(s.finish_execution(version(1, 0), VALIDATE), None);
    assert!(!s.try_validation_abort(&version(0, 0)));
    assert_eq!(s.finish_validation(&version(0, 0), false), None);
    assert_eq!(s.try_execute(0), None);
    assert_eq!(s.next_task(), NextTask::Retry);
    assert_eq!(s.tx_status(0), TxStatus { incarnation: 0, status: IncarnationStatus::Executing });
    assert_eq!(s.finish_execution(version(0, 0), VALIDATE), None);
    assert_eq!(status(&s, 0), IncarnationStatus::Executed);
}

#[test]
fn finishing_an_execution_hands_out_its_list() {
    let (k1, k2, k3, k4, x, y3, y4, y5) = (1, 2, 3, 4, 10, 13, 14, 15);
    let txs = vec![
        tx(&[k1, k2, k3, k4], 100),
        tx(&[x], 1),
        tx(&[k1], 1),
        tx(&[k2, x, y3], 1),
        tx(&[k3, y4], 1),
        tx(&[k4, y5], 1),
        tx(&[y3], 1),
        tx(&[y4], 1),
        tx(&[y5], 1),
    ];
    let mut s = ChironScheduler::new(9, &txs);
    assert_eq!(s.critical_children_of(0), vec![2, 3, 4, 5]);
    assert_eq!(s.next_task(), exec(0, 0));
    // 2 has no dependents: default queue. 3 waits on 1: parked there.
    // 4 starts and is returned. 5 joins the priority queue, behind 1.
    assert_eq!(s.finish_execution(version(0, 0), VALIDATE), Some(Task::Execution(version(4, 0))));
    assert_eq!(s.critical_children_of(1), vec![3]);
    assert_eq!(status(&s, 3), IncarnationStatus::ReadyToExecute);
    assert_eq!(s.next_task(), exec(1, 0));
    assert_eq!(s.next_task(), exec(5, 0));
    assert_eq!(s.next_task(), exec(2, 0));
    assert_eq!(s.next_task(), validate(0, 0));
}

#[test]
fn every_transaction_of_a_block_is_executed() {
    let txs = vec![
        tx(&[1], 5),
        tx(&[2], 9),
        tx(&[1, 2], 1),
        tx(&[3], 2),
        tx(&[3, 1], 4),
        tx(&[9], 1),
    ];
    let mut s = ChironScheduler::new(6, &txs);
    let mut executed = vec![0usize; 6];
    let mut pending: Vec<TxVersion> = Vec::new();
    let mut rounds = 0;
    loop {
        rounds += 1;
        assert!(rounds < 100);
        match s.next_task() {
            NextTask::Run(Task::Execution(v)) => {
                executed[v.tx_idx] += 1;
                pending.push(v);
            }
            NextTask::Run(Task::Validation(_)) => {}
            NextTask::Retry => {
                // Finish the oldest execution; it may hand out the next one.
                let v = pending.remove(0);
                let mut next = s.finish_execution(v, VALIDATE);
                while let Some(Task::Execution(w)) = next {
                    executed[w.tx_idx] += 1;
                    next = s.finish_execution(w, VALIDATE);
                }
            }
            NextTask::Finished => break,
        }
    }
    assert_eq!(executed, vec![1; 6]);
    assert_eq!(s.validation_index(), 6);
}

#[test]
fn aborted_transaction_is_queued_nowhere() {
    let txs = vec![tx(&[1], 1), tx(&[2], 1)];
    let mut s = ChironScheduler::new(2, &txs);
    assert_eq!(s.next_task(), exec(0, 0));
    assert_eq!(s.next_task(), exec(1, 0));
    assert_eq!(s.finish_execution(version(0, 0), VALIDATE), None);
    assert_eq!(s.next_task(), validate(0, 0));
    assert!(s.try_validation_abort(&version(0, 0)));
    assert_eq!(s.finish_validation(&version(0, 0), true), None);
    assert_eq!(s.tx_status(0), TxStatus { incarnation: 1, status: IncarnationStatus::ReadyToExecute });
    // Nothing hands incarnation 1 out: the search goes on to validate 1
    // and then reports the block finished, with 0 still ready.
    assert_eq!(s.finish_execution(version(1, 0), VALIDATE), None);
    assert_eq!(s.next_task(), validate(1, 0));
    assert_eq!(s.next_task(), NextTask::Finished);
    assert_eq!(status(&s, 0), IncarnationStatus::ReadyToExecute);
}
