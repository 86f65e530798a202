use chiron::scheduler::ChironScheduler;
use chiron::types::{NextTask, Task, TxAccess, TxVersion};

fn tx(keys: &[u64], gas: u64) -> TxAccess {
    TxAccess { access_list: keys.to_vec(), gas_limit: gas }
}

#[test]
fn parents_are_the_last_touchers_of_each_key() {
    // Key 1: 0, 2; key 2: 1, 2, 3; key 3: 3.
    let txs = vec![tx(&[1], 1), tx(&[2], 1), tx(&[1, 2, 1], 1), tx(&[3, 2], 1)];
    let s = ChironScheduler::new(4, &txs);
    assert!(s.parents_of(0).is_empty());
    assert!(s.parents_of(1).is_empty());
    // Each parent once, in the order the access list first leads to it.
    assert_eq!(s.parents_of(2), &vec![0u16, 1u16]);
    // Key 2 was last named by 2, not by 1.
    assert_eq!(s.parents_of(3), &vec![2u16]);
}

#[test]
fn children_mirror_parents() {
    let txs = vec![tx(&[1], 1), tx(&[2], 1), tx(&[1, 2], 1), tx(&[1], 1)];
    let s = ChironScheduler::new(4, &txs);
    assert_eq!(s.children_of(0), &vec![2]);
    assert_eq!(s.children_of(1), &vec![2]);
    assert_eq!(s.children_of(2), &vec![3]);
    assert!(s.children_of(3).is_empty());
    for c in 0..4usize {
        for p in 0..4usize {
            assert_eq!(s.children_of(p).contains(&c), s.parents_of(c).contains(&(p as u16)));
        }
    }
}

#[test]
fn critical_parent_is_the_heaviest() {
    // Transaction 3 depends on 1 (path cost 5) and 2 (path cost 10 + 30).
    let txs = vec![tx(&[9], 10), tx(&[1], 5), tx(&[2, 9], 30), tx(&[1, 2], 1)];
    let s = ChironScheduler::new(4, &txs);
    assert_eq!(s.parents_of(3), &vec![1u16, 2u16]);
    assert_eq!(s.critical_children_of(0), vec![2]);
    assert!(s.critical_children_of(1).is_empty());
    assert_eq!(s.critical_children_of(2), vec![3]);
}

#[test]
fn equal_costs_keep_the_first_parent() {
    let txs = vec![tx(&[1], 7), tx(&[2], 7), tx(&[2, 1], 1)];
    let s = ChironScheduler::new(3, &txs);
    assert_eq!(s.parents_of(2), &vec![1u16, 0u16]);
    assert_eq!(s.critical_children_of(1), vec![2]);
    assert!(s.critical_children_of(0).is_empty());
}

#[test]
fn parents_that_cost_nothing_are_not_critical() {
    // With a gas limit of 0, transaction 0 costs nothing: transaction 1 has
    // it as a parent but no critical parent, so it is queued from the start.
    let txs = vec![tx(&[1], 0), tx(&[1], 4)];
    let mut s = ChironScheduler::new(2, &txs);
    assert_eq!(s.parents_of(1), &vec![0u16]);
    assert!(s.critical_children_of(0).is_empty());
    assert_eq!(s.next_task(), NextTask::Run(Task::Execution(TxVersion { tx_idx: 0, tx_incarnation: 0 })));
    // Transaction 1 is taken off the default queue but waits for 0.
    assert_eq!(s.next_task(), NextTask::Retry);
    assert_eq!(s.critical_children_of(0), vec![1]);
}

#[test]
fn each_transaction_is_placed_once() {
    let txs = vec![tx(&[1], 3), tx(&[1], 3), tx(&[2], 3), tx(&[1, 2], 3), tx(&[5], 3)];
    let s = ChironScheduler::new(5, &txs);
    let mut placed = vec![0usize; 5];
    for p in 0..5 {
        for c in s.critical_children_of(p) {
            placed[c] += 1;
        }
    }
    // 0, 2 and 4 have no critical parent; 1 and 3 have one each.
    assert_eq!(placed, vec![0, 1, 0, 1, 0]);
}

#[test]
fn initial_queues_put_roots_with_children_first() {
    // Roots: 0 (has children), 1 (none), 2 (has children).
    let txs = vec![tx(&[1], 1), tx(&[2], 1), tx(&[3], 1), tx(&[1, 3], 1)];
    let mut s = ChironScheduler::new(4, &txs);
    let exec = |i: usize| NextTask::Run(Task::Execution(TxVersion { tx_idx: i, tx_incarnation: 0 }));
    // One from the priority queue per round, until it is empty.
    assert_eq!(s.next_task(), exec(0));
    assert_eq!(s.next_task(), exec(2));
    assert_eq!(s.next_task(), exec(1));
    assert_eq!(s.next_task(), NextTask::Retry);
}

#[test]
fn parents_are_stored_in_16_bits() {
    let n = 65538;
    let mut txs: Vec<TxAccess> = (0..n).map(|_| tx(&[], 1)).collect();
    txs[65536] = tx(&[9], 1);
    txs[65537] = tx(&[9], 1);
    let s = ChironScheduler::new(n, &txs);
    assert_eq!(s.children_of(65536), &vec![65537]);
    // 65536 cut to 16 bits is 0.
    assert_eq!(s.parents_of(65537), &vec![0u16]);
    assert_eq!(s.critical_children_of(65536), vec![65537]);
}

#[test]
fn graph_depends_only_on_access_lists() {
    let a = vec![tx(&[1], 10), tx(&[2], 20), tx(&[1, 2], 30), tx(&[2], 40)];
    // Same keys for the first three, other gas limits and another fourth transaction.
    let b = vec![tx(&[1], 7), tx(&[2], 1), tx(&[1, 2], 99), tx(&[5], 3), tx(&[1], 1)];
    let s = ChironScheduler::new(3, &a);
    let t = ChironScheduler::new(3, &b);
    for i in 0..3 {
        assert_eq!(s.parents_of(i), t.parents_of(i));
        assert_eq!(s.children_of(i), t.children_of(i));
    }
}
