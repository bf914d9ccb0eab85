use pevm::mv_memory::MvMemory;
use pevm::pevm::{preprocess_dependencies, TransactTo, Transaction};
use pevm::primitives::{Address, U256};
use pevm::scheduler::{IncarnationStatus, Scheduler, Task, TxStatus};
use pevm::vm::RetryCounters;
use pevm::{MemoryValue, TxVersion};

fn address(n: u64) -> Address {
    Address { hi: 0, mid: 0, lo: n }
}

fn transfer(from: u64, to: u64, value: u64) -> Transaction {
    Transaction {
        caller: address(from),
        transact_to: TransactTo::Call(address(to)),
        value: U256::from_u64(value),
        data_is_empty: true,
        gas_price: U256::from_u64(2),
        gas_priority_fee: None,
    }
}

fn ready(incarnation: usize) -> TxStatus {
    TxStatus { incarnation, status: IncarnationStatus::ReadyToExecute }
}

fn fresh(n: usize) -> Scheduler {
    Scheduler::new(n, (0..n).map(|_| ready(0)).collect(), vec![vec![]; n], vec![vec![]; n], 0)
}

fn version(tx_idx: usize, tx_incarnation: usize) -> TxVersion {
    TxVersion { tx_idx, tx_incarnation }
}

/// Asks for tasks until one is handed out.
fn next_some(s: &mut Scheduler) -> Option<Task> {
    for _ in 0..10 {
        if let Some(t) = s.next_task() {
            return Some(t);
        }
    }
    None
}

/// Runs the block with one worker: each transaction writes its own location.
fn run(s: &mut Scheduler, mv: &mut MvMemory) -> usize {
    let mut steps = 0;
    let mut task = None;
    while !s.done() && steps < 100_000 {
        steps += 1;
        task = match task {
            Some(Task::Execution(v)) => {
                let TxVersion { tx_idx, .. } = v;
                let wrote = mv.record(&v, vec![], vec![(tx_idx as u64, MemoryValue::Storage(U256::from_u64(tx_idx as u64)))]);
                s.finish_execution(v, wrote)
            }
            Some(Task::Validation(v)) => {
                let valid = mv.validate_read_set(v.tx_idx);
                let aborted = !valid && s.try_validation_abort(&v);
                if aborted {
                    mv.convert_writes_to_estimates(v.tx_idx);
                }
                s.finish_validation(&v, aborted)
            }
            None => s.next_task(),
        };
    }
    steps
}

#[test]
fn scheduler_hands_out_executions_in_order() {
    let mut s = fresh(2);
    assert_eq!(s.next_task(), Some(Task::Execution(version(0, 0))));
    assert_eq!(s.get_status(0), TxStatus { incarnation: 0, status: IncarnationStatus::Executing });
    // The validation cursor goes first, but transaction 0 has not executed yet.
    assert_eq!(s.next_task(), None);
    assert_eq!(s.next_task(), Some(Task::Execution(version(1, 0))));
    assert_eq!(s.next_task(), None);
    assert!(!s.done());
}

#[test]
fn finished_execution_is_validated() {
    let mut s = fresh(1);
    assert_eq!(s.next_task(), Some(Task::Execution(version(0, 0))));
    // The validation cursor has not passed the transaction: it is validated later.
    assert_eq!(s.finish_execution(version(0, 0), true), None);
    assert_eq!(s.next_task(), Some(Task::Validation(version(0, 0))));
    assert_eq!(s.finish_validation(&version(0, 0), false), None);
    assert_eq!(s.get_status(0), TxStatus { incarnation: 0, status: IncarnationStatus::Validated });
    assert!(s.done());
}

#[test]
fn abort_happens_once_and_reexecutes() {
    let mut s = fresh(2);
    assert_eq!(next_some(&mut s), Some(Task::Execution(version(0, 0))));
    assert_eq!(next_some(&mut s), Some(Task::Execution(version(1, 0))));
    s.finish_execution(version(0, 0), false);
    s.finish_execution(version(1, 0), false);
    assert_eq!(next_some(&mut s), Some(Task::Validation(version(1, 0))));
    assert_eq!(s.finish_validation(&version(1, 0), false), None);
    assert_eq!(s.finish_validation(&version(0, 0), false), None);
    assert_eq!(s.get_status(0), TxStatus { incarnation: 0, status: IncarnationStatus::Validated });
    assert!(s.try_validation_abort(&version(0, 0)));
    assert!(!s.try_validation_abort(&version(0, 0)));
    assert_eq!(s.finish_validation(&version(0, 0), true), Some(Task::Execution(version(0, 1))));
    assert_eq!(s.get_status(0), TxStatus { incarnation: 1, status: IncarnationStatus::Executing });
}

#[test]
fn blocked_transaction_waits_for_its_blocker() {
    let mut s = fresh(2);
    assert_eq!(next_some(&mut s), Some(Task::Execution(version(0, 0))));
    assert_eq!(next_some(&mut s), Some(Task::Execution(version(1, 0))));
    assert!(s.add_dependency(1, 0));
    assert_eq!(s.get_status(1), TxStatus { incarnation: 0, status: IncarnationStatus::Aborting });
    s.finish_execution(version(0, 0), false);
    assert_eq!(s.get_status(1), ready(1));
    // The blocker has executed: a new dependency is refused.
    let mut t = fresh(2);
    t.next_task();
    t.finish_execution(version(0, 0), false);
    t.next_task();
    assert!(!t.add_dependency(1, 0));
}

#[test]
fn independent_cluster_completes() {
    // Many unrelated token transfers: no seeded dependency at all.
    let txs: Vec<Transaction> = (0..1000u64)
        .map(|i| Transaction { data_is_empty: false, value: U256::from_u64(0), ..transfer(1000 + i, 1, 0) })
        .collect();
    let (mut s, concurrency) = preprocess_dependencies(&address(0), &txs).unwrap();
    assert_eq!(concurrency, 500);
    for i in 0..1000 {
        assert_eq!(s.get_status(i), ready(0));
    }
    let mut mv = MvMemory::new(1000, 0);
    run(&mut s, &mut mv);
    assert!(s.done());
    let mut snap = mv.snapshot();
    snap.sort_by_key(|p| p.0);
    let sequential: Vec<(u64, MemoryValue)> =
        (0..1000u64).map(|i| (i, MemoryValue::Storage(U256::from_u64(i)))).collect();
    assert_eq!(snap, sequential);
}

#[test]
fn chained_sender_runs_each_transaction_once_more() {
    // tx0: A->B 10, tx1: A->C 5, tx2: A->D 1.
    let txs = vec![transfer(1, 2, 10), transfer(1, 3, 5), transfer(1, 4, 1)];
    let (mut s, _) = preprocess_dependencies(&address(0), &txs).unwrap();
    assert_eq!(s.get_status(1), TxStatus { incarnation: 0, status: IncarnationStatus::Aborting });
    assert_eq!(s.get_status(2), TxStatus { incarnation: 0, status: IncarnationStatus::Aborting });
    let mut mv = MvMemory::new(3, 0);
    run(&mut s, &mut mv);
    assert!(s.done());
    assert_eq!(s.get_status(0), TxStatus { incarnation: 0, status: IncarnationStatus::Validated });
    assert_eq!(s.get_status(1), TxStatus { incarnation: 1, status: IncarnationStatus::Validated });
    assert_eq!(s.get_status(2), TxStatus { incarnation: 1, status: IncarnationStatus::Validated });
}

#[test]
fn back_and_forth_completes() {
    // tx0: A->B 10, tx1: B->A 10, tx2: A->B 10.
    let txs = vec![transfer(1, 2, 10), transfer(2, 1, 10), transfer(1, 2, 10)];
    let (mut s, _) = preprocess_dependencies(&address(0), &txs).unwrap();
    let mut mv = MvMemory::new(3, 0);
    run(&mut s, &mut mv);
    assert!(s.done());
    for i in 0..3 {
        assert_eq!(s.get_status(i).status, IncarnationStatus::Validated);
        assert!(s.get_status(i).incarnation <= 2);
    }
}

#[test]
fn revert_then_succeed_retries_once() {
    let mut retries = RetryCounters::new(2);
    // The first transaction is never retried.
    assert!(!retries.try_retry(0));
    // tx1 reverts on its first incarnation: it waits on tx0 instead of failing.
    assert!(retries.try_retry(1));
    let mut s = fresh(2);
    assert_eq!(next_some(&mut s), Some(Task::Execution(version(0, 0))));
    assert_eq!(next_some(&mut s), Some(Task::Execution(version(1, 0))));
    assert!(s.add_dependency(1, 0));
    s.finish_execution(version(0, 0), false);
    assert_eq!(s.get_status(1), ready(1));
    // The released transaction brings the execution cursor back.
    assert_eq!(next_some(&mut s), Some(Task::Execution(version(1, 1))));
    // A second failure surfaces.
    assert!(!retries.try_retry(1));
}

#[test]
fn retries_stay_bounded() {
    let mut retries = RetryCounters::new(3);
    assert!(retries.try_retry(2));
    for _ in 0..600 {
        assert!(!retries.try_retry(2));
    }
    assert!(retries.try_retry(1));
    // A revert of the first incarnation waits on the transaction before.
    let mut retries = RetryCounters::new(3);
    assert_eq!(retries.retry_blocking_index(2), Some(1));
    assert_eq!(retries.retry_blocking_index(2), None);
    assert_eq!(retries.retry_blocking_index(0), None);
}

#[test]
fn validation_cursor_comes_back_on_request() {
    let mut s = fresh(3);
    assert_eq!(next_some(&mut s), Some(Task::Execution(version(0, 0))));
    assert_eq!(s.get_validation_idx(), 0);
    s.finish_execution(version(0, 0), false);
    assert_eq!(next_some(&mut s), Some(Task::Validation(version(0, 0))));
    assert_eq!(s.get_validation_idx(), 1);
    s.decrease_validation_idx(0);
    assert_eq!(s.get_validation_idx(), 0);
    s.decrease_validation_idx(2);
    assert_eq!(s.get_validation_idx(), 0);
}
