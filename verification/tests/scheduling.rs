use db_test::{ExecutionStatus, Scheduler, Task};

#[test]
fn test_scheduler_basic() {
    let mut scheduler = Scheduler::new(3);

    // Should get tasks for all 3 transactions
    match scheduler.next_task() {
        Task::Execute(idx, inc) => {
            assert_eq!(idx, 0);
            assert_eq!(inc, 0);
        },
        _ => panic!("Expected Execute task"),
    }

    match scheduler.next_task() {
        Task::Execute(idx, inc) => {
            assert_eq!(idx, 1);
            assert_eq!(inc, 0);
        },
        _ => panic!("Expected Execute task"),
    }
}

#[test]
fn test_abort_and_reexecute() {
    let mut scheduler = Scheduler::new(2);

    // Both transactions are dispatched.
    let _ = scheduler.next_task();
    let _ = scheduler.next_task();

    // Transaction 1 finishes first, having read stale state.
    scheduler.finish_execution(1, 0, vec![]);

    // Transaction 0 finishes and its write invalidates transaction 1.
    // (A committed transaction is never aborted, so the invalidated one must
    // still sit above the committed prefix.)
    scheduler.finish_execution(0, 0, vec![1]);

    // Should get transaction 1 again with incarnation 1
    match scheduler.next_task() {
        Task::Execute(idx, inc) => {
            assert_eq!(idx, 1);
            assert_eq!(inc, 1);
        },
        _ => panic!("Expected Execute task for re-execution"),
    }
}

#[test]
fn test_commit_is_prefix_ordered() {
    let mut scheduler = Scheduler::new(3);
    let _ = scheduler.next_task();
    let _ = scheduler.next_task();
    let _ = scheduler.next_task();

    // Finishing 1 and 2 commits nothing: 0 is still in flight.
    scheduler.finish_execution(1, 0, vec![]);
    scheduler.finish_execution(2, 0, vec![]);
    assert!(!scheduler.is_committed(1));
    assert!(!scheduler.is_committed(2));
    assert!(!scheduler.is_done());

    // Finishing 0 commits the whole prefix and ends the batch.
    scheduler.finish_execution(0, 0, vec![]);
    assert!(scheduler.is_committed(0));
    assert!(scheduler.is_committed(1));
    assert!(scheduler.is_committed(2));
    assert!(matches!(scheduler.next_task(), Task::Done));
    assert!(scheduler.is_done());
}

#[test]
fn test_status_transitions() {
    let mut scheduler = Scheduler::new(2);
    assert_eq!(scheduler.get_status(0), ExecutionStatus::Pending);
    let _ = scheduler.next_task();
    assert_eq!(scheduler.get_status(0), ExecutionStatus::Executing(0));
    scheduler.finish_execution(0, 0, vec![]);
    assert_eq!(scheduler.get_status(0), ExecutionStatus::Committed);
    let _ = scheduler.next_task();
    scheduler.finish_execution(1, 0, vec![]);
    assert_eq!(scheduler.get_status(1), ExecutionStatus::Committed);
}

#[test]
fn test_stats_counts() {
    let mut scheduler = Scheduler::new(3);
    let _ = scheduler.next_task();
    scheduler.finish_execution(0, 0, vec![]);
    let _ = scheduler.next_task();

    let stats = scheduler.stats();
    assert_eq!(stats.committed, 1);
    assert_eq!(stats.executing, 1);
    assert_eq!(stats.pending, 1);
    assert_eq!(stats.executed, 0);
    // One incarnation in flight, counted from one.
    assert_eq!(stats.total_incarnations, 1);
}
