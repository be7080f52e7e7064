use std::future::Future;
use std::sync::atomic::{AtomicBool, Ordering};
use std::task::{Context, Poll, Waker};

use txn_lock::queue::task::TaskQueue;
use txn_lock::Error;

#[test]
fn admission_order_capacity_and_decisions() {
    let queue = TaskQueue::new(2);
    for output in [10, 20] {
        let mut task = queue.start(1).unwrap();
        assert_eq!(queue.operation().err(), Some(Error::Busy));
        assert_eq!(queue.start(2).err(), Some(Error::Busy));
        assert_eq!(queue.readable(1), Ok(()));
        queue.register(2).unwrap();
        task.record(output).unwrap();
        assert_eq!(queue.readable(1), Ok(()));
        assert_eq!(task.record(99), Err(Error::Conflict));
        task.complete().unwrap();
    }
    assert_eq!(queue.start(1).err(), Some(Error::Saturated));
    let mut operation = queue.operation().unwrap();
    assert_eq!(operation.commit(&1).unwrap(), Some(vec![10, 20]));
    assert!(operation.pending().is_empty());
    operation.complete();

    let mut operation = queue.operation().unwrap();
    assert_eq!(operation.commit(&1).unwrap(), None);
    assert_eq!(operation.check_rollback(&1), Err(Error::Committed));
    assert_eq!(operation.rollback(&1), Err(Error::Committed));
    operation.complete();
    assert_eq!(queue.start(1).err(), Some(Error::Committed));
    let mut task = queue.start(2).unwrap();
    task.record(30).unwrap();
    task.complete().unwrap();
}

#[test]
fn failed_tasks_retain_outputs_until_rollback_or_cutoff() {
    let queue = TaskQueue::new(1);
    assert_eq!(queue.start(1).unwrap().complete(), Err(Error::Failed));
    assert_eq!(queue.readable(1), Err(Error::Failed));
    {
        let mut operation = queue.operation().unwrap();
        assert_eq!(operation.commit(&1), Err(Error::Failed));
        assert!(operation.pending().is_empty());
        assert!(operation.check_rollback(&1).unwrap());
        operation.rollback(&1).unwrap();
        assert!(!operation.check_rollback(&1).unwrap());
        operation.rollback(&1).unwrap();
        assert_eq!(operation.commit(&1), Err(Error::RolledBack));
    }
    assert_eq!(queue.readable(1), Err(Error::RolledBack));
    let mut task = queue.start(2).unwrap();
    task.record(42).unwrap();
    drop(task);
    let mut operation = queue.operation().unwrap();
    assert_eq!(operation.pending(), vec![42]);
    assert_eq!(operation.commit(&2), Err(Error::Failed));
    operation.finalize(2).unwrap();
    operation.finalize(1).unwrap();
    operation.finalize(2).unwrap();
    assert!(operation.pending().is_empty());
    assert_eq!(operation.commit(&2), Err(Error::Outdated));
    assert_eq!(operation.rollback(&2), Err(Error::Outdated));
    operation.complete();
    assert_eq!(queue.register(1), Err(Error::Outdated));
    assert!(queue.start(3).is_ok());
}

#[test]
fn finalization_preserves_future_outputs_and_read_only_receipts() {
    let queue = TaskQueue::<u64, u64>::new(1);
    queue.register(1).unwrap();
    let mut operation = queue.operation().unwrap();
    assert_eq!(operation.commit(&1).unwrap(), Some(vec![]));
    operation.complete();
    let mut task = queue.start(3).unwrap();
    task.record(30).unwrap();
    task.complete().unwrap();
    let mut operation = queue.operation().unwrap();
    operation.finalize(2).unwrap();
    assert_eq!(operation.pending(), vec![30]);
    assert_eq!(operation.commit(&1), Err(Error::Outdated));
    assert_eq!(operation.commit(&3).unwrap(), Some(vec![30]));
    operation.complete();
}

#[test]
fn execution_overlaps_without_blocking_other_transaction_decisions() {
    let queue = TaskQueue::new(2);
    let mut first = queue.start(1).unwrap();
    first.record(10).unwrap();
    assert_eq!(queue.start(1).err(), Some(Error::Busy));
    let mut later = queue.start(2).unwrap();
    later.record(30).unwrap();
    {
        let mut operation = queue.operation().unwrap();
        assert_eq!(operation.commit(&1), Err(Error::Busy));
        assert_eq!(operation.check_rollback(&1), Err(Error::Busy));
        assert_eq!(operation.check_finalize(&1), Err(Error::Busy));
        assert_eq!(operation.finalize(1), Err(Error::Busy));
        assert_eq!(operation.pending(), vec![10, 30]);
    }
    first.complete().unwrap();
    let mut second = queue.start(1).unwrap();
    second.record(20).unwrap();
    second.complete().unwrap();
    assert_eq!(queue.start(1).err(), Some(Error::Saturated));
    let mut operation = queue.operation().unwrap();
    assert_eq!(operation.commit(&1).unwrap(), Some(vec![10, 20]));
    operation.finalize(1).unwrap();
    operation.complete();
    later.complete().unwrap();
    let mut operation = queue.operation().unwrap();
    assert_eq!(operation.commit(&2).unwrap(), Some(vec![30]));
    operation.complete();
}

#[test]
fn failure_does_not_exclude_other_transactions() {
    let queue = TaskQueue::new(2);
    let mut first = queue.start(1).unwrap();
    first.record(10).unwrap();
    let mut second = queue.start(2).unwrap();
    second.record(20).unwrap();
    drop(first);
    second.complete().unwrap();
    let mut operation = queue.operation().unwrap();
    assert_eq!(operation.commit(&1), Err(Error::Failed));
    assert_eq!(operation.pending(), vec![10, 20]);
    operation.rollback(&1).unwrap();
    assert_eq!(operation.commit(&2).unwrap(), Some(vec![20]));
    operation.complete();
    let mut independent = queue.start(3).unwrap();
    independent.record(30).unwrap();
    independent.complete().unwrap();
}

#[test]
fn interruption_invalidates_all_clones_and_sealed_commits() {
    for sealing in [false, true] {
        let queue = TaskQueue::<u64, u64>::new(1);
        let clone = queue.clone();
        queue.register(1).unwrap();
        let mut live = queue.start(3).unwrap();
        live.record(30).unwrap();
        let mut operation = queue.operation().unwrap();
        if sealing {
            operation.commit(&1).unwrap();
        } else {
            operation.arm();
        }
        drop(operation);
        if sealing {
            assert_eq!(live.complete(), Err(Error::Interrupted));
        } else {
            drop(live);
        }
        assert_eq!(clone.register(2), Err(Error::Interrupted));
        assert_eq!(clone.readable(1), Err(Error::Interrupted));
        assert_eq!(clone.start(2).err(), Some(Error::Interrupted));
        assert_eq!(clone.operation().err(), Some(Error::Interrupted));
        assert!(clone.validate_fresh().is_err());
    }
}

#[test]
fn rejected_decisions_do_not_interrupt_and_freshness_is_strict() {
    let queue = TaskQueue::<u64, u64>::new(1);
    queue.validate_fresh().unwrap();
    for id in 1..100 {
        queue.readable(id).unwrap();
    }
    queue.validate_fresh().unwrap();
    {
        let mut operation = queue.operation().unwrap();
        assert_eq!(operation.commit(&1), Ok(Some(vec![])));
        assert_eq!(operation.commit(&1), Ok(None));
        assert_eq!(operation.check_rollback(&1), Err(Error::Committed));
        assert_eq!(operation.check_rollback(&2), Ok(true));
        operation.rollback(&2).unwrap();
        assert_eq!(operation.check_rollback(&2), Ok(false));
        assert_eq!(operation.commit(&2), Err(Error::RolledBack));
        assert!(queue.validate_fresh().is_err());
        operation.complete();
    }
    assert_eq!(queue.readable(2), Err(Error::RolledBack));
    queue.register(1).unwrap();
    assert!(queue.validate_fresh().is_err());
    let mut operation = queue.operation().unwrap();
    operation.finalize(2).unwrap();
    operation.complete();
    assert_eq!(queue.readable(2), Err(Error::Outdated));
    assert_eq!(queue.start(2).err(), Some(Error::Outdated));
    {
        let operation = queue.operation().unwrap();
        assert_eq!(queue.start(2).err(), Some(Error::Busy));
        operation.complete();
    }
    assert_eq!(queue.readable(3), Ok(()));
    let mut task = queue.start(3).unwrap();
    task.record(7).unwrap();
    task.complete().unwrap();
    assert!(queue.validate_fresh().is_err());
}

#[test]
fn cancellation_drops_work_without_spawning_or_selecting_a_decision() {
    for recorded in [false, true] {
        let queue = TaskQueue::new(1);
        let completed = AtomicBool::new(false);
        let mut future = Box::pin(async {
            let mut task = queue.start(1).unwrap();
            if recorded {
                task.record(7).unwrap();
            }
            std::future::pending::<()>().await;
            completed.store(true, Ordering::Relaxed);
            task.complete().unwrap();
        });
        let mut context = Context::from_waker(Waker::noop());
        assert!(future.as_mut().poll(&mut context).is_pending());
        drop(future);
        assert!(!completed.load(Ordering::Relaxed));
        let mut operation = queue.operation().unwrap();
        assert_eq!(operation.pending().len(), usize::from(recorded));
        assert_eq!(operation.commit(&1), Err(Error::Failed));
        operation.rollback(&1).unwrap();
        assert!(operation.pending().is_empty());
        operation.complete();
        let mut task = queue.start(2).unwrap();
        task.record(8).unwrap();
        task.complete().unwrap();
    }
}

#[test]
fn a_completed_future_completes_its_task() {
    let queue = TaskQueue::new(1);
    let mut future = Box::pin(async {
        let mut task = queue.start(1).unwrap();
        task.record(7).unwrap();
        task.complete()
    });
    let mut context = Context::from_waker(Waker::noop());
    assert_eq!(future.as_mut().poll(&mut context), Poll::Ready(Ok(())));
    drop(future);
    let mut operation = queue.operation().unwrap();
    assert_eq!(operation.commit(&1), Ok(Some(vec![7])));
    operation.complete();
}

#[test]
fn outputs_are_committed_in_the_order_of_recording() {
    let queue = TaskQueue::<u64, &str>::new(16);
    for output in ["first", "second", "third"] {
        let mut task = queue.start(5).unwrap();
        task.record(output).unwrap();
        task.complete().unwrap();
    }
    let mut operation = queue.operation().unwrap();
    assert_eq!(
        operation.commit(&5),
        Ok(Some(vec!["first", "second", "third"]))
    );
    operation.complete();
}

#[test]
fn pending_outputs_follow_the_order_of_identities() {
    let queue = TaskQueue::new(2);
    for (id, output) in [(30, 3), (10, 1), (20, 2), (10, 11), (30, 33)] {
        let mut task = queue.start(id).unwrap();
        task.record(output).unwrap();
        task.complete().unwrap();
    }
    let operation = queue.operation().unwrap();
    assert_eq!(operation.pending(), vec![1, 11, 2, 3, 33]);
    operation.complete();
}

#[test]
fn a_recorded_task_cannot_record_again_and_an_unrecorded_one_cannot_complete() {
    let queue = TaskQueue::new(3);
    let mut task = queue.start(1).unwrap();
    assert_eq!(task.record(10), Ok(()));
    assert_eq!(task.record(11), Err(Error::Conflict));
    assert_eq!(task.complete(), Ok(()));
    let task = queue.start(2).unwrap();
    assert_eq!(task.complete(), Err(Error::Failed));
    assert_eq!(queue.readable(2), Err(Error::Failed));
    // The preparation of the failed task was released with it.
    let operation = queue.operation().unwrap();
    assert_eq!(operation.pending(), vec![10]);
    operation.complete();
}

#[test]
fn many_dropped_tasks_all_fail() {
    let queue = TaskQueue::new(1);
    let mut tasks = Vec::new();
    for id in 0..200u64 {
        let mut task = queue.start(id).unwrap();
        task.record(id).unwrap();
        tasks.push(task);
    }
    drop(tasks);
    for id in 0..200u64 {
        assert_eq!(queue.readable(id), Err(Error::Failed));
    }
    let mut operation = queue.operation().unwrap();
    assert_eq!(operation.pending(), (0..200u64).collect::<Vec<u64>>());
    for id in 0..200u64 {
        assert_eq!(operation.check_rollback(&id), Ok(true));
        operation.rollback(&id).unwrap();
    }
    assert!(operation.pending().is_empty());
    operation.complete();
}

#[test]
fn a_long_list_of_dropped_tasks_goes_with_its_queue() {
    let queue = TaskQueue::new(1);
    let mut tasks = Vec::new();
    for id in 0..20_000u64 {
        let mut task = queue.start(id).unwrap();
        task.record(()).unwrap();
        tasks.push(task);
    }
    drop(tasks);
    drop(queue);
}

#[test]
fn clones_share_one_owner() {
    let queue = TaskQueue::<u64, u64>::new(1);
    let clone = queue.clone();
    let mut task = clone.start(1).unwrap();
    assert_eq!(queue.start(2).err(), Some(Error::Busy));
    task.record(10).unwrap();
    task.complete().unwrap();
    let mut operation = queue.operation().unwrap();
    assert_eq!(clone.operation().err(), Some(Error::Busy));
    assert_eq!(operation.commit(&1), Ok(Some(vec![10])));
    operation.complete();
    assert_eq!(clone.start(1).err(), Some(Error::Committed));
    drop(queue);
    assert_eq!(clone.readable(1), Ok(()));
}

#[test]
fn an_armed_operation_must_be_completed() {
    let queue = TaskQueue::<u64, u64>::new(1);
    let mut operation = queue.operation().unwrap();
    operation.arm();
    operation.complete();
    let operation = queue.operation().unwrap();
    drop(operation);
    let mut operation = queue.operation().unwrap();
    operation.arm();
    drop(operation);
    assert_eq!(queue.operation().err(), Some(Error::Interrupted));
    assert_eq!(queue.validate_fresh(), Err(Error::Conflict));
}

#[test]
fn a_repeated_or_rejected_commit_does_not_arm() {
    let queue = TaskQueue::<u64, u64>::new(1);
    let mut operation = queue.operation().unwrap();
    operation.commit(&1).unwrap();
    operation.complete();
    let mut operation = queue.operation().unwrap();
    assert_eq!(operation.commit(&1), Ok(None));
    operation.rollback(&2).unwrap();
    assert_eq!(operation.commit(&2), Err(Error::RolledBack));
    drop(operation);
    assert_eq!(queue.readable(1), Ok(()));
}

#[test]
fn identities_that_compare_equal_name_one_transaction() {
    let queue = TaskQueue::new(1);
    let mut task = queue.start(String::from("b")).unwrap();
    task.record(1).unwrap();
    assert_eq!(queue.start(String::from("b")).err(), Some(Error::Busy));
    task.complete().unwrap();
    assert_eq!(queue.start("b".to_string()).err(), Some(Error::Saturated));
    let mut operation = queue.operation().unwrap();
    operation.finalize(String::from("a")).unwrap();
    assert_eq!(operation.commit(&String::from("a")), Err(Error::Outdated));
    assert_eq!(operation.commit(&String::from("b")), Ok(Some(vec![1])));
    operation.complete();
}

#[test]
fn finalization_waits_for_covered_tasks_only() {
    let queue = TaskQueue::new(1);
    let mut early = queue.start(10).unwrap();
    early.record("early").unwrap();
    let mut late = queue.start(30).unwrap();
    late.record("late").unwrap();
    let mut operation = queue.operation().unwrap();
    assert_eq!(operation.check_finalize(&9), Ok(()));
    assert_eq!(operation.check_finalize(&10), Err(Error::Busy));
    assert_eq!(operation.finalize(20), Err(Error::Busy));
    early.complete().unwrap();
    assert_eq!(operation.check_finalize(&29), Ok(()));
    assert_eq!(operation.finalize(20), Ok(()));
    assert_eq!(operation.finalize(5), Ok(()));
    assert_eq!(operation.finalize(30), Err(Error::Busy));
    assert_eq!(operation.pending(), vec!["late"]);
    operation.complete();
    assert_eq!(queue.register(20), Err(Error::Outdated));
    assert_eq!(queue.register(21), Ok(()));
    late.complete().unwrap();
}

#[test]
fn a_task_dropped_after_recording_fails() {
    let queue = TaskQueue::<u64, u64>::new(1);
    queue.register(7).unwrap();
    let result = queue.start(8).map(|mut task| task.record(1));
    assert_eq!(result, Ok(Ok(())));
    assert_eq!(queue.readable(8), Err(Error::Failed));
    assert_eq!(queue.readable(7), Ok(()));
}

#[test]
fn cancelling_before_recording_leaves_the_queue_ready() {
    for completing in [false, true] {
        let queue = TaskQueue::<u64, u64>::new(2);
        let mut earlier = queue.start(1).unwrap();
        earlier.record(10).unwrap();
        earlier.complete().unwrap();
        let task = queue.start(1).unwrap();
        assert_eq!(queue.operation().err(), Some(Error::Busy));
        if completing {
            assert_eq!(task.complete(), Err(Error::Failed));
        } else {
            drop(task);
        }
        assert_eq!(queue.readable(1), Err(Error::Failed));
        let operation = queue.operation().unwrap();
        assert_eq!(operation.pending(), vec![10]);
        assert_eq!(operation.check_rollback(&1), Ok(true));
        drop(operation);
        assert!(queue.start(2).is_ok());
    }
}

#[test]
fn an_executing_task_leaves_admission_to_its_holder() {
    for completing in [false, true] {
        let queue = TaskQueue::<u64, u64>::new(1);
        let mut task = queue.start(1).unwrap();
        task.record(10).unwrap();
        let operation = queue.operation().unwrap();
        if completing {
            assert_eq!(task.complete(), Ok(()));
        } else {
            drop(task);
        }
        assert_eq!(queue.operation().err(), Some(Error::Busy));
        operation.complete();
        assert!(queue.operation().is_ok());
    }
}

#[test]
fn a_sealed_commit_is_acknowledged_by_completion() {
    let queue = TaskQueue::<u64, u64>::new(1);
    let mut task = queue.start(1).unwrap();
    task.record(10).unwrap();
    task.complete().unwrap();
    let mut operation = queue.operation().unwrap();
    assert_eq!(operation.commit(&1), Ok(Some(vec![10])));
    operation.complete();
    assert_eq!(queue.readable(1), Ok(()));
    assert_eq!(queue.start(1).err(), Some(Error::Committed));
    assert!(queue.operation().is_ok());
}

#[test]
fn a_transaction_runs_while_its_task_is_in_flight() {
    let queue = TaskQueue::<u64, u64>::new(3);
    let mut task = queue.start(1).unwrap();
    task.record(10).unwrap();
    assert_eq!(queue.start(1).err(), Some(Error::Busy));
    task.complete().unwrap();
    let mut task = queue.start(1).unwrap();
    task.record(20).unwrap();
    let mut operation = queue.operation().unwrap();
    assert_eq!(operation.commit(&1), Err(Error::Busy));
    task.complete().unwrap();
    assert_eq!(operation.commit(&1), Ok(Some(vec![10, 20])));
    operation.complete();
}
