use txn_lock::queue::state::State;
use txn_lock::Error;

fn with_task(id: u64, output: u64) -> State<u64, u64> {
    let mut state = State::new();
    assert_eq!(state.start(id, 2), Ok(()));
    assert_eq!(state.record(&id, output), Ok(()));
    state.release(false);
    state
}

#[test]
fn an_unused_state_is_fresh() {
    let mut state = State::<u64, u64>::new();
    assert_eq!(state.validate_fresh(), Ok(()));
    assert_eq!(state.ready(), Ok(()));
    for id in 0..5 {
        assert_eq!(state.readable(&id), Ok(()));
    }
    assert_eq!(state.validate_fresh(), Ok(()));
    assert_eq!(state.acquire(), Ok(()));
    assert_eq!(state.validate_fresh(), Err(Error::Conflict));
    state.release(false);
    assert_eq!(state.validate_fresh(), Ok(()));
    assert_eq!(state.register(3), Ok(()));
    assert_eq!(state.register(3), Ok(()));
    assert_eq!(state.validate_fresh(), Err(Error::Conflict));
    assert_eq!(state.finalize(3), Ok(()));
    assert_eq!(state.validate_fresh(), Err(Error::Conflict));
}

#[test]
fn preparation_excludes_and_execution_overlaps() {
    let mut state = State::new();
    assert_eq!(state.start(1, 2), Ok(()));
    assert_eq!(state.ready(), Err(Error::Busy));
    assert_eq!(state.acquire(), Err(Error::Busy));
    assert_eq!(state.start(2, 2), Err(Error::Busy));
    assert_eq!(state.register(2), Ok(()));
    assert_eq!(state.record(&1, 10), Ok(()));
    state.release(false);
    assert_eq!(state.start(1, 2), Err(Error::Busy));
    assert_eq!(state.start(2, 2), Ok(()));
    assert_eq!(state.record(&2, 20), Ok(()));
    state.release(false);
    assert_eq!(state.acquire(), Ok(()));
    assert_eq!(state.commit(1), Err(Error::Busy));
    assert_eq!(state.check_rollback(&1), Err(Error::Busy));
    assert_eq!(state.rollback(1), Err(Error::Busy));
    assert_eq!(state.finish(&2), Ok(()));
    assert_eq!(state.commit(2), Ok(Some(vec![20])));
    assert_eq!(state.pending(), vec![10]);
}

#[test]
fn capacity_bounds_the_outputs_of_one_transaction() {
    let mut state = with_task(1, 10);
    assert_eq!(state.finish(&1), Ok(()));
    assert_eq!(state.start(1, 2), Ok(()));
    assert_eq!(state.record(&1, 11), Ok(()));
    state.release(false);
    assert_eq!(state.finish(&1), Ok(()));
    assert_eq!(state.start(1, 2), Err(Error::Saturated));
    assert_eq!(state.start(2, 2), Ok(()));
    assert_eq!(state.pending(), vec![10, 11]);
}

#[test]
fn a_commit_is_decided_once() {
    let mut state = with_task(1, 10);
    assert_eq!(state.finish(&1), Ok(()));
    assert_eq!(state.commit(1), Ok(Some(vec![10])));
    assert_eq!(state.commit(1), Ok(None));
    assert_eq!(state.commit(9), Ok(Some(vec![])));
    assert_eq!(state.rollback(1), Err(Error::Committed));
    assert_eq!(state.start(1, 2), Err(Error::Committed));
    assert_eq!(state.readable(&1), Ok(()));
    assert!(state.pending().is_empty());
}

#[test]
fn a_rollback_is_decided_once() {
    let mut state = with_task(1, 10);
    state.fail(&1);
    assert_eq!(state.pending(), vec![10]);
    assert_eq!(state.check_rollback(&1), Ok(true));
    assert_eq!(state.rollback(1), Ok(()));
    assert_eq!(state.check_rollback(&1), Ok(false));
    assert_eq!(state.rollback(1), Ok(()));
    assert_eq!(state.commit(1), Err(Error::RolledBack));
    assert_eq!(state.readable(&1), Err(Error::RolledBack));
    assert_eq!(state.start(1, 2), Err(Error::RolledBack));
    assert!(state.pending().is_empty());
}

#[test]
fn a_failure_keeps_outputs() {
    let mut state = with_task(1, 10);
    state.fail(&1);
    state.fail(&2);
    assert_eq!(state.readable(&1), Err(Error::Failed));
    assert_eq!(state.readable(&2), Ok(()));
    assert_eq!(state.commit(1), Err(Error::Failed));
    assert_eq!(state.start(1, 2), Err(Error::Failed));
    assert_eq!(state.start(2, 2), Ok(()));
    assert_eq!(state.pending(), vec![10]);
}

#[test]
fn an_unknown_task_conflicts() {
    let mut state = State::<u64, u64>::new();
    assert_eq!(state.record(&1, 10), Err(Error::Conflict));
    assert_eq!(state.finish(&1), Err(Error::Conflict));
    assert!(state.pending().is_empty());
}

#[test]
fn finalization_covers_and_older_cutoffs_are_no_ops() {
    let mut state = State::<u64, u64>::new();
    for id in [5, 1, 9, 3, 7] {
        assert_eq!(state.start(id, 1), Ok(()));
        assert_eq!(state.record(&id, id * 10), Ok(()));
        state.release(false);
        assert_eq!(state.finish(&id), Ok(()));
    }
    assert_eq!(state.pending(), vec![10, 30, 50, 70, 90]);
    assert_eq!(state.finalize(5), Ok(()));
    assert_eq!(state.pending(), vec![70, 90]);
    assert_eq!(state.finalize(4), Ok(()));
    assert_eq!(state.finalize(5), Ok(()));
    assert_eq!(state.pending(), vec![70, 90]);
    for id in 0..6 {
        assert_eq!(state.check(&id), Err(Error::Outdated));
        assert_eq!(state.readable(&id), Err(Error::Outdated));
        assert_eq!(state.commit(id), Err(Error::Outdated));
        assert_eq!(state.rollback(id), Err(Error::Outdated));
    }
    assert_eq!(state.check(&6), Ok(()));
    assert_eq!(state.finalize(100), Ok(()));
    assert!(state.pending().is_empty());
    assert_eq!(state.register(100), Err(Error::Outdated));
    assert_eq!(state.register(101), Ok(()));
}

#[test]
fn an_interruption_refuses_everything() {
    let mut state = with_task(1, 10);
    assert_eq!(state.acquire(), Ok(()));
    state.release(true);
    assert_eq!(state.ready(), Err(Error::Interrupted));
    assert_eq!(state.acquire(), Err(Error::Interrupted));
    assert_eq!(state.check(&2), Err(Error::Interrupted));
    assert_eq!(state.register(2), Err(Error::Interrupted));
    assert_eq!(state.readable(&1), Err(Error::Interrupted));
    assert_eq!(state.start(2, 2), Err(Error::Interrupted));
    assert_eq!(state.finish(&1), Err(Error::Interrupted));
    assert_eq!(state.record(&1, 11), Err(Error::Interrupted));
    assert_eq!(state.commit(2), Err(Error::Interrupted));
    assert_eq!(state.check_rollback(&2), Err(Error::Interrupted));
    assert_eq!(state.rollback(2), Err(Error::Interrupted));
    assert_eq!(state.pending(), vec![10]);
}

#[test]
fn a_task_records_once_before_it_completes() {
    let mut state = State::new();
    assert_eq!(state.start(1, 3), Ok(()));
    assert_eq!(state.finish(&1), Err(Error::Failed));
    assert_eq!(state.record(&1, 10), Ok(()));
    assert_eq!(state.record(&1, 11), Err(Error::Conflict));
    assert_eq!(state.finish(&1), Ok(()));
    assert_eq!(state.finish(&1), Err(Error::Conflict));
    assert_eq!(state.record(&1, 12), Err(Error::Conflict));
    assert_eq!(state.pending(), vec![10]);
}

#[test]
fn only_a_holder_of_admission_can_interrupt() {
    let mut state = State::<u64, u64>::new();
    state.release(true);
    assert_eq!(state.ready(), Ok(()));
    assert_eq!(state.acquire(), Ok(()));
    state.release(true);
    state.release(false);
    assert_eq!(state.ready(), Err(Error::Interrupted));
}

#[test]
fn a_decision_lasts_until_it_is_final() {
    let mut state = with_task(1, 10);
    state.fail(&1);
    assert_eq!(state.rollback(1), Ok(()));
    assert_eq!(state.commit(2), Ok(Some(vec![])));
    state.fail(&1);
    state.fail(&2);
    assert_eq!(state.register(1), Ok(()));
    assert_eq!(state.record(&1, 11), Err(Error::Conflict));
    assert_eq!(state.finish(&2), Err(Error::Conflict));
    assert_eq!(state.check_rollback(&1), Ok(false));
    assert_eq!(state.commit(2), Ok(None));
    assert_eq!(state.finalize(1), Ok(()));
    assert_eq!(state.check_rollback(&1), Err(Error::Outdated));
    assert_eq!(state.commit(2), Ok(None));
}

#[test]
fn an_unseen_transaction_is_accepted() {
    let mut state = State::<u64, u64>::new();
    assert_eq!(state.finalize(4), Ok(()));
    assert_eq!(state.readable(&5), Ok(()));
    assert_eq!(state.check_rollback(&5), Ok(true));
    assert_eq!(state.commit(5), Ok(Some(vec![])));
    assert_eq!(state.rollback(6), Ok(()));
    assert_eq!(state.start(7, 1), Ok(()));
    assert_eq!(state.readable(&4), Err(Error::Outdated));
}

#[test]
fn a_started_task_can_record_whatever_others_do() {
    let mut state = State::new();
    assert_eq!(state.start(5, 1), Ok(()));
    assert_eq!(state.register(1), Ok(()));
    assert_eq!(state.register(9), Ok(()));
    assert_eq!(state.start(9, 1), Err(Error::Busy));
    assert_eq!(state.commit(5), Err(Error::Busy));
    assert_eq!(state.rollback(5), Err(Error::Busy));
    assert_eq!(state.finalize(5), Err(Error::Busy));
    assert_eq!(state.finalize(4), Ok(()));
    assert_eq!(state.finish(&5), Err(Error::Failed));
    assert_eq!(state.record(&5, 50), Ok(()));
    assert_eq!(state.pending(), vec![50]);
}

#[test]
fn a_refusal_changes_nothing() {
    let mut state = with_task(5, 50);
    assert_eq!(state.finalize(3), Ok(()));
    assert_eq!(state.register(3), Err(Error::Outdated));
    assert_eq!(state.start(5, 2), Err(Error::Busy));
    assert_eq!(state.commit(5), Err(Error::Busy));
    assert_eq!(state.rollback(5), Err(Error::Busy));
    assert_eq!(state.finalize(7), Err(Error::Busy));
    assert_eq!(state.check(&4), Ok(()));
    assert_eq!(state.pending(), vec![50]);
    assert_eq!(state.ready(), Ok(()));
    assert_eq!(state.finish(&5), Ok(()));
    assert_eq!(state.commit(5), Ok(Some(vec![50])));
}
