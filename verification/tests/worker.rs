use username_sweep::work::WorkItem;
use username_sweep::worker::{advance, Pool, Step, WorkerState};

#[test]
fn a_running_worker_checks_the_candidate_it_receives() {
    let (state, step) = advance(WorkerState::Running, Some(WorkItem::Candidate("ab".to_string())));
    assert_eq!(state, WorkerState::Running);
    assert_eq!(step, Step::Check("ab".to_string()));
}

#[test]
fn a_running_worker_stops_on_the_marker() {
    let (state, step) = advance(WorkerState::Running, Some(WorkItem::EndOfWork));
    assert_eq!(state, WorkerState::Terminated);
    assert_eq!(step, Step::Stop);
}

#[test]
fn a_running_worker_stops_when_the_queue_is_closed() {
    let (state, step) = advance(WorkerState::Running, None);
    assert_eq!(state, WorkerState::Terminated);
    assert_eq!(step, Step::Stop);
}

#[test]
fn a_terminated_worker_never_runs_again() {
    let inputs = vec![Some(WorkItem::Candidate("ab".to_string())), Some(WorkItem::EndOfWork), None];
    for received in inputs {
        let (state, step) = advance(WorkerState::Terminated, received);
        assert_eq!(state, WorkerState::Terminated);
        assert_eq!(step, Step::Stop);
    }
}

#[test]
fn a_fresh_pool_is_all_running() {
    let pool = Pool::new(3);
    assert_eq!(pool.size(), 3);
    assert_eq!(pool.markers_consumed(), 0);
    assert!(pool.is_active());
    for worker in 0..3 {
        assert_eq!(pool.state_of(worker), WorkerState::Running);
    }
}

#[test]
fn an_empty_pool_is_not_active() {
    let pool = Pool::new(0);
    assert_eq!(pool.size(), 0);
    assert!(!pool.is_active());
}

#[test]
fn a_marker_terminates_only_the_worker_that_receives_it() {
    let mut pool = Pool::new(3);
    assert_eq!(pool.deliver(1, WorkItem::EndOfWork), Step::Stop);
    assert_eq!(pool.state_of(0), WorkerState::Running);
    assert_eq!(pool.state_of(1), WorkerState::Terminated);
    assert_eq!(pool.state_of(2), WorkerState::Running);
    assert_eq!(pool.markers_consumed(), 1);
    assert!(pool.is_active());
}

#[test]
fn a_terminated_worker_takes_nothing_more() {
    let mut pool = Pool::new(2);
    pool.deliver(0, WorkItem::EndOfWork);
    assert_eq!(pool.deliver(0, WorkItem::Candidate("ab".to_string())), Step::Stop);
    assert_eq!(pool.deliver(0, WorkItem::EndOfWork), Step::Stop);
    assert_eq!(pool.markers_consumed(), 1);
    assert_eq!(pool.state_of(1), WorkerState::Running);
}

#[test]
fn a_worker_outside_the_pool_takes_nothing() {
    let mut pool = Pool::new(2);
    assert_eq!(pool.deliver(2, WorkItem::EndOfWork), Step::Stop);
    assert_eq!(pool.deliver(7, WorkItem::Candidate("ab".to_string())), Step::Stop);
    assert_eq!(pool.markers_consumed(), 0);
    assert!(pool.is_active());
}

#[test]
fn a_candidate_leaves_the_pool_as_it_was() {
    let mut pool = Pool::new(2);
    assert_eq!(pool.deliver(1, WorkItem::Candidate("ab".to_string())), Step::Check("ab".to_string()));
    assert_eq!(pool.state_of(0), WorkerState::Running);
    assert_eq!(pool.state_of(1), WorkerState::Running);
    assert_eq!(pool.markers_consumed(), 0);
}
