use std::collections::BTreeSet;

use tokio::sync::mpsc;
use tokio::sync::mpsc::error::TrySendError;
use username_sweep::aggregator::Aggregator;
use username_sweep::generator::generateAllCombinations;
use username_sweep::work::{work_plan, WorkItem};
use username_sweep::worker::{Pool, Step, WorkerState};

fn mock_check(candidate: &str, available: &[&str]) -> bool {
    available.contains(&candidate)
}

fn run(length: usize, workers: usize, available: &[&str]) -> (Pool, Aggregator, Vec<usize>, String) {
    let candidates = generateAllCombinations(length);
    let plan = work_plan(&candidates, workers);
    let mut pool = Pool::new(workers);
    let mut aggregator = Aggregator::new();
    let mut checked = vec![0usize; workers];
    let mut file = String::new();
    let mut turn = 0usize;
    for item in plan {
        while pool.state_of(turn % workers) != WorkerState::Running {
            turn += 1;
        }
        let worker = turn % workers;
        turn += 1;
        if let Step::Check(candidate) = pool.deliver(worker, item) {
            checked[worker] += 1;
            let outcome = aggregator.record(&candidate, mock_check(&candidate, available));
            if let Some(line) = outcome.line {
                file.push_str(&line);
            }
        }
    }
    (pool, aggregator, checked, file)
}

#[test]
fn a_full_run_finds_exactly_the_available_candidates() {
    let available = ["c", "q", "z", "a"];
    let (_, aggregator, _, file) = run(1, 4, &available);
    let found: BTreeSet<String> = aggregator.results().iter().cloned().collect();
    let expected: BTreeSet<String> = available.iter().map(|s| s.to_string()).collect();
    assert_eq!(found, expected);
    assert_eq!(aggregator.count(), 4);
    assert_eq!(file.lines().count(), aggregator.count());
    assert_eq!(file, "a\nc\nq\nz\n");
}

#[test]
fn a_full_run_with_nothing_available_finds_nothing() {
    let (_, aggregator, checked, file) = run(1, 3, &[]);
    assert_eq!(aggregator.count(), 0);
    assert!(file.is_empty());
    assert_eq!(checked.iter().sum::<usize>(), 26);
}

#[test]
fn a_full_run_consumes_one_marker_per_worker() {
    let (pool, _, checked, _) = run(2, 5, &["ab"]);
    assert_eq!(pool.markers_consumed(), 5);
    assert!(!pool.is_active());
    for worker in 0..5 {
        assert_eq!(pool.state_of(worker), WorkerState::Terminated);
    }
    assert_eq!(checked.iter().sum::<usize>(), 676);
}

#[test]
fn a_full_queue_refuses_the_next_item() {
    let capacity = 4usize;
    let candidates = generateAllCombinations(1);
    let (tx, mut rx) = mpsc::channel::<WorkItem>(capacity);
    let mut accepted = 0usize;
    let mut refused = None;
    for item in work_plan(&candidates, 2) {
        match tx.try_send(item) {
            Ok(()) => accepted += 1,
            Err(TrySendError::Full(item)) => {
                refused = Some(item);
                break;
            }
            Err(TrySendError::Closed(_)) => panic!("queue closed"),
        }
    }
    assert_eq!(accepted, capacity);
    assert_eq!(refused, Some(WorkItem::Candidate("e".to_string())));
    assert_eq!(rx.try_recv().ok(), Some(WorkItem::Candidate("a".to_string())));
    assert!(tx.try_send(WorkItem::Candidate("e".to_string())).is_ok());
    assert!(tx.try_send(WorkItem::Candidate("f".to_string())).is_err());
}
