use username_sweep::aggregator::{Aggregator, Outcome, MARK_AVAILABLE, MARK_UNAVAILABLE};

#[test]
fn a_fresh_aggregator_holds_nothing() {
    let aggregator = Aggregator::new();
    assert_eq!(aggregator.count(), 0);
    assert!(aggregator.results().is_empty());
    assert!(aggregator.listing().is_empty());
}

#[test]
fn an_available_candidate_is_recorded_with_its_line_and_mark() {
    let mut aggregator = Aggregator::new();
    let outcome = aggregator.record("ab", true);
    assert_eq!(outcome, Outcome { line: Some("ab\n".to_string()), marker: '+' });
    assert_eq!(outcome.marker, MARK_AVAILABLE);
    assert_eq!(aggregator.count(), 1);
    assert_eq!(aggregator.results(), &vec!["ab".to_string()]);
}

#[test]
fn an_unavailable_candidate_changes_nothing() {
    let mut aggregator = Aggregator::new();
    aggregator.record("ab", true);
    let outcome = aggregator.record("cd", false);
    assert_eq!(outcome, Outcome { line: None, marker: '.' });
    assert_eq!(outcome.marker, MARK_UNAVAILABLE);
    assert_eq!(aggregator.count(), 1);
    assert_eq!(aggregator.results(), &vec!["ab".to_string()]);
}

#[test]
fn results_keep_the_order_of_recording() {
    let mut aggregator = Aggregator::new();
    aggregator.record("zz", true);
    aggregator.record("mm", false);
    aggregator.record("aa", true);
    aggregator.record("kk", true);
    assert_eq!(aggregator.results(), &vec!["zz".to_string(), "aa".to_string(), "kk".to_string()]);
    assert_eq!(aggregator.count(), 3);
}

#[test]
fn file_and_list_stay_in_lockstep() {
    let mut aggregator = Aggregator::new();
    let mut file = String::new();
    let verdicts = [("aa", true), ("ab", false), ("ac", true), ("ad", true), ("ae", false)];
    for (candidate, available) in verdicts {
        let outcome = aggregator.record(candidate, available);
        if let Some(line) = outcome.line {
            file.push_str(&line);
        }
        let lines: Vec<String> = file.lines().map(|l| l.to_string()).collect();
        assert_eq!(&lines, aggregator.results());
    }
    assert_eq!(file, "aa\nac\nad\n");
    assert_eq!(file.lines().count(), aggregator.count());
}

#[test]
fn a_later_run_appends_behind_what_the_file_held() {
    let before = "aa\nzz\n".to_string();
    let mut file = before.clone();
    let mut aggregator = Aggregator::new();
    for candidate in ["aa", "bb"] {
        if let Some(line) = aggregator.record(candidate, true).line {
            file.push_str(&line);
        }
    }
    assert!(file.starts_with(&before));
    assert_eq!(file, "aa\nzz\naa\nbb\n");
    assert_eq!(file.lines().count(), before.lines().count() + aggregator.count());
}

#[test]
fn the_same_candidate_recorded_twice_is_listed_twice() {
    let mut aggregator = Aggregator::new();
    aggregator.record("aa", true);
    aggregator.record("aa", true);
    assert_eq!(aggregator.results(), &vec!["aa".to_string(), "aa".to_string()]);
}

#[test]
fn listing_has_one_dashed_line_per_result() {
    let mut aggregator = Aggregator::new();
    aggregator.record("ab", true);
    aggregator.record("cd", false);
    aggregator.record("ef", true);
    assert_eq!(aggregator.listing(), vec!["- ab".to_string(), "- ef".to_string()]);
}
