// The full evaluation: gatekeeper, per-run rules and history together.

use tdd_ratchet::history::HistorySnapshot;
use tdd_ratchet::ratchet::{evaluate, initial_status, is_gatekeeper_name, Violation, GATEKEEPER_TEST_NAME};
use tdd_ratchet::runner::{TestOutcome, TestResult};
use tdd_ratchet::status::{StatusFile, TestEntry, TestMap, TestState};

fn status(tests: &[(&str, TestState)]) -> StatusFile {
    let mut map = TestMap::new();
    for (n, s) in tests {
        map.insert(n.to_string(), TestEntry::Simple(*s));
    }
    StatusFile::new(map, None)
}

fn results(tests: &[(&str, TestOutcome)]) -> Vec<TestResult> {
    tests
        .iter()
        .map(|(n, o)| TestResult {
            name: n.to_string(),
            outcome: *o,
        })
        .collect()
}

fn with_gatekeeper(tests: &[(&str, TestOutcome)]) -> Vec<TestResult> {
    let mut r = results(tests);
    r.push(TestResult {
        name: GATEKEEPER_TEST_NAME.to_string(),
        outcome: TestOutcome::Passed,
    });
    r
}

#[test]
fn empty_ledger_two_failures_become_pending() {
    let r = evaluate(
        &status(&[]),
        &with_gatekeeper(&[("a", TestOutcome::Failed), ("b", TestOutcome::Failed)]),
        &[],
    );
    assert!(r.violations.is_empty(), "{:?}", r.violations);
    assert_eq!(r.updated.tests.get("a").unwrap().state(), TestState::Pending);
    assert_eq!(r.updated.tests.get("b").unwrap().state(), TestState::Pending);
}

#[test]
fn empty_run_reports_the_tracked_test_disappeared() {
    let r = evaluate(&status(&[("x", TestState::Passing)]), &[], &[]);
    let disappeared: Vec<&Violation> = r
        .violations
        .iter()
        .filter(|v| matches!(v, Violation::TestDisappeared { .. }))
        .collect();
    assert_eq!(
        disappeared,
        vec![&Violation::TestDisappeared { test: "x".to_string() }]
    );
    assert_eq!(
        r.violations,
        vec![
            Violation::MissingGatekeeper,
            Violation::TestDisappeared { test: "x".to_string() }
        ]
    );
}

#[test]
fn gatekeeper_may_pass_on_first_appearance() {
    let r = evaluate(
        &status(&[]),
        &results(&[(GATEKEEPER_TEST_NAME, TestOutcome::Passed)]),
        &[],
    );
    assert!(r.violations.is_empty(), "{:?}", r.violations);
    assert_eq!(
        r.updated.tests.get(GATEKEEPER_TEST_NAME).unwrap().state(),
        TestState::Passing
    );
}

#[test]
fn qualified_gatekeeper_name_is_recognised() {
    assert!(is_gatekeeper_name("my-crate::gatekeeper$tdd_ratchet_gatekeeper"));
    assert!(!is_gatekeeper_name("tdd_ratchet_gatekeeper_extra"));
    assert!(!is_gatekeeper_name("gatekeeper"));
}

#[test]
fn one_new_failing_and_one_new_passing() {
    let r = evaluate(
        &status(&[]),
        &with_gatekeeper(&[("good_test", TestOutcome::Failed), ("bad_test", TestOutcome::Passed)]),
        &[],
    );
    assert_eq!(
        r.violations,
        vec![Violation::NewTestPassed { test: "bad_test".to_string() }]
    );
    assert_eq!(r.updated.tests.get("good_test").unwrap().state(), TestState::Pending);
    assert!(r.updated.tests.get("bad_test").is_none());
}

#[test]
fn missing_gatekeeper_does_not_block_transitions() {
    let r = evaluate(
        &status(&[("p", TestState::Pending)]),
        &results(&[("p", TestOutcome::Passed)]),
        &[],
    );
    assert_eq!(r.violations, vec![Violation::MissingGatekeeper]);
    assert_eq!(r.updated.tests.get("p").unwrap().state(), TestState::Passing);
}

#[test]
fn progress_is_kept_despite_a_regression() {
    let r = evaluate(
        &status(&[("p", TestState::Pending), ("q", TestState::Passing)]),
        &with_gatekeeper(&[
            ("p", TestOutcome::Passed),
            ("q", TestOutcome::Failed),
            ("n", TestOutcome::Failed),
        ]),
        &[],
    );
    assert_eq!(r.violations, vec![Violation::Regression { test: "q".to_string() }]);
    assert_eq!(r.updated.tests.get("p").unwrap().state(), TestState::Passing);
    assert_eq!(r.updated.tests.get("q").unwrap().state(), TestState::Passing);
    assert_eq!(r.updated.tests.get("n").unwrap().state(), TestState::Pending);
}

#[test]
fn history_findings_are_folded_in() {
    let snapshots = vec![HistorySnapshot {
        commit: "c1".to_string(),
        status: status(&[("sneaky", TestState::Passing)]),
    }];
    let r = evaluate(
        &status(&[("sneaky", TestState::Passing)]),
        &with_gatekeeper(&[("sneaky", TestOutcome::Passed)]),
        &snapshots,
    );
    assert_eq!(
        r.violations,
        vec![Violation::SkippedPending {
            test: "sneaky".to_string(),
            commit: "c1".to_string()
        }]
    );
}

#[test]
fn adoption_commit_grandfathers_through_evaluate() {
    let snapshots = vec![HistorySnapshot {
        commit: "c1".to_string(),
        status: status(&[("legacy", TestState::Passing)]),
    }];
    let mut ledger = status(&[("legacy", TestState::Passing)]);
    ledger.baseline = Some("c1".to_string());
    let r = evaluate(
        &ledger,
        &with_gatekeeper(&[("legacy", TestOutcome::Passed)]),
        &snapshots,
    );
    assert!(r.violations.is_empty(), "{:?}", r.violations);
}

#[test]
fn evaluating_twice_gives_the_same_result() {
    let ledger = status(&[("a", TestState::Pending), ("b", TestState::Passing)]);
    let run = results(&[("a", TestOutcome::Passed), ("c", TestOutcome::Passed)]);
    let first = evaluate(&ledger, &run, &[]);
    let second = evaluate(&ledger, &run, &[]);
    assert_eq!(first.violations, second.violations);
    assert_eq!(first.updated, second.updated);
}

#[test]
fn initial_status_grandfathers_current_outcomes() {
    let run = results(&[
        ("old_pass", TestOutcome::Passed),
        ("old_fail", TestOutcome::Failed),
        ("skipped", TestOutcome::Ignored),
    ]);
    let ledger = initial_status(&run, Some("head".to_string()));
    assert_eq!(ledger.tests.len(), 2);
    assert_eq!(ledger.tests.get("old_pass").unwrap().state(), TestState::Passing);
    assert_eq!(ledger.tests.get("old_fail").unwrap().state(), TestState::Pending);
    assert!(ledger.tests.get("skipped").is_none());
    assert_eq!(ledger.baseline.as_deref(), Some("head"));
}

#[test]
fn empty_ledger_is_empty() {
    let ledger = StatusFile::empty();
    assert!(ledger.tests.is_empty());
    assert_eq!(ledger.baseline, None);
}

#[test]
fn insert_replaces_an_entry() {
    let mut map = TestMap::new();
    map.insert("a".to_string(), TestEntry::Simple(TestState::Pending));
    map.insert("a".to_string(), TestEntry::Simple(TestState::Passing));
    assert_eq!(map.len(), 1);
    assert!(map.contains_key("a"));
    assert_eq!(map.get("a").unwrap().state(), TestState::Passing);
}

#[test]
fn new_pending_test_takes_its_place_by_name() {
    let r = evaluate(
        &status(&[("b", TestState::Pending)]),
        &with_gatekeeper(&[("b", TestOutcome::Failed), ("a", TestOutcome::Failed)]),
        &[],
    );
    assert!(r.violations.is_empty(), "{:?}", r.violations);
    let names: Vec<&str> = r
        .updated
        .tests
        .records()
        .iter()
        .map(|rec| rec.name.as_str())
        .collect();
    assert_eq!(names, vec!["a", "b", GATEKEEPER_TEST_NAME]);
    let report = tdd_ratchet::errors::format_report(&r);
    assert!(report.ends_with("  ○ a\n  ○ b\n"), "{report}");
}

#[test]
fn disappeared_tests_are_reported_by_name() {
    let r = evaluate(
        &status(&[("zeta", TestState::Passing), ("alpha", TestState::Pending)]),
        &with_gatekeeper(&[]),
        &[],
    );
    assert_eq!(
        r.violations,
        vec![
            Violation::TestDisappeared { test: "alpha".to_string() },
            Violation::TestDisappeared { test: "zeta".to_string() }
        ]
    );
}

#[test]
fn names_sort_by_code_point() {
    let mut map = TestMap::new();
    for n in ["b", "B", "ab", "a", "é", "a::b"] {
        map.insert(n.to_string(), TestEntry::Simple(TestState::Pending));
    }
    let names: Vec<&str> = map.records().iter().map(|r| r.name.as_str()).collect();
    let mut expected = vec!["b", "B", "ab", "a", "é", "a::b"];
    expected.sort();
    assert_eq!(names, expected);
}
