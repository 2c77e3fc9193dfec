// The per-run rules: new tests fail first, passing tests keep passing,
// tracked tests do not disappear.

use tdd_ratchet::ratchet::{check_ratchet, RatchetViolation};
use tdd_ratchet::runner::{TestOutcome, TestResult};
use tdd_ratchet::status::{StatusFile, TestEntry, TestMap, TestState};

fn status(tests: &[(&str, TestState)]) -> StatusFile {
    let mut map = TestMap::new();
    for (n, s) in tests {
        map.insert(n.to_string(), TestEntry::Simple(*s));
    }
    StatusFile {
        tests: map,
        baseline: None,
    }
}

fn results(tests: &[(&str, TestOutcome)]) -> Vec<TestResult> {
    tests
        .iter()
        .map(|(n, o)| TestResult {
            name: n.to_string(),
            outcome: *o,
        })
        .collect()
}

fn state_of(sf: &StatusFile, name: &str) -> TestState {
    sf.tests.get(name).expect("test should be tracked").state()
}

#[test]
fn new_test_that_fails_is_accepted_as_pending() {
    let sf = status(&[]);
    let tr = results(&[("new_test", TestOutcome::Failed)]);
    let outcome = check_ratchet(&sf, &tr);
    assert!(
        outcome.violations.is_empty(),
        "Should accept: {:?}",
        outcome.violations
    );
    assert_eq!(state_of(&outcome.updated, "new_test"), TestState::Pending);
}

#[test]
fn new_test_that_passes_is_rejected() {
    let sf = status(&[]);
    let tr = results(&[("new_test", TestOutcome::Passed)]);
    let outcome = check_ratchet(&sf, &tr);
    assert!(
        outcome
            .violations
            .iter()
            .any(|v| matches!(v, RatchetViolation::NewTestPassed { .. })),
        "Should reject new passing test: {:?}",
        outcome.violations
    );
}

#[test]
fn pending_test_that_now_passes_is_promoted() {
    let sf = status(&[("my_test", TestState::Pending)]);
    let tr = results(&[("my_test", TestOutcome::Passed)]);
    let outcome = check_ratchet(&sf, &tr);
    assert!(outcome.violations.is_empty());
    assert_eq!(state_of(&outcome.updated, "my_test"), TestState::Passing);
}

#[test]
fn pending_test_still_failing_is_ok() {
    let sf = status(&[("my_test", TestState::Pending)]);
    let tr = results(&[("my_test", TestOutcome::Failed)]);
    let outcome = check_ratchet(&sf, &tr);
    assert!(outcome.violations.is_empty());
    assert_eq!(state_of(&outcome.updated, "my_test"), TestState::Pending);
}

#[test]
fn passing_test_still_passing_is_ok() {
    let sf = status(&[("my_test", TestState::Passing)]);
    let tr = results(&[("my_test", TestOutcome::Passed)]);
    let outcome = check_ratchet(&sf, &tr);
    assert!(outcome.violations.is_empty());
    assert_eq!(state_of(&outcome.updated, "my_test"), TestState::Passing);
}

#[test]
fn passing_test_now_fails_is_rejected() {
    let sf = status(&[("my_test", TestState::Passing)]);
    let tr = results(&[("my_test", TestOutcome::Failed)]);
    let outcome = check_ratchet(&sf, &tr);
    assert!(
        outcome
            .violations
            .iter()
            .any(|v| matches!(v, RatchetViolation::Regression { .. })),
        "Should reject regression: {:?}",
        outcome.violations
    );
}

#[test]
fn tracked_test_missing_from_run_is_rejected() {
    let sf = status(&[("existing_test", TestState::Passing)]);
    let tr = results(&[]);
    let outcome = check_ratchet(&sf, &tr);
    assert!(
        outcome
            .violations
            .iter()
            .any(|v| matches!(v, RatchetViolation::TestDisappeared { .. })),
        "Should reject disappeared test: {:?}",
        outcome.violations
    );
}

#[test]
fn multiple_violations_all_reported() {
    let sf = status(&[("tracked", TestState::Passing)]);
    let tr = results(&[("new_passing", TestOutcome::Passed)]);
    let outcome = check_ratchet(&sf, &tr);
    assert!(
        outcome.violations.len() >= 2,
        "Expected multiple violations: {:?}",
        outcome.violations
    );
}

#[test]
fn empty_status_all_tests_pass_all_rejected() {
    let sf = status(&[]);
    let tr = results(&[("a", TestOutcome::Passed), ("b", TestOutcome::Passed)]);
    let outcome = check_ratchet(&sf, &tr);
    assert_eq!(
        outcome
            .violations
            .iter()
            .filter(|v| matches!(v, RatchetViolation::NewTestPassed { .. }))
            .count(),
        2,
    );
}

#[test]
fn empty_status_all_tests_fail_all_accepted_as_pending() {
    let sf = status(&[]);
    let tr = results(&[("a", TestOutcome::Failed), ("b", TestOutcome::Failed)]);
    let outcome = check_ratchet(&sf, &tr);
    assert!(outcome.violations.is_empty());
    assert_eq!(state_of(&outcome.updated, "a"), TestState::Pending);
    assert_eq!(state_of(&outcome.updated, "b"), TestState::Pending);
}

#[test]
fn empty_results_nonempty_status_all_rejected_as_missing() {
    let sf = status(&[("a", TestState::Passing), ("b", TestState::Pending)]);
    let tr = results(&[]);
    let outcome = check_ratchet(&sf, &tr);
    assert_eq!(
        outcome
            .violations
            .iter()
            .filter(|v| matches!(v, RatchetViolation::TestDisappeared { .. }))
            .count(),
        2,
    );
}

#[test]
fn ignored_tests_are_not_counted_as_disappeared() {
    let sf = status(&[("my_test", TestState::Passing)]);
    let tr = results(&[("my_test", TestOutcome::Ignored)]);
    let outcome = check_ratchet(&sf, &tr);
    assert!(
        outcome.violations.is_empty(),
        "Ignored tests should not be violations: {:?}",
        outcome.violations
    );
}

#[test]
fn ignored_new_test_is_not_tracked() {
    let sf = status(&[]);
    let tr = results(&[("later", TestOutcome::Ignored)]);
    let outcome = check_ratchet(&sf, &tr);
    assert!(outcome.violations.is_empty());
    assert!(outcome.updated.tests.get("later").is_none());
}

#[test]
fn passing_test_that_is_ignored_stays_passing() {
    let sf = status(&[("my_test", TestState::Passing)]);
    let tr = results(&[("my_test", TestOutcome::Ignored)]);
    let outcome = check_ratchet(&sf, &tr);
    assert_eq!(state_of(&outcome.updated, "my_test"), TestState::Passing);
}

#[test]
fn new_passing_test_leaves_ledger_unchanged() {
    let sf = status(&[("old", TestState::Pending)]);
    let tr = results(&[("old", TestOutcome::Failed), ("fresh", TestOutcome::Passed)]);
    let outcome = check_ratchet(&sf, &tr);
    assert_eq!(
        outcome.violations,
        vec![RatchetViolation::NewTestPassed {
            test: "fresh".to_string()
        }]
    );
    assert!(outcome.updated.tests.get("fresh").is_none());
    assert_eq!(outcome.updated.tests.len(), 1);
}

#[test]
fn promotion_drops_nothing_else() {
    let sf = status(&[("p", TestState::Pending), ("q", TestState::Passing)]);
    let tr = results(&[("p", TestOutcome::Passed), ("q", TestOutcome::Passed)]);
    let outcome = check_ratchet(&sf, &tr);
    assert!(outcome.violations.is_empty());
    assert_eq!(state_of(&outcome.updated, "p"), TestState::Passing);
    assert_eq!(state_of(&outcome.updated, "q"), TestState::Passing);
    assert_eq!(outcome.updated.tests.len(), 2);
}

#[test]
fn tracked_passing_test_with_empty_run_gives_exactly_one_violation() {
    let sf = status(&[("x", TestState::Passing)]);
    let outcome = check_ratchet(&sf, &results(&[]));
    assert_eq!(
        outcome.violations,
        vec![RatchetViolation::TestDisappeared {
            test: "x".to_string()
        }]
    );
}

#[test]
fn two_new_tests_one_passes_one_fails() {
    let sf = status(&[]);
    let tr = results(&[("good_test", TestOutcome::Failed), ("bad_test", TestOutcome::Passed)]);
    let outcome = check_ratchet(&sf, &tr);
    assert_eq!(
        outcome.violations,
        vec![RatchetViolation::NewTestPassed {
            test: "bad_test".to_string()
        }]
    );
    assert_eq!(state_of(&outcome.updated, "good_test"), TestState::Pending);
    assert!(outcome.updated.tests.get("bad_test").is_none());
}

#[test]
fn repeated_name_is_judged_against_the_prior_ledger() {
    let sf = status(&[]);
    let tr = results(&[("a", TestOutcome::Failed), ("a", TestOutcome::Passed)]);
    let outcome = check_ratchet(&sf, &tr);
    assert_eq!(
        outcome.violations,
        vec![RatchetViolation::NewTestPassed {
            test: "a".to_string()
        }]
    );
    assert_eq!(state_of(&outcome.updated, "a"), TestState::Pending);
}
