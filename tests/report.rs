// The report printed after an evaluation.

use tdd_ratchet::errors::{format_report, SEPARATOR};
use tdd_ratchet::ratchet::{EvalResult, Violation};
use tdd_ratchet::status::{StatusFile, TestEntry, TestMap, TestState};
use tdd_ratchet::text::decimal_string;

fn result(violations: Vec<Violation>, tests: &[(&str, TestState)]) -> EvalResult {
    let mut map = TestMap::new();
    for (n, s) in tests {
        map.insert(n.to_string(), TestEntry::Simple(*s));
    }
    EvalResult {
        violations,
        updated: StatusFile::new(map, None),
    }
}

#[test]
fn clean_run_reports_counts() {
    let r = result(vec![], &[("a", TestState::Passing), ("b", TestState::Passing)]);
    assert_eq!(format_report(&r), "tdd-ratchet: ok (2 passing)\n");
}

#[test]
fn clean_run_lists_pending_tests() {
    let r = result(
        vec![],
        &[("a", TestState::Passing), ("w", TestState::Pending), ("z", TestState::Pending)],
    );
    assert_eq!(
        format_report(&r),
        "tdd-ratchet: ok (1 passing, 2 pending)\n  ○ w\n  ○ z\n"
    );
}

#[test]
fn regressions_are_one_line() {
    let r = result(
        vec![
            Violation::Regression { test: "a".into() },
            Violation::Regression { test: "b".into() },
        ],
        &[("a", TestState::Passing), ("b", TestState::Passing)],
    );
    assert_eq!(format_report(&r), "tdd-ratchet: 2 tests failing unexpectedly\n");
    let one = result(vec![Violation::Regression { test: "a".into() }], &[]);
    assert_eq!(format_report(&one), "tdd-ratchet: 1 test failing unexpectedly\n");
}

#[test]
fn disappeared_section_names_the_test() {
    let r = result(vec![Violation::TestDisappeared { test: "gone".into() }], &[]);
    let expected = format!(
        "{SEPARATOR}\ntdd-ratchet: 1 test in .test-status.json was not found in the test run.\n  If you removed it intentionally, also remove it from .test-status.json.\n    ✗ gone\n{SEPARATOR}\n"
    );
    assert_eq!(format_report(&r), expected);
}

#[test]
fn skipped_pending_shows_short_commit() {
    let r = result(
        vec![Violation::SkippedPending {
            test: "sneaky".into(),
            commit: "0123456789abcdef".into(),
        }],
        &[],
    );
    let out = format_report(&r);
    assert!(out.contains("  Test skipped the pending state in git history:\n    ✗ sneaky (commit 01234567)\n"), "{out}");
    assert!(!out.contains("New test passed"), "{out}");
    assert!(out.starts_with(SEPARATOR));
}

#[test]
fn new_test_passed_section() {
    let r = result(vec![Violation::NewTestPassed { test: "cheater_test".into() }], &[]);
    let out = format_report(&r);
    assert!(out.contains("  New test passed without failing first:\n    ✗ cheater_test\n"), "{out}");
    assert!(out.contains("New tests must be committed in a failing state first."));
    assert!(!out.contains("ok ("));
}

#[test]
fn missing_gatekeeper_section_explains_setup() {
    let r = result(vec![Violation::MissingGatekeeper], &[]);
    let out = format_report(&r);
    assert!(out.contains("tdd-ratchet: no gatekeeper test found."));
    assert!(out.contains("fn tdd_ratchet_gatekeeper() {"));
    assert!(out.contains("a test named `tdd_ratchet_gatekeeper` that fails"));
}

#[test]
fn decimal_strings() {
    assert_eq!(decimal_string(0), "0");
    assert_eq!(decimal_string(7), "7");
    assert_eq!(decimal_string(10), "10");
    assert_eq!(decimal_string(1234567890), "1234567890");
}

#[test]
fn summary_counts_passing_and_lists_pending() {
    let r = result(
        vec![],
        &[("p1", TestState::Passing), ("w", TestState::Pending), ("p2", TestState::Passing)],
    );
    let (passing, pending) = tdd_ratchet::errors::ledger_summary(&r.updated);
    assert_eq!(passing, 2);
    assert_eq!(pending, vec!["w".to_string()]);
}

#[test]
fn pending_tests_are_listed_by_name() {
    let r = result(vec![], &[("b", TestState::Pending), ("a", TestState::Pending)]);
    assert_eq!(
        format_report(&r),
        "tdd-ratchet: ok (0 passing, 2 pending)\n  ○ a\n  ○ b\n"
    );
}
