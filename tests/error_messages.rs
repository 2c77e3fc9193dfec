// Ratchet failures explain context, problem and what to do.

use tdd_ratchet::errors::format_violation;
use tdd_ratchet::ratchet::RatchetViolation;

fn assert_has_context_problem_suggestion(msg: &str) {
    assert!(
        msg.contains("tdd-ratchet") || msg.contains("TDD"),
        "Error should mention tdd-ratchet context: {msg}"
    );
}

#[test]
fn new_test_passed_error_has_context_problem_suggestion() {
    let v = RatchetViolation::NewTestPassed {
        test: "my_module::my_test".to_string(),
    };
    let msg = format_violation(&v);
    assert_has_context_problem_suggestion(&msg);
    assert!(msg.contains("my_module::my_test"), "Should name the test");
    assert!(
        msg.contains("fail") || msg.contains("pending"),
        "Should explain tests must fail first: {msg}"
    );
}

#[test]
fn regression_error_has_context_problem_suggestion() {
    let v = RatchetViolation::Regression {
        test: "my_module::my_test".to_string(),
    };
    let msg = format_violation(&v);
    assert_has_context_problem_suggestion(&msg);
    assert!(msg.contains("my_module::my_test"), "Should name the test");
    assert!(
        msg.contains("regress") || msg.contains("was passing"),
        "Should explain regression: {msg}"
    );
}

#[test]
fn test_disappeared_error_has_context_problem_suggestion() {
    let v = RatchetViolation::TestDisappeared {
        test: "old_test".to_string(),
    };
    let msg = format_violation(&v);
    assert_has_context_problem_suggestion(&msg);
    assert!(msg.contains("old_test"), "Should name the test");
    assert!(
        msg.contains("disappear") || msg.contains("missing") || msg.contains("removed"),
        "Should explain test was removed: {msg}"
    );
}

#[test]
fn all_violation_variants_are_covered() {
    let violations: Vec<RatchetViolation> = vec![
        RatchetViolation::NewTestPassed { test: "a".into() },
        RatchetViolation::Regression { test: "b".into() },
        RatchetViolation::TestDisappeared { test: "c".into() },
    ];
    for v in &violations {
        let msg = format_violation(v);
        assert!(!msg.is_empty(), "Violation should produce a message: {v:?}");
        match v {
            RatchetViolation::NewTestPassed { .. } => {}
            RatchetViolation::Regression { .. } => {}
            RatchetViolation::TestDisappeared { .. } => {}
        }
    }
}

#[test]
fn new_test_passed_message_is_exact() {
    let v = RatchetViolation::NewTestPassed { test: "t".into() };
    assert_eq!(
        format_violation(&v),
        "tdd-ratchet: new test `t` passed on first appearance.\n\
         New tests must fail first (pending state) before they can pass.\n\
         Write the test so it fails, commit, then implement to make it pass."
    );
}

#[test]
fn disappeared_message_is_exact() {
    let v = RatchetViolation::TestDisappeared { test: "gone".into() };
    assert_eq!(
        format_violation(&v),
        "tdd-ratchet: tracked test `gone` is missing from the test run.\n\
         A test in .test-status.json disappeared without being removed from the status file.\n\
         If you removed the test intentionally, also remove it from .test-status.json in the same commit."
    );
}
