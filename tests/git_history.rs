// The history rule on walks of commits, oldest first, each with the ledger
// its tree holds.

use serde_json::Value;
use tdd_ratchet::history::{check_history, CommitLedger, HistoryViolation};
use tdd_ratchet::json::Json;

fn to_model(v: Value) -> Json {
    match v {
        Value::Null => Json::Null,
        Value::Bool(b) => Json::Bool(b),
        Value::Number(n) => Json::Number(n.to_string()),
        Value::String(s) => Json::Str(s),
        Value::Array(a) => Json::Array(a.into_iter().map(to_model).collect()),
        Value::Object(o) => Json::Object(o.into_iter().map(|(k, v)| (k, to_model(v))).collect()),
    }
}

fn with_ledger(commit: &str, text: &str) -> CommitLedger {
    CommitLedger {
        commit: commit.to_string(),
        document: Some(to_model(serde_json::from_str(text).unwrap())),
    }
}

fn without_ledger(commit: &str) -> CommitLedger {
    CommitLedger {
        commit: commit.to_string(),
        document: None,
    }
}

fn flags(violations: &[HistoryViolation], name: &str) -> bool {
    violations
        .iter()
        .any(|v| matches!(v, HistoryViolation::SkippedPending { test, .. } if test == name))
}

const C1: &str = "1111111111111111111111111111111111111111";
const C2: &str = "2222222222222222222222222222222222222222";
const C3: &str = "3333333333333333333333333333333333333333";

#[test]
fn test_appeared_as_pending_then_passing_is_ok() {
    let walk = vec![
        with_ledger(C1, r#"{"tests":{"my_test":"pending"}}"#),
        with_ledger(C2, r#"{"tests":{"my_test":"passing"}}"#),
    ];
    let violations = check_history(&walk, None).unwrap();
    assert!(violations.is_empty(), "Should be ok: {violations:?}");
}

#[test]
fn test_appeared_as_passing_without_pending_is_rejected() {
    let walk = vec![
        without_ledger(C1),
        with_ledger(C2, r#"{"tests":{"cheater":"passing"}}"#),
    ];
    let violations = check_history(&walk, None).unwrap();
    assert!(flags(&violations, "cheater"), "Should reject: {violations:?}");
    assert_eq!(
        violations,
        vec![HistoryViolation::SkippedPending {
            test: "cheater".to_string(),
            commit: C2.to_string()
        }]
    );
}

#[test]
fn test_pending_for_multiple_commits_then_passing_is_ok() {
    let walk = vec![
        with_ledger(C1, r#"{"tests":{"slow_test":"pending"}}"#),
        with_ledger(C2, r#"{"tests":{"slow_test":"pending"}}"#),
        with_ledger(C3, r#"{"tests":{"slow_test":"passing"}}"#),
    ];
    let violations = check_history(&walk, None).unwrap();
    assert!(violations.is_empty(), "Should be ok: {violations:?}");
}

#[test]
fn baseline_commit_grandfathers_existing_tests() {
    let walk = vec![
        with_ledger(C1, r#"{"tests":{"old_test":"passing"}}"#),
        with_ledger(C2, r#"{"tests":{"old_test":"passing","new_cheater":"passing"}}"#),
    ];
    let violations = check_history(&walk, Some(C1)).unwrap();
    assert!(
        !flags(&violations, "old_test"),
        "old_test should be grandfathered: {violations:?}"
    );
    assert!(
        flags(&violations, "new_cheater"),
        "new_cheater should be flagged: {violations:?}"
    );
}

#[test]
fn no_status_file_in_history_is_ok() {
    let walk = vec![without_ledger(C1)];
    let violations = check_history(&walk, None).unwrap();
    assert!(violations.is_empty());
}

#[test]
fn per_test_baseline_grandfathers_individual_test() {
    let status_json = format!(
        r#"{{"tests":{{"grandfathered":{{"state":"passing","baseline":"{C1}"}},"cheater":"passing"}}}}"#
    );
    let walk = vec![without_ledger(C1), with_ledger(C2, &status_json)];
    let violations = check_history(&walk, None).unwrap();
    assert!(
        !flags(&violations, "grandfathered"),
        "grandfathered should not be flagged: {violations:?}"
    );
    assert!(
        flags(&violations, "cheater"),
        "cheater should be flagged: {violations:?}"
    );
}

#[test]
fn same_test_without_per_test_baseline_is_flagged() {
    let walk = vec![
        without_ledger(C1),
        with_ledger(C2, r#"{"tests":{"grandfathered":"passing"}}"#),
    ];
    let violations = check_history(&walk, None).unwrap();
    assert!(flags(&violations, "grandfathered"), "{violations:?}");
}
