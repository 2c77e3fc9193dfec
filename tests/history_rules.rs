// The history rule: no test's first recorded state may be passing unless
// it is exempt.

use tdd_ratchet::history::{
    check_history, check_history_snapshots, select_snapshots, CommitLedger, HistoryError,
    HistorySnapshot, HistoryViolation,
};
use tdd_ratchet::json::Json;
use tdd_ratchet::status::{StatusFile, TestEntry, TestMap, TestState};

fn ledger(tests: &[(&str, TestState, Option<&str>)]) -> StatusFile {
    let mut map = TestMap::new();
    for (n, s, b) in tests {
        let entry = match b {
            Some(b) => TestEntry::WithBaseline {
                state: *s,
                baseline: b.to_string(),
            },
            None => TestEntry::Simple(*s),
        };
        map.insert(n.to_string(), entry);
    }
    StatusFile::new(map, None)
}

fn snap(commit: &str, tests: &[(&str, TestState, Option<&str>)]) -> HistorySnapshot {
    HistorySnapshot {
        commit: commit.to_string(),
        status: ledger(tests),
    }
}

fn skipped(test: &str, commit: &str) -> HistoryViolation {
    HistoryViolation::SkippedPending {
        test: test.to_string(),
        commit: commit.to_string(),
    }
}

use TestState::{Passing, Pending};

#[test]
fn pending_then_passing_snapshots_are_ok() {
    let s = vec![
        snap("c1", &[("my_test", Pending, None)]),
        snap("c2", &[("my_test", Passing, None)]),
    ];
    assert!(check_history_snapshots(&s, false).is_empty());
}

#[test]
fn pending_for_several_commits_then_passing_is_ok() {
    let s = vec![
        snap("c1", &[("slow_test", Pending, None)]),
        snap("c2", &[("slow_test", Pending, None)]),
        snap("c3", &[("slow_test", Pending, None)]),
        snap("c4", &[("slow_test", Passing, None)]),
    ];
    assert!(check_history_snapshots(&s, false).is_empty());
}

#[test]
fn passing_without_pending_is_rejected() {
    let s = vec![snap("c1", &[("cheater", Passing, None)])];
    assert_eq!(check_history_snapshots(&s, false), vec![skipped("cheater", "c1")]);
}

#[test]
fn first_snapshot_is_grandfathered_only_with_adoption_commit() {
    let s = vec![
        snap("base", &[("old_test", Passing, None)]),
        snap("c2", &[("old_test", Passing, None), ("new_cheater", Passing, None)]),
    ];
    assert_eq!(check_history_snapshots(&s, true), vec![skipped("new_cheater", "c2")]);
    assert_eq!(
        check_history_snapshots(&s, false),
        vec![skipped("old_test", "base"), skipped("new_cheater", "c2")]
    );
}

#[test]
fn per_test_baseline_exempts_from_its_commit_on() {
    let s = vec![
        snap("c1", &[("other", Pending, None)]),
        snap("c2", &[("other", Pending, None), ("grandfathered", Passing, None), ("cheater", Passing, None)]),
        snap("c3", &[
            ("other", Pending, None),
            ("grandfathered", Passing, Some("c2")),
            ("cheater", Passing, None),
        ]),
    ];
    assert_eq!(check_history_snapshots(&s, false), vec![skipped("cheater", "c2")]);
}

#[test]
fn per_test_baseline_after_first_appearance_does_not_exempt() {
    let s = vec![
        snap("c1", &[("t", Passing, None)]),
        snap("c2", &[("t", Passing, Some("c2"))]),
    ];
    assert_eq!(check_history_snapshots(&s, false), vec![skipped("t", "c1")]);
}

#[test]
fn per_test_baseline_outside_history_exempts() {
    let s = vec![snap("c1", &[("t", Passing, Some("elsewhere"))])];
    assert!(check_history_snapshots(&s, false).is_empty());
}

#[test]
fn gatekeeper_is_always_exempt() {
    let s = vec![snap("c1", &[("tdd_ratchet_gatekeeper", Passing, None)])];
    assert!(check_history_snapshots(&s, false).is_empty());
}

#[test]
fn vanished_and_reappearing_test_is_judged_by_first_appearance() {
    let s = vec![
        snap("c1", &[("t", Pending, None)]),
        snap("c2", &[]),
        snap("c3", &[("t", Passing, None)]),
    ];
    assert!(check_history_snapshots(&s, false).is_empty());
}

#[test]
fn empty_history_is_ok() {
    let s: Vec<HistorySnapshot> = Vec::new();
    assert!(check_history_snapshots(&s, false).is_empty());
}

fn ledger_doc(tests: &[(&str, &str)]) -> Json {
    let members = tests
        .iter()
        .map(|(n, s)| (n.to_string(), Json::Str(s.to_string())))
        .collect();
    Json::Object(vec![("tests".to_string(), Json::Object(members))])
}

fn commit(id: &str, doc: Option<Json>) -> CommitLedger {
    CommitLedger {
        commit: id.to_string(),
        document: doc,
    }
}

#[test]
fn walk_without_ledgers_gives_no_snapshots() {
    let walk = vec![commit("c1", None), commit("c2", None)];
    assert!(select_snapshots(&walk, None).unwrap().is_empty());
}

#[test]
fn walk_starts_at_adoption_commit() {
    let walk = vec![
        commit("c0", Some(ledger_doc(&[("early", "passing")]))),
        commit("c1", Some(ledger_doc(&[("old", "passing")]))),
        commit("c2", None),
        commit("c3", Some(ledger_doc(&[("old", "passing"), ("new", "pending")]))),
    ];
    let snaps = select_snapshots(&walk, Some("c1")).unwrap();
    let commits: Vec<&str> = snaps.iter().map(|s| s.commit.as_str()).collect();
    assert_eq!(commits, vec!["c1", "c3"]);
    assert!(check_history(&walk, Some("c1")).unwrap().is_empty());
    assert_eq!(
        check_history(&walk, None).unwrap(),
        vec![skipped("early", "c0"), skipped("old", "c1")]
    );
}

#[test]
fn missing_adoption_commit_fails() {
    let walk = vec![commit("c1", None)];
    assert_eq!(
        select_snapshots(&walk, Some("nowhere")).unwrap_err(),
        HistoryError::BaselineNotFound {
            baseline: "nowhere".to_string()
        }
    );
}

#[test]
fn corrupt_historical_ledger_fails_naming_its_commit() {
    let walk = vec![
        commit("c1", Some(ledger_doc(&[("a", "pending")]))),
        commit("c2", Some(Json::Str("garbage".to_string()))),
        commit("c3", Some(Json::Null)),
    ];
    assert_eq!(
        check_history(&walk, None).unwrap_err(),
        HistoryError::InvalidLedger {
            commit: "c2".to_string()
        }
    );
}

#[test]
fn corrupt_ledger_before_adoption_is_not_read() {
    let walk = vec![
        commit("c1", Some(Json::Null)),
        commit("c2", Some(ledger_doc(&[("a", "pending")]))),
    ];
    assert_eq!(select_snapshots(&walk, Some("c2")).unwrap().len(), 1);
}
