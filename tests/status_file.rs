// The ledger file: its schema, its two entry forms, and its saved form.

use serde_json::Value;
use tdd_ratchet::json::{Json, SchemaError};
use tdd_ratchet::status::{StatusFile, TestEntry, TestMap, TestState};

fn to_model(v: Value) -> Json {
    match v {
        Value::Null => Json::Null,
        Value::Bool(b) => Json::Bool(b),
        Value::Number(n) => Json::Number(n.to_string()),
        Value::String(s) => Json::Str(s),
        Value::Array(a) => Json::Array(a.into_iter().map(to_model).collect()),
        Value::Object(o) => Json::Object(o.into_iter().map(|(k, v)| (k, to_model(v))).collect()),
    }
}

fn from_model(j: &Json) -> Value {
    match j {
        Json::Null => Value::Null,
        Json::Bool(b) => Value::Bool(*b),
        Json::Number(n) => Value::Number(n.parse().unwrap()),
        Json::Str(s) => Value::String(s.clone()),
        Json::Array(a) => Value::Array(a.iter().map(from_model).collect()),
        Json::Object(o) => Value::Object(o.iter().map(|(k, v)| (k.clone(), from_model(v))).collect()),
    }
}

fn parse(text: &str) -> Result<StatusFile, SchemaError> {
    let value: Value = serde_json::from_str(text).unwrap();
    StatusFile::from_json(&to_model(value))
}

fn saved_text(status: &StatusFile) -> String {
    serde_json::to_string_pretty(&from_model(&status.to_json())).unwrap() + "\n"
}

fn make_status(tests: &[(&str, TestState)]) -> StatusFile {
    let mut map = TestMap::new();
    for (name, state) in tests {
        map.insert(name.to_string(), TestEntry::Simple(*state));
    }
    StatusFile::new(map, None)
}

#[test]
fn empty_status_file_parses_to_empty_map() {
    let status = parse(r#"{"tests":{}}"#).unwrap();
    assert!(status.tests.is_empty());
}

#[test]
fn status_file_with_pending_and_passing_loads_correctly() {
    let status = parse(r#"{"tests":{"mod::test_a":"passing","mod::test_b":"pending"}}"#).unwrap();
    assert_eq!(status.tests.get("mod::test_a").unwrap().state(), TestState::Passing);
    assert_eq!(status.tests.get("mod::test_b").unwrap().state(), TestState::Pending);
}

#[test]
fn round_trip_write_then_read() {
    let original = make_status(&[
        ("test_one", TestState::Passing),
        ("test_two", TestState::Pending),
    ]);
    let loaded = parse(&saved_text(&original)).unwrap();
    assert_eq!(original.tests, loaded.tests);
    assert_eq!(original.baseline, loaded.baseline);
}

#[test]
fn unknown_fields_are_rejected() {
    let result = parse(r#"{"tests":{"a":"passing"},"future_field":"whatever"}"#);
    assert!(result.is_err(), "Unknown fields should be rejected");
}

#[test]
fn schema_field_is_accepted() {
    let status = parse(r#"{"$schema":"https://tdd-ratchet.maxeonyx.com/schema/test-status.v1.json","tests":{"a":"passing"}}"#).unwrap();
    assert_eq!(status.tests.len(), 1);
}

#[test]
fn save_always_writes_schema_key() {
    let status = make_status(&[("a", TestState::Passing)]);
    let contents = saved_text(&status);
    assert!(contents.contains("$schema"), "Saved file should contain $schema key");
    assert!(
        contents.contains("tdd-ratchet.maxeonyx.com"),
        "Saved file should contain schema URL"
    );
}

#[test]
fn test_name_with_special_characters() {
    let status = parse(r#"{"tests":{"mod::sub::test with spaces & colons: yes":"pending"}}"#).unwrap();
    assert_eq!(
        status.tests.get("mod::sub::test with spaces & colons: yes").unwrap().state(),
        TestState::Pending
    );
}

#[test]
fn saved_file_is_human_readable_json() {
    let status = make_status(&[
        ("b_test", TestState::Pending),
        ("a_test", TestState::Passing),
    ]);
    let contents = saved_text(&status);
    assert!(contents.contains('\n'), "Should be pretty-printed");
    let a_pos = contents.find("a_test").unwrap();
    let b_pos = contents.find("b_test").unwrap();
    assert!(a_pos < b_pos, "Tests should be sorted alphabetically");
}

#[test]
fn per_test_baseline_object_form_parses() {
    let status = parse(r#"{"tests":{"my_test":{"state":"passing","baseline":"abc123"}}}"#).unwrap();
    assert_eq!(status.tests.get("my_test").unwrap().state(), TestState::Passing);
    assert_eq!(status.tests.get("my_test").unwrap().baseline(), Some("abc123"));
}

#[test]
fn per_test_baseline_mixed_with_simple_entries() {
    let status = parse(
        r#"{"tests":{"simple":"pending","with_baseline":{"state":"passing","baseline":"def456"}}}"#,
    )
    .unwrap();
    assert_eq!(status.tests.get("simple").unwrap().state(), TestState::Pending);
    assert_eq!(status.tests.get("simple").unwrap().baseline(), None);
    assert_eq!(status.tests.get("with_baseline").unwrap().state(), TestState::Passing);
    assert_eq!(status.tests.get("with_baseline").unwrap().baseline(), Some("def456"));
}

#[test]
fn save_normalizes_simple_entries_as_strings() {
    let status = make_status(&[("a", TestState::Passing)]);
    let contents = saved_text(&status);
    assert!(
        contents.contains(r#""a": "passing""#),
        "Simple entries should serialize as bare strings: {contents}"
    );
}

#[test]
fn save_preserves_per_test_baseline_as_object() {
    let mut tests = TestMap::new();
    tests.insert("simple".to_string(), TestEntry::Simple(TestState::Passing));
    tests.insert(
        "grandfathered".to_string(),
        TestEntry::WithBaseline {
            state: TestState::Passing,
            baseline: "abc123".to_string(),
        },
    );
    let status = StatusFile::new(tests, None);
    let loaded = parse(&saved_text(&status)).unwrap();
    assert_eq!(loaded.tests.get("simple").unwrap().state(), TestState::Passing);
    assert_eq!(loaded.tests.get("simple").unwrap().baseline(), None);
    assert_eq!(loaded.tests.get("grandfathered").unwrap().state(), TestState::Passing);
    assert_eq!(loaded.tests.get("grandfathered").unwrap().baseline(), Some("abc123"));
}

#[test]
fn round_trip_keeps_adoption_commit() {
    let mut status = make_status(&[("x", TestState::Pending)]);
    status.baseline = Some("0123456789abcdef".to_string());
    let loaded = parse(&saved_text(&status)).unwrap();
    assert_eq!(loaded.baseline.as_deref(), Some("0123456789abcdef"));
    assert_eq!(loaded.tests, status.tests);
}

#[test]
fn missing_tests_member_is_rejected() {
    assert_eq!(parse(r#"{"baseline":"abc"}"#).unwrap_err(), SchemaError);
}

#[test]
fn unknown_state_word_is_rejected() {
    assert!(parse(r#"{"tests":{"a":"flaky"}}"#).is_err());
}

#[test]
fn entry_object_with_extra_member_is_rejected() {
    assert!(parse(r#"{"tests":{"a":{"state":"passing","baseline":"c","note":"x"}}}"#).is_err());
}

#[test]
fn entry_object_without_baseline_is_rejected() {
    assert!(parse(r#"{"tests":{"a":{"state":"passing"}}}"#).is_err());
}

#[test]
fn null_baseline_reads_as_none() {
    let status = parse(r#"{"tests":{},"baseline":null}"#).unwrap();
    assert_eq!(status.baseline, None);
}

#[test]
fn non_object_document_is_rejected() {
    assert!(parse(r#"["tests"]"#).is_err());
}

#[test]
fn state_words() {
    assert_eq!(TestState::Pending.as_str(), "pending");
    assert_eq!(TestState::Passing.as_str(), "passing");
}
