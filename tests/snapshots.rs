use dota_updates::cycle::{plan_cycle, CyclePlan};
use dota_updates::snapshot::{compare_json_files, decode_snapshot, encode_snapshot, has_changed};

const TEST1_EQ: &str = r#"["Dota 2 Update 3/28/2024","Gameplay Patch 7.35d And Matchmaking Features"]"#;
const TEST2_EQ: &str = r#"["Dota 2 Update 3/28/2024","Gameplay Patch 7.35d And Matchmaking Features"]"#;
const TEST_DIF: &str = r#"["Dota 2 Update 4/2/2024","Gameplay Patch 7.35d And Matchmaking Features"]"#;

fn snap(items: &[&str]) -> Vec<String> {
    items.iter().map(|s| s.to_string()).collect()
}

#[test]
fn test_compare_json_files() {
    let result = compare_json_files(TEST1_EQ, TEST2_EQ).unwrap();
    assert!(result);

    let result = compare_json_files(TEST1_EQ, TEST_DIF).unwrap();
    assert!(!result);
}

#[test]
fn compare_rejects_malformed_json() {
    assert_eq!(
        compare_json_files("[\"a\"", TEST1_EQ),
        Err("Failed to parse JSON from the first snapshot".to_string())
    );
    assert_eq!(
        compare_json_files(TEST1_EQ, "{\"key\":\"value\"}"),
        Err("Failed to parse JSON from the second snapshot".to_string())
    );
}

#[test]
fn empty_snapshot_round_trip() {
    let text = encode_snapshot(&Vec::new());
    assert_eq!(text, "[]");
    assert_eq!(decode_snapshot(&text), Some(Vec::new()));
}

#[test]
fn compare_ignores_whitespace_but_not_order() {
    assert_eq!(compare_json_files("[\"a\", \"b\"]", "[\"a\",\"b\"]"), Ok(true));
    assert_eq!(compare_json_files("[\"a\",\"b\"]", "[\"b\",\"a\"]"), Ok(false));
}

#[test]
fn snapshot_round_trip() {
    let s = snap(&["headline1", "headline2"]);
    let text = encode_snapshot(&s);
    assert_eq!(text, "[\"headline1\",\"headline2\"]");
    assert_eq!(decode_snapshot(&text), Some(s));
}

#[test]
fn decode_rejects_non_array() {
    assert_eq!(decode_snapshot("{\"key\":\"value\"}"), None);
    assert_eq!(decode_snapshot("[1,2]"), None);
}

#[test]
fn same_snapshot_is_unchanged() {
    let s = snap(&["a", "b", "c"]);
    assert!(!has_changed(Some(&s), &s.clone()));
}

#[test]
fn one_changed_headline_is_a_change() {
    let s = snap(&["a", "b", "c"]);
    let t = snap(&["a", "x", "c"]);
    assert!(has_changed(Some(&s), &t));
}

#[test]
fn different_length_is_a_change() {
    let s = snap(&["a", "b"]);
    let t = snap(&["a", "b", "c"]);
    assert!(has_changed(Some(&s), &t));
    assert!(has_changed(Some(&t), &s));
}

#[test]
fn no_baseline_is_no_change() {
    let s = snap(&["a"]);
    assert!(!has_changed(None, &s));
}

#[test]
fn identical_snapshots_store_nothing_and_send_nothing() {
    let stored = decode_snapshot(TEST1_EQ).unwrap();
    let current = decode_snapshot(TEST2_EQ).unwrap();
    let plan = plan_cycle(Some(&stored), &current);
    assert_eq!(plan, CyclePlan::Unchanged);
    assert!(!plan.stores());
    assert!(!plan.notifies());
}

#[test]
fn changed_snapshot_is_stored_and_announced() {
    let stored = decode_snapshot(TEST1_EQ).unwrap();
    let current = decode_snapshot(TEST_DIF).unwrap();
    let plan = plan_cycle(Some(&stored), &current);
    assert_eq!(plan, CyclePlan::Changed);
    assert!(plan.stores());
    assert!(plan.notifies());
}

#[test]
fn first_run_sets_a_baseline() {
    let current = snap(&["a"]);
    let plan = plan_cycle(None, &current);
    assert_eq!(plan, CyclePlan::Baseline);
    assert!(plan.stores());
    assert!(!plan.notifies());
}
