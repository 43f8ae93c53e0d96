use squishi::invariants::{describe, InvariantConfig, Unit};

fn unit(pairs: &[(&str, &str)]) -> Unit {
    Unit::new(
        pairs
            .iter()
            .map(|(k, v)| (k.to_string(), v.to_string()))
            .collect(),
    )
}

#[test]
fn constant_field_detected_and_rendered() {
    let units = vec![
        unit(&[("state", "charged")]),
        unit(&[("state", "charged")]),
        unit(&[("state", "charged")]),
    ];
    let marker = describe(&units, &InvariantConfig::default()).unwrap();
    assert_eq!(marker, "state=charged");
}

#[test]
fn numeric_varying_field_renders_a_range_using_original_strings() {
    let units = vec![
        unit(&[("amount", "5.00")]),
        unit(&[("amount", "199.99")]),
        unit(&[("amount", "42.50")]),
    ];
    let marker = describe(&units, &InvariantConfig::default()).unwrap();
    assert_eq!(marker, "range amount=5.00..199.99");
}

#[test]
fn identifier_shaped_field_renders_coverage_not_enumeration() {
    let ids = [
        "1003", "1000", "1047", "1012", "1099", "1055", "1071", "1030",
    ];
    let units: Vec<Unit> = ids
        .iter()
        .map(|n| unit(&[("order_id", &format!("ord-{n}"))]))
        .collect();
    let marker = describe(&units, &InvariantConfig::default()).unwrap();
    assert_eq!(marker, "order_id: 8 distinct, ord-1000..ord-1099");
}

#[test]
fn dense_identifier_run_renders_verified_full_membership() {
    let units: Vec<Unit> = (5000..=5059)
        .map(|n| unit(&[("bin", &format!("wh-{n}"))]))
        .collect();
    let marker = describe(&units, &InvariantConfig::default()).unwrap();
    assert_eq!(marker, "bin: wh-5000..wh-5059 all 60 present");
}

#[test]
fn more_than_max_distinct_non_identifier_field_is_withheld_entirely() {
    let statuses = [
        "queued", "queued", "running", "running", "done", "failed", "retrying", "queued",
        "done", "paused",
    ];
    let units: Vec<Unit> = statuses
        .iter()
        .map(|s| unit(&[("status", s), ("kind", "widget")]))
        .collect();
    let marker = describe(&units, &InvariantConfig::default()).unwrap();
    assert!(!marker.contains("status"), "got: {marker}");
    assert!(marker.contains("kind=widget"), "got: {marker}");
}

#[test]
fn a_long_or_spaced_value_withholds_its_whole_field() {
    let units = vec![
        unit(&[("note", "a value with spaces in it")]),
        unit(&[("note", "another distinct note")]),
    ];
    let marker = describe(&units, &InvariantConfig::default());
    assert!(marker.is_none(), "got: {marker:?}");
}

#[test]
fn a_credential_shaped_field_name_is_withheld_regardless_of_value_shape() {
    let units = vec![
        unit(&[("api_key", "abc123")]),
        unit(&[("api_key", "def456")]),
    ];
    let marker = describe(&units, &InvariantConfig::default());
    assert!(marker.is_none(), "got: {marker:?}");
}

#[test]
fn absent_bucket_is_accurate() {
    let units = vec![
        unit(&[("status", "fulfilled")]),
        unit(&[("status", "shipped")]),
        unit(&[]),
    ];
    let marker = describe(&units, &InvariantConfig::default()).unwrap();
    assert!(marker.contains("absent×1"), "got: {marker}");
    assert!(marker.contains("fulfilled×1"), "got: {marker}");
    assert!(marker.contains("shipped×1"), "got: {marker}");
}

#[test]
fn a_credential_shaped_field_name_is_withheld_even_when_numeric() {
    let units = vec![
        unit(&[("session_id", "1000")]),
        unit(&[("session_id", "2000")]),
        unit(&[("session_id", "3000")]),
    ];
    let marker = describe(&units, &InvariantConfig::default());
    assert!(marker.is_none(), "got: {marker:?}");
}

#[test]
fn coverage_withholds_a_field_whose_extreme_values_are_long_or_spaced() {
    let units: Vec<Unit> = (0..10)
        .map(|i| {
            let value = format!("a fairly long unique blob value number {i}");
            unit(&[("blob", &value)])
        })
        .collect();
    let marker = describe(&units, &InvariantConfig::default());
    assert!(marker.is_none(), "got: {marker:?}");
}

#[test]
fn zero_units_returns_none() {
    assert!(describe(&[], &InvariantConfig::default()).is_none());
}

#[test]
fn a_field_present_in_only_some_units_is_never_stated_as_a_bare_constant() {
    let units = vec![unit(&[("region", "us-east")]), unit(&[]), unit(&[])];
    let marker = describe(&units, &InvariantConfig::default()).unwrap();
    assert!(
        !marker.contains("region=us-east"),
        "must not render as a bare constant: {marker}"
    );
    assert!(marker.contains("us-east×1"), "got: {marker}");
    assert!(marker.contains("absent×2"), "got: {marker}");
}

#[test]
fn one_long_value_withholds_a_field_of_any_kind() {
    let long = "x".repeat(24);
    let fits = "x".repeat(23);
    let config = InvariantConfig::default();
    let of = |value: &str| describe(&[unit(&[("f", value)]), unit(&[("f", value)])], &config);
    assert_eq!(of(&long), None);
    assert_eq!(of(&fits), Some(format!("f={fits}")));
    let digits = "1".repeat(24);
    let range = describe(&[unit(&[("n", &digits)]), unit(&[("n", "2.5")])], &config);
    assert_eq!(range, None);
    let with_other = describe(
        &[unit(&[("n", &digits), ("s", "ok")]), unit(&[("n", "2.5"), ("s", "ok")])],
        &config,
    );
    assert_eq!(with_other, Some("s=ok".to_string()));
}

#[test]
fn a_credential_makes_no_difference_to_what_is_said() {
    let with = [unit(&[("state", "ok"), ("api_key", "1")]), unit(&[("state", "ok"), ("api_key", "2")])];
    let without = [unit(&[("state", "ok")]), unit(&[("state", "ok")])];
    let config = InvariantConfig::default();
    assert_eq!(describe(&with, &config), describe(&without, &config));
}
