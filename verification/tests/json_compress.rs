use squishi::json_compress::{compress_json_array, JsonCompressConfig, JsonRendering};

#[test]
fn non_array_json_returns_none() {
    assert!(
        compress_json_array(r#"{"key": "value"}"#, &JsonCompressConfig::default()).is_none()
    );
}

#[test]
fn non_json_returns_none() {
    assert!(compress_json_array("not json at all", &JsonCompressConfig::default()).is_none());
}

#[test]
fn dedupes_exact_duplicate_elements() {
    let content = r#"[{"a":1},{"a":1},{"a":1},{"a":2}]"#;
    let result = compress_json_array(content, &JsonCompressConfig::default()).unwrap();
    assert_eq!(result.original_elements, 4);
    assert_eq!(result.compressed_elements, 2);
}

#[test]
fn cleanly_tabular_array_renders_as_csv_schema_not_row_selection() {
    let elements: Vec<String> = (0..50)
        .map(|i| format!(r#"{{"id":{i},"status":"ok"}}"#))
        .collect();
    let content = format!("[{}]", elements.join(","));
    let result = compress_json_array(&content, &JsonCompressConfig::default()).unwrap();

    assert_eq!(result.rendering, JsonRendering::CsvSchema);
    assert_eq!(result.original_elements, 50);
    assert_eq!(result.compressed_elements, 50);
    assert!(result.content.starts_with("[50]{"));
    assert!(result.content.contains("0,ok"));
    assert!(result.content.contains("49,ok"));
    assert!(serde_json::from_str::<serde_json::Value>(&result.content).is_err());
}

#[test]
fn small_array_is_unchanged_besides_formatting() {
    let content = r#"[1,2,3]"#;
    let result = compress_json_array(content, &JsonCompressConfig::default()).unwrap();
    assert_eq!(result.original_elements, 3);
    assert_eq!(result.compressed_elements, 3);
}

#[test]
fn large_array_caps_to_first_and_last_edge() {
    let elements: Vec<String> = (0..50)
        .map(|i| format!(r#"{{"id":{i},"session_token":[{i}]}}"#))
        .collect();
    let content = format!("[{}]", elements.join(","));
    let config = JsonCompressConfig::default();
    let result = compress_json_array(&content, &config).unwrap();
    assert_eq!(result.original_elements, 50);
    assert_eq!(result.compressed_elements, config.keep_edge * 2 + 1);
    assert!(result.content.contains("more elements omitted"));
    assert!(result.content.contains(r#""id":0"#));
    assert!(result.content.contains(r#""id":49"#));
}

#[test]
fn keep_edge_is_configurable() {
    let elements: Vec<String> = (0..10)
        .map(|i| format!(r#"{{"id":{i},"session_token":[{i}]}}"#))
        .collect();
    let content = format!("[{}]", elements.join(","));
    let config = JsonCompressConfig {
        keep_edge: 2,
        ..JsonCompressConfig::default()
    };
    let result = compress_json_array(&content, &config).unwrap();
    assert_eq!(result.compressed_elements, 2 * 2 + 1);
    assert!(result.content.contains(r#""id":0"#));
    assert!(result.content.contains(r#""id":1"#));
    assert!(!result.content.contains(r#""id":2"#));
}

#[test]
fn dropped_elements_marker_states_constant_enum_and_range_facts() {
    let statuses = ["active", "pending", "closed"];
    let elements: Vec<String> = (0..20)
        .map(|i| {
            let status = statuses[i % statuses.len()];
            let amount = 5.00 + i as f64;
            format!(
                r#"{{"id":{i},"kind":"widget","status":"{status}","amount":{amount:.2},"session_token":[{i}]}}"#
            )
        })
        .collect();
    let content = format!("[{}]", elements.join(","));
    let result = compress_json_array(&content, &JsonCompressConfig::default()).unwrap();

    assert!(
        result.content.contains("kind=widget"),
        "expected constant field, got: {}",
        result.content
    );
    assert!(
        result.content.contains("status:"),
        "expected status enumeration, got: {}",
        result.content
    );
    assert!(
        result.content.contains("range amount="),
        "expected numeric range, got: {}",
        result.content
    );
    assert!(result.content.contains("more elements omitted"));
}

#[test]
fn dropped_elements_with_a_unique_id_each_render_coverage_not_enumeration() {
    let elements: Vec<String> = (0..20)
        .map(|i| format!(r#"{{"order_id":"ord-{i:04}","session_token":[{i}]}}"#))
        .collect();
    let content = format!("[{}]", elements.join(","));
    let result = compress_json_array(&content, &JsonCompressConfig::default()).unwrap();

    assert!(
        result
            .content
            .contains("order_id: ord-0005..ord-0014 all 10 present"),
        "expected dense coverage statement, got: {}",
        result.content
    );
    assert!(!result.content.contains("ord-0005×1"));
}

#[test]
fn a_field_failing_the_safety_bar_is_withheld_even_when_another_field_is_disclosed() {
    let notes = [
        "alpha state",
        "beta state",
        "gamma state",
        "delta state",
        "epsilon state",
        "zeta state",
        "eta state",
    ];
    let elements: Vec<String> = (0..20)
        .map(|i| {
            format!(
                r#"{{"id":{i},"note":"{}","session_token":[{i}]}}"#,
                notes[i % notes.len()]
            )
        })
        .collect();
    let content = format!("[{}]", elements.join(","));
    let result = compress_json_array(&content, &JsonCompressConfig::default()).unwrap();

    let quote_start = result.content.find("\"...").unwrap() + 1;
    let after_start = &result.content[quote_start..];
    let quote_end = after_start.find('"').unwrap();
    let marker = &after_start[..quote_end];

    assert!(
        !marker.contains("note"),
        "note field must not appear in the marker: {marker}"
    );
    for note in notes {
        assert!(
            !marker.contains(note),
            "note value {note:?} must not leak into the marker: {marker}"
        );
    }
    assert!(
        marker.contains("id="),
        "id's own range should still be disclosed: {marker}"
    );
}

#[test]
fn error_item_buried_in_the_middle_survives_and_splits_the_marker() {
    let mut elements: Vec<String> = (0..30)
        .map(|i| format!(r#"{{"id":{i},"status":"ok","session_token":[{i}]}}"#))
        .collect();
    elements[15] =
        r#"{"id":15,"status":"error","msg":"request failed","session_token":[15]}"#.to_string();
    let content = format!("[{}]", elements.join(","));
    let result = compress_json_array(&content, &JsonCompressConfig::default()).unwrap();

    assert!(
        result.content.contains(r#""id":15"#),
        "buried error item must survive: {}",
        result.content
    );
    assert_eq!(result.compressed_elements, 5 + 5 + 1 + 2);
    assert!(result.content.contains("...10 more elements omitted"));
    assert!(result.content.contains("...9 more elements omitted"));
}

#[test]
fn dropped_elements_with_no_safe_facts_at_all_keep_the_exact_bare_marker() {
    let elements: Vec<String> = (0..20)
        .map(|i| format!(r#"{{"session_id":{i},"session_token":[{i}]}}"#))
        .collect();
    let content = format!("[{}]", elements.join(","));
    let result = compress_json_array(&content, &JsonCompressConfig::default()).unwrap();

    assert!(
        result.content.contains("...10 more elements omitted..."),
        "expected the exact bare marker with no facts, got: {}",
        result.content
    );
}
