use squishi::compaction::render_csv_schema;
use squishi::json::{parse_json, Json};

fn json(text: &str) -> Json {
    parse_json(text).unwrap()
}

#[test]
fn too_few_items_declines() {
    let items = vec![json(r#"{"a": 1}"#)];
    assert!(render_csv_schema(&items).is_none());
}

#[test]
fn non_object_array_declines() {
    let items = vec![json(r#"1"#), json(r#"2"#), json(r#"3"#)];
    assert!(render_csv_schema(&items).is_none());
}

#[test]
fn nested_object_cell_declines() {
    let items = vec![
        json(r#"{"id": 1, "meta": {"region": "us"}}"#),
        json(r#"{"id": 2, "meta": {"region": "eu"}}"#),
    ];
    assert!(render_csv_schema(&items).is_none());
}

#[test]
fn nested_array_cell_declines() {
    let items = vec![
        json(r#"{"id": 1, "tags": ["a", "b"]}"#),
        json(r#"{"id": 2, "tags": ["c"]}"#),
    ];
    assert!(render_csv_schema(&items).is_none());
}

#[test]
fn pure_tabular_renders_header_and_rows() {
    let items = vec![
        json(r#"{"id": 1, "name": "alice", "status": "ok"}"#),
        json(r#"{"id": 2, "name": "bob", "status": "ok"}"#),
        json(r#"{"id": 3, "name": "carol", "status": "fail"}"#),
    ];
    let out = render_csv_schema(&items).unwrap();
    let mut lines = out.lines();
    let header = lines.next().unwrap();
    assert!(header.starts_with("[3]{"));
    assert!(header.contains("id:int"));
    assert!(header.contains("name:string"));
    assert!(header.contains("status:string"));
    assert_eq!(lines.clone().count(), 3);
    assert!(out.contains("1,alice,ok"));
    assert!(out.contains("3,carol,fail"));
}

#[test]
fn nullable_field_marked_with_question_mark() {
    let items = vec![json(r#"{"id": 1, "tag": "a"}"#), json(r#"{"id": 2}"#)];
    let out = render_csv_schema(&items).unwrap();
    let header = out.lines().next().unwrap();
    assert!(header.contains("tag:string?"), "got: {header}");
    assert!(!header.contains("id:int?"), "got: {header}");
}

#[test]
fn mixed_type_column_falls_back_to_json_tag() {
    let items = vec![json(r#"{"v": 1}"#), json(r#"{"v": "text"}"#)];
    let out = render_csv_schema(&items).unwrap();
    let header = out.lines().next().unwrap();
    assert!(header.contains("v:json"), "got: {header}");
}

#[test]
fn stable_field_ordering_is_frequency_then_alphabetical() {
    let items = vec![
        json(r#"{"common": 1, "z_rare": 1}"#),
        json(r#"{"common": 2, "a_rare": 1}"#),
        json(r#"{"common": 3}"#),
    ];
    let out = render_csv_schema(&items).unwrap();
    let header = out.lines().next().unwrap();
    let common_pos = header.find("common").unwrap();
    let a_rare_pos = header.find("a_rare").unwrap();
    let z_rare_pos = header.find("z_rare").unwrap();
    assert!(common_pos < a_rare_pos);
    assert!(a_rare_pos < z_rare_pos);
}

#[test]
fn comma_and_quote_values_are_csv_quoted() {
    let items = vec![
        json(r#"{"note": "has, a comma"}"#),
        json(r#"{"note": "has \"quotes\""}"#),
    ];
    let out = render_csv_schema(&items).unwrap();
    assert!(out.contains("\"has, a comma\""));
    assert!(out.contains("\"has \"\"quotes\"\"\""));
}

#[test]
fn long_string_cell_renders_verbatim_not_substituted() {
    let blob = "x".repeat(500);
    let items = vec![
        json(&format!(r#"{{"id": 1, "blob": "{blob}"}}"#)),
        json(r#"{"id": 2, "blob": "short"}"#),
    ];
    let out = render_csv_schema(&items).unwrap();
    assert!(out.contains(&blob));
}

#[test]
fn heterogeneous_array_renders_as_a_sparse_table() {
    let items = vec![
        json(r#"{"a": 1}"#),
        json(r#"{"b": 1}"#),
        json(r#"{"c": 1}"#),
        json(r#"{"d": 1}"#),
        json(r#"{"e": 1}"#),
    ];
    let out = render_csv_schema(&items).unwrap();
    let header = out.lines().next().unwrap();
    for col in ["a", "b", "c", "d", "e"] {
        assert!(header.contains(col), "got: {header}");
    }
    assert!(out.contains("1,,,,"), "expected a sparse row, got: {out}");
}
