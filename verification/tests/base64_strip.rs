use squishi::json::parse_json;
use squishi::base64_strip::strip_base64_blobs;

#[test]
fn content_with_no_base64_is_returned_unchanged() {
    let content = "just a normal paragraph of prose with no special structure.";
    let (result, removed) = strip_base64_blobs(content);
    assert_eq!(result, content);
    assert_eq!(removed, 0);
}

#[test]
fn a_real_data_uri_gets_replaced_with_one_marker() {
    let data_uri = "data:image/png;base64,iVBORw0KGgoAAAANSUhEUgAAAAEAAAABCAQAAAC1HAwCAAAAC0lEQVR42mNk+A8AAQUBAScY42YAAAAASUVORK5CYII=";
    let content = format!("here is an image: {data_uri} end of message");
    let (result, removed) = strip_base64_blobs(&content);
    assert_eq!(removed, 1);
    assert!(!result.contains("iVBORw0KGgo"));
    assert!(result.contains("squishi pruned: base64 blob removed"));
    assert!(result.starts_with("here is an image:"));
    assert!(result.ends_with("end of message"));
}

#[test]
fn a_standalone_long_base64_run_gets_replaced() {
    let blob = "A".repeat(500);
    let content = format!("payload: {blob} done");
    let (result, removed) = strip_base64_blobs(&content);
    assert_eq!(removed, 1);
    assert!(!result.contains(&blob));
    assert!(result.contains("squishi pruned: base64 blob removed"));
}

#[test]
fn short_base64_looking_strings_are_left_alone() {
    let content = "token: dGVzdA== is short and should stay";
    let (result, removed) = strip_base64_blobs(content);
    assert_eq!(removed, 0);
    assert_eq!(result, content);
}

#[test]
fn a_real_jwt_payload_segment_is_not_mistaken_for_a_blob() {
    let jwt = "eyJhbGciOiJIUzI1NiIsInR5cCI6IkpXVCJ9.\
                eyJzdWIiOiIxMjM0NTY3ODkwIiwibmFtZSI6IkpvaG4gRG9lIiwiaWF0IjoxNTE2MjM5MDIyLCJyb2xlIjoiYWRtaW4iLCJhdWQiOiJodHRwczovL2FwaS5leGFtcGxlLmNvbSIsImV4cCI6MTcwMDAwMDAwMCwiaXNzIjoiaHR0cHM6Ly9hdXRoLmV4YW1wbGUuY29tIn0.\
                dBjftJeZ4CVP-mB92K27uhbUJU1p1r_wW1gFWFOEjXk";
    let (result, removed) = strip_base64_blobs(jwt);
    assert_eq!(
        removed, 0,
        "a real JWT should not be treated as a base64 blob"
    );
    assert_eq!(result, jwt);
}

#[test]
fn a_base64_blob_inside_a_json_string_value_stays_valid_json() {
    let blob = "A".repeat(500);
    let content = format!(r#"{{"image": "{blob}", "name": "test"}}"#);
    let (result, removed) = strip_base64_blobs(&content);
    assert_eq!(removed, 1);
    let parsed: serde_json::Value =
        serde_json::from_str(&result).expect("result should still be valid JSON");
    assert_eq!(parsed["name"], "test");
    assert!(parsed["image"].as_str().unwrap().contains("squishi pruned"));
}

#[test]
fn multiple_blobs_in_one_document_are_all_counted() {
    let blob = "A".repeat(500);
    let content = format!("{blob}\nmiddle text\n{blob}");
    let (_result, removed) = strip_base64_blobs(&content);
    assert_eq!(removed, 2);
}

#[test]
fn a_string_of_a_json_text_stays_a_string() {
    let marks = |s: &str| s.chars().filter(|c| *c == '"' || *c == '\\').collect::<String>();
    let blob = "QUJD".repeat(200);
    let text = format!(r#"{{"a\"b":"data:image/png;base64,{blob}==","c":"{blob}","d":"\\"}}"#);
    let (stripped, removed) = strip_base64_blobs(&text);
    assert_eq!(removed, 2);
    assert!(!stripped.contains(&blob));
    assert_eq!(marks(&stripped), marks(&text));
    let value = parse_json(&stripped).unwrap();
    assert_eq!(value.get_text("d"), Some("\\"));
    assert_eq!(
        value.get_text("c"),
        Some("[... squishi pruned: base64 blob removed, 800 chars ...]")
    );
}

#[test]
fn what_was_stripped_has_nothing_left_to_strip() {
    let run = "A".repeat(500);
    let payload = "QUJD".repeat(5);
    for (text, found) in [
        (String::new(), 0),
        (format!("x {} y", "A".repeat(499)), 0),
        (format!("data:image/png;base64,{}", "A".repeat(19)), 0),
        (format!("data:;base64,{payload}"), 0),
        (format!("data:image/png;base64,{payload}=="), 1),
        (format!("{run}==={run}"), 2),
        (format!("data:a;base64,data:b;base64,{payload}"), 1),
        (format!("{run}[{run}data:text/x-y;base64,{payload}\n{payload}"), 3),
        (format!("data:image/png;base64,{run}={run}"), 2),
    ] {
        let (stripped, removed) = strip_base64_blobs(&text);
        assert_eq!(removed, found, "{text}");
        assert_eq!(stripped == text, removed == 0);
        assert_eq!(strip_base64_blobs(&stripped), (stripped.clone(), 0));
    }
}
