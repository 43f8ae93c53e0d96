use squishi::content_detect::{detect, detect_shape, extract_features, kind_name, ContentKind};

fn shape_of(content: &str) -> ContentKind {
    detect(content, None)
}

#[test]
fn detects_json_array() {
    assert_eq!(shape_of(r#"[{"a": 1}, {"a": 2}]"#), ContentKind::Json);
}

#[test]
fn detects_json_object() {
    assert_eq!(shape_of(r#"{"key": "value"}"#), ContentKind::Json);
}

#[test]
fn detects_search_results() {
    let content = "src/main.rs:10:fn main() {\nsrc/lib.rs:5:pub fn foo() {}\n";
    assert_eq!(shape_of(content), ContentKind::SearchResults);
}

#[test]
fn detects_log_output() {
    let content = "starting up\nERROR: connection refused\nretrying\n";
    assert_eq!(shape_of(content), ContentKind::Log);
}

#[test]
fn malformed_json_like_content_falls_through() {
    let content = "{ this is not json, just a sentence with a brace }";
    let kind = shape_of(content);
    assert!(
        kind == ContentKind::PlainText || matches!(kind, ContentKind::Other(_)),
        "expected PlainText or Other(_), got {kind:?}"
    );
}

#[test]
fn falls_back_to_plain_text_for_generic_prose() {
    let content = "just a normal paragraph of prose with no special structure.";
    assert_eq!(shape_of(content), ContentKind::PlainText);
    assert_eq!(detect(content, Some("txt".to_string())), ContentKind::PlainText);
}

#[test]
fn a_label_decides_where_the_shape_says_nothing() {
    let content = "fn main() {\n    let x = 5;\n    println!(\"{}\", x);\n}\n";
    assert!(detect_shape(content).is_none());
    assert_eq!(
        detect(content, Some("rust".to_string())),
        ContentKind::Other("rust".to_string())
    );
}

#[test]
fn the_shape_comes_before_the_label() {
    let content = "starting up\nERROR: connection refused\nretrying\n";
    assert_eq!(detect(content, Some("rust".to_string())), ContentKind::Log);
}

#[test]
fn detects_git_diff_via_fast_regex() {
    let content = "diff --git a/src/main.rs b/src/main.rs\nindex abc..def 100644\n--- a/src/main.rs\n+++ b/src/main.rs\n@@ -1,3 +1,3 @@\n-let x = 5;\n+let x = 10;\n";
    assert_eq!(shape_of(content), ContentKind::Diff);
}

#[test]
fn detects_naked_hunk_without_git_header() {
    let content =
        "--- a/foo.py\n+++ b/foo.py\n@@ -1,2 +1,2 @@\n-old line\n+new line\n context\n";
    assert_eq!(shape_of(content), ContentKind::Diff);
}

#[test]
fn diff_containing_error_keywords_is_not_misrouted_to_log() {
    let content = "diff --git a/test.py b/test.py\n--- a/test.py\n+++ b/test.py\n@@ -1,2 +1,2 @@\n-def test_fail():\n+def test_error_handling():\n";
    assert_eq!(shape_of(content), ContentKind::Diff);
}

#[test]
fn very_short_content_falls_back_to_plain_text() {
    assert_eq!(shape_of("hi"), ContentKind::PlainText);
}

#[test]
fn kinds_are_named_as_they_are_written() {
    assert_eq!(kind_name(&ContentKind::SearchResults), "SearchResults");
    let other = ContentKind::Other("c \"plus\"".to_string());
    assert_eq!(kind_name(&other), format!("{other:?}"));
}

#[test]
fn features_have_one_size_and_pad_what_is_missing() {
    let short = extract_features(b"  some text  ").unwrap();
    let long = extract_features("x".repeat(5000).as_bytes()).unwrap();
    assert_eq!(short.len(), 2048);
    assert_eq!(long.len(), 2048);
    assert_eq!(short[0], i64::from(b's'));
    assert_eq!(short[2047], i64::from(b't'));
    assert!(short.contains(&256));
    assert!(!long.contains(&256));
}

#[test]
fn little_content_has_no_features() {
    assert!(extract_features(b"").is_none());
    assert!(extract_features(b"tiny").is_none());
}
