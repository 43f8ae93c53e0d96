use squishi::search_compress::{compress_search_results, MAX_MATCHES_PER_FILE};

#[test]
fn few_matches_per_file_are_kept_as_is() {
    let content = "a.rs:1:fn foo() {}\nb.rs:2:fn bar() {}\n";
    let result = compress_search_results(content);
    assert_eq!(result.original_lines, 2);
    assert_eq!(result.compressed_lines, 2);
    assert!(!result.content.contains("omitted"));
}

#[test]
fn caps_many_matches_in_one_file() {
    let mut content = String::new();
    for i in 0..20 {
        content.push_str(&format!("a.rs:{i}:match number {i}\n"));
    }
    let result = compress_search_results(&content);
    assert_eq!(result.original_lines, 20);
    assert_eq!(result.compressed_lines, MAX_MATCHES_PER_FILE + 1);
    assert!(result.content.contains("15 more matches omitted"));
}

#[test]
fn preserves_per_file_grouping_across_interleaved_input() {
    let content = "a.rs:1:x\nb.rs:1:y\na.rs:2:x\nb.rs:2:y\n";
    let result = compress_search_results(content);
    let a_pos = result.content.find("a.rs:1").unwrap();
    let a2_pos = result.content.find("a.rs:2").unwrap();
    let b_pos = result.content.find("b.rs:1").unwrap();
    assert!(a_pos < a2_pos);
    assert!(a2_pos < b_pos);
}
