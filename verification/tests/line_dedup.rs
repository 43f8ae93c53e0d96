use squishi::line_dedup::dedupe_line_runs;

#[test]
fn empty_content_stays_empty() {
    assert_eq!(dedupe_line_runs(""), "");
}

#[test]
fn short_content_is_unchanged_besides_trailing_newline() {
    let content = "Just a short line.\nAnother line.";
    assert_eq!(
        dedupe_line_runs(content),
        "Just a short line.\nAnother line.\n"
    );
}

#[test]
fn runs_of_five_identical_lines_are_not_collapsed() {
    let content = "a\na\na\na\na\n";
    assert!(!dedupe_line_runs(content).contains("squishi pruned"));
}

#[test]
fn runs_over_five_identical_lines_are_collapsed() {
    let content = "a\na\na\na\na\na\n";
    assert!(dedupe_line_runs(content).contains("squishi pruned: 5 identical lines collapsed"));
}

#[test]
fn dedupe_never_lossily_truncates_non_repeating_content() {
    let mut content = String::new();
    for i in 0..2000 {
        content.push_str(&format!("This is a unique line number {i}\n"));
    }
    let deduped = dedupe_line_runs(&content);
    assert!(!deduped.contains("omitted"));
    assert_eq!(deduped.len(), content.len());
}
