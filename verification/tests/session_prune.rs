use squishi::session_prune::{
    apply_pruning, collapse_task_launches, dedupe_latest_read, drop_redundant_errors, parse,
    prune_old_large_outputs, run, supersede_write_by_read, PruneCandidate, SessionItem,
};

fn tool_use_line(id: &str, name: &str, path: Option<&str>) -> String {
    let input = match path {
        Some(p) => format!(r#"{{"file_path":"{p}"}}"#),
        None => "{}".to_string(),
    };
    format!(
        r#"{{"type":"assistant","message":{{"role":"assistant","content":[{{"type":"tool_use","id":"{id}","name":"{name}","input":{input}}}]}}}}"#
    )
}

fn tool_result_line(tool_use_id: &str, content: &str, is_error: bool) -> String {
    format!(
        r#"{{"type":"user","message":{{"role":"user","content":[{{"type":"tool_result","tool_use_id":"{tool_use_id}","content":{},"is_error":{is_error}}}]}}}}"#,
        serde_json::to_string(content).unwrap()
    )
}

#[test]
fn parse_extracts_real_tool_use_and_tool_result_shapes() {
    let jsonl = format!(
        "{}\n{}\n",
        tool_use_line("toolu_1", "Read", Some("/a.rs")),
        tool_result_line("toolu_1", "file contents", false)
    );
    let items = parse(&jsonl);
    assert_eq!(items.len(), 2);
    assert!(matches!(
        &items[0],
        SessionItem::ToolUse(t) if t.id == "toolu_1" && t.name == "Read" && t.path.as_deref() == Some("/a.rs")
    ));
    assert!(matches!(
        &items[1],
        SessionItem::ToolResult(r) if r.tool_use_id == "toolu_1" && r.content == "file contents" && !r.is_error
    ));
}

#[test]
fn parse_skips_malformed_lines_without_aborting() {
    let jsonl = format!(
        "not json at all\n{}\n{{\"malformed\n{}\n",
        tool_use_line("toolu_1", "Read", Some("/a.rs")),
        tool_result_line("toolu_1", "ok", false)
    );
    let items = parse(&jsonl);
    assert_eq!(
        items.len(),
        2,
        "real lines around malformed ones must still parse"
    );
}

#[test]
fn dedupe_latest_read_flags_all_but_the_last_read_of_a_path() {
    let jsonl = format!(
        "{}\n{}\n{}\n{}\n",
        tool_use_line("toolu_1", "Read", Some("/a.rs")),
        tool_result_line("toolu_1", "old contents", false),
        tool_use_line("toolu_2", "Read", Some("/a.rs")),
        tool_result_line("toolu_2", "new contents", false),
    );
    let items = parse(&jsonl);
    let candidates = dedupe_latest_read(&items);
    assert_eq!(candidates.len(), 1);
    assert_eq!(candidates[0].tool_use_id, "toolu_1");
    assert_eq!(candidates[0].rule, "dedupe_latest_read");
}

#[test]
fn dedupe_latest_read_does_not_flag_reads_of_different_paths() {
    let jsonl = format!(
        "{}\n{}\n{}\n{}\n",
        tool_use_line("toolu_1", "Read", Some("/a.rs")),
        tool_result_line("toolu_1", "a contents", false),
        tool_use_line("toolu_2", "Read", Some("/b.rs")),
        tool_result_line("toolu_2", "b contents", false),
    );
    let items = parse(&jsonl);
    assert!(dedupe_latest_read(&items).is_empty());
}

#[test]
fn supersede_write_by_read_flags_a_write_verified_by_a_later_read() {
    let jsonl = format!(
        "{}\n{}\n{}\n{}\n",
        tool_use_line("toolu_1", "Write", Some("/a.rs")),
        tool_result_line("toolu_1", "File written", false),
        tool_use_line("toolu_2", "Read", Some("/a.rs")),
        tool_result_line("toolu_2", "new contents", false),
    );
    let items = parse(&jsonl);
    let candidates = supersede_write_by_read(&items);
    assert_eq!(candidates.len(), 1);
    assert_eq!(candidates[0].tool_use_id, "toolu_1");
}

#[test]
fn supersede_write_by_read_does_not_flag_a_write_with_no_later_read() {
    let jsonl = format!(
        "{}\n{}\n",
        tool_use_line("toolu_1", "Write", Some("/a.rs")),
        tool_result_line("toolu_1", "File written", false),
    );
    let items = parse(&jsonl);
    assert!(supersede_write_by_read(&items).is_empty());
}

#[test]
fn drop_redundant_errors_flags_a_repeated_identical_error() {
    let jsonl = format!(
        "{}\n{}\n{}\n{}\n",
        tool_use_line("toolu_1", "Bash", None),
        tool_result_line("toolu_1", "command not found: foo", true),
        tool_use_line("toolu_2", "Bash", None),
        tool_result_line("toolu_2", "command not found: foo", true),
    );
    let items = parse(&jsonl);
    let candidates = drop_redundant_errors(&items);
    assert_eq!(candidates.len(), 1);
    assert_eq!(candidates[0].tool_use_id, "toolu_2");
}

#[test]
fn drop_redundant_errors_does_not_flag_different_errors() {
    let jsonl = format!(
        "{}\n{}\n{}\n{}\n",
        tool_use_line("toolu_1", "Bash", None),
        tool_result_line("toolu_1", "error one", true),
        tool_use_line("toolu_2", "Bash", None),
        tool_result_line("toolu_2", "error two", true),
    );
    let items = parse(&jsonl);
    assert!(drop_redundant_errors(&items).is_empty());
}

#[test]
fn prune_old_large_outputs_flags_a_large_result_outside_the_recency_window() {
    let big = "x".repeat(200);
    let mut lines = vec![
        tool_use_line("toolu_1", "Bash", None),
        tool_result_line("toolu_1", &big, false),
    ];
    for i in 2..6 {
        lines.push(tool_use_line(&format!("toolu_{i}"), "Bash", None));
        lines.push(tool_result_line(&format!("toolu_{i}"), "ok", false));
    }
    let jsonl = format!("{}\n", lines.join("\n"));
    let items = parse(&jsonl);
    let candidates = prune_old_large_outputs(&items, 100, 2);
    assert_eq!(candidates.len(), 1);
    assert_eq!(candidates[0].tool_use_id, "toolu_1");
}

#[test]
fn prune_old_large_outputs_does_not_flag_content_within_the_window() {
    let big = "x".repeat(200);
    let jsonl = format!(
        "{}\n{}\n",
        tool_use_line("toolu_1", "Bash", None),
        tool_result_line("toolu_1", &big, false),
    );
    let items = parse(&jsonl);
    assert!(prune_old_large_outputs(&items, 100, 10).is_empty());
}

#[test]
fn collapse_task_launches_flags_all_but_the_latest_launch_notice() {
    let jsonl = format!(
        "{}\n{}\n{}\n{}\n",
        tool_use_line("toolu_1", "Bash", None),
        tool_result_line(
            "toolu_1",
            "Command running in background with ID: abc",
            false
        ),
        tool_use_line("toolu_2", "Bash", None),
        tool_result_line(
            "toolu_2",
            "Command running in background with ID: def",
            false
        ),
    );
    let items = parse(&jsonl);
    let candidates = collapse_task_launches(&items);
    assert_eq!(candidates.len(), 1);
    assert_eq!(candidates[0].tool_use_id, "toolu_1");
}

#[test]
fn collapse_task_launches_ignores_unrelated_content() {
    let jsonl = format!(
        "{}\n{}\n",
        tool_use_line("toolu_1", "Bash", None),
        tool_result_line("toolu_1", "regular output", false),
    );
    let items = parse(&jsonl);
    assert!(collapse_task_launches(&items).is_empty());
}

#[test]
fn run_excludes_rule_2_by_default() {
    let jsonl = format!(
        "{}\n{}\n{}\n{}\n",
        tool_use_line("toolu_1", "Write", Some("/a.rs")),
        tool_result_line("toolu_1", "File written", false),
        tool_use_line("toolu_2", "Read", Some("/a.rs")),
        tool_result_line("toolu_2", "new contents", false),
    );
    let items = parse(&jsonl);
    let without_rule_2 = run(&items, false, 10_000, 1000);
    assert!(
        !without_rule_2
            .iter()
            .any(|c| c.rule == "supersede_write_by_read")
    );

    let with_rule_2 = run(&items, true, 10_000, 1000);
    assert!(
        with_rule_2
            .iter()
            .any(|c| c.rule == "supersede_write_by_read")
    );
}

#[test]
fn apply_pruning_replaces_only_flagged_content_and_preserves_line_count() {
    let jsonl = format!(
        "{}\n{}\n{}\n{}\n",
        tool_use_line("toolu_1", "Read", Some("/a.rs")),
        tool_result_line("toolu_1", "old contents", false),
        tool_use_line("toolu_2", "Read", Some("/a.rs")),
        tool_result_line("toolu_2", "new contents", false),
    );
    let items = parse(&jsonl);
    let candidates = dedupe_latest_read(&items);
    let pruned = apply_pruning(&jsonl, &candidates);

    assert_eq!(pruned.lines().count(), jsonl.lines().count());
    assert!(pruned.contains("squishi session_prune: dedupe_latest_read removed"));
    assert!(
        pruned.contains("new contents"),
        "the kept read must be untouched"
    );
    assert!(
        !pruned.contains("old contents"),
        "the pruned read's content must be gone"
    );
}

#[test]
fn apply_pruning_never_mutates_the_original_string() {
    let jsonl = format!(
        "{}\n{}\n",
        tool_use_line("toolu_1", "Bash", None),
        tool_result_line("toolu_1", "some output", false),
    );
    let original = jsonl.clone();
    let candidates = vec![PruneCandidate {
        line_index: 1,
        tool_use_id: "toolu_1".to_string(),
        rule: "dedupe_latest_read",
        reason: "test".to_string(),
        bytes: 11,
    }];
    let _ = apply_pruning(&jsonl, &candidates);
    assert_eq!(jsonl, original);
}
