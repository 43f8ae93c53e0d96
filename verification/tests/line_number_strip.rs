use squishi::line_number_strip::strip_read_tool_line_numbers;

fn numbered(lines: &[&str]) -> String {
    lines
        .iter()
        .enumerate()
        .map(|(i, l)| format!("{}\t{l}", i + 1))
        .collect::<Vec<_>>()
        .join("\n")
        + "\n"
}

#[test]
fn strips_a_real_read_tool_shaped_block() {
    let lines: Vec<String> = (1..=10).map(|i| format!("content of line {i}")).collect();
    let refs: Vec<&str> = lines.iter().map(|s| s.as_str()).collect();
    let text = numbered(&refs);
    let (result, stripped) = strip_read_tool_line_numbers(&text);
    assert!(stripped);
    assert_eq!(
        result,
        lines.join("\n") + "\n",
        "expected the N\\t prefix removed, content and line order preserved"
    );
}

#[test]
fn content_with_no_numbering_is_returned_unchanged() {
    let text =
        "just a normal paragraph of prose with no special structure.\nsecond line here too.";
    let (result, stripped) = strip_read_tool_line_numbers(text);
    assert!(!stripped);
    assert_eq!(result, text);
}

#[test]
fn a_gap_in_the_sequence_leaves_content_completely_untouched() {
    let mut text = numbered(&["a", "b", "c", "d", "e"]);
    text.push_str("7\tf\n");
    let (result, stripped) = strip_read_tool_line_numbers(&text);
    assert!(!stripped);
    assert_eq!(result, text);
}

#[test]
fn too_few_lines_is_not_trusted_as_real_read_tool_output() {
    let text = numbered(&["foo", "bar"]);
    let (result, stripped) = strip_read_tool_line_numbers(&text);
    assert!(!stripped);
    assert_eq!(result, text);
}

#[test]
fn a_real_numbered_tsv_id_column_that_happens_to_be_sequential_still_strips_safely() {
    let mut text = String::new();
    for i in 1..=8 {
        text.push_str(&format!("{i}\tvalue-{i}\n"));
    }
    let (result, stripped) = strip_read_tool_line_numbers(&text);
    assert!(stripped);
    assert!(!result.contains('\t'));
}

#[test]
fn preserves_a_missing_trailing_newline() {
    let mut text = numbered(&["a", "b", "c", "d", "e"]);
    text.pop();
    let (result, stripped) = strip_read_tool_line_numbers(&text);
    assert!(stripped);
    assert!(!result.ends_with('\n'));
}

#[test]
fn empty_content_is_not_trusted_as_real_read_tool_output() {
    let (result, stripped) = strip_read_tool_line_numbers("");
    assert!(!stripped);
    assert_eq!(result, "");
}

#[test]
fn real_captured_shape_with_an_embedded_fact_survives_intact() {
    let mut lines: Vec<String> = (1..=60)
        .map(|i| format!("log line {i:03}: routine status check, all systems nominal"))
        .collect();
    lines.insert(60, "MAGIC_TOKEN=zq7-vindaloo-9142".to_string());
    for i in 61..=100 {
        lines.push(format!(
            "log line {i:03}: routine status check, all systems nominal"
        ));
    }
    let refs: Vec<&str> = lines.iter().map(|s| s.as_str()).collect();
    let text = numbered(&refs);
    let (result, stripped) = strip_read_tool_line_numbers(&text);
    assert!(stripped);
    assert!(result.contains("MAGIC_TOKEN=zq7-vindaloo-9142"));
    assert!(!result.contains('\t'));
}
