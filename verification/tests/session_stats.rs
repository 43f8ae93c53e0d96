use squishi::json::{text_value, write_json};
use squishi::session_stats::{checked_scan, scan, KindStats, SessionStats};

fn tool_result_line(tool_use_id: &str, content: &str) -> String {
    let content = write_json(&text_value(content));
    format!(
        r#"{{"message":{{"content":[{{"content":{content},"is_error":false,"tool_use_id":"{tool_use_id}","type":"tool_result"}}]}}}}"#
    )
}

fn squishi_json(kind: &str, chars_before: u64, chars_after: u64) -> String {
    format!(
        r#"{{"chars_after":{chars_after},"chars_before":{chars_before},"compressed":"...","kind":"{kind}","source":"dedup"}}"#
    )
}

fn kind<'a>(stats: &'a SessionStats, name: &str) -> &'a KindStats {
    &stats.by_kind.iter().find(|(k, _)| k == name).unwrap().1
}

#[test]
fn aggregates_real_squishi_calls_by_kind() {
    let jsonl = [
        tool_result_line("t1", &squishi_json("Json", 1000, 100)),
        tool_result_line("t2", &squishi_json("Json", 500, 50)),
        tool_result_line("t3", &squishi_json("Log", 2000, 200)),
    ]
    .join("\n");

    let stats = scan(&jsonl);

    assert_eq!(stats.total.calls, 3);
    assert_eq!(stats.total.chars_before, 3500);
    assert_eq!(stats.total.chars_after, 350);

    let json_stats = kind(&stats, "Json");
    assert_eq!(json_stats.calls, 2);
    assert_eq!(json_stats.chars_before, 1500);
    assert_eq!(json_stats.chars_after, 150);

    let log_stats = kind(&stats, "Log");
    assert_eq!(log_stats.calls, 1);
    assert_eq!(log_stats.chars_saved(), 1800);
}

#[test]
fn skips_a_non_squishi_tool_result() {
    let jsonl = [
        tool_result_line("t1", "fn main() {\n    println!(\"hi\");\n}\n"),
        tool_result_line("t2", &squishi_json("Diff", 800, 400)),
    ]
    .join("\n");

    let stats = scan(&jsonl);

    assert_eq!(stats.total.calls, 1);
    assert_eq!(stats.by_kind.len(), 1);
    assert!(stats.by_kind.iter().any(|(k, _)| k == "Diff"));
}

#[test]
fn skips_json_missing_a_required_key() {
    let partial = r#"{"compressed":"...","kind":"Json","source":"dedup","chars_before":100}"#;
    let jsonl = tool_result_line("t1", partial);

    let stats = scan(&jsonl);

    assert_eq!(stats.total.calls, 0);
}

#[test]
fn empty_transcript_yields_zeroed_stats() {
    let stats = scan("");
    assert_eq!(stats.total.calls, 0);
    assert!(stats.by_kind.is_empty());
}

#[test]
fn nothing_is_saved_where_nothing_went_in() {
    let stats = KindStats::default();
    assert_eq!(stats.chars_saved(), 0);
    let grown = KindStats { calls: 1, chars_before: 3, chars_after: 5 };
    assert_eq!(grown.chars_saved(), 0);
}

#[test]
fn kinds_come_in_the_order_of_their_names_and_add_up() {
    let jsonl = [
        tool_result_line("t1", &squishi_json("PlainText", 10, 9)),
        tool_result_line("t2", &squishi_json("Diff", 20, 8)),
        tool_result_line("t3", &squishi_json("Log", 30, 7)),
        tool_result_line("t4", &squishi_json("Diff", 40, 6)),
    ]
    .join("\n");
    let stats = scan(&jsonl);
    let names: Vec<&str> = stats.by_kind.iter().map(|(k, _)| k.as_str()).collect();
    assert_eq!(names, vec!["Diff", "Log", "PlainText"]);
    let before: u64 = stats.by_kind.iter().map(|(_, s)| s.chars_before).sum();
    assert_eq!(before, stats.total.chars_before);
}

#[test]
fn too_many_characters_are_not_counted() {
    let jsonl = [
        tool_result_line("t1", &squishi_json("Log", u64::MAX, 0)),
        tool_result_line("t2", &squishi_json("Log", 1, 0)),
    ]
    .join("\n");
    assert!(checked_scan(&jsonl).is_none());
    let first = tool_result_line("t1", &squishi_json("Log", u64::MAX, 0));
    assert_eq!(checked_scan(&first).unwrap().total.chars_before, u64::MAX);
}
