use squishi::session_digest::{build_digest_content, extract_session_text, SessionMeta};

fn text_line(role: &str, text: &str, session_id: &str, cwd: &str, ts: &str) -> String {
    format!(
        r#"{{"type":"{role}","sessionId":"{session_id}","cwd":"{cwd}","timestamp":"{ts}","message":{{"role":"{role}","content":[{{"type":"text","text":{}}}]}}}}"#,
        serde_json::to_string(text).unwrap()
    )
}

#[test]
fn extracts_user_and_assistant_text_turns_in_order() {
    let jsonl = format!(
        "{}\n{}\n",
        text_line(
            "user",
            "hello there",
            "sess-1",
            "/repo",
            "2026-08-07T00:00:00Z"
        ),
        text_line(
            "assistant",
            "hi back",
            "sess-1",
            "/repo",
            "2026-08-07T00:00:01Z"
        ),
    );
    let (text, meta) = extract_session_text(&jsonl, 100_000);
    assert_eq!(text, "USER: hello there\n\nASSISTANT: hi back");
    assert_eq!(meta.turn_count, 2);
    assert_eq!(meta.session_id.as_deref(), Some("sess-1"));
    assert_eq!(meta.cwd.as_deref(), Some("/repo"));
    assert_eq!(meta.first_ts.as_deref(), Some("2026-08-07T00:00:00Z"));
    assert_eq!(meta.last_ts.as_deref(), Some("2026-08-07T00:00:01Z"));
    assert!(!meta.truncated);
}

#[test]
fn strips_a_trailing_system_reminder_block() {
    let jsonl = text_line(
        "user",
        "real question<system-reminder>\nmultiline\ninjected context\n</system-reminder>",
        "sess-1",
        "/repo",
        "2026-08-07T00:00:00Z",
    ) + "\n";
    let (text, _) = extract_session_text(&jsonl, 100_000);
    assert_eq!(text, "USER: real question");
}

#[test]
fn skips_tool_use_and_tool_result_blocks_entirely() {
    let jsonl = r#"{"type":"assistant","sessionId":"s","cwd":"/r","timestamp":"t","message":{"role":"assistant","content":[{"type":"tool_use","id":"toolu_1","name":"Bash","input":{}}]}}"#
        .to_string()
        + "\n"
        + r#"{"type":"user","sessionId":"s","cwd":"/r","timestamp":"t","message":{"role":"user","content":[{"type":"tool_result","tool_use_id":"toolu_1","content":"output"}]}}"#
        + "\n";
    let (text, meta) = extract_session_text(&jsonl, 100_000);
    assert_eq!(text, "");
    assert_eq!(meta.turn_count, 0);
}

#[test]
fn skips_malformed_lines_without_aborting() {
    let jsonl = format!(
        "not json\n{}\n{{\"malformed\n{}\n",
        text_line("user", "first", "s", "/r", "t1"),
        text_line("assistant", "second", "s", "/r", "t2"),
    );
    let (text, meta) = extract_session_text(&jsonl, 100_000);
    assert_eq!(meta.turn_count, 2);
    assert!(text.contains("first") && text.contains("second"));
}

#[test]
fn truncates_long_text_in_the_middle_and_flags_it() {
    let jsonl = text_line("user", &"word ".repeat(50), "s", "/r", "t") + "\n";
    let (text, meta) = extract_session_text(&jsonl, 40);
    assert!(meta.truncated);
    assert!(text.contains("...[truncated — session exceeded per-item cap]..."));
}

#[test]
fn truncation_is_char_safe_with_multibyte_content() {
    let content = "café ".repeat(30);
    let jsonl = text_line("user", &content, "s", "/r", "t") + "\n";
    let (text, meta) = extract_session_text(&jsonl, 20);
    assert!(meta.truncated);
    assert!(text.contains("café"));
}

#[test]
fn build_digest_content_matches_the_expected_header_shape() {
    let meta = SessionMeta {
        session_id: Some("sess-1".to_string()),
        cwd: Some("/repo".to_string()),
        first_ts: Some("t1".to_string()),
        last_ts: Some("t2".to_string()),
        turn_count: 3,
        truncated: false,
        raw_bytes: 100,
    };
    let digest = build_digest_content("compressed body here", &meta);
    assert!(digest.starts_with("SESSION DIGEST sess-1\n\n---\n"));
    assert!(digest.contains("session_id: sess-1"));
    assert!(digest.contains("cwd: /repo"));
    assert!(digest.contains("turn_count: 3"));
    assert!(digest.ends_with("compressed body here"));
}

#[test]
fn empty_transcript_produces_empty_text_and_zero_turns() {
    let (text, meta) = extract_session_text("", 100_000);
    assert_eq!(text, "");
    assert_eq!(meta.turn_count, 0);
    assert!(!meta.truncated);
}
