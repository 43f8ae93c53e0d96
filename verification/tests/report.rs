use squishi::json::{write_json, Json, Number};
use squishi::report::{digest_json, prune_json, prune_lines, stats_json, stats_lines};
use squishi::session_digest::{extract_session_text_from, SessionMeta};
use squishi::session_prune::PruneCandidate;
use squishi::session_stats::{KindStats, SessionStats};

fn candidate(rule: &'static str, bytes: usize) -> PruneCandidate {
    PruneCandidate {
        line_index: 0,
        tool_use_id: "t".to_string(),
        rule,
        reason: String::new(),
        bytes,
    }
}

#[test]
fn candidates_are_counted_by_rule() {
    let candidates = vec![
        candidate("prune_old_large_outputs", 5),
        candidate("dedupe_latest_read", 7),
        candidate("prune_old_large_outputs", 9),
    ];
    assert_eq!(
        write_json(&prune_json(&candidates)),
        r#"{"by_rule":{"dedupe_latest_read":1,"prune_old_large_outputs":2},"bytes_prunable":21,"candidates":3}"#
    );
    assert_eq!(
        prune_lines(&candidates),
        vec![
            "dedupe_latest_read: 1 candidates, 7 bytes prunable",
            "prune_old_large_outputs: 2 candidates, 14 bytes prunable",
            "total: 3 candidates, 21 bytes prunable",
        ]
    );
    assert_eq!(prune_lines(&[]), vec!["total: 0 candidates, 0 bytes prunable"]);
}

#[test]
fn a_digest_says_what_is_known_of_its_session() {
    let meta = SessionMeta {
        session_id: Some("s".to_string()),
        turn_count: 2,
        raw_bytes: 9,
        ..Default::default()
    };
    assert_eq!(
        write_json(&digest_json("text", &meta, 4, 10, 5)),
        r#"{"chars_after":5,"chars_before":10,"content":"text","cwd":null,"first_ts":null,"last_ts":null,"raw_bytes":9,"session_id":"s","total_lines":4,"truncated":false,"turn_count":2}"#
    );
}

fn stats() -> SessionStats {
    let log = KindStats { calls: 2, chars_before: 10, chars_after: 4 };
    SessionStats { by_kind: vec![("Log".to_string(), log)], total: log }
}

#[test]
fn savings_are_told_by_kind_and_in_all() {
    let percent = Json::Number(Number::Float("60.0".to_string()));
    let json = stats_json(&stats(), &vec![percent], &Json::Null);
    assert_eq!(
        write_json(&json),
        r#"{"by_kind":{"Log":{"calls":2,"chars_after":4,"chars_before":10,"chars_saved":6,"pct_saved":60.0}},"calls":2,"chars_after":4,"chars_before":10,"chars_saved":6,"pct_saved":null}"#
    );
    assert_eq!(
        stats_lines(&stats(), &vec!["60.0".to_string()], "60.0"),
        vec![
            "Log: 2 calls, 10 -> 4 chars (60.0% saved)",
            "total: 2 calls, 10 -> 4 chars (60.0% saved)",
        ]
    );
    let none = SessionStats { by_kind: vec![], total: KindStats::default() };
    assert_eq!(
        stats_lines(&none, &vec![], "0.0"),
        vec!["no squishi --json calls found in this transcript"]
    );
}

fn turn(text: &str) -> String {
    format!(r#"{{"type":"user","message":{{"content":"{text}"}}}}"#) + "\n"
}

#[test]
fn a_second_look_starts_where_the_first_one_ended() {
    let first = turn("one") + &turn("two");
    let (text, meta, total) = extract_session_text_from(&first, 1000, 0);
    assert_eq!(text, "USER: one\n\nUSER: two");
    assert_eq!(meta.turn_count, 2);
    assert_eq!(total, 2);
    let second = first + &turn("three");
    let (text, meta, total) = extract_session_text_from(&second, 1000, total);
    assert_eq!(text, "USER: three");
    assert_eq!(meta.turn_count, 1);
    assert_eq!(total, 3);
    let (text, _, _) = extract_session_text_from(&second, 1000, 9);
    assert_eq!(text, "");
}
