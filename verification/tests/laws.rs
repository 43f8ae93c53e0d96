use squishi::compaction::render_csv_schema;
use squishi::diff_compress::{
    compress_diff, extract_line_number, reduce_context, select_hunks, DiffCompressConfig, DiffHunk,
};
use squishi::invariants::{describe, InvariantConfig, Unit};
use squishi::json::{parse_json, same_json, Json};
use squishi::json_compress::{
    compress_json_array, compress_json_array_keeping, select_kept_positions, JsonCompressConfig,
    JsonRendering,
};
use squishi::line_dedup::dedupe_line_runs;
use squishi::line_number_strip::strip_read_tool_line_numbers;
use squishi::log_compress::{compress_log, LogCompressConfig};
use squishi::punctuation_restore::{chunk_texts, pad_rows, restored_text, word_labels, CHUNK_WORDS};
use squishi::search_compress::compress_search_results;
use squishi::sentences::{split_by_word_window, split_sentences};
use squishi::session_digest::{extract_session_text, truncate_middle, SessionMeta};
use squishi::session_prune::{apply_pruning, parse, run, PruneCandidate, SessionItem};
use squishi::text::words;

fn items(text: &str) -> Vec<Json> {
    match parse_json(text) {
        Some(Json::Array(v)) => v,
        _ => panic!("no array: {text}"),
    }
}

fn unit(fields: &[(&str, &str)]) -> Unit {
    Unit::new(fields.iter().map(|f| (f.0.to_string(), f.1.to_string())).collect())
}

// ---------------------------------------------------------------------------
// Lines
// ---------------------------------------------------------------------------

#[test]
fn no_line_is_lost_and_none_is_added() {
    let text = "a\nb\nb\nb\nb\nb\nb\nb\na\nc";
    let out = dedupe_line_runs(text);
    assert_eq!(
        out,
        "a\nb\n[... squishi pruned: 6 identical lines collapsed ...]\na\nc\n"
    );
    assert!(text.lines().all(|l| out.lines().any(|o| o == l)));
    assert!(out.lines().count() <= text.lines().count());
}

#[test]
fn wide_lines_that_repeat_never_make_a_text_longer() {
    let wide = "0123456789\n".repeat(6);
    assert!(dedupe_line_runs(&wide).len() <= wide.len() + 1);
    let text = format!("{}{}", "caf\u{e9} au lait\r\n".repeat(12), "\u{e9}\n".repeat(3));
    assert!(dedupe_line_runs(&text).len() <= text.len() + 1);
}

#[test]
fn numbering_lines_is_undone() {
    let lines = ["fn main() {", "", "\tlet x = 1;", "7\tseven", "}"];
    let numbered: Vec<String> = (0..5).map(|i| format!("{}\t{}", i + 1, lines[i])).collect();
    let (out, stripped) = strip_read_tool_line_numbers(&numbered.join("\n"));
    assert!(stripped);
    assert_eq!(out, lines.join("\n"));
}

#[test]
fn one_line_without_its_number_keeps_all_numbers() {
    for last in ["6\tx", "5 x", "+5\tx", "\u{665}\tx"] {
        let text = format!("1\ta\n2\tb\n3\tc\n4\td\n{last}\n");
        assert_eq!(strip_read_tool_line_numbers(&text), (text.clone(), false));
    }
    let zeros = "01\ta\n002\tb\n3\tc\n4\td\n5\te";
    assert_eq!(strip_read_tool_line_numbers(zeros), ("a\nb\nc\nd\ne".to_string(), true));
}

#[test]
fn a_log_keeps_no_more_lines_than_allowed() {
    let mut text = String::new();
    for i in 0..30 {
        text.push_str(&format!("step {i}\nERROR {i}\n"));
    }
    let config = LogCompressConfig {
        max_errors: 8,
        max_warnings: 0,
        context_lines: 1,
        max_total_lines: 6,
    };
    let r = compress_log(&text, &config);
    assert_eq!(r.original_line_count, 60);
    assert_eq!(r.compressed_line_count, 6);
    assert!(r.content.starts_with("ERROR 0\n"));
    assert!(r.content.ends_with("[54 lines omitted: 30 error, 0 warn]"));
    // With room for the context, the lines around the errors stay too.
    let wide = LogCompressConfig { max_errors: 2, max_total_lines: 100, ..config };
    assert_eq!(
        compress_log(&text, &wide).content,
        "step 0\nERROR 0\nstep 1\nstep 29\nERROR 29\n[55 lines omitted: 30 error, 0 warn]"
    );
}

#[test]
fn a_log_with_nothing_to_keep_it_for_stays_whole() {
    let text = "all quiet\n\nvery quiet\n";
    let r = compress_log(text, &LogCompressConfig::default());
    assert_eq!(r.content, text);
    assert_eq!(r.compressed_line_count, 3);
}

#[test]
fn lines_that_are_no_results_come_last() {
    let r = compress_search_results("note one\nb.rs:1:x\na.rs:2:y\nb.rs:3:z\nnote two");
    assert_eq!(r.content, "b.rs:1:x\nb.rs:3:z\na.rs:2:y\nnote one\nnote two");
}

#[test]
fn a_file_takes_one_line_more_than_the_limit() {
    let text: Vec<String> = (0..9).map(|i| format!("a.rs:{i}:x")).collect();
    let r = compress_search_results(&text.join("\n"));
    assert_eq!(r.compressed_lines, 6);
    assert!(r.content.ends_with("a.rs:4:x\na.rs: 4 more matches omitted"));
}

// ---------------------------------------------------------------------------
// Diffs
// ---------------------------------------------------------------------------

#[test]
fn every_change_of_a_hunk_is_kept() {
    let lines: Vec<String> = (0..30)
        .map(|i| if i % 10 == 5 { format!("+new {i}") } else { format!(" old {i}") })
        .collect();
    let hunk = DiffHunk { header: "@@ -1,30 +1,30 @@".to_string(), lines };
    for context in 0..4 {
        let reduced = reduce_context(&hunk, context);
        let changes: Vec<&String> = reduced.lines.iter().filter(|l| l.starts_with('+')).collect();
        assert_eq!(changes, ["+new 5", "+new 15", "+new 25"]);
        assert_eq!(reduced.lines.len(), 3 * (2 * context + 1));
    }
    let quiet = DiffHunk {
        header: "@@".to_string(),
        lines: vec![" a".to_string(), " b".to_string(), " c".to_string()],
    };
    assert_eq!(reduce_context(&quiet, 2).lines, [" a", " b"]);
}

#[test]
fn the_words_of_the_context_decide_which_hunks_stay() {
    let mut text = String::from("diff --git a/x b/x\n--- a/x\n+++ b/x\n");
    for (i, word) in ["first", "plain", "Widget", "other", "last"].iter().enumerate() {
        text.push_str(&format!("@@ -{0} +{0} @@\n+{1}\n", 10 * (i + 1), word));
    }
    let config = DiffCompressConfig { max_hunks_per_file: 3, ..DiffCompressConfig::default() };
    let kept = |context: &str| -> Vec<String> {
        let r = compress_diff(&text, context, &config);
        assert_eq!(r.hunks_removed, 2);
        let of_change = |l: &&str| l.starts_with('+') && !l.starts_with("+++");
        r.content.lines().filter(of_change).map(|l| l[1..].to_string()).collect()
    };
    // Of equally telling hunks the earlier stays.
    assert_eq!(kept(""), ["first", "plain", "last"]);
    assert_eq!(kept("the WIDGET breaks"), ["first", "Widget", "last"]);
    assert_eq!(kept("an other matter"), ["first", "other", "last"]);
}

#[test]
fn hunks_stay_in_the_order_in_which_they_came() {
    let hunk = |header: &str, line: &str| DiffHunk {
        header: header.to_string(),
        lines: vec![line.to_string()],
    };
    // The numbers of the headers descend, and one header has none.
    let hunks = vec![
        hunk("@@ -90 +90 @@", "+a"),
        hunk("@@ -70 +70 @@", "+b"),
        hunk("@@@ no number @@@", "+Widget"),
        hunk("@@ -50 +50 @@", "+Widget too"),
        hunk("@@ -10 +10 @@", "+z"),
    ];
    let (kept, dropped) = select_hunks(&hunks, &vec!["widget".to_string()], 4);
    let lines: Vec<&str> = kept.iter().map(|h| h.lines[0].as_str()).collect();
    assert_eq!(lines, ["+a", "+Widget", "+Widget too", "+z"]);
    assert_eq!(dropped, 1);
    let (all, none) = select_hunks(&hunks, &vec![], 5);
    assert_eq!((all.len(), none), (5, 0));
    assert_eq!(extract_line_number("@@ -90 +91,2 @@"), 91);
    assert_eq!(extract_line_number("@@@ no number @@@"), 0);
}

// ---------------------------------------------------------------------------
// Arrays and tables
// ---------------------------------------------------------------------------

#[test]
fn cells_can_be_told_apart() {
    let a = render_csv_schema(&items(r#"[{"x":"a,b","y":"c"},{"x":"d","y":"e"}]"#));
    let b = render_csv_schema(&items(r#"[{"x":"a","y":"b,c"},{"x":"d","y":"e"}]"#));
    assert_eq!(a.unwrap(), "[2]{x:string,y:string}\n\"a,b\",c\nd,e\n");
    assert_eq!(b.unwrap(), "[2]{x:string,y:string}\na,\"b,c\"\nd,e\n");
    let quoted = render_csv_schema(&items(r#"[{"x":"\"\n"},{"x":""}]"#));
    assert_eq!(quoted.unwrap(), "[2]{x:string}\n\"\"\"\n\"\n\"\"\n");
}

#[test]
fn every_scalar_has_its_cell() {
    let text = r#"[{"b":true,"f":1.50,"i":-3,"n":null,"s":"x"},{"b":false,"f":2.25,"i":7}]"#;
    assert_eq!(
        render_csv_schema(&items(text)).unwrap(),
        "[2]{b:bool,f:float,i:int,n:string?,s:string?}\ntrue,1.5,-3,null,x\nfalse,2.25,7,,\n"
    );
}

#[test]
fn tables_that_are_written_the_same_are_the_same() {
    let cell = |value: &str| {
        let out = render_csv_schema(&items(&format!(r#"[{{"k":1{value}}},{{"k":2,"v":"x"}}]"#)));
        out.unwrap().lines().nth(1).unwrap().to_string()
    };
    assert_eq!(cell(""), "1,");
    assert_eq!(cell(r#","v":"""#), "1,\"\"");
    assert_eq!(cell(r#","v":null"#), "1,null");
    assert_eq!(cell(r#","v":"null""#), "1,\"null\"");
    assert_eq!(cell(r#","v":7"#), "1,7");
    assert_eq!(cell(r#","v":"7""#), "1,\"7\"");
    assert_eq!(cell(r#","v":true"#), "1,true");
    assert_eq!(cell(r#","v":"true""#), "1,\"true\"");
    assert_eq!(cell(r#","v":0.5"#), "1,0.5");
    assert_eq!(cell(r#","v":"0.5""#), "1,\"0.5\"");
    let named = render_csv_schema(&items(r#"[{"a,b":1,"":2},{"a,b":3,"":4}]"#)).unwrap();
    assert!(named.starts_with("[2]{\"\":int,\"a,b\":int}\n"), "{named}");
}

#[test]
fn a_cell_that_is_an_array_or_an_object_as_text_has_no_table() {
    assert!(render_csv_schema(&items(r#"[{"a":"[1,2]"},{"a":"x"}]"#)).is_none());
    assert!(render_csv_schema(&items(r#"[{"a":"x"},{"a":" {\"b\":1} "}]"#)).is_none());
    assert!(render_csv_schema(&items(r#"[{"a":"[1,2"},{"a":"{b}"}]"#)).is_some());
}

#[test]
fn the_ends_and_a_few_of_the_middle_stay() {
    let kept = select_kept_positions(20, 2, &vec![5, 1, 5, 9, 18, 11, 12, 13]);
    let places: Vec<usize> = (0..20).filter(|&p| kept[p]).collect();
    assert_eq!(places, [0, 1, 5, 9, 11, 12, 18, 19]);
}

#[test]
fn rows_that_stay_read_as_an_array() {
    let elements: Vec<String> = (0..30).map(|i| format!(r#"{{"n":[{i}],"k":"v{i}"}}"#)).collect();
    let content = format!("[{}]", elements.join(", "));
    let config = JsonCompressConfig { keep_edge: 2, ..JsonCompressConfig::default() };
    let r = compress_json_array_keeping(&content, &vec![7, 8], &config).unwrap();
    assert_eq!(r.rendering, JsonRendering::RowSelected);
    let rows = items(&r.content);
    assert_eq!(rows.len(), r.compressed_elements);
    assert_eq!(r.compressed_elements, 2 + 1 + 2 + 1 + 2);
    for (row, element) in [(0, 0), (1, 1), (3, 7), (4, 8), (6, 28), (7, 29)] {
        assert!(same_json(&rows[row], &parse_json(&elements[element]).unwrap()));
    }
    for (row, count) in [(2, 5), (5, 19)] {
        match &rows[row] {
            Json::Text(note) => assert!(note.starts_with(&format!("...{count} more elements omitted"))),
            other => panic!("{other:?}"),
        }
    }
}

#[test]
fn errors_in_upper_case_stay_too() {
    let elements: Vec<String> = (0..30)
        .map(|i| format!(r#"{{"n":[{i}],"state":"{}"}}"#, if i == 12 { "TIMEOUT" } else { "fine" }))
        .collect();
    let config = JsonCompressConfig { keep_edge: 1, ..JsonCompressConfig::default() };
    let r = compress_json_array(&format!("[{}]", elements.join(",")), &config).unwrap();
    assert_eq!(r.compressed_elements, 5);
    assert!(r.content.contains("TIMEOUT"));
}

#[test]
fn elements_with_few_in_common_are_kept_once() {
    let r = compress_json_array("[1, 1.0, 1, \"1\", 1.00, -0.0, 0.0]", &JsonCompressConfig::default());
    assert_eq!(r.unwrap().content, r#"[1,1.0,"1",-0.0]"#);
}

// ---------------------------------------------------------------------------
// What holds of what was left out
// ---------------------------------------------------------------------------

#[test]
fn what_is_said_of_the_units_holds() {
    let config = InvariantConfig::default();
    let said = |units: &[Unit]| describe(units, &config);
    assert_eq!(said(&[]), None);
    assert_eq!(said(&[unit(&[("a", "x")]), unit(&[("a", "x")])]), Some("a=x".to_string()));
    assert_eq!(
        said(&[unit(&[("n", "10")]), unit(&[("n", "9.50")]), unit(&[("n", "-1e3")])]),
        Some("range n=-1e3..10".to_string())
    );
    assert_eq!(
        said(&[unit(&[("s", "a")]), unit(&[("s", "b")]), unit(&[("s", "a")]), unit(&[])]),
        Some("s: a\u{d7}2 b\u{d7}1 absent\u{d7}1".to_string())
    );
    let names: Vec<Unit> = (0..7).rev().map(|i| unit(&[("id", &format!("k-{i:02}"))])).collect();
    assert_eq!(said(&names), Some("id: k-00..k-06 all 7 present".to_string()));
    let gap: Vec<Unit> = [0, 1, 2, 3, 4, 6]
        .iter()
        .map(|i| unit(&[("id", &format!("k-{i:02}"))]))
        .collect();
    assert_eq!(said(&gap), Some("id: 6 distinct, k-00..k-06".to_string()));
    assert_eq!(said(&[unit(&[("my_Token", "x")]), unit(&[("my_Token", "x")])]), None);
}

#[test]
fn words_for_numbers_count_as_numbers() {
    let config = InvariantConfig::default();
    let units = [unit(&[("n", "inf")]), unit(&[("n", "-1")]), unit(&[("n", "NaN")])];
    assert_eq!(describe(&units, &config), Some("range n=-1..inf".to_string()));
    let zeros = [unit(&[("n", "0")]), unit(&[("n", "-0")])];
    assert_eq!(describe(&zeros, &config), Some("range n=0..0".to_string()));
}

#[test]
fn as_many_facts_are_said_as_fit() {
    let units = [unit(&[("aaaa", "1"), ("bbbb", "2")]), unit(&[("aaaa", "1"), ("bbbb", "2")])];
    let with_limit = |max_marker_bytes: usize| {
        describe(&units, &InvariantConfig { max_marker_bytes, ..InvariantConfig::default() })
    };
    assert_eq!(with_limit(13), Some("aaaa=1 bbbb=2".to_string()));
    assert_eq!(with_limit(12), Some("aaaa=1".to_string()));
    assert_eq!(with_limit(5), None);
}

// ---------------------------------------------------------------------------
// Sentences and words
// ---------------------------------------------------------------------------

#[test]
fn splitting_into_sentences_keeps_all_words() {
    let text = "One two.  Three? Four!\nfive six. seven 3.14 eight... nine";
    let parts = split_sentences(text);
    assert_eq!(
        parts,
        ["One two.", "Three?", "Four!", "five six.", "seven 3.14 eight...", "nine"]
    );
    let all: Vec<String> = parts.iter().flat_map(|p| words(p)).collect();
    assert_eq!(all, words(text));
}

#[test]
fn windows_of_any_width_keep_all_words() {
    let text = "  one two\tthree\n\nfour five  six seven ";
    for window in 1..10 {
        let parts = split_by_word_window(text, window);
        let together: Vec<String> = parts.iter().flat_map(|p| words(p)).collect();
        assert_eq!(together, words(text));
        assert_eq!(parts.len(), 7usize.div_ceil(window));
    }
}

#[test]
fn chunks_of_words_keep_all_words() {
    let text: Vec<String> = (0..2 * CHUNK_WORDS + 1).map(|i| format!("w{i}")).collect();
    let chunks = chunk_texts(&text.join("  \n"));
    assert_eq!(chunks.len(), 3);
    assert_eq!(words(&chunks[0]).len(), CHUNK_WORDS);
    assert_eq!(chunks[2], format!("w{}", 2 * CHUNK_WORDS));
    assert_eq!(chunks.join(" "), text.join(" "));
    assert!(chunk_texts(" \n").is_empty());
}

#[test]
fn the_last_part_of_a_word_has_its_label() {
    let ids = vec![None, Some(0), Some(0), Some(2), None];
    assert_eq!(word_labels(&ids, &vec![9, 1, 2, 3, 9], 4), [2, 0, 3, 0]);
}

#[test]
fn rows_are_filled_up_to_the_longest() {
    let (block, width) = pad_rows(&vec![vec![1], vec![2, 3, 4], vec![]], 7);
    assert_eq!(width, 3);
    assert_eq!(block, [1, 7, 7, 2, 3, 4, 7, 7, 7]);
}

#[test]
fn chunks_are_restored_one_by_one() {
    let chunks = vec!["so it is".to_string(), "\u{df}a is it".to_string()];
    let out = restored_text(&chunks, &vec![vec![0, 2, 1], vec![0, 0, 3]]);
    assert_eq!(out, "So it, is. SSa is it?");
}

// ---------------------------------------------------------------------------
// Sessions
// ---------------------------------------------------------------------------

fn tool_use(id: &str, name: &str, path: &str) -> String {
    format!(
        r#"{{"message":{{"content":[{{"type":"tool_use","id":"{id}","name":"{name}","input":{{"file_path":"{path}"}}}}]}}}}"#
    )
}

fn tool_result(id: &str, content: &str, is_error: bool) -> String {
    format!(
        r#"{{"message":{{"content":[{{"type":"tool_result","tool_use_id":"{id}","content":"{content}","is_error":{is_error}}}]}},"n":7}}"#
    )
}

#[test]
fn the_first_error_of_a_kind_and_recent_outputs_stay() {
    let big = "x".repeat(50);
    let lines = [
        tool_use("a", "Bash", ""),
        tool_result("a", "boom", true),
        tool_use("b", "Bash", ""),
        tool_result("b", "boom", true),
        tool_use("c", "Grep", ""),
        tool_result("c", "boom", true),
        tool_result("d", &big, false),
        tool_result("e", &big, false),
    ];
    let found = parse(&lines.join("\n"));
    assert_eq!(found.len(), 8);
    assert!(matches!(&found[1], SessionItem::ToolResult(r) if r.line_index == 1 && r.is_error));
    let pruned = run(&found, true, 20, 1);
    let ids: Vec<(&str, &str)> = pruned.iter().map(|c| (c.rule, c.tool_use_id.as_str())).collect();
    assert_eq!(ids, [("drop_redundant_errors", "b"), ("prune_old_large_outputs", "d")]);
    assert_eq!(pruned[0].reason, "identical Bash error already seen earlier in the session");
    assert_eq!(pruned[1].reason, "50 bytes, outside the last 1 items");
    assert_eq!(pruned[1].bytes, 50);
}

#[test]
fn pruned_lines_stay_records() {
    let jsonl = [
        tool_use("a", "Read", "/x"),
        tool_result("a", "old", false),
        "  not a record a  ".to_string(),
        String::new(),
        tool_result("b", "new", false),
    ]
    .join("\n");
    let candidates = vec![PruneCandidate {
        line_index: 1,
        tool_use_id: "a".to_string(),
        rule: "dedupe_latest_read",
        reason: String::new(),
        bytes: 3,
    }];
    let out = apply_pruning(&jsonl, &candidates);
    let before: Vec<&str> = jsonl.lines().collect();
    let after: Vec<&str> = out.lines().collect();
    assert_eq!(after.len(), before.len());
    for i in [0, 2, 3, 4] {
        assert_eq!(after[i], before[i]);
    }
    let expected = tool_result(
        "a",
        "[... squishi session_prune: dedupe_latest_read removed, 3 bytes ...]",
        false,
    );
    assert!(same_json(&parse_json(after[1]).unwrap(), &parse_json(&expected).unwrap()));
}

fn candidate(id: &str) -> PruneCandidate {
    PruneCandidate {
        line_index: 0,
        tool_use_id: id.to_string(),
        rule: "dedupe_latest_read",
        reason: String::new(),
        bytes: 3,
    }
}

#[test]
fn every_line_but_the_pruned_stays_byte_for_byte() {
    let kept = tool_result("b", "new", false);
    let old = tool_result("a", "old", false);
    let new = {
        let only = apply_pruning(&old, &vec![candidate("a")]);
        assert!(!only.contains("old") && !only.ends_with('\n'));
        only
    };
    for (text, expected) in [
        (format!("{kept}\r\n{old}\r\n\r\nlast"), format!("{kept}\r\n{new}\r\n\r\nlast")),
        (format!("{kept}\n{old}\n"), format!("{kept}\n{new}\n")),
        (format!("\r\r\n{old}"), format!("\r\r\n{new}")),
        (format!("{kept}\r"), format!("{kept}\r")),
        (String::new(), String::new()),
        ("\n\n".to_string(), "\n\n".to_string()),
    ] {
        assert_eq!(apply_pruning(&text, &vec![candidate("a")]), expected);
        assert_eq!(apply_pruning(&text, &vec![]), text);
    }
}

#[test]
fn a_pruned_session_differs_in_the_contents_of_the_pruned_results_alone() {
    let user = r#"{"type":"user","cost":0.1,"sessionId":"s","cwd":"/w","timestamp":"t1","message":{"content":[{"type":"tool_result","tool_use_id":"a","content":"old"},{"type":"text","text":"go on"}]}}"#;
    let jsonl = [
        tool_use("a", "Read", "/x"),
        format!("  {user}  "),
        tool_result("b", "new", true),
        String::new(),
    ]
    .join("\r\n");
    let out = apply_pruning(&jsonl, &vec![candidate("a")]);
    assert_ne!(out, jsonl);
    let (before, after) = (parse(&jsonl), parse(&out));
    assert_eq!(before.len(), 3);
    assert_eq!(after.len(), 3);
    assert_eq!(after[0], before[0]);
    assert_eq!(after[2], before[2]);
    match (&before[1], &after[1]) {
        (SessionItem::ToolResult(b), SessionItem::ToolResult(a)) => {
            assert_eq!(b.content, "old");
            assert_eq!(
                a.content,
                "[... squishi session_prune: dedupe_latest_read removed, 3 bytes ...]"
            );
            assert_eq!((a.line_index, &a.tool_use_id), (b.line_index, &b.tool_use_id));
            assert_eq!(a.is_error, b.is_error);
        }
        other => panic!("{other:?}"),
    }
    let (text, meta) = extract_session_text(&jsonl, 1000);
    let (pruned_text, pruned_meta) = extract_session_text(&out, 1000);
    assert_eq!(text, "USER: go on");
    assert_eq!(pruned_text, text);
    assert_eq!(pruned_meta.raw_bytes, out.len());
    assert_eq!(SessionMeta { raw_bytes: meta.raw_bytes, ..pruned_meta }, meta);
}

#[test]
fn every_result_of_a_candidate_gets_the_note() {
    let note = "[... squishi session_prune: dedupe_latest_read removed, 3 bytes ...]";
    let jsonl = [
        tool_result("a", "one", false),
        tool_result("b", "two", true),
        tool_result("a", "three", true),
        // The id is written with an escape, so that the line does not mention it.
        tool_result("\\u0061", "four", false),
        tool_use("a", "Read", "/x"),
    ]
    .join("\n");
    let out = apply_pruning(&jsonl, &vec![candidate("b"), candidate("a_long_id")]);
    let contents = |text: &str| -> Vec<String> {
        parse(text)
            .into_iter()
            .filter_map(|item| match item {
                SessionItem::ToolResult(r) => Some(r.content),
                SessionItem::ToolUse(_) => None,
            })
            .collect()
    };
    assert_eq!(contents(&out), ["one", note, "three", "four"]);
    let unmentioned = tool_result("\\u007a", "five", false);
    assert_eq!(parse(&unmentioned).len(), 1);
    assert_eq!(contents(&apply_pruning(&unmentioned, &vec![candidate("z")])), ["five"]);
    let escaped = tool_result("z", "six", false);
    let two = format!("{unmentioned}\n{escaped}");
    assert_eq!(contents(&apply_pruning(&two, &vec![candidate("z")])), ["five", note]);
}

#[test]
fn a_cut_text_keeps_its_ends() {
    let note = "\n\n...[truncated \u{2014} session exceeded per-item cap]...\n\n";
    assert_eq!(truncate_middle("abcdef", 6), ("abcdef".to_string(), false));
    assert_eq!(truncate_middle("abcdefg", 5), (format!("ab{note}fg"), true));
    assert_eq!(truncate_middle("abc", 1), (note.to_string(), true));
}

#[test]
fn a_line_that_is_no_record_says_nothing() {
    let first = r#"{"type":"user","message":{"content":"hello"},"timestamp":"t1"}"#;
    let second = r#"{"type":"assistant","message":{"content":[{"type":"text","text":" hi "}]},"timestamp":"t2"}"#;
    let clean = extract_session_text(&format!("{first}\n{second}\n"), 1000);
    let mixed = extract_session_text(&format!("{first}\n{{broken\n\n{second}\n[1]\n"), 1000);
    assert_eq!(clean.0, "USER: hello\n\nASSISTANT: hi");
    assert_eq!(clean.0, mixed.0);
    assert_eq!(mixed.1.first_ts.as_deref(), Some("t1"));
    assert_eq!(mixed.1.last_ts.as_deref(), Some("t2"));
    assert_eq!(mixed.1.turn_count, 2);
}
