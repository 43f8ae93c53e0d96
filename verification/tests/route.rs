use squishi::content_detect::ContentKind;
use squishi::json::{parse_json, write_json, Json, Number};
use squishi::report::{batch_report, form_json, shorter_form, toon_form};
use squishi::route::{
    annotate, build_cascade_output, build_output, build_semantic_dedup_output, configs_for_level,
    finish_semantic, parse_batch_items, route_text, DedupeMethod, Level, Output, StageTimes, Step,
    SKIP_UNDER_BYTES,
};
use squishi::semantic_dedup::{DedupResult, Drop, KeptSentence, SentenceShape};

fn route_with(text: &str, label: Option<&str>) -> (ContentKind, Output) {
    let label = label.map(str::to_string);
    let (kind, prepared, step) = route_text(text, None, label, Level::Default, DedupeMethod::MiniLM);
    match step {
        Step::Done(output) => (kind, annotate(output, &prepared)),
        _ => panic!("a model would have to be asked"),
    }
}

fn route(text: &str) -> (ContentKind, Output) {
    route_with(text, None)
}

fn detail<'a>(output: &'a Output, name: &str) -> Option<&'a Json> {
    output.detail.iter().find(|(n, _)| n == name).map(|(_, v)| v)
}

fn count(value: Option<&Json>) -> u64 {
    match value {
        Some(Json::Number(Number::PosInt(n))) => *n,
        other => panic!("no count: {other:?}"),
    }
}

/// The full report on a text as JSON.
fn run(text: &str) -> Json {
    run_with(text, None)
}

fn run_with(text: &str, label: Option<&str>) -> Json {
    let (kind, output) = route_with(text, label);
    let printed = write_json(&Json::Object(build_output(text, &kind, output)));
    parse_json(&printed).expect("must be valid JSON")
}

#[test]
fn parse_batch_items_parses_a_real_array() {
    let raw = r#"[{"id": "a", "text": "first"}, {"id": "b", "text": "second"}]"#;
    let items = parse_batch_items(raw).unwrap();
    assert_eq!(
        items,
        vec![
            ("a".to_string(), "first".to_string(), true, false),
            ("b".to_string(), "second".to_string(), true, false)
        ]
    );
}

#[test]
fn parse_batch_items_honors_an_explicit_restore_punctuation_false() {
    let raw = r#"[
        {"id": "yt-video", "text": "unpunctuated caption text"},
        {"id": "wikipedia-page", "text": "Real prose.", "restore_punctuation": false}
    ]"#;
    let items = parse_batch_items(raw).unwrap();
    assert_eq!(
        items[0],
        (
            "yt-video".to_string(),
            "unpunctuated caption text".to_string(),
            true,
            false
        )
    );
    assert_eq!(
        items[1],
        (
            "wikipedia-page".to_string(),
            "Real prose.".to_string(),
            false,
            false
        )
    );
}

#[test]
fn parse_batch_items_honors_an_explicit_include_embedding_true() {
    let raw = r#"[{"id": "a", "text": "some text", "include_embedding": true}]"#;
    let items = parse_batch_items(raw).unwrap();
    assert_eq!(
        items[0],
        ("a".to_string(), "some text".to_string(), true, true)
    );
}

#[test]
fn parse_batch_items_rejects_a_non_array() {
    let result = parse_batch_items(r#"{"id": "a", "text": "first"}"#);
    assert!(result.is_err());
    assert_eq!(result.unwrap_err(), "--batch stdin must be a JSON array");
}

#[test]
fn parse_batch_items_rejects_an_item_missing_text() {
    let result = parse_batch_items(r#"[{"id": "a"}]"#);
    assert!(result.is_err());
    assert!(result.unwrap_err().contains("item 0"));
}

#[test]
fn parse_batch_items_tells_the_first_item_without_an_id() {
    let raw = r#"[{"id": "a", "text": "x"}, {"text": "y"}, {"id": "c"}]"#;
    assert_eq!(
        parse_batch_items(raw).unwrap_err(),
        "--batch item 1: missing string field \"id\""
    );
}

#[test]
fn parse_batch_items_tells_what_is_wrong_with_the_json() {
    let error = parse_batch_items("not valid json at all").unwrap_err();
    let expected = serde_json::from_str::<serde_json::Value>("not valid json at all").unwrap_err();
    assert_eq!(error, format!("--batch stdin must be valid JSON: {expected}"));
}

#[test]
fn parse_batch_items_on_empty_array_returns_empty() {
    assert_eq!(parse_batch_items("[]").unwrap(), Vec::new());
}

#[test]
fn json_array_routes_to_json_compressor() {
    let (kind, output) = route(r#"[{"a":1},{"a":1},{"a":1}]"#);
    assert_eq!(kind, ContentKind::Json);
    assert_eq!(output.source, "json");
    assert!(detail(&output, "elements_before").is_some());
}

#[test]
fn json_object_passes_through_unchanged() {
    let input = r#"{"key":"value"}"#;
    let (kind, output) = route(input);
    assert_eq!(kind, ContentKind::Json);
    assert_eq!(output.source, "json-passthrough");
    assert_eq!(output.compressed, input);
    assert!(output.detail.is_empty());
}

#[test]
fn a_base64_blob_inside_json_is_stripped_and_stays_valid_json() {
    let blob = "A".repeat(500);
    let input = format!(r#"{{"image": "{blob}", "name": "test"}}"#);
    let (kind, output) = route(&input);
    assert_eq!(kind, ContentKind::Json);
    assert_eq!(count(detail(&output, "base64_blobs_removed")), 1);
    let parsed = parse_json(&output.compressed)
        .expect("compressed output should still be valid JSON");
    assert_eq!(parsed.get_text("name"), Some("test"));
    assert!(parsed.get_text("image").unwrap().contains("squishi pruned"));
}

#[test]
fn a_base64_blob_in_plain_text_is_reported_in_json_output() {
    let blob = "A".repeat(500);
    let input = format!("here is a blob: {blob} end");
    let (kind, output) = route(&input);
    assert_eq!(kind, ContentKind::PlainText);
    assert_eq!(count(detail(&output, "base64_blobs_removed")), 1);
    assert!(!output.compressed.contains(&blob));
}

#[test]
fn content_with_no_base64_has_no_base64_blobs_removed_key() {
    let (_, output) = route("just a normal paragraph of prose with no special structure.");
    assert!(
        detail(&output, "base64_blobs_removed").is_none(),
        "base64_blobs_removed should be absent, not zero, when nothing was stripped"
    );
}

#[test]
fn real_read_tool_shaped_input_gets_its_line_numbers_stripped_before_routing() {
    let lines: Vec<String> = (1..=30)
        .map(|i| format!("routine status line number {i} with no special structure at all"))
        .collect();
    let numbered: String = lines
        .iter()
        .enumerate()
        .map(|(i, l)| format!("{}\t{l}\n", i + 1))
        .collect();
    let (kind, prepared, step) = route_text(
        &numbered,
        None,
        Some("txt".to_string()),
        Level::Default,
        DedupeMethod::MiniLM,
    );
    assert_ne!(
        kind,
        ContentKind::Other("tsv".to_string()),
        "should no longer be misread as TSV once the line-number prefix is stripped"
    );
    let output = match step {
        Step::Done(output) => annotate(output, &prepared),
        Step::Semantic(deduped) | Step::Cascade(deduped) => {
            annotate(finish_semantic(&None, &deduped, &numbered, false), &prepared)
        }
    };
    assert!(matches!(detail(&output, "line_numbers_stripped"), Some(Json::Bool(true))));
    assert!(
        !output.compressed.contains('\t'),
        "the stripped prefix shouldn't reappear in the compressed output"
    );
}

#[test]
fn content_with_no_line_numbering_has_no_line_numbers_stripped_key() {
    let (_, output) = route("just a normal paragraph of prose with no special structure.");
    assert!(
        detail(&output, "line_numbers_stripped").is_none(),
        "line_numbers_stripped should be absent, not false, when nothing was stripped"
    );
}

#[test]
fn search_results_route_to_search_compressor() {
    let input = "src/main.rs:10:fn main() {\nsrc/lib.rs:5:pub fn foo() {}\n";
    let (kind, output) = route(input);
    assert_eq!(kind, ContentKind::SearchResults);
    assert_eq!(output.source, "search");
}

#[test]
fn log_under_threshold_only_dedups() {
    let input = "starting up\nERROR: connection refused\nretrying\n";
    let (kind, output) = route(input);
    assert_eq!(kind, ContentKind::Log);
    assert_eq!(output.source, "dedup");
    assert!(output.detail.is_empty());
}

#[test]
fn log_over_threshold_runs_log_compressor() {
    let mut input = String::new();
    for i in 0..120 {
        input.push_str(&format!("ERROR: failure number {i}\n"));
    }
    assert!(input.len() > SKIP_UNDER_BYTES);
    let (kind, output) = route(&input);
    assert_eq!(kind, ContentKind::Log);
    assert_eq!(output.source, "dedup+log");
    assert!(detail(&output, "lines_before").is_some());
    assert!(detail(&output, "lines_after").is_some());
}

#[test]
fn diff_under_threshold_passes_through() {
    let input = "diff --git a/x b/x\n@@ -1 +1 @@\n-a\n+b";
    assert!(input.len() <= SKIP_UNDER_BYTES);
    let (kind, output) = route(input);
    assert_eq!(kind, ContentKind::Diff);
    assert_eq!(output.source, "passthrough");
    assert_eq!(output.compressed, input);
}

#[test]
fn diff_over_threshold_runs_diff_compressor() {
    let mut input = String::from("diff --git a/big.py b/big.py\n--- a/big.py\n+++ b/big.py\n");
    for i in 0..40 {
        let start = i * 100 + 1;
        input.push_str(&format!("@@ -{0},6 +{0},6 @@\n", start));
        input.push_str(&format!(
            " ctx_a_{i}\n ctx_b_{i}\n-old_{i}\n+new_{i}\n ctx_c_{i}\n ctx_d_{i}\n"
        ));
    }
    assert!(input.len() > SKIP_UNDER_BYTES);
    let (kind, output) = route(&input);
    assert_eq!(kind, ContentKind::Diff);
    assert_eq!(output.source, "diff");
    assert!(detail(&output, "files_affected").is_some());
    assert!(detail(&output, "hunks_removed").is_some());
}

#[test]
fn plain_text_under_threshold_only_dedups() {
    let input = "just a short paragraph of prose with no special structure.";
    let (kind, output) = route(input);
    assert_eq!(kind, ContentKind::PlainText);
    assert_eq!(output.source, "dedup");
}

#[test]
fn other_content_kind_only_dedups() {
    let input = "fn main() {\n    let x = 5;\n    println!(\"{}\", x);\n}\n";
    let (kind, output) = route_with(input, Some("rust"));
    assert!(matches!(kind, ContentKind::Other(_)));
    assert_eq!(output.source, "dedup");
}

#[test]
fn top_level_output_is_valid_json_with_expected_fields() {
    let value = run(r#"[{"a":1},{"a":1}]"#);
    assert_eq!(value.get_text("kind"), Some("Json"));
    assert_eq!(value.get_text("source"), Some("json"));
    assert!(value.get_unsigned("chars_before").is_some());
    assert!(value.get_unsigned("elements_before").is_some());
}

#[test]
fn adversarial_content_survives_json_round_trip() {
    let input = "line one\n\"quoted\"\tand a \\backslash\\ and more prose to clear \
        the plain-text threshold so dedup runs and this string round-trips through \
        the actual compression path rather than a trivial passthrough, which is the \
        realistic case this test needs to cover for real adversarial content handling.";
    let reparsed = run(input);
    assert!(reparsed.get_text("compressed").unwrap().contains("quoted"));
}

#[test]
fn short_diff_passes_through_with_expected_fields() {
    let value = run("diff --git a/x b/x\n@@ -1 +1 @@\n-a\n+b");
    assert_eq!(value.get_text("kind"), Some("Diff"));
    assert_eq!(value.get_text("source"), Some("passthrough"));
    assert!(value.get_text("compressed").is_some());
    assert!(value.get_unsigned("chars_before").is_some());
    assert!(value.get_unsigned("chars_after").is_some());
}

#[test]
fn json_array_is_detected_and_compressed() {
    let value = run(r#"[{"a":1},{"a":1},{"a":1}]"#);
    assert_eq!(value.get_text("kind"), Some("Json"));
    assert_eq!(value.get_text("source"), Some("json"));
    assert!(value.get_unsigned("elements_before").is_some());
    assert!(value.get_unsigned("elements_after").is_some());
}

#[test]
fn plain_prose_dedups_and_reports_char_counts() {
    let value = run("just a short paragraph of prose with no special structure.");
    assert_eq!(value.get_text("kind"), Some("PlainText"));
    assert_eq!(value.get_text("source"), Some("dedup"));
    let before = value.get_unsigned("chars_before").unwrap();
    let after = value.get_unsigned("chars_after").unwrap();
    assert!(after <= before + 1);
}

#[test]
fn adversarial_content_round_trips_as_valid_json() {
    let value = run("a line\n\"quoted\"\tand a \\backslash\\ in it");
    assert!(value.get_text("compressed").unwrap().contains("quoted"));
}

#[test]
fn rust_source_is_classified_as_other() {
    let value = run_with(
        "fn main() {\n    let x = 5;\n    println!(\"{}\", x);\n}\n",
        Some("rust"),
    );
    let kind = value.get_text("kind").unwrap();
    assert!(
        kind.starts_with("Other("),
        "expected Other(_) classification, got {kind}"
    );
}

#[test]
fn long_prose_needs_a_model_of_the_asked_kind() {
    let prose: String = (0..60)
        .map(|i| format!("Paragraph {i} says something of its own that nobody said before.\n"))
        .collect();
    let (_, _, step) = route_text(&prose, None, None, Level::Default, DedupeMethod::MiniLM);
    assert!(matches!(step, Step::Semantic(_)));
    let (_, _, step) = route_text(&prose, None, None, Level::Default, DedupeMethod::Cascade);
    assert!(matches!(step, Step::Cascade(_)));
}

#[test]
fn a_forced_kind_is_not_questioned() {
    let (kind, _, _) = route_text(
        "[1,2,3]",
        Some(ContentKind::PlainText),
        None,
        Level::Default,
        DedupeMethod::MiniLM,
    );
    assert_eq!(kind, ContentKind::PlainText);
}

#[test]
fn levels_push_harder_one_after_the_other() {
    let soft = configs_for_level(Level::Conservative);
    let usual = configs_for_level(Level::Default);
    let hard = configs_for_level(Level::Aggressive);
    assert_eq!(soft.paraphrase_percent, 90);
    assert_eq!(usual.paraphrase_percent, 80);
    assert_eq!(hard.paraphrase_percent, 70);
    assert!(soft.json.keep_edge > usual.json.keep_edge);
    assert!(usual.json.keep_edge > hard.json.keep_edge);
    assert_eq!(usual.log.max_total_lines, 100);
    assert_eq!(hard.diff.max_files, 10);
}

fn dedup_result() -> DedupResult {
    DedupResult {
        original_sentences: 3,
        kept_sentences: 2,
        content: "One day it rained. Rain is wet.".to_string(),
        kept: vec![
            KeptSentence {
                text: "One day it rained.".to_string(),
                index: 0,
                shape: SentenceShape::Narrative,
                embedding: Some(vec![Json::Number(Number::PosInt(7))]),
            },
            KeptSentence {
                text: "Rain is wet.".to_string(),
                index: 2,
                shape: SentenceShape::Concept,
                embedding: None,
            },
        ],
        drops: vec![Drop {
            dropped_index: 1,
            kept_index: 0,
            similarity: Json::Number(Number::Float("0.5".to_string())),
        }],
        summary: vec!["Rain is wet.".to_string()],
        punctuation_restored: true,
    }
}

#[test]
fn the_sentence_model_s_answer_is_reported_in_full() {
    let output = build_semantic_dedup_output(&dedup_result(), true);
    assert_eq!(output.source, "dedup+semantic");
    let printed = write_json(&Json::Object(output.detail));
    assert_eq!(
        printed,
        concat_lines(&[
            r#"{"drops":[{"dropped_index":1,"kept_index":0,"similarity":0.5}],"#,
            r#""kept":[{"embedding":[7],"index":0,"shape":"narrative","text":"One day it rained."},"#,
            r#"{"index":2,"shape":"concept","text":"Rain is wet."}],"#,
            r#""punctuation_restored":true,"sentences_after":2,"sentences_before":3,"#,
            r#""stories":["One day it rained."],"summary":["Rain is wet."]}"#,
        ])
    );
}

fn concat_lines(parts: &[&str]) -> String {
    parts.iter().copied().collect()
}

#[test]
fn embeddings_are_left_out_unless_asked_for() {
    let output = build_semantic_dedup_output(&dedup_result(), false);
    assert!(!write_json(&Json::Object(output.detail)).contains("embedding"));
}

#[test]
fn without_an_answer_the_text_comes_back_as_it_was() {
    let output = finish_semantic(&None, "some text\n", "some text\n", true);
    assert_eq!(output.source, "error");
    assert_eq!(output.compressed, "some text\n");
    assert!(output.detail.is_empty());
    let output = finish_semantic(&None, "some text", "some text\n\n", true);
    assert_eq!(output.compressed, "some text");
}

#[test]
fn an_answer_is_handed_out_only_where_it_is_smaller() {
    let answer = Some(dedup_result());
    let long = "One day it rained. It rained one day. Rain is wet.";
    let output = finish_semantic(&answer, long, long, false);
    assert_eq!(output.source, "dedup+semantic");
    assert_eq!(output.compressed, "One day it rained. Rain is wet.");
    let output = finish_semantic(&answer, "short", "short", false);
    assert_eq!(output.compressed, "short");
    assert!(detail(&output, "kept").is_some());
}

#[test]
fn nothing_larger_than_the_input_is_handed_out() {
    // The note on the collapsed lines is longer than the lines.
    let narrow = "a\n".repeat(6);
    let (_, output) = route_with(&narrow, Some("rust"));
    assert_eq!((output.compressed.as_str(), output.source), (narrow.as_str(), "dedup"));
    // No line break is added at the end.
    let (_, output) = route("no line break at the end");
    assert_eq!(output.compressed, "no line break at the end");
    // The note on the blob is longer than the blob.
    let uri = "data:a/b;base64,AAAAAAAAAAAAAAAAAAAA";
    let (_, output) = route(uri);
    assert_eq!(output.compressed, uri);
    let wide = "the very same line over and over\n".repeat(9);
    let (_, output) = route_with(&wide, Some("rust"));
    assert!(output.compressed.len() < wide.len());
    for text in ["", "[]", "[1,1,1,1]", "a.rs:1:x", "ERROR x\r\n", "{\"a\": 1}", &"\n".repeat(9)] {
        for label in [None, Some("rust")] {
            let (_, output) = route_with(text, label);
            assert!(output.compressed == text || output.compressed.len() < text.len(), "{text}");
        }
    }
}

#[test]
fn the_cascade_s_answer_is_reported_in_full() {
    let result = squishi::cascade_dedup::CascadeResult {
        kept: vec![
            squishi::cascade_dedup::KeptSentence { text: "a b".to_string(), embedding: None },
            squishi::cascade_dedup::KeptSentence { text: "c".to_string(), embedding: None },
        ],
        removed_count: 3,
    };
    let times = StageTimes {
        stage1_ms: Json::Number(Number::Float("1.5".to_string())),
        stage2_ms: Json::Number(Number::PosInt(2)),
        stage3_ms: Json::Null,
    };
    assert_eq!(build_cascade_output(&result, &times, "a b", true).compressed, "a b");
    let output = build_cascade_output(&result, &times, "a b. a b. c. c.", true);
    assert_eq!(output.source, "cascade");
    assert_eq!(output.compressed, "a b c");
    assert_eq!(
        write_json(&Json::Object(output.detail)),
        r#"{"kept":[{"text":"a b"},{"text":"c"}],"kept_count":2,"removed_count":3,"stage1_ms":1.5,"stage2_ms":2,"stage3_ms":null}"#
    );
}

#[test]
fn the_report_has_its_five_fields() {
    let output = Output {
        compressed: "\u{e9}".to_string(),
        source: "dedup",
        detail: vec![("extra".to_string(), Json::Null)],
    };
    let fields = build_output("abc", &ContentKind::Other("c".to_string()), output);
    assert_eq!(
        write_json(&Json::Object(fields)),
        r#"{"chars_after":2,"chars_before":3,"compressed":"é","extra":null,"kind":"Other(\"c\")","source":"dedup"}"#
    );
}

#[test]
fn the_report_on_an_item_carries_its_id() {
    let report = batch_report("x", vec![("kind".to_string(), Json::Null)]);
    assert_eq!(write_json(&report), r#"{"id":"x","kind":null}"#);
}

#[test]
fn a_text_that_is_no_json_has_no_form() {
    assert_eq!(toon_form(" {\"a\":1}\n"), Ok(("a: 1".to_string(), "toon")));
    assert_eq!(toon_form(" [ ]\n"), Ok((" [ ]\n".to_string(), "toon-not-smaller")));
    assert_eq!(
        toon_form("  {\"a\":"),
        Err("EOF while parsing a value at line 1 column 5".to_string())
    );
    assert!(toon_form("").unwrap_err().starts_with("EOF while parsing a value"));
}

#[test]
fn the_shorter_form_is_chosen() {
    let form = |text: &str| shorter_form(text, &parse_json(text).unwrap());
    let (text, source) = form(r#"[{"id":1,"name":"a"},{"id":2,"name":"b"}]"#);
    assert_eq!(source, "toon");
    assert_eq!(text, "[2]{id,name}:\n  1,a\n  2,b");
    // Where it does not help, the input stays as it is, spaces and all.
    for text in ["5", " 5\n", "[ ]", "[1e5]", "[ 1,\t2 ]"] {
        assert_eq!(form(text), (text.to_string(), "toon-not-smaller"));
    }
    assert_eq!(
        write_json(&form_json("5", "toon-not-smaller", 3)),
        r#"{"chars_after":1,"chars_before":3,"compressed":"5","source":"toon-not-smaller"}"#
    );
}
