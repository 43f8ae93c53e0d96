use squishi::patterns::{count_lines_matching, Pattern};

const ALL: [Pattern; 25] = [
    Pattern::HunkHeader,
    Pattern::HunkNewRange,
    Pattern::DiffGit,
    Pattern::DiffCombined,
    Pattern::DiffCc,
    Pattern::OldFile,
    Pattern::NewFile,
    Pattern::Binary,
    Pattern::PriorityError,
    Pattern::PriorityNote,
    Pattern::PrioritySecurity,
    Pattern::LogError,
    Pattern::LogWarning,
    Pattern::LogSummary,
    Pattern::SearchResult,
    Pattern::LineNumber,
    Pattern::DataUri,
    Pattern::StandaloneBase64,
    Pattern::CredentialField,
    Pattern::SearchLine,
    Pattern::LogLevel,
    Pattern::DiffHeader,
    Pattern::NakedOldFile,
    Pattern::HunkMarker,
    Pattern::NarrativeMarker,
];

#[test]
fn every_pattern_compiles_and_none_matches_nothing() {
    for p in ALL {
        assert!(!p.is_match(""), "{p:?}");
        assert_eq!(p.group(""), None);
        assert!(p.find_all("").is_empty());
    }
}

#[test]
fn each_pattern_matches_what_it_is_for() {
    let examples = [
        (Pattern::HunkHeader, "@@ -1,2 +3,4 @@ fn main"),
        (Pattern::HunkHeader, "@@@ -1 -2 +3 @@@"),
        (Pattern::DiffGit, "diff --git a/x b/x"),
        (Pattern::DiffCombined, "diff --combined x"),
        (Pattern::DiffCc, "diff --cc x"),
        (Pattern::OldFile, "--- /dev/null"),
        (Pattern::NewFile, "+++ b/x"),
        (Pattern::Binary, "Binary files a/x and b/x differ"),
        (Pattern::PriorityError, "it Failed"),
        (Pattern::PriorityNote, "a TODO here"),
        (Pattern::PrioritySecurity, "the secret"),
        (Pattern::LogError, "FATAL: no"),
        (Pattern::LogWarning, "a warning"),
        (Pattern::LogSummary, "3 passed"),
        (Pattern::SearchLine, "src/a.rs:3:x"),
        (Pattern::LogLevel, "warn"),
        (Pattern::DiffHeader, "diff --cc x"),
        (Pattern::NakedOldFile, "--- a/x"),
        (Pattern::HunkMarker, "@@ -1"),
        (Pattern::CredentialField, "API-Key"),
        (Pattern::NarrativeMarker, "so she said no"),
    ];
    for (p, text) in examples {
        assert!(p.is_match(text), "{p:?} {text}");
    }
    assert!(!Pattern::LogError.is_match("errors"));
    assert!(!Pattern::OldFile.is_match("--- x"));
    assert!(!Pattern::HunkHeader.is_match("@@ -1,2 +3,4"));
}

#[test]
fn the_first_group_of_the_first_match_is_taken() {
    assert_eq!(Pattern::HunkNewRange.group("@@ -1,2 +37,4 @@ +5"), Some("37".to_string()));
    assert_eq!(Pattern::SearchResult.group("src/a.rs:12:x:13:"), Some("src/a.rs".to_string()));
    assert_eq!(Pattern::SearchResult.group("no result"), None);
    assert_eq!(Pattern::LineNumber.group("12\tx"), Some("12".to_string()));
    assert_eq!(Pattern::LineNumber.group("12 x"), None);
    // Digits of any script count for the pattern.
    assert_eq!(Pattern::LineNumber.group("\u{661}\tx"), Some("\u{661}".to_string()));
}

#[test]
fn matches_are_found_by_characters() {
    let uri = "data:image/png;base64,AAAAAAAAAAAAAAAAAAAAAAAA==";
    let text = format!("\u{e9}\u{1f600} {uri} \u{e9} {uri}");
    let found = Pattern::DataUri.find_all(&text);
    let n = uri.len();
    assert_eq!(found, vec![(3, 3 + n), (6 + n, 6 + 2 * n)]);
}

#[test]
fn matching_lines_are_counted() {
    let lines = ["a error", "b", "ERROR c"].map(str::to_string).to_vec();
    assert_eq!(count_lines_matching(Pattern::LogError, &lines), 2);
    assert_eq!(count_lines_matching(Pattern::LogError, &vec![]), 0);
}
