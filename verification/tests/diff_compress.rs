use squishi::diff_compress::{compress_diff, DiffCompressConfig};

fn build_n_hunk_diff(n: usize) -> String {
    let mut s = String::from("diff --git a/big.py b/big.py\n--- a/big.py\n+++ b/big.py\n");
    for i in 0..n {
        let start = i * 100 + 1;
        s.push_str(&format!("@@ -{0},6 +{0},6 @@\n", start));
        s.push_str(&format!(
            " ctx_a_{i}\n ctx_b_{i}\n-old_{i}\n+new_{i}\n ctx_c_{i}\n ctx_d_{i}\n"
        ));
    }
    s
}

fn build_synthetic_diff(n_files: usize) -> String {
    let mut s = String::new();
    for i in 0..n_files {
        s.push_str(&format!(
            "diff --git a/file_{i}.py b/file_{i}.py\n--- a/file_{i}.py\n+++ b/file_{i}.py\n@@ -1,10 +1,12 @@\n"
        ));
        for k in 0..5 {
            s.push_str(&format!(" context_{k}_{i}\n"));
        }
        for k in 0..3 {
            s.push_str(&format!("-removed_{k}_{i}\n"));
        }
        for k in 0..5 {
            s.push_str(&format!("+added_{k}_{i}\n"));
        }
    }
    s
}

#[test]
fn non_diff_input_passes_through() {
    let input = "this is not a diff\njust prose\n".repeat(20);
    let r = compress_diff(&input, "", &DiffCompressConfig::default());
    assert_eq!(r.content, input);
    assert_eq!(r.files_affected, 0);
}

#[test]
fn max_hunks_per_file_cap_drops_excess() {
    let cfg = DiffCompressConfig {
        max_hunks_per_file: 10,
        ..Default::default()
    };
    let input = build_n_hunk_diff(15);
    let r = compress_diff(&input, "", &cfg);
    assert_eq!(r.hunks_removed, 5);
}

#[test]
fn max_files_cap_keeps_heaviest_files() {
    let cfg = DiffCompressConfig {
        max_files: 20,
        ..Default::default()
    };
    let input = build_synthetic_diff(25);
    let r = compress_diff(&input, "", &cfg);
    assert_eq!(r.files_affected, 20);
}

#[test]
fn rename_markers_are_preserved_in_output() {
    let input = "diff --git a/old.py b/new.py\n\
                 similarity index 92%\n\
                 rename from old.py\n\
                 rename to new.py\n\
                 --- a/old.py\n\
                 +++ b/new.py\n\
                 @@ -1,3 +1,3 @@\n\
                  ctx_a\n\
                 -old_line\n\
                 +new_line\n\
                  ctx_b\n";
    let r = compress_diff(input, "", &DiffCompressConfig::default());
    assert!(r.content.contains("similarity index 92%"));
    assert!(r.content.contains("rename from old.py"));
    assert!(r.content.contains("rename to new.py"));
}

#[test]
fn combined_diff_3way_content_is_parsed_and_emitted() {
    let input = "diff --git a/merge.py b/merge.py\n\
                 --- a/merge.py\n\
                 +++ b/merge.py\n\
                 @@@ -1,3 -1,3 +1,4 @@@\n\
                   unchanged_a\n\
                  -old_branch_1\n\
                 - old_branch_2\n\
                 ++new_in_merge\n\
                   unchanged_b\n";
    let r = compress_diff(input, "", &DiffCompressConfig::default());
    assert!(r.content.contains("@@@ -1,3 -1,3 +1,4 @@@"));
    assert!(r.content.contains("++new_in_merge"));
    assert_eq!(r.files_affected, 1);
}

#[test]
fn no_newline_marker_preserved_despite_distance() {
    let input = "diff --git a/last.txt b/last.txt\n\
                 --- a/last.txt\n\
                 +++ b/last.txt\n\
                 @@ -1,8 +1,8 @@\n\
                 -old_first\n\
                 +new_first\n\
                  ctx_a\n ctx_b\n ctx_c\n ctx_d\n ctx_e\n ctx_f\n\
                 \\ No newline at end of file\n";
    let r = compress_diff(input, "", &DiffCompressConfig::default());
    assert!(r.content.contains("\\ No newline at end of file"));
}

#[test]
fn diff_combined_header_starts_a_file() {
    let input = "diff --combined merge.py\n\
                 --- a/merge.py\n\
                 +++ b/merge.py\n\
                 @@@ -1,3 -1,3 +1,4 @@@\n\
                   ctx_a\n\
                 - removed_p1\n\
                  -removed_p2\n\
                 ++added_in_merge\n\
                   ctx_b\n";
    let r = compress_diff(input, "", &DiffCompressConfig::default());
    assert_eq!(r.files_affected, 1);
    assert!(r.content.contains("diff --combined merge.py"));
}

#[test]
fn pre_diff_content_is_preserved() {
    let input = "commit abc1234567890\n\
                 Author: Tester <t@example.com>\n\
                 \n    Refactor: rename and modify\n\n\
                 diff --git a/x.py b/x.py\n\
                 --- a/x.py\n\
                 +++ b/x.py\n\
                 @@ -1 +1 @@\n\
                 -a\n\
                 +b\n";
    let r = compress_diff(input, "", &DiffCompressConfig::default());
    assert!(r.content.starts_with("commit abc1234567890"));
    assert!(r.content.contains("Author: Tester"));
    assert!(r.content.contains("diff --git a/x.py b/x.py"));
}

#[test]
fn large_diff_compresses_meaningfully() {
    let input = build_n_hunk_diff(20);
    let r = compress_diff(&input, "", &DiffCompressConfig::default());
    assert!(r.compressed_line_count < r.original_line_count);
    assert!(r.hunks_removed > 0);
}
