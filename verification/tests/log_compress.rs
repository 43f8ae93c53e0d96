use squishi::log_compress::{compress_log, LogCompressConfig};

#[test]
fn keeps_all_lines_when_under_budget() {
    let content = "line one\nline two\nline three";
    let result = compress_log(content, &LogCompressConfig::default());
    assert_eq!(result.compressed_line_count, 3);
    assert!(!result.content.contains("omitted"));
}

#[test]
fn caps_repeated_errors_to_max_errors_plus_first_last() {
    let mut content = String::new();
    for i in 0..50 {
        content.push_str(&format!("ERROR: failure number {i}\n"));
    }
    let config = LogCompressConfig {
        max_errors: 5,
        context_lines: 0,
        ..Default::default()
    };
    let result = compress_log(&content, &config);
    assert!(result.compressed_line_count <= 7);
    assert!(result.content.contains("failure number 0"));
    assert!(result.content.contains("failure number 49"));
    assert!(result.content.contains("omitted"));
}

#[test]
fn keeps_summary_lines_regardless_of_error_cap() {
    let mut content = String::new();
    for i in 0..50 {
        content.push_str(&format!("ERROR: failure number {i}\n"));
    }
    content.push_str("=== 50 failed, 0 passed ===\n");
    let config = LogCompressConfig {
        max_errors: 3,
        context_lines: 0,
        ..Default::default()
    };
    let result = compress_log(&content, &config);
    assert!(result.content.contains("50 failed"));
}

#[test]
fn context_lines_surround_selected_errors() {
    let content = "info before\nERROR: boom\ninfo after";
    let config = LogCompressConfig {
        context_lines: 1,
        ..Default::default()
    };
    let result = compress_log(content, &config);
    assert!(result.content.contains("info before"));
    assert!(result.content.contains("ERROR: boom"));
    assert!(result.content.contains("info after"));
}
