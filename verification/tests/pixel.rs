use squishi::content_detect::{detect, ContentKind};
use squishi::pixel::{
    eligible_kind, is_profitable, render_if_profitable, render_to_png, wrap_into_rows, COLUMNS,
    PAGE_HEIGHT, PAGE_WIDTH, ROWS_PER_PAGE,
};

const DENSE_JSON_FIXTURE: &str = r#"{"id":"src/toon.rs::encode","kind":"function","file":"src/toon.rs","line":42,"community":3,"degree":17,"betweenness":0.083,"tags":["json","codec","public-api"]}"#;

const SPARSE_PROSE_FIXTURE: &str = "squishi compresses text. It does not store or \
    retrieve anything - that is total-recall's job. Compression should always be \
    measured against real fixtures, not synthetic examples built to flatter a format, \
    and every regression found in review should be fixed, not just documented and left \
    in place for someone else to trip over later.";

const CODE_FIXTURE: &str = "pub fn is_profitable(text: &str) -> bool {\n    \
    if text.is_empty() {\n        return false;\n    }\n    \
    estimate_chars_per_token(text) <= PROFITABLE_CHARS_PER_TOKEN\n}";

const DIFF_FIXTURE: &str = "diff --git a/src/pixel.rs b/src/pixel.rs\n\
    --- a/src/pixel.rs\n+++ b/src/pixel.rs\n@@ -1,3 +1,4 @@\n \
    use image::GrayImage;\n+use std::io::Cursor;\n";

#[test]
fn dense_json_measures_well_under_the_profitability_threshold() {
    assert!(is_profitable(DENSE_JSON_FIXTURE));
}

#[test]
fn sparse_prose_is_declined() {
    assert!(!is_profitable(SPARSE_PROSE_FIXTURE));
}

#[test]
fn empty_text_is_never_profitable() {
    assert!(!is_profitable(""));
}

#[test]
fn two_and_a_half_characters_to_the_token_are_just_profitable() {
    assert!(is_profitable("abcd:"));
    assert!(!is_profitable("abcde:"));
    assert!(is_profitable("  "));
    assert!(!is_profitable("   "));
}

#[test]
fn code_classified_content_is_refused_regardless_of_density() {
    let label = Some("rust".to_string());
    let kind = detect(CODE_FIXTURE, label.clone());
    assert!(
        !eligible_kind(&kind),
        "expected code content to be classified ineligible, got {kind:?}"
    );
    assert!(render_if_profitable(CODE_FIXTURE, label).is_none());
}

#[test]
fn diff_classified_content_is_refused_regardless_of_density() {
    let kind = detect(DIFF_FIXTURE, None);
    assert_eq!(kind, ContentKind::Diff);
    assert!(!eligible_kind(&kind));
    assert!(render_if_profitable(DIFF_FIXTURE, None).is_none());
}

#[test]
fn sparse_prose_is_eligible_but_declined_on_density() {
    let kind = detect(SPARSE_PROSE_FIXTURE, None);
    assert_eq!(kind, ContentKind::PlainText);
    assert!(eligible_kind(&kind));
    assert!(render_if_profitable(SPARSE_PROSE_FIXTURE, None).is_none());
}

#[test]
fn dense_eligible_content_renders() {
    assert!(render_if_profitable(DENSE_JSON_FIXTURE, None).is_some());
}

#[test]
fn renders_a_single_page_png_with_real_dimensions() {
    let png = render_to_png(DENSE_JSON_FIXTURE);
    assert_eq!(&png[..8], b"\x89PNG\r\n\x1a\n", "not a real PNG signature");

    let decoded = image::load_from_memory(&png).expect("rendered bytes must decode as PNG");
    assert_eq!(decoded.width(), PAGE_WIDTH);
    assert_eq!(decoded.height(), PAGE_HEIGHT);
}

#[test]
fn content_longer_than_one_page_spills_onto_a_second_page() {
    let text = "x".repeat(COLUMNS as usize * (ROWS_PER_PAGE as usize + 1));
    let png = render_to_png(&text);
    let decoded = image::load_from_memory(&png).unwrap();
    assert_eq!(decoded.width(), PAGE_WIDTH);
    assert_eq!(decoded.height(), PAGE_HEIGHT * 2);
}

#[test]
fn empty_text_still_renders_one_blank_page() {
    let png = render_to_png("");
    let decoded = image::load_from_memory(&png).unwrap();
    assert_eq!(decoded.width(), PAGE_WIDTH);
    assert_eq!(decoded.height(), PAGE_HEIGHT);
    assert!(decoded.to_luma8().pixels().all(|p| p.0[0] == 255));
}

#[test]
fn rendering_actually_draws_dark_pixels_for_real_text() {
    let png = render_to_png("hello");
    let decoded = image::load_from_memory(&png).unwrap().to_luma8();
    assert!(
        decoded.pixels().any(|p| p.0[0] == 0),
        "expected at least one black pixel from rendering real glyphs"
    );
}

#[test]
fn glyphs_stand_where_their_characters_do() {
    let decoded = image::load_from_memory(&render_to_png("\n\u{e9}#")).unwrap().to_luma8();
    let mut font = spleen_font::PSF2Font::new(spleen_font::FONT_5X8).unwrap();
    let mut expected = Vec::new();
    for (col, ch) in ["\u{e9}", "#"].iter().enumerate() {
        for (y, row) in font.glyph_for_utf8(ch.as_bytes()).unwrap().enumerate() {
            for (x, on) in row.enumerate() {
                if on {
                    expected.push((4 + 5 * col as u32 + x as u32, 8 + y as u32));
                }
            }
        }
    }
    let mut drawn: Vec<(u32, u32)> = decoded
        .enumerate_pixels()
        .filter(|(_, _, p)| p.0[0] == 0)
        .map(|(x, y, _)| (x, y))
        .collect();
    drawn.sort();
    expected.sort();
    assert_eq!(drawn, expected);
}

#[test]
fn newline_forces_a_row_break_not_a_wrapped_glyph() {
    let rows = wrap_into_rows("ab\ncd");
    assert_eq!(rows, vec!["ab".to_string(), "cd".to_string()]);
}

#[test]
fn long_line_wraps_at_the_column_limit() {
    let line = "x".repeat(COLUMNS as usize + 3);
    let rows = wrap_into_rows(&line);
    assert_eq!(rows.len(), 2);
    assert_eq!(rows[0].chars().count(), COLUMNS as usize);
    assert_eq!(rows[1].chars().count(), 3);
}

#[test]
fn empty_lines_are_empty_rows() {
    assert_eq!(wrap_into_rows("a\n\nb\n"), vec!["a", "", "b", ""]);
}
