use squishi::punctuation_restore::{capitalize_first, reconstruct};

#[test]
fn reconstruct_inserts_period_and_capitalizes_next_word() {
    let original = "hello world how are you";
    let labels = [0, 1, 0, 0, 0];
    let result = reconstruct(original, &labels);
    assert_eq!(result, "Hello world. How are you");
}

#[test]
fn reconstruct_handles_comma_without_capitalizing() {
    let original = "first second third";
    let labels = [0, 2, 0]; // "second" gets a comma
    let result = reconstruct(original, &labels);
    assert_eq!(result, "First second, third");
}

#[test]
fn reconstruct_with_no_punctuation_labels_just_capitalizes_first_word() {
    let original = "no punctuation predicted here at all";
    let labels = [0, 0, 0, 0, 0, 0];
    let result = reconstruct(original, &labels);
    assert_eq!(result, "No punctuation predicted here at all");
}

#[test]
fn reconstruct_question_mark_also_triggers_capitalization() {
    let original = "are you sure yes i am";
    let labels = [0, 0, 3, 0, 0, 0]; // "sure" gets "?"
    let result = reconstruct(original, &labels);
    assert_eq!(result, "Are you sure? Yes i am");
}

#[test]
fn capitalize_first_handles_unicode() {
    assert_eq!(capitalize_first("étude"), "Étude");
}

#[test]
fn capitalize_first_on_empty_string_is_empty() {
    assert_eq!(capitalize_first(""), "");
}

