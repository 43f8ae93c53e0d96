use squishi::kompress::{chunk_bounds, compress_words, wants_scores, words_above, CHUNK_WORDS};

#[test]
fn short_content_is_left_alone() {
    let result = compress_words("too short", &vec![]);
    assert_eq!(result.content, "too short");
    assert_eq!(result.original_words, result.compressed_words);
    assert!(!wants_scores("too short"));
}

#[test]
fn marked_words_stay() {
    let text = "a b  c d e f g h i j";
    assert!(wants_scores(text));
    let keep: Vec<bool> = (0..10).map(|i| i % 3 == 0).collect();
    let result = compress_words(text, &keep);
    assert_eq!(result.content, "a d g j");
    assert_eq!(result.original_words, 10);
    assert_eq!(result.compressed_words, 4);
}

#[test]
fn a_text_of_which_nothing_would_stay_stays_whole() {
    let text = "a b c d e f g h i  j";
    let result = compress_words(text, &vec![false; 10]);
    assert_eq!(result.content, text);
    assert_eq!(result.compressed_words, 10);
}

#[test]
fn chunks_cover_every_word_once() {
    let bounds = chunk_bounds(CHUNK_WORDS * 2 + 50);
    assert_eq!(bounds, vec![(0, 350), (350, 700), (700, 750)]);
    assert_eq!(chunk_bounds(350), vec![(0, 350)]);
    assert!(chunk_bounds(0).is_empty());
}

#[test]
fn a_word_scores_as_its_best_part() {
    let word_ids = vec![None, Some(0), Some(0), Some(1), Some(2), Some(9), None];
    let above = vec![true, false, true, false, true, true, true];
    assert_eq!(words_above(&word_ids, &above, 4), vec![true, false, true, false]);
}

#[test]
fn what_stays_are_words_of_the_text_in_their_sequence() {
    let text = "one two three four five six seven eight nine ten eleven twelve";
    let all: Vec<&str> = text.split_whitespace().collect();
    for marks in [0b1010_1010_1010u32, 0b1, 0b1111_1111_1111, 0] {
        let keep: Vec<bool> = (0..all.len()).map(|i| marks >> i & 1 == 1).collect();
        let r = compress_words(text, &keep);
        let kept: Vec<&str> = r.content.split_whitespace().collect();
        assert_eq!(r.compressed_words, kept.len());
        assert!(r.compressed_words <= r.original_words);
        let mut rest = all.iter();
        assert!(kept.iter().all(|word| rest.any(|w| w == word)));
    }
}
