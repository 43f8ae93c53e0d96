use squishi::json::{Json, Number};
use squishi::semantic_dedup::{
    best_score, classify_shape, extractive_summary, is_comparable, last_embedded,
    sentences_to_dedupe, summary_peers, wants_punctuation, Dedup, KeptSentence, Score,
    SentenceShape, MAX_COMPARISON_WINDOW, SUMMARY_MAX,
};
use squishi::sentences::{
    is_effectively_unpunctuated, split_by_word_window, split_on_punctuation, split_sentences,
};

/// A key that orders as the numbers do.
fn key(value: f32) -> u64 {
    let bits = value.to_bits();
    let ordered = if bits >> 31 == 1 { !bits } else { bits | 0x8000_0000 };
    u64::from(ordered)
}

fn cosine(a: &[f32], b: &[f32]) -> f32 {
    let dot: f32 = a.iter().zip(b).map(|(x, y)| x * y).sum();
    let norm_a: f32 = a.iter().map(|v| v * v).sum::<f32>().sqrt();
    let norm_b: f32 = b.iter().map(|v| v * v).sum::<f32>().sqrt();
    if norm_a == 0.0 || norm_b == 0.0 {
        return 0.0;
    }
    dot / (norm_a * norm_b)
}

fn unit_vec(mut v: Vec<f32>) -> Vec<f32> {
    let norm: f32 = v.iter().map(|x| x * x).sum::<f32>().sqrt();
    if norm > 0.0 {
        for x in &mut v {
            *x /= norm;
        }
    }
    v
}

fn score(value: f32, threshold: f32) -> Score {
    Score {
        key: key(value),
        exceeds_threshold: value > threshold,
        similarity: Json::Number(Number::Float(value.to_string())),
    }
}

/// How alike each sentence is to those it is scored against.
fn centrality(indices: &Vec<usize>, embeddings: &[Vec<f32>]) -> Vec<u64> {
    (0..indices.len())
        .map(|at| {
            let peers = summary_peers(indices, at);
            if peers.is_empty() {
                return key(0.0);
            }
            let sum: f32 = peers.iter().map(|&p| cosine(&embeddings[at], &embeddings[p])).sum();
            key(sum / peers.len() as f32)
        })
        .collect()
}

fn kept(index: usize, text: &str) -> KeptSentence {
    KeptSentence {
        text: text.to_string(),
        index,
        shape: SentenceShape::Concept,
        embedding: None,
    }
}

#[test]
fn punctuated_text_uses_real_sentence_splitting() {
    let content = "First sentence here. Second sentence here. Third one too.";
    let result = split_sentences(content);
    assert_eq!(result.len(), 3);
}

#[test]
fn unpunctuated_text_falls_back_to_word_windows() {
    let words: Vec<&str> = std::iter::repeat_n("word", 60).collect();
    let content = words.join(" ");
    let result = split_sentences(&content);
    assert_eq!(result.len(), 3);
    for chunk in &result {
        assert_eq!(chunk.split_whitespace().count(), 20);
    }
}

#[test]
fn unpunctuated_fallback_preserves_all_words_in_order() {
    let content = "the quick brown fox jumps over the lazy dog and then runs away very quickly into the dark forest without looking back even once more";
    let joined_words: Vec<&str> = content.split_whitespace().collect();
    let result = split_sentences(content);
    let rejoined: Vec<&str> = result.iter().flat_map(|s| s.split_whitespace()).collect();
    assert_eq!(rejoined, joined_words);
}

#[test]
fn sparse_punctuation_still_counts_as_unpunctuated() {
    let mut words: Vec<&str> = std::iter::repeat_n("word", 200).collect();
    words[100] = "word.";
    let content = words.join(" ");
    let result = split_sentences(&content);
    assert!(
        result.len() > 2,
        "expected word-window fallback (multiple chunks), got {} chunk(s)",
        result.len()
    );
}

#[test]
fn one_mark_on_a_hundred_words_is_enough() {
    let mut words: Vec<&str> = std::iter::repeat_n("word", 100).collect();
    words[50] = "word!";
    assert!(!is_effectively_unpunctuated(&words.join(" ")));
    words.push("word");
    assert!(is_effectively_unpunctuated(&words.join(" ")));
    assert!(!is_effectively_unpunctuated(" \n "));
}

#[test]
fn sentences_end_only_where_a_space_follows() {
    assert_eq!(
        split_on_punctuation("Version 1.2 is out! Really?\nYes.  "),
        vec!["Version 1.2 is out!", "Really?", "Yes."]
    );
    assert_eq!(
        split_by_word_window("  one\ttwo three  four ", 3),
        vec!["one\ttwo three", "four"]
    );
}

#[test]
fn narrative_opener_i_had_a_client() {
    let s = "I had a client who wanted to lose an incredible amount of body weight to fit into a wedding dress.";
    assert_eq!(classify_shape(s), SentenceShape::Narrative);
}

#[test]
fn narrative_reported_speech_she_said() {
    let s = "She said you didn't look at the poop, you looked at the patient.";
    assert_eq!(classify_shape(s), SentenceShape::Narrative);
}

#[test]
fn narrative_years_ago_opener() {
    let s = "Years ago I joined a group which was quite small but looking impressive.";
    assert_eq!(classify_shape(s), SentenceShape::Narrative);
}

#[test]
fn concept_plain_claim_is_not_narrative() {
    let s = "Context tells the genes what they need to do and what not to do under those circumstances.";
    assert_eq!(classify_shape(s), SentenceShape::Concept);
}

#[test]
fn concept_framework_definition_is_not_narrative() {
    let s = "Desirability is scored zero to ten, and below an eight the goal will not survive resistance.";
    assert_eq!(classify_shape(s), SentenceShape::Concept);
}

#[test]
fn summary_empty_below_minimum_sentence_count() {
    let sentences = vec![kept(0, "a"), kept(1, "b")];
    let indices = vec![0, 1];
    let embeddings = vec![unit_vec(vec![1.0, 0.0]), unit_vec(vec![0.0, 1.0])];
    let keys = centrality(&indices, &embeddings);
    assert!(extractive_summary(&sentences, &indices, &keys).is_empty());
}

#[test]
fn summary_favors_the_most_central_sentence_and_stays_in_document_order() {
    let sentences = vec![
        kept(0, "cluster A"),
        kept(1, "cluster B"),
        kept(2, "cluster C"),
        kept(3, "outlier"),
    ];
    let indices = vec![0, 1, 2, 3];
    let embeddings = vec![
        unit_vec(vec![1.0, 0.05, 0.0]),
        unit_vec(vec![0.95, 0.1, 0.0]),
        unit_vec(vec![0.9, 0.0, 0.05]),
        unit_vec(vec![0.0, 0.0, 1.0]),
    ];
    let keys = centrality(&indices, &embeddings);
    let summary = extractive_summary(&sentences, &indices, &keys);
    assert_eq!(summary.len(), 3);
    assert!(!summary.contains(&"outlier".to_string()));
    assert_eq!(summary, vec!["cluster A", "cluster B", "cluster C"]);
}

#[test]
fn best_match_ignores_duplicates_outside_the_comparison_window() {
    let query = unit_vec(vec![1.0, 0.0, 0.0]);
    let mut embeddings: Vec<Vec<f32>> = vec![query.clone()];
    for i in 1..=MAX_COMPARISON_WINDOW {
        let angle = i as f32;
        embeddings.push(unit_vec(vec![0.0, angle.sin(), angle.cos()]));
    }
    let indices: Vec<usize> = (0..embeddings.len()).collect();
    let window = last_embedded(&indices);
    let similarities: Vec<f32> = window.iter().map(|&i| cosine(&query, &embeddings[i])).collect();
    let scores: Vec<Score> = similarities.iter().map(|&s| score(s, 0.8)).collect();
    let best = best_score(&scores).unwrap();
    assert_ne!(
        window[best], 0,
        "the true duplicate at index 0 is outside the window"
    );
    assert!(similarities[best].abs() < 1e-6);
}

#[test]
fn best_match_finds_duplicate_inside_the_comparison_window() {
    let query = unit_vec(vec![1.0, 0.0]);
    let mut embeddings: Vec<Vec<f32>> = (0..MAX_COMPARISON_WINDOW - 1)
        .map(|_| unit_vec(vec![0.0, 1.0]))
        .collect();
    let dup_index = embeddings.len();
    embeddings.push(query.clone());

    let indices: Vec<usize> = (0..embeddings.len()).collect();
    let window = last_embedded(&indices);
    let similarities: Vec<f32> = window.iter().map(|&i| cosine(&query, &embeddings[i])).collect();
    let scores: Vec<Score> = similarities.iter().map(|&s| score(s, 0.8)).collect();
    let best = best_score(&scores).unwrap();
    assert_eq!(window[best], dup_index);
    assert!(similarities[best] > 0.999);
}

#[test]
fn summary_handles_more_kept_sentences_than_the_comparison_window() {
    let n = MAX_COMPARISON_WINDOW * 2 + 3;
    let sentences: Vec<KeptSentence> = (0..n).map(|i| kept(i, &format!("sentence {i}"))).collect();
    let indices: Vec<usize> = (0..n).collect();
    let embeddings: Vec<Vec<f32>> = (0..n)
        .map(|i| {
            let angle = i as f32 * 0.001;
            unit_vec(vec![angle.cos(), angle.sin()])
        })
        .collect();

    let keys = centrality(&indices, &embeddings);
    let summary = extractive_summary(&sentences, &indices, &keys);
    assert!(!summary.is_empty());
    assert!(summary.len() <= SUMMARY_MAX);
    assert_eq!(summary_peers(&indices, 1).len(), n.div_ceil(3));
}

const FIRST: &str = "The quarterly report shows strong growth in revenue this year.";
const SECOND: &str = "The database server could not be reached by the system.";

fn texts(sentences: &[&str]) -> Vec<String> {
    sentences.iter().map(|s| s.to_string()).collect()
}

/// Answers with the similarity that `alike` gives for two sentences.
fn decide(mut dedup: Dedup, alike: fn(usize, usize) -> f32, threshold: f32) -> Dedup {
    while let Some(next) = dedup.pending() {
        let scores: Vec<Score> = dedup
            .compared_with()
            .iter()
            .map(|&other| score(alike(next, other), threshold))
            .collect();
        dedup.answer(&scores, None);
    }
    dedup
}

#[test]
fn a_sentence_that_was_said_goes() {
    let dedup = Dedup::start(texts(&[FIRST, SECOND, FIRST, FIRST]));
    let dedup = decide(dedup, |a, b| if a % 2 == b % 2 || a == 3 { 1.0 } else { 0.1 }, 0.8);
    let scored = dedup.scored();
    assert_eq!(scored, vec![0, 1]);
    let result = dedup.finish(&vec![0, 0], false);
    assert_eq!(result.original_sentences, 4);
    assert_eq!(result.kept_sentences, 2);
    assert_eq!(result.kept[0].index, 0);
    assert_eq!(result.content, format!("{FIRST} {SECOND}"));
    assert_eq!(result.drops.len(), 2);
    assert_eq!(result.drops[0].dropped_index, 2);
    assert_eq!(result.drops[0].kept_index, 0);
    assert_eq!(result.drops[1].dropped_index, 3);
    assert_eq!(result.drops[1].kept_index, 1);
    assert!(result.summary.is_empty());
    assert!(!result.punctuation_restored);
}

#[test]
fn short_sentences_are_never_compared() {
    assert!(!is_comparable("Yes."));
    assert!(is_comparable(FIRST));
    assert!(!is_comparable(&"word ".repeat(41)));
    let dedup = Dedup::start(texts(&["Yes.", "Yes.", "Yes."]));
    assert!(dedup.pending().is_none());
    let result = dedup.finish(&vec![], false);
    assert_eq!(result.kept_sentences, 3);
    assert!(result.drops.is_empty());
}

#[test]
fn a_score_below_the_threshold_keeps_the_sentence() {
    let dedup = Dedup::start(texts(&[FIRST, SECOND]));
    let dedup = decide(dedup, |_, _| 0.79, 0.8);
    let result = dedup.finish(&vec![0, 0], true);
    assert_eq!(result.kept_sentences, 2);
    assert!(result.punctuation_restored);
}

#[test]
fn punctuation_is_wanted_only_where_it_is_allowed_and_missing() {
    let bare = "word ".repeat(60);
    assert!(wants_punctuation(&bare, true));
    assert!(!wants_punctuation(&bare, false));
    assert!(!wants_punctuation("A sentence.", true));
    assert!(sentences_to_dedupe(&bare, &None).len() > 1);
    let restored = Some("One. Two.".to_string());
    assert_eq!(sentences_to_dedupe(&bare, &restored), vec!["One.", "Two."]);
}
