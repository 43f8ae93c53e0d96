use squishi::cascade_dedup::{hash_fn, minhash_signature, shingles, CascadeDedup, CascadeResult};
use squishi::json::{Json, Number};

const FIRST: &str = "The quarterly report shows strong growth in revenue this year.";
const SECOND: &str = "The database server could not be reached by the system.";
const THIRD: &str = "Nobody in the office had read the old manual in years.";

fn dedupe(sentences: &[&str], same: &[(usize, usize)]) -> CascadeResult {
    let texts: Vec<String> = sentences.iter().map(|s| s.to_string()).collect();
    let n = texts.len();
    let mut table = vec![vec![false; n]; n];
    for &(i, j) in same {
        table[i][j] = true;
    }
    let embeddings = (0..n)
        .map(|i| Some(vec![Json::Number(Number::PosInt(i as u64))]))
        .collect();
    CascadeDedup::dedupe(&texts, &table, &embeddings)
}

fn texts(result: &CascadeResult) -> Vec<&str> {
    result.kept.iter().map(|k| k.text.as_str()).collect()
}

#[test]
fn the_hash_is_a_polynomial_over_the_bytes() {
    assert_eq!(hash_fn("", 9), 9);
    assert_eq!(hash_fn("ab", 0), 31 * 97 + 98);
    assert_eq!(hash_fn("a", 2), 2 * 31 + 97);
    let mut expected: u64 = 5;
    for byte in "a long text, much longer than sixty-four bits: \u{e9}".bytes() {
        expected = expected.wrapping_mul(31).wrapping_add(u64::from(byte));
    }
    assert_eq!(hash_fn("a long text, much longer than sixty-four bits: \u{e9}", 5), expected);
}

#[test]
fn shingles_are_runs_of_words() {
    assert_eq!(shingles("a  b c\td", 3), vec!["a b c", "b c d"]);
    assert_eq!(shingles(" a b ", 3), vec![" a b "]);
}

#[test]
fn a_signature_holds_the_least_hash_of_each_seed() {
    let text = "one two three four five six";
    let signature = minhash_signature(text, 4);
    assert_eq!(signature.len(), 4);
    for (seed, hash) in signature.iter().enumerate() {
        let least = shingles(text, 5)
            .iter()
            .map(|s| hash_fn(s, seed as u32))
            .min()
            .unwrap();
        assert_eq!(*hash, least);
    }
}

#[test]
fn identical_sentences_collapse_to_the_first() {
    let result = dedupe(&[FIRST, SECOND, FIRST, FIRST], &[]);
    assert_eq!(texts(&result), vec![FIRST, SECOND]);
    assert_eq!(result.removed_count, 2);
}

#[test]
fn sentences_of_the_same_meaning_collapse() {
    let result = dedupe(&[FIRST, SECOND, THIRD], &[(0, 2)]);
    assert_eq!(texts(&result), vec![FIRST, SECOND]);
    assert_eq!(result.removed_count, 1);
}

#[test]
fn a_removed_sentence_removes_no_other() {
    let result = dedupe(&[FIRST, SECOND, THIRD], &[(0, 1), (1, 2)]);
    assert_eq!(texts(&result), vec![FIRST, THIRD]);
    assert_eq!(result.removed_count, 1);
}

#[test]
fn short_sentences_stay_behind_the_others() {
    let result = dedupe(&["Yes.", FIRST, "Yes."], &[(0, 1), (0, 2)]);
    assert_eq!(texts(&result), vec![FIRST, "Yes.", "Yes."]);
    assert_eq!(result.removed_count, 0);
    assert!(matches!(&result.kept[0].embedding, Some(e) if e.len() == 1));
    assert!(result.kept[1].embedding.is_none());
}
