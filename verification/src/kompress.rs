//! Which words of a text stay, given a score of each.
use crate::order::{arranged, ascending_below, is_subsequence};
use crate::text::{
    copy_str, join, join_texts, lemma_views_push, split_words, views, word_count, words,
};
use vstd::prelude::*;

verus! {

/// The words that are scored together.
pub const CHUNK_WORDS: usize = 350;

/// Texts of fewer words are left alone.
pub const MIN_SCORED_WORDS: usize = 10;

#[derive(Debug)]
pub struct KompressResult {
    pub original_words: usize,
    pub compressed_words: usize,
    pub content: String,
}

/// Where chunk `i` of the words starts and ends.
pub open spec fn chunk_at(total: int, i: int) -> (int, int) {
    let end = (i + 1) * CHUNK_WORDS;
    (
        i * CHUNK_WORDS,
        if end < total {
            end
        } else {
            total
        },
    )
}

pub open spec fn chunk_count(total: int) -> int {
    (total + CHUNK_WORDS - 1) / CHUNK_WORDS as int
}

/// The chunks of so many words.
pub fn chunk_bounds(total: usize) -> (out: Vec<(usize, usize)>)
    ensures
        out@.len() == chunk_count(total as int),
        forall|i: int|
            0 <= i < out@.len() ==> ((#[trigger] out@[i]).0 as int, out@[i].1 as int) == chunk_at(
                total as int,
                i,
            ),
{
    let mut out: Vec<(usize, usize)> = Vec::new();
    let mut start: usize = 0;
    while start < total
        invariant
            start <= total,
            start < total ==> start == out@.len() * CHUNK_WORDS,
            start == total ==> out@.len() == chunk_count(total as int),
            forall|i: int|
                0 <= i < out@.len() ==> ((#[trigger] out@[i]).0 as int, out@[i].1 as int)
                    == chunk_at(total as int, i),
        decreases total - start,
    {
        let end = if total - start > CHUNK_WORDS {
            start + CHUNK_WORDS
        } else {
            total
        };
        out.push((start, end));
        start = end;
    }
    out
}

/// Some part of word `w` scores above the threshold.
pub open spec fn scores_above(word_ids: Seq<Option<u32>>, above: Seq<bool>, w: int) -> bool {
    exists|t: int|
        0 <= t < word_ids.len() && #[trigger] word_ids[t] == Some(w as u32) && above[t]
}

/// Which of the first words of a chunk score above the threshold: the score of a word is the
/// greatest of its parts. `above` tells it of each part, and `word_ids` to which word it belongs.
pub fn words_above(word_ids: &Vec<Option<u32>>, above: &Vec<bool>, words: usize) -> (out: Vec<bool>)
    requires
        word_ids@.len() <= above@.len(),
        words <= u32::MAX,
    ensures
        out@.len() == words,
        forall|w: int|
            0 <= w < words ==> #[trigger] out@[w] == scores_above(word_ids@, above@, w),
{
    let mut out: Vec<bool> = Vec::new();
    let mut w: usize = 0;
    while w < words
        invariant
            w <= words,
            out@.len() == w,
            forall|v: int| 0 <= v < w ==> !#[trigger] out@[v],
        decreases words - w,
    {
        out.push(false);
        w = w + 1;
    }
    let mut t: usize = 0;
    assert(word_ids@.take(0) =~= seq![]);
    while t < word_ids.len()
        invariant
            t <= word_ids@.len() <= above@.len(),
            words <= u32::MAX,
            out@.len() == words,
            forall|v: int|
                0 <= v < words ==> #[trigger] out@[v] == scores_above(
                    word_ids@.take(t as int),
                    above@,
                    v,
                ),
        decreases word_ids.len() - t,
    {
        let ghost before = word_ids@.take(t as int);
        let ghost after = word_ids@.take(t + 1);
        let ghost had = out@;
        match word_ids[t] {
            Some(id) => {
                let at = id as usize;
                if at < words && above[t] {
                    out.set(at, true);
                }
            },
            None => {},
        }
        assert forall|v: int| 0 <= v < words implies #[trigger] out@[v] == scores_above(
            after,
            above@,
            v,
        ) by {
            assert(had[v] == scores_above(before, above@, v));
            if scores_above(before, above@, v) {
                let k = choose|k: int|
                    0 <= k < before.len() && #[trigger] before[k] == Some(v as u32) && above@[k];
                assert(after[k] == Some(v as u32));
            }
            if scores_above(after, above@, v) {
                let k = choose|k: int|
                    0 <= k < after.len() && #[trigger] after[k] == Some(v as u32) && above@[k];
                if k < t {
                    assert(before[k] == Some(v as u32));
                }
            }
            if out@[v] && !had[v] {
                assert(after[t as int] == Some(v as u32));
            }
        }
        t = t + 1;
    }
    assert(word_ids@.take(word_ids@.len() as int) =~= word_ids@);
    out
}

/// The words that are marked.
pub open spec fn marked_words(words: Seq<Seq<char>>, keep: Seq<bool>) -> Seq<Seq<char>>
    decreases words.len(),
{
    if words.len() == 0 {
        seq![]
    } else {
        let earlier = marked_words(words.drop_last(), keep);
        if keep[words.len() - 1] {
            earlier.push(words.last())
        } else {
            earlier
        }
    }
}

/// The words of the text that stay: all of them where there are few or none is marked.
pub open spec fn kept_words(content: Seq<char>, keep: Seq<bool>) -> Seq<Seq<char>> {
    let words = split_words(content);
    let marked = marked_words(words, keep);
    if words.len() < MIN_SCORED_WORDS || marked.len() == 0 {
        words
    } else {
        marked
    }
}

/// The text unchanged, or its marked words.
pub open spec fn kept_content(content: Seq<char>, keep: Seq<bool>) -> Seq<char> {
    let words = split_words(content);
    let marked = marked_words(words, keep);
    if words.len() < MIN_SCORED_WORDS || marked.len() == 0 {
        content
    } else {
        join(marked, " "@)
    }
}

/// Whether the words of the text are worth scoring.
pub fn wants_scores(content: &str) -> (b: bool)
    ensures
        b == (split_words(content@).len() >= MIN_SCORED_WORDS),
{
    word_count(content) >= MIN_SCORED_WORDS
}

/// Keeps the words that are marked. `keep` is not looked at where the text has few words.
pub fn compress_words(content: &str, keep: &Vec<bool>) -> (r: KompressResult)
    requires
        split_words(content@).len() >= MIN_SCORED_WORDS ==> keep@.len() == split_words(
            content@,
        ).len(),
    ensures
        r.original_words == split_words(content@).len(),
        r.compressed_words == kept_words(content@, keep@).len(),
        r.content@ == kept_content(content@, keep@),
{
    broadcast use lemma_views_push;

    let ws = words(content);
    let ghost all = views(ws@);
    let original_words = ws.len();
    assert(all.len() == original_words);
    if original_words < MIN_SCORED_WORDS {
        return KompressResult {
            original_words,
            compressed_words: original_words,
            content: copy_str(content),
        };
    }
    let mut kept: Vec<String> = Vec::new();
    let mut i: usize = 0;
    assert(all.take(0) =~= seq![]);
    assert(views(kept@) =~= seq![]);
    while i < ws.len()
        invariant
            i <= ws@.len() == keep@.len(),
            all == views(ws@),
            views(kept@) == marked_words(all.take(i as int), keep@),
        decreases ws.len() - i,
    {
        assert(all.take(i + 1).drop_last() =~= all.take(i as int));
        assert(all.take(i + 1).last() == ws@[i as int]@);
        if keep[i] {
            kept.push(copy_str(ws[i].as_str()));
        }
        i = i + 1;
    }
    assert(all.take(all.len() as int) =~= all);
    let compressed_words = kept.len();
    assert(views(kept@).len() == compressed_words);
    if compressed_words == 0 {
        return KompressResult {
            original_words,
            compressed_words: original_words,
            content: copy_str(content),
        };
    }
    KompressResult { original_words, compressed_words, content: join_texts(&kept, " ") }
}

/// What stays are words of the text, in their sequence: none is made up, and none is kept twice.
pub proof fn words_stay_in_sequence(content: Seq<char>, keep: Seq<bool>)
    ensures
        is_subsequence(kept_words(content, keep), split_words(content)),
        kept_words(content, keep).len() <= split_words(content).len(),
{
    let words = split_words(content);
    let marked = marked_words(words, keep);
    lemma_marked_words(words, keep);
    if words.len() < MIN_SCORED_WORDS || marked.len() == 0 {
        let all = Seq::new(words.len(), |i: int| i);
        assert(ascending_below(all, words.len() as int));
        assert(words =~= arranged(words, all));
    } else {
        assert(marked == arranged(words, marked_places(words.len(), keep)));
    }
}

/// The places of the words that are marked.
spec fn marked_places(n: nat, keep: Seq<bool>) -> Seq<int>
    decreases n,
{
    if n == 0 {
        seq![]
    } else {
        let earlier = marked_places((n - 1) as nat, keep);
        if keep[n - 1] {
            earlier.push(n - 1)
        } else {
            earlier
        }
    }
}

proof fn lemma_marked_words(words: Seq<Seq<char>>, keep: Seq<bool>)
    ensures
        marked_words(words, keep).len() <= words.len(),
        ascending_below(marked_places(words.len(), keep), words.len() as int),
        marked_words(words, keep) == arranged(words, marked_places(words.len(), keep)),
    decreases words.len(),
{
    let places = marked_places(words.len(), keep);
    if words.len() > 0 {
        let n = (words.len() - 1) as nat;
        let earlier = marked_places(n, keep);
        lemma_marked_words(words.drop_last(), keep);
        assert forall|i: int| 0 <= i < places.len() implies 0 <= #[trigger] places[i] < words.len() by {
            if i < earlier.len() {
                assert(places[i] == earlier[i]);
            }
        }
        assert forall|i: int, j: int| 0 <= i < j < places.len() implies #[trigger] places[i]
            < #[trigger] places[j] by {
            assert(places[i] == earlier[i]);
            if j < earlier.len() {
                assert(places[j] == earlier[j]);
            }
        }
        assert forall|i: int| 0 <= i < earlier.len() implies words.drop_last()[#[trigger] earlier[i]]
            == words[earlier[i]] by {}
        assert(arranged(words.drop_last(), earlier) =~= arranged(words, earlier));
    }
    assert(marked_words(words, keep) =~= arranged(words, places));
}

/// The chunks hold every word once and in order: the first starts with the first word, each starts
/// where the one before ends, and the last ends with the last word.
pub proof fn chunks_cover_all_words(total: int, i: int)
    requires
        0 <= i < chunk_count(total),
    ensures
        chunk_at(total, 0).0 == 0,
        chunk_at(total, i).0 < chunk_at(total, i).1 <= total,
        i + 1 < chunk_count(total) ==> chunk_at(total, i + 1).0 == chunk_at(total, i).1,
        i + 1 == chunk_count(total) ==> chunk_at(total, i).1 == total,
{
}

/// Just the marked words stay, each where it stands, joined by spaces. Where no word is marked, or the
/// text has fewer than ten, it stays as it is.
pub proof fn just_the_marked_words_stay(content: Seq<char>, keep: Seq<bool>) -> (places: Seq<int>)
    ensures
        ({
            let words = split_words(content);
            let some = exists|i: int| 0 <= i < words.len() && #[trigger] keep[i];
            &&& ascending_below(places, words.len() as int)
            &&& forall|i: int| #[trigger] places.contains(i) <==> 0 <= i < words.len() && keep[i]
            &&& words.len() >= 10 && some ==> kept_words(content, keep) == arranged(words, places)
                && kept_content(content, keep) == join(arranged(words, places), " "@)
            &&& words.len() < 10 || !some ==> kept_words(content, keep) == words && kept_content(
                content,
                keep,
            ) == content
        }),
{
    let words = split_words(content);
    let places = marked_places(words.len(), keep);
    lemma_marked_words(words, keep);
    lemma_marks_counted(words.len(), keep);
    if exists|i: int| 0 <= i < words.len() && #[trigger] keep[i] {
        let i = choose|i: int| 0 <= i < words.len() && #[trigger] keep[i];
        assert(places.contains(i));
    } else if places.len() > 0 {
        assert(places.contains(places[0]));
    }
    places
}

proof fn lemma_marks_counted(n: nat, keep: Seq<bool>)
    ensures
        forall|i: int| #[trigger]
            marked_places(n, keep).contains(i) <==> 0 <= i < n && keep[i],
    decreases n,
{
    if n > 0 {
        let before = marked_places((n - 1) as nat, keep);
        let out = marked_places(n, keep);
        lemma_marks_counted((n - 1) as nat, keep);
        assert forall|i: int| #[trigger] out.contains(i) <==> 0 <= i < n && keep[i] by {
            assert(before.contains(i) <==> 0 <= i < n - 1 && keep[i]);
            if before.contains(i) {
                let k = choose|k: int| 0 <= k < before.len() && before[k] == i;
                assert(out[k] == i);
            }
            if out.contains(i) {
                let k = choose|k: int| 0 <= k < out.len() && out[k] == i;
                if k < before.len() {
                    assert(before[k] == i);
                }
            }
            if out.len() > before.len() {
                assert(out[out.len() - 1] == n - 1);
            }
        }
    }
}

/// A chunk has 350 words, but for the last, which has the rest.
pub proof fn chunks_are_equal(total: int, i: int)
    requires
        0 <= i < chunk_count(total),
    ensures
        chunk_at(total, i).0 == 350 * i,
        i + 1 < chunk_count(total) ==> chunk_at(total, i).1 == 350 * i + 350,
        350 * (chunk_count(total) - 1) < total <= 350 * chunk_count(total),
{
}

/// A further part makes its word count where it scores above the threshold, and no other word.
pub proof fn one_part_is_enough(word_ids: Seq<Option<u32>>, above: Seq<bool>, id: Option<u32>, b: bool, w: u32)
    requires
        word_ids.len() == above.len(),
    ensures
        scores_above(word_ids.push(id), above.push(b), w as int) <==> scores_above(
            word_ids,
            above,
            w as int,
        ) || b && id == Some(w),
        !scores_above(seq![], seq![], w as int),
{
    let ids = word_ids.push(id);
    let bs = above.push(b);
    if scores_above(ids, bs, w as int) {
        let t = choose|t: int|
            0 <= t < ids.len() && #[trigger] ids[t] == Some((w as int) as u32) && bs[t];
        if t < word_ids.len() {
            assert(word_ids[t] == ids[t] && above[t] == bs[t]);
        }
    }
    if scores_above(word_ids, above, w as int) {
        let t = choose|t: int|
            0 <= t < word_ids.len() && #[trigger] word_ids[t] == Some((w as int) as u32) && above[t];
        assert(ids[t] == word_ids[t] && bs[t] == above[t]);
    }
    if b && id == Some(w) {
        assert(ids[word_ids.len() as int] == Some(w) && bs[word_ids.len() as int]);
    }
}

} // verus!
