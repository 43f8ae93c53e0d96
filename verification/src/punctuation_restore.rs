//! Punctuation and capitals for a text that has none, given a label of each word.
use crate::sentences::words_of_all;
use crate::text::{
    copy_str, is_space, join, join_range, join_texts, lemma_join_first, lemma_trim_start_suffix,
    lemma_views_push, lemma_word_len, slice_text, split_words, to_chars, trim_start, views,
    word_len, words,
};
use vstd::prelude::*;

verus! {

/// The words that are labelled together.
pub const CHUNK_WORDS: usize = 300;

/// The chunks that are labelled at a time.
pub const BATCH_SIZE: usize = 8;

/// What a label puts behind a word.
pub open spec fn mark_of(label: int) -> Seq<char> {
    if label == 1 {
        "."@
    } else if label == 2 {
        ","@
    } else if label == 3 {
        "?"@
    } else if label == 4 {
        "-"@
    } else if label == 5 {
        ":"@
    } else {
        seq![]
    }
}

/// The mark of the label ends a sentence.
pub open spec fn ends_sentence(label: int) -> bool {
    label == 1 || label == 3
}

/// The upper case of a character.
pub uninterp spec fn upper(c: char) -> Seq<char>;

/// `char::to_uppercase`: a function of the character, which gives one character or more.
#[verifier::external_body]
fn uppercase(c: char) -> (s: String)
    ensures
        s@ == upper(c),
        s@.len() > 0,
{
    c.to_uppercase().collect()
}

pub open spec fn capitalized(word: Seq<char>) -> Seq<char> {
    if word.len() == 0 {
        word
    } else {
        upper(word[0]) + word.drop_first()
    }
}

pub fn capitalize_first(word: &str) -> (out: String)
    ensures
        out@ == capitalized(word@),
{
    let v = to_chars(word);
    if v.len() == 0 {
        return copy_str(word);
    }
    let mut out = uppercase(v[0]);
    let rest = slice_text(&v, 1, v.len());
    assert(rest@ =~= word@.drop_first());
    out.append(rest.as_str());
    out
}

/// The label of word `i`; words without one have none.
pub open spec fn label_at(labels: Seq<usize>, i: int) -> int {
    if i < labels.len() {
        labels[i] as int
    } else {
        0
    }
}

/// Word `i` as it is written: with a capital at the start and behind the end of a sentence.
pub open spec fn written(words: Seq<Seq<char>>, labels: Seq<usize>, i: int) -> Seq<char> {
    (if i == 0 || ends_sentence(label_at(labels, i - 1)) {
        capitalized(words[i])
    } else {
        words[i]
    }) + mark_of(label_at(labels, i))
}

pub open spec fn restored_words(words: Seq<Seq<char>>, labels: Seq<usize>) -> Seq<Seq<char>> {
    Seq::new(words.len(), |i: int| written(words, labels, i))
}

pub open spec fn reconstructed(original: Seq<char>, labels: Seq<usize>) -> Seq<char> {
    join(restored_words(split_words(original), labels), " "@)
}

fn mark_text(label: usize) -> (m: &'static str)
    ensures
        m@ == mark_of(label as int),
{
    if label == 1 {
        "."
    } else if label == 2 {
        ","
    } else if label == 3 {
        "?"
    } else if label == 4 {
        "-"
    } else if label == 5 {
        ":"
    } else {
        proof {
            reveal_strlit("");
        }
        let none = "";
        assert(none@ =~= seq![]);
        none
    }
}

/// The words of the text with the marks of their labels and a capital at the start of each
/// sentence.
pub fn reconstruct(original: &str, word_labels: &[usize]) -> (out: String)
    ensures
        out@ == reconstructed(original@, word_labels@),
{
    let ws = words(original);
    let ghost all = views(ws@);
    let mut parts: Vec<String> = Vec::new();
    let mut capitalize_next = true;
    let mut i: usize = 0;
    while i < ws.len()
        invariant
            i <= ws@.len(),
            all == views(ws@),
            parts@.len() == i,
            capitalize_next == (i == 0 || ends_sentence(label_at(word_labels@, i - 1))),
            forall|j: int|
                0 <= j < i ==> (#[trigger] parts@[j])@ == written(all, word_labels@, j),
        decreases ws.len() - i,
    {
        assert(all[i as int] == ws@[i as int]@);
        let mut word = if capitalize_next {
            capitalize_first(ws[i].as_str())
        } else {
            copy_str(ws[i].as_str())
        };
        let label: usize = if i < word_labels.len() {
            word_labels[i]
        } else {
            0
        };
        word.append(mark_text(label));
        capitalize_next = label == 1 || label == 3;
        parts.push(word);
        i = i + 1;
    }
    assert(views(parts@) =~= restored_words(all, word_labels@));
    join_texts(&parts, " ")
}

/// The words, so many at a time, each lot joined by spaces.
pub open spec fn chunks_from(words: Seq<Seq<char>>, size: nat) -> Seq<Seq<char>>
    decreases words.len(),
{
    if words.len() == 0 || size == 0 {
        seq![]
    } else if words.len() <= size {
        seq![join(words, " "@)]
    } else {
        seq![join(words.take(size as int), " "@)] + chunks_from(words.skip(size as int), size)
    }
}

/// The chunks of a text that are labelled one by one.
pub fn chunk_texts(content: &str) -> (out: Vec<String>)
    ensures
        views(out@) == chunks_from(split_words(content@), CHUNK_WORDS as nat),
{
    broadcast use lemma_views_push;

    let ws = words(content);
    let total: usize = ws.len();
    let ghost all = views(ws@);
    let ghost whole = chunks_from(all, CHUNK_WORDS as nat);
    let mut out: Vec<String> = Vec::new();
    let mut i: usize = 0;
    assert(all.skip(0) =~= all);
    assert(views(out@) + whole =~= whole);
    while i < total
        invariant
            i <= total == ws@.len(),
            all == views(ws@),
            whole == views(out@) + chunks_from(all.skip(i as int), CHUNK_WORDS as nat),
        decreases total - i,
    {
        let ghost rest = all.skip(i as int);
        let ghost have = views(out@);
        let end = if total - i > CHUNK_WORDS {
            i + CHUNK_WORDS
        } else {
            total
        };
        let text = join_range(&ws, i, end);
        if total - i > CHUNK_WORDS {
            assert(all.subrange(i as int, end as int) =~= rest.take(CHUNK_WORDS as int));
            assert(rest.skip(CHUNK_WORDS as int) =~= all.skip(end as int));
            let ghost later = chunks_from(all.skip(end as int), CHUNK_WORDS as nat);
            assert(have + (seq![text@] + later) =~= have.push(text@) + later);
        } else {
            assert(all.subrange(i as int, end as int) =~= rest);
            assert(all.skip(end as int) =~= seq![]);
            assert(have + seq![text@] =~= have.push(text@) + seq![]);
        }
        out.push(text);
        i = end;
    }
    assert(all.skip(i as int) =~= seq![]);
    assert(views(out@) + seq![] =~= views(out@));
    out
}

/// The label of the last part of word `w`; none where the word has no part.
pub open spec fn last_label(word_ids: Seq<Option<u32>>, token_labels: Seq<usize>, w: int) -> usize
    decreases word_ids.len(),
{
    if word_ids.len() == 0 {
        0
    } else if word_ids.last() == Some(w as u32) {
        token_labels[word_ids.len() - 1]
    } else {
        last_label(word_ids.drop_last(), token_labels, w)
    }
}

/// The labels of so many words, given those of their parts.
pub fn word_labels(word_ids: &Vec<Option<u32>>, token_labels: &Vec<usize>, words: usize) -> (out: Vec<
    usize,
>)
    requires
        word_ids@.len() <= token_labels@.len(),
        words <= u32::MAX,
    ensures
        out@.len() == words,
        forall|w: int|
            0 <= w < words ==> #[trigger] out@[w] == last_label(word_ids@, token_labels@, w),
{
    let mut out: Vec<usize> = Vec::new();
    let mut w: usize = 0;
    while w < words
        invariant
            w <= words,
            out@.len() == w,
            forall|v: int| 0 <= v < w ==> #[trigger] out@[v] == 0,
        decreases words - w,
    {
        out.push(0);
        w = w + 1;
    }
    let mut t: usize = 0;
    assert(word_ids@.take(0) =~= seq![]);
    while t < word_ids.len()
        invariant
            t <= word_ids@.len() <= token_labels@.len(),
            words <= u32::MAX,
            out@.len() == words,
            forall|v: int|
                0 <= v < words ==> #[trigger] out@[v] == last_label(
                    word_ids@.take(t as int),
                    token_labels@,
                    v,
                ),
        decreases word_ids.len() - t,
    {
        assert(word_ids@.take(t + 1).drop_last() =~= word_ids@.take(t as int));
        match word_ids[t] {
            Some(id) => {
                let at = id as usize;
                if at < words {
                    out.set(at, token_labels[t]);
                }
            },
            None => {},
        }
        t = t + 1;
    }
    assert(word_ids@.take(word_ids@.len() as int) =~= word_ids@);
    out
}

/// The length of the longest row.
pub open spec fn longest_row(rows: Seq<Vec<u32>>) -> nat
    decreases rows.len(),
{
    if rows.len() == 0 {
        0
    } else {
        let longest = longest_row(rows.drop_last());
        if rows.last()@.len() > longest {
            rows.last()@.len()
        } else {
            longest
        }
    }
}

/// The rows one behind the other, each filled up to the length of the longest.
pub open spec fn padded(rows: Seq<Vec<u32>>, width: nat, pad: u32) -> Seq<u32>
    decreases rows.len(),
{
    if rows.len() == 0 {
        seq![]
    } else {
        padded(rows.drop_last(), width, pad) + Seq::new(
            width,
            |c: int|
                if c < rows.last()@.len() {
                    rows.last()@[c]
                } else {
                    pad
                },
        )
    }
}

fn longest_of(rows: &Vec<Vec<u32>>) -> (n: usize)
    ensures
        n == longest_row(rows@),
{
    let mut n: usize = 0;
    let mut i: usize = 0;
    assert(rows@.take(0) =~= seq![]);
    while i < rows.len()
        invariant
            i <= rows@.len(),
            n == longest_row(rows@.take(i as int)),
        decreases rows.len() - i,
    {
        assert(rows@.take(i + 1).drop_last() =~= rows@.take(i as int));
        if rows[i].len() > n {
            n = rows[i].len();
        }
        i = i + 1;
    }
    assert(rows@.take(rows@.len() as int) =~= rows@);
    n
}

/// The rows of a batch as one block of equal rows, and the length of a row.
pub fn pad_rows(rows: &Vec<Vec<u32>>, pad: u32) -> (r: (Vec<u32>, usize))
    ensures
        r.1 == longest_row(rows@),
        r.0@ == padded(rows@, longest_row(rows@), pad),
{
    let width = longest_of(rows);
    let mut out: Vec<u32> = Vec::new();
    let mut i: usize = 0;
    assert(rows@.take(0) =~= seq![]);
    while i < rows.len()
        invariant
            i <= rows@.len(),
            width == longest_row(rows@),
            out@ == padded(rows@.take(i as int), width as nat, pad),
        decreases rows.len() - i,
    {
        assert(rows@.take(i + 1).drop_last() =~= rows@.take(i as int));
        let row = &rows[i];
        let ghost before = out@;
        let ghost filled = Seq::new(
            width as nat,
            |c: int|
                if c < row@.len() {
                    row@[c]
                } else {
                    pad
                },
        );
        let mut c: usize = 0;
        assert(before + filled.take(0) =~= before);
        while c < width
            invariant
                c <= width,
                filled == Seq::new(
                    width as nat,
                    |c: int|
                        if c < row@.len() {
                            row@[c]
                        } else {
                            pad
                        },
                ),
                out@ == before + filled.take(c as int),
            decreases width - c,
        {
            assert(before + filled.take(c + 1) =~= (before + filled.take(c as int)).push(
                filled[c as int],
            ));
            if c < row.len() {
                out.push(row[c]);
            } else {
                out.push(pad);
            }
            c = c + 1;
        }
        assert(filled.take(width as int) =~= filled);
        i = i + 1;
    }
    assert(rows@.take(rows@.len() as int) =~= rows@);
    (out, width)
}

pub open spec fn restored_chunks(chunks: Seq<Seq<char>>, labels: Seq<Vec<usize>>) -> Seq<Seq<char>> {
    Seq::new(chunks.len(), |i: int| reconstructed(chunks[i], labels[i]@))
}

/// The chunks with their punctuation, joined to one text.
pub fn restored_text(chunks: &Vec<String>, labels: &Vec<Vec<usize>>) -> (out: String)
    requires
        chunks@.len() == labels@.len(),
    ensures
        out@ == join(restored_chunks(views(chunks@), labels@), " "@),
{
    let mut parts: Vec<String> = Vec::new();
    let mut i: usize = 0;
    while i < chunks.len()
        invariant
            i <= chunks@.len() == labels@.len(),
            parts@.len() == i,
            forall|j: int|
                0 <= j < i ==> (#[trigger] parts@[j])@ == reconstructed(chunks@[j]@, labels@[j]@),
        decreases chunks.len() - i,
    {
        parts.push(reconstruct(chunks[i].as_str(), labels[i].as_slice()));
        i = i + 1;
    }
    assert(views(parts@) =~= restored_chunks(views(chunks@), labels@));
    join_texts(&parts, " ")
}

/// A word: characters, none of them a space.
pub open spec fn is_word(w: Seq<char>) -> bool {
    w.len() > 0 && forall|i: int| 0 <= i < w.len() ==> !is_space(#[trigger] w[i])
}

pub open spec fn all_words(ws: Seq<Seq<char>>) -> bool {
    forall|i: int| 0 <= i < ws.len() ==> is_word(#[trigger] ws[i])
}

proof fn lemma_split_words(s: Seq<char>)
    ensures
        all_words(split_words(s)),
    decreases s.len(),
{
    let t = trim_start(s);
    lemma_trim_start_suffix(s);
    if t.len() > 0 {
        lemma_word_len(t);
        let w = word_len(t);
        lemma_split_words(t.skip(w));
        let rest = split_words(t.skip(w));
        assert forall|i: int| 0 <= i < split_words(s).len() implies is_word(
            #[trigger] split_words(s)[i],
        ) by {
            if i > 0 {
                assert(split_words(s)[i] == rest[i - 1]);
            } else {
                assert(split_words(s)[0] == t.take(w));
            }
        }
    }
}

proof fn lemma_word_len_of_word(w: Seq<char>, rest: Seq<char>)
    requires
        forall|i: int| 0 <= i < w.len() ==> !is_space(#[trigger] w[i]),
        rest.len() > 0 ==> is_space(rest[0]),
    ensures
        word_len(w + rest) == w.len(),
    decreases w.len(),
{
    if w.len() > 0 {
        assert((w + rest).drop_first() =~= w.drop_first() + rest);
        assert forall|i: int| 0 <= i < w.drop_first().len() implies !is_space(
            #[trigger] w.drop_first()[i],
        ) by {
            assert(w.drop_first()[i] == w[i + 1]);
        }
        lemma_word_len_of_word(w.drop_first(), rest);
    } else {
        assert(w + rest =~= rest);
    }
}

proof fn lemma_words_join(ws: Seq<Seq<char>>)
    requires
        all_words(ws),
    ensures
        split_words(join(ws, " "@)) == ws,
    decreases ws.len(),
{
    reveal_strlit(" ");
    let text = join(ws, " "@);
    if ws.len() == 0 {
        assert(split_words(text) =~= ws);
    } else if ws.len() == 1 {
        let none = Seq::<char>::empty();
        assert(text == ws[0]);
        assert(ws[0] + none =~= ws[0]);
        assert(is_word(ws[0]));
        lemma_word_len_of_word(ws[0], none);
        assert(trim_start(text) == text);
        assert(text.take(word_len(text)) =~= ws[0]);
        assert(text.skip(word_len(text)) =~= none);
        assert(split_words(none) =~= seq![]);
        assert(split_words(text) =~= ws);
    } else {
        let tail = ws.drop_first();
        assert forall|i: int| 0 <= i < tail.len() implies is_word(#[trigger] tail[i]) by {
            assert(tail[i] == ws[i + 1]);
        }
        lemma_words_join(tail);
        lemma_join_first(ws, " "@);
        let more = " "@ + join(tail, " "@);
        assert(text =~= ws[0] + more);
        assert(is_word(ws[0]));
        lemma_word_len_of_word(ws[0], more);
        assert(text[0] == ws[0][0]);
        assert(trim_start(text) == text);
        assert(text.take(word_len(text)) =~= ws[0]);
        assert(text.skip(word_len(text)) =~= more);
        assert(more.drop_first() =~= join(tail, " "@));
        assert(trim_start(more) == trim_start(join(tail, " "@)));
        assert(split_words(more) == tail);
        assert(split_words(text) =~= ws);
    }
}

proof fn lemma_chunks_keep_words(ws: Seq<Seq<char>>, size: nat)
    requires
        all_words(ws),
        size > 0,
    ensures
        words_of_all(chunks_from(ws, size)) == ws,
    decreases ws.len(),
{
    if ws.len() == 0 {
    } else if ws.len() <= size {
        lemma_words_join(ws);
        let one = seq![join(ws, " "@)];
        assert(one.drop_first() =~= seq![]);
        assert(words_of_all(one.drop_first()) =~= seq![]);
        assert(ws + seq![] =~= ws);
    } else {
        let head = ws.take(size as int);
        let tail = ws.skip(size as int);
        assert forall|i: int| 0 <= i < head.len() implies is_word(#[trigger] head[i]) by {
            assert(head[i] == ws[i]);
        }
        assert forall|i: int| 0 <= i < tail.len() implies is_word(#[trigger] tail[i]) by {
            assert(tail[i] == ws[i + size]);
        }
        lemma_words_join(head);
        lemma_chunks_keep_words(tail, size);
        let later = chunks_from(tail, size);
        assert((seq![join(head, " "@)] + later).drop_first() =~= later);
        assert(head + tail =~= ws);
    }
}

/// Cutting a text into chunks loses no word, adds none and keeps their order.
pub proof fn chunks_keep_all_words(content: Seq<char>)
    ensures
        words_of_all(chunks_from(split_words(content), CHUNK_WORDS as nat)) == split_words(content),
{
    lemma_split_words(content);
    lemma_chunks_keep_words(split_words(content), CHUNK_WORDS as nat);
}

/// What the labels stand for, behind a word: nothing, or one of five marks.
pub proof fn labels_stand_for_marks(label: int)
    ensures
        mark_of(1) == "."@,
        mark_of(2) == ","@,
        mark_of(3) == "?"@,
        mark_of(4) == "-"@,
        mark_of(5) == ":"@,
        label < 1 || label > 5 ==> mark_of(label) == Seq::<char>::empty(),
{
}

/// Every word stays where it stands with the mark of its label behind it. A word has a capital just where
/// it is the first or a full stop or question mark stands behind the word before.
pub proof fn capitals_start_sentences(words: Seq<Seq<char>>, labels: Seq<usize>, i: int)
    requires
        0 <= i < words.len(),
        labels.len() == words.len(),
    ensures
        restored_words(words, labels).len() == words.len(),
        ({
            let out = restored_words(words, labels)[i];
            let mark = mark_of(labels[i] as int);
            let starts = i == 0 || labels[i - 1] == 1 || labels[i - 1] == 3;
            &&& !starts ==> out == words[i] + mark
            &&& starts && words[i].len() > 0 ==> out == upper(words[i][0]) + words[i].skip(1) + mark
            &&& words[i].len() == 0 ==> out == words[i] + mark
        }),
{
    if words[i].len() > 0 {
        assert(words[i].drop_first() =~= words[i].skip(1));
    }
}

/// A word has the label of its last part, and the label 0 where it has no part.
pub proof fn the_last_part_decides(
    word_ids: Seq<Option<u32>>,
    labels: Seq<usize>,
    w: u32,
    t: int,
)
    requires
        word_ids.len() <= labels.len(),
        -1 <= t < word_ids.len(),
        t >= 0 ==> word_ids[t] == Some(w),
        forall|k: int| t < k < word_ids.len() ==> #[trigger] word_ids[k] != Some(w),
    ensures
        t >= 0 ==> last_label(word_ids, labels, w as int) == labels[t],
        t == -1 ==> last_label(word_ids, labels, w as int) == 0,
    decreases word_ids.len(),
{
    if word_ids.len() > 0 && t < word_ids.len() - 1 {
        let rest = word_ids.drop_last();
        assert(word_ids[word_ids.len() - 1] != Some(w));
        assert forall|k: int| t < k < rest.len() implies #[trigger] rest[k] != Some(w) by {
            assert(rest[k] == word_ids[k]);
        }
        the_last_part_decides(rest, labels, w, t);
    }
}

/// No row is longer than the longest, which is as long as one of them.
pub proof fn the_longest_row_is_longest(rows: Seq<Vec<u32>>, r: int)
    requires
        0 <= r < rows.len(),
    ensures
        rows[r]@.len() <= longest_row(rows),
        exists|k: int| 0 <= k < rows.len() && (#[trigger] rows[k])@.len() == longest_row(rows),
    decreases rows.len(),
{
    let rest = rows.drop_last();
    let n = rows.len() - 1;
    assert(rows[n] == rows.last());
    if n > 0 {
        if r < n {
            the_longest_row_is_longest(rest, r);
            assert(rest[r] == rows[r]);
        } else {
            the_longest_row_is_longest(rest, 0);
        }
        if rows.last()@.len() <= longest_row(rest) {
            let k = choose|k: int|
                0 <= k < rest.len() && (#[trigger] rest[k])@.len() == longest_row(rest);
            assert(rows[k] == rest[k]);
        }
    } else {
        assert(longest_row(rest) == 0);
    }
}

/// The block holds the rows one behind the other, each with padding up to the width.
pub proof fn rows_are_padded(rows: Seq<Vec<u32>>, width: nat, pad: u32, r: int, c: int)
    requires
        0 <= r < rows.len(),
        0 <= c < width,
    ensures
        padded(rows, width, pad).len() == rows.len() * width,
        r * width + c < rows.len() * width,
        padded(rows, width, pad)[r * width + c] == (if c < rows[r]@.len() {
            rows[r]@[c]
        } else {
            pad
        }),
    decreases rows.len(),
{
    let rest = rows.drop_last();
    let n = rows.len() as int;
    assert(n * width == (n - 1) * width + width) by (nonlinear_arith);
    if r < n - 1 {
        rows_are_padded(rest, width, pad, r, c);
        assert(rest[r] == rows[r]);
    } else {
        assert((n - 1) * width == r * width) by (nonlinear_arith)
            requires
                r == n - 1,
        ;
        lemma_padded_len(rest, width, pad);
    }
}

proof fn lemma_padded_len(rows: Seq<Vec<u32>>, width: nat, pad: u32)
    ensures
        padded(rows, width, pad).len() == rows.len() * width,
    decreases rows.len(),
{
    let n = rows.len() as int;
    if n > 0 {
        lemma_padded_len(rows.drop_last(), width, pad);
        assert(n * width == (n - 1) * width + width) by (nonlinear_arith);
    } else {
        assert(0 * width == 0) by (nonlinear_arith);
    }
}

/// The first chunk has as many words as the size says, joined by spaces, and the others follow. A chunk
/// has 300 words, and eight are labelled at a time.
pub proof fn chunks_have_one_size(words: Seq<Seq<char>>, size: nat)
    requires
        size > 0,
    ensures
        words.len() == 0 ==> chunks_from(words, size).len() == 0,
        0 < words.len() <= size ==> chunks_from(words, size) == seq![join(words, " "@)],
        words.len() > size ==> chunks_from(words, size)[0] == join(words.take(size as int), " "@)
            && chunks_from(words, size).skip(1) == chunks_from(words.skip(size as int), size),
        CHUNK_WORDS == 300,
        BATCH_SIZE == 8,
{
    if words.len() > size {
        let later = chunks_from(words.skip(size as int), size);
        assert(chunks_from(words, size).skip(1) =~= later);
    }
}

/// A further chunk is restored by its own labels and comes last.
pub proof fn chunks_are_restored_apart(
    chunks: Seq<Seq<char>>,
    labels: Seq<Vec<usize>>,
    chunk: Seq<char>,
    label: Vec<usize>,
)
    requires
        chunks.len() == labels.len(),
    ensures
        restored_chunks(chunks.push(chunk), labels.push(label)) == restored_chunks(chunks, labels).push(
            join(restored_words(split_words(chunk), label@), " "@),
        ),
{
    assert(restored_chunks(chunks.push(chunk), labels.push(label)) =~= restored_chunks(
        chunks,
        labels,
    ).push(reconstructed(chunk, label@)));
}

} // verus!
