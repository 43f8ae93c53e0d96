//! Prose in sentences, or in windows of words where it has next to no punctuation.
use crate::text::{
    is_empty_text, is_space, is_whitespace, lemma_trim_end_prefix, lemma_trim_start_suffix,
    lemma_views_push, lemma_word_len, skip_spaces, slice_text, split_words, to_chars, trim,
    trim_end, trim_start, trim_text, views, word_count, word_len, words_stand_between_spaces,
};
use vstd::prelude::*;

verus! {

/// The words of a window where sentences cannot be told apart.
pub const FALLBACK_WINDOW_WORDS: usize = 20;

pub open spec fn is_mark(c: char) -> bool {
    c == '.' || c == '!' || c == '?'
}

pub open spec fn count_marks(s: Seq<char>) -> nat
    decreases s.len(),
{
    if s.len() == 0 {
        0
    } else {
        count_marks(s.drop_last()) + (if is_mark(s.last()) {
            1nat
        } else {
            0
        })
    }
}

/// The distance of the numbers of 24 significant bits around `n`.
pub open spec fn bit_unit(n: nat) -> nat
    decreases n,
{
    if n < 0x100_0000 {
        1
    } else {
        2 * bit_unit(n / 2)
    }
}

/// The number of 24 significant bits that is nearest to `n`; of two, the even one.
pub open spec fn rounded(n: nat) -> nat {
    let unit = bit_unit(n);
    let q = n / unit;
    let r = n % unit;
    if 2 * r < unit || (2 * r == unit && q % 2 == 0) {
        q * unit
    } else {
        (q + 1) * unit
    }
}

/// Fewer than one mark on a hundred words, computed in single precision: the quotient of the two
/// counts, times a hundred, is below one. It is so where the quotient lies below the midpoint
/// under the number of that precision that is closest to a hundredth.
pub open spec fn unpunctuated(s: Seq<char>) -> bool {
    let words = split_words(s).len();
    words > 0 && rounded(count_marks(s)) * 0x8000_0000 < 21_474_835 * rounded(words)
}

fn bit_unit_of(n: u64) -> (u: u64)
    ensures
        u == bit_unit(n as nat),
        0 < u,
        u <= n || u == 1,
        n >= 0x100_0000 ==> u <= n / 0x80_0000,
    decreases n,
{
    if n < 0x100_0000 {
        1
    } else {
        2 * bit_unit_of(n / 2)
    }
}

fn round_count(n: u64) -> (r: u128)
    ensures
        r == rounded(n as nat),
        r <= 0x2_0000_0000_0000_0000,
{
    let unit = bit_unit_of(n);
    let q = n / unit;
    let r = n % unit;
    assert(0 <= q * unit <= n) by (nonlinear_arith)
        requires
            q == n as int / unit as int,
            unit > 0,
    ;
    assert((q + 1) * unit == q * unit + unit) by (nonlinear_arith);
    let twice: u128 = 2 * (r as u128);
    if twice < unit as u128 || (twice == unit as u128 && q % 2 == 0) {
        (q as u128) * (unit as u128)
    } else {
        (q as u128 + 1) * (unit as u128)
    }
}

fn marks_in(v: &Vec<char>) -> (n: usize)
    ensures
        n == count_marks(v@),
{
    let mut n: usize = 0;
    let mut i: usize = 0;
    assert(v@.take(0) =~= seq![]);
    while i < v.len()
        invariant
            i <= v@.len(),
            n <= i,
            n == count_marks(v@.take(i as int)),
        decreases v.len() - i,
    {
        assert(v@.take(i + 1).drop_last() =~= v@.take(i as int));
        if v[i] == '.' || v[i] == '!' || v[i] == '?' {
            n = n + 1;
        }
        i = i + 1;
    }
    assert(v@.take(v@.len() as int) =~= v@);
    n
}

pub fn is_effectively_unpunctuated(content: &str) -> (b: bool)
    ensures
        b == unpunctuated(content@),
{
    let words = word_count(content);
    if words == 0 {
        return false;
    }
    let v = to_chars(content);
    let marks = marks_in(&v);
    round_count(marks as u64) * 0x8000_0000 < 21_474_835 * round_count(words as u64)
}

/// The sentences from `start` on, where no sentence ends before `at`. One ends with a mark that a
/// space follows; the rest is the last one.
pub open spec fn sentences_from(s: Seq<char>, start: int, at: int) -> Seq<Seq<char>>
    decreases s.len() - at,
{
    if at + 1 >= s.len() {
        let tail = trim(s.skip(start));
        if tail.len() == 0 {
            seq![]
        } else {
            seq![tail]
        }
    } else if is_mark(s[at]) && is_space(s[at + 1]) {
        seq![trim(s.subrange(start, at + 1))] + sentences_from(s, at + 1, at + 1)
    } else {
        sentences_from(s, start, at + 1)
    }
}

pub open spec fn punctuated_sentences(s: Seq<char>) -> Seq<Seq<char>> {
    sentences_from(s, 0, 0)
}

pub fn split_on_punctuation(content: &str) -> (out: Vec<String>)
    ensures
        views(out@) == punctuated_sentences(content@),
{
    broadcast use lemma_views_push;

    let v = to_chars(content);
    let total: usize = v.len();
    let mut out: Vec<String> = Vec::new();
    let mut start: usize = 0;
    let mut at: usize = 0;
    let ghost all = punctuated_sentences(content@);
    assert(views(out@) + all =~= all);
    while at < total && at + 1 < total
        invariant
            total == v@.len(),
            v@ == content@,
            start <= at <= total,
            all == views(out@) + sentences_from(v@, start as int, at as int),
        decreases total - at,
    {
        let c = v[at];
        if (c == '.' || c == '!' || c == '?') && is_whitespace(v[at + 1]) {
            let piece = slice_text(&v, start, at + 1);
            let sentence = trim_text(piece.as_str());
            let ghost have = views(out@);
            assert(have + (seq![sentence@] + sentences_from(v@, at + 1, at + 1))
                =~= have.push(sentence@) + sentences_from(v@, at + 1, at + 1));
            out.push(sentence);
            start = at + 1;
        }
        at = at + 1;
    }
    let piece = slice_text(&v, start, total);
    assert(piece@ =~= v@.skip(start as int));
    let tail = trim_text(piece.as_str());
    if !is_empty_text(tail.as_str()) {
        assert(views(out@) + seq![tail@] =~= views(out@).push(tail@));
        out.push(tail);
    } else {
        assert(views(out@) + seq![] =~= views(out@));
    }
    out
}

/// Where the `n`th word of a text that starts with a word ends, or the last one where there are
/// fewer.
pub open spec fn words_end(t: Seq<char>, n: nat) -> int
    decreases n,
{
    let w = word_len(t);
    let rest = trim_start(t.skip(w));
    if n <= 1 || rest.len() == 0 {
        w
    } else {
        t.len() - rest.len() + words_end(rest, (n - 1) as nat)
    }
}

/// The text in pieces of so many words, each from its first word to its last.
pub open spec fn word_windows(s: Seq<char>, window: nat) -> Seq<Seq<char>>
    decreases s.len(),
    via word_windows_decreases
{
    let t = trim_start(s);
    if t.len() == 0 {
        seq![]
    } else {
        let end = words_end(t, window);
        seq![t.take(end)] + word_windows(t.skip(end), window)
    }
}

#[via_fn]
proof fn word_windows_decreases(s: Seq<char>, window: nat) {
    lemma_trim_start_suffix(s);
    lemma_words_end(trim_start(s), window);
}

proof fn lemma_words_end(t: Seq<char>, n: nat)
    requires
        t.len() > 0 ==> !is_space(t[0]),
    ensures
        0 <= words_end(t, n) <= t.len(),
        t.len() > 0 ==> words_end(t, n) > 0 && !is_space(t[words_end(t, n) - 1]),
        words_end(t, n) < t.len() ==> is_space(t[words_end(t, n)]),
    decreases n,
{
    let w = word_len(t);
    lemma_word_len(t);
    let rest = trim_start(t.skip(w));
    lemma_trim_start_suffix(t.skip(w));
    assert(t.len() > 0 ==> w > 0);
    if !(n <= 1 || rest.len() == 0) {
        lemma_words_end(rest, (n - 1) as nat);
        let k = t.len() - rest.len();
        assert(rest =~= t.skip(k));
        let end = words_end(t, n);
        assert(rest[end - k - 1] == t[end - 1]);
        if end < t.len() {
            assert(rest[end - k] == t[end]);
        }
    }
}

fn end_of_word(v: &Vec<char>, start: usize) -> (end: usize)
    requires
        start <= v@.len(),
    ensures
        start <= end <= v@.len(),
        end - start == word_len(v@.skip(start as int)),
{
    let mut end: usize = start;
    while end < v.len() && !is_whitespace(v[end])
        invariant
            start <= end <= v@.len(),
            end - start + word_len(v@.skip(end as int)) == word_len(v@.skip(start as int)),
        decreases v.len() - end,
    {
        assert(v@.skip(end as int).drop_first() =~= v@.skip(end + 1));
        end = end + 1;
    }
    end
}

fn end_of_words(v: &Vec<char>, start: usize, n: usize) -> (end: usize)
    requires
        start <= v@.len(),
    ensures
        start <= end <= v@.len(),
        end - start == words_end(v@.skip(start as int), n as nat),
{
    let mut at: usize = start;
    let mut left: usize = n;
    loop
        invariant
            start <= at <= v@.len(),
            at - start + words_end(v@.skip(at as int), left as nat) == words_end(
                v@.skip(start as int),
                n as nat,
            ),
        decreases left,
    {
        let ghost t = v@.skip(at as int);
        let end = end_of_word(v, at);
        assert(t.skip(end - at) =~= v@.skip(end as int));
        if left <= 1 {
            return end;
        }
        let next = skip_spaces(v, end);
        if next == v.len() {
            return end;
        }
        assert(v@.skip(next as int).len() == v@.len() - next);
        at = next;
        left = left - 1;
    }
}

pub fn split_by_word_window(content: &str, window: usize) -> (out: Vec<String>)
    requires
        window > 0,
    ensures
        views(out@) == word_windows(content@, window as nat),
{
    broadcast use lemma_views_push;

    let v = to_chars(content);
    let mut out: Vec<String> = Vec::new();
    let mut pos: usize = 0;
    let ghost all = word_windows(content@, window as nat);
    assert(v@.skip(0) =~= v@);
    assert(views(out@) + all =~= all);
    loop
        invariant
            pos <= v@.len(),
            all == views(out@) + word_windows(v@.skip(pos as int), window as nat),
        ensures
            all == views(out@),
        decreases v.len() - pos,
    {
        let start = skip_spaces(&v, pos);
        let ghost t = v@.skip(start as int);
        if start == v.len() {
            assert(t.len() == 0);
            assert(views(out@) + seq![] =~= views(out@));
            break;
        }
        let end = end_of_words(&v, start, window);
        proof {
            lemma_words_end(t, window as nat);
        }
        let piece = slice_text(&v, start, end);
        assert(piece@ =~= t.take(end - start));
        assert(t.skip(end - start) =~= v@.skip(end as int));
        let ghost have = views(out@);
        let ghost later = word_windows(v@.skip(end as int), window as nat);
        assert(have + (seq![piece@] + later) =~= have.push(piece@) + later);
        out.push(piece);
        pos = end;
    }
    out
}

pub open spec fn sentences_of(s: Seq<char>) -> Seq<Seq<char>> {
    if unpunctuated(s) {
        word_windows(s, FALLBACK_WINDOW_WORDS as nat)
    } else {
        punctuated_sentences(s)
    }
}

pub fn split_sentences(content: &str) -> (out: Vec<String>)
    ensures
        views(out@) == sentences_of(content@),
{
    if is_effectively_unpunctuated(content) {
        split_by_word_window(content, FALLBACK_WINDOW_WORDS)
    } else {
        split_on_punctuation(content)
    }
}

/// The words of all pieces in order.
pub open spec fn words_of_all(pieces: Seq<Seq<char>>) -> Seq<Seq<char>>
    decreases pieces.len(),
{
    if pieces.len() == 0 {
        seq![]
    } else {
        split_words(pieces[0]) + words_of_all(pieces.drop_first())
    }
}

proof fn lemma_word_len_append(a: Seq<char>, b: Seq<char>)
    requires
        b.len() > 0 ==> is_space(b[0]),
    ensures
        word_len(a + b) == word_len(a),
    decreases a.len(),
{
    if a.len() > 0 {
        assert((a + b).drop_first() =~= a.drop_first() + b);
        lemma_word_len_append(a.drop_first(), b);
    } else {
        assert(a + b =~= b);
    }
}

proof fn lemma_trim_start_append(a: Seq<char>, b: Seq<char>)
    ensures
        trim_start(a).len() > 0 ==> trim_start(a + b) == trim_start(a) + b,
        trim_start(a).len() == 0 ==> trim_start(a + b) == trim_start(b),
    decreases a.len(),
{
    if a.len() == 0 {
        assert(a + b =~= b);
    } else if is_space(a[0]) {
        assert((a + b).drop_first() =~= a.drop_first() + b);
        lemma_trim_start_append(a.drop_first(), b);
    }
}

/// Words do not run over a place where a space follows.
proof fn lemma_words_append(a: Seq<char>, b: Seq<char>)
    requires
        b.len() > 0 ==> is_space(b[0]),
    ensures
        split_words(a + b) == split_words(a) + split_words(b),
    decreases a.len(),
{
    let t = trim_start(a);
    lemma_trim_start_suffix(a);
    lemma_trim_start_append(a, b);
    if t.len() > 0 {
        lemma_word_len(t);
        let w = word_len(t);
        lemma_word_len_append(t, b);
        assert((t + b).take(w) =~= t.take(w));
        assert((t + b).skip(w) =~= t.skip(w) + b);
        lemma_words_append(t.skip(w), b);
        assert(seq![t.take(w)] + (split_words(t.skip(w)) + split_words(b)) =~= (seq![t.take(w)]
            + split_words(t.skip(w))) + split_words(b));
    } else {
        assert(split_words(a) + split_words(b) =~= split_words(b));
    }
}

proof fn lemma_spaces_hold_no_words(s: Seq<char>)
    requires
        forall|i: int| 0 <= i < s.len() ==> is_space(#[trigger] s[i]),
    ensures
        split_words(s) == Seq::<Seq<char>>::empty(),
{
    lemma_trim_start_suffix(s);
    if trim_start(s).len() > 0 {
        let k = s.len() - trim_start(s).len();
        assert(trim_start(s)[0] == s[k]);
    }
}

proof fn lemma_trim_end_spaces(s: Seq<char>, j: int)
    requires
        trim_end(s).len() <= j < s.len(),
    ensures
        is_space(s[j]),
    decreases s.len(),
{
    if s.len() > 0 && is_space(s.last()) && j < s.len() - 1 {
        lemma_trim_end_spaces(s.drop_last(), j);
        assert(s.drop_last()[j] == s[j]);
    }
}

proof fn lemma_trim_keeps_words(s: Seq<char>)
    ensures
        split_words(trim(s)) == split_words(s),
{
    let t = trim_start(s);
    lemma_trim_start_suffix(s);
    lemma_trim_identity_start(t);
    assert(split_words(t) == split_words(s));
    lemma_trim_end_prefix(t);
    let e = trim_end(t);
    let spaces = t.skip(e.len() as int);
    assert(t =~= e + spaces);
    assert forall|i: int| 0 <= i < spaces.len() implies is_space(#[trigger] spaces[i]) by {
        lemma_trim_end_spaces(t, e.len() + i);
    }
    lemma_words_append(e, spaces);
    lemma_spaces_hold_no_words(spaces);
    assert(split_words(e) + Seq::<Seq<char>>::empty() =~= split_words(e));
}

proof fn lemma_trim_identity_start(t: Seq<char>)
    requires
        t.len() > 0 ==> !is_space(t[0]),
    ensures
        trim_start(t) == t,
{
}

/// Windows of words lose no word, add none and keep their order, however wide they are.
pub proof fn windows_keep_all_words(s: Seq<char>, window: nat)
    ensures
        words_of_all(word_windows(s, window)) == split_words(s),
    decreases s.len(),
{
    let t = trim_start(s);
    lemma_trim_start_suffix(s);
    lemma_trim_identity_start(t);
    assert(split_words(t) == split_words(s));
    if t.len() > 0 {
        lemma_words_end(t, window);
        let end = words_end(t, window);
        windows_keep_all_words(t.skip(end), window);
        assert(t =~= t.take(end) + t.skip(end));
        lemma_words_append(t.take(end), t.skip(end));
        let later = word_windows(t.skip(end), window);
        assert((seq![t.take(end)] + later).drop_first() =~= later);
    }
}

proof fn lemma_sentences_keep_words(s: Seq<char>, start: int, at: int)
    requires
        0 <= start <= at,
        start <= s.len(),
    ensures
        words_of_all(sentences_from(s, start, at)) == split_words(s.skip(start)),
    decreases s.len() - at,
{
    if at + 1 >= s.len() {
        let rest = s.skip(start);
        lemma_trim_keeps_words(rest);
        if trim(rest).len() > 0 {
            let last = seq![trim(rest)];
            assert(last.drop_first() =~= seq![]);
            assert(words_of_all(last.drop_first()) =~= seq![]);
            assert(split_words(trim(rest)) + seq![] =~= split_words(trim(rest)));
        } else {
            lemma_spaces_hold_no_words(trim(rest));
        }
    } else if is_mark(s[at]) && is_space(s[at + 1]) {
        let piece = s.subrange(start, at + 1);
        let rest = s.skip(at + 1);
        lemma_sentences_keep_words(s, at + 1, at + 1);
        assert(s.skip(start) =~= piece + rest);
        lemma_words_append(piece, rest);
        lemma_trim_keeps_words(piece);
        let later = sentences_from(s, at + 1, at + 1);
        assert((seq![trim(piece)] + later).drop_first() =~= later);
    } else {
        lemma_sentences_keep_words(s, start, at + 1);
    }
}

/// Splitting a text loses no word, adds none and keeps their order.
pub proof fn splitting_keeps_all_words(s: Seq<char>)
    ensures
        words_of_all(sentences_of(s)) == split_words(s),
{
    windows_keep_all_words(s, FALLBACK_WINDOW_WORDS as nat);
    lemma_sentences_keep_words(s, 0, 0);
    assert(s.skip(0) =~= s);
}

/// The character ends a sentence where a space follows.
pub open spec fn ends_sentences(c: char) -> bool {
    c == '.' || c == '!' || c == '?'
}

proof fn lemma_shifted(s: Seq<char>, k: int, start: int, at: int)
    requires
        0 <= k <= start <= at,
        start <= s.len(),
    ensures
        sentences_from(s, start, at) == sentences_from(s.skip(k), start - k, at - k),
    decreases s.len() - at,
{
    let t = s.skip(k);
    assert(t.skip(start - k) =~= s.skip(start));
    if at + 1 < s.len() {
        assert(t[at - k] == s[at] && t[at - k + 1] == s[at + 1]);
        assert(t.subrange(start - k, at - k + 1) =~= s.subrange(start, at + 1));
        if is_mark(s[at]) && is_space(s[at + 1]) {
            lemma_shifted(s, k, at + 1, at + 1);
        } else {
            lemma_shifted(s, k, start, at + 1);
        }
    }
}

proof fn lemma_first_end(s: Seq<char>, start: int, at: int, end: int)
    requires
        0 <= start <= at <= end,
        end + 1 < s.len(),
        is_mark(s[end]),
        is_space(s[end + 1]),
        forall|i: int| at <= i < end ==> !(is_mark(#[trigger] s[i]) && is_space(s[i + 1])),
    ensures
        sentences_from(s, start, at) == seq![trim(s.subrange(start, end + 1))] + sentences_from(
            s,
            end + 1,
            end + 1,
        ),
    decreases end - at,
{
    if at < end {
        assert(!(is_mark(s[at]) && is_space(s[at + 1])));
        lemma_first_end(s, start, at + 1, end);
    }
}

proof fn lemma_no_end(s: Seq<char>, start: int, at: int)
    requires
        0 <= start <= at,
        start <= s.len(),
        forall|i: int| at <= i < s.len() - 1 ==> !(is_mark(#[trigger] s[i]) && is_space(s[i + 1])),
    ensures
        sentences_from(s, start, at) == (if trim(s.skip(start)).len() == 0 {
            seq![]
        } else {
            seq![trim(s.skip(start))]
        }),
    decreases s.len() - at,
{
    if at + 1 < s.len() {
        assert(!(is_mark(s[at]) && is_space(s[at + 1])));
        lemma_no_end(s, start, at + 1);
    }
}

/// The first sentence ends with the first mark that a space follows. A text without such a mark is one
/// sentence.
pub proof fn marks_end_sentences(s: Seq<char>, end: int)
    requires
        0 <= end <= s.len(),
        forall|i: int|
            0 <= i < end && i + 1 < s.len() ==> !(ends_sentences(#[trigger] s[i]) && is_space(s[i + 1])),
    ensures
        end + 1 < s.len() && ends_sentences(s[end]) && is_space(s[end + 1]) ==> punctuated_sentences(s)
            == seq![trim(s.take(end + 1))] + punctuated_sentences(s.skip(end + 1)),
        end == s.len() && trim(s).len() > 0 ==> punctuated_sentences(s) == seq![trim(s)],
        end == s.len() && trim(s).len() == 0 ==> punctuated_sentences(s) == Seq::<Seq<char>>::empty(),
{
    assert forall|i: int| 0 <= i < end && i + 1 < s.len() implies !(is_mark(#[trigger] s[i]) && is_space(
        s[i + 1],
    )) by {
        assert(!(ends_sentences(s[i]) && is_space(s[i + 1])));
    }
    assert(s.skip(0) =~= s);
    if end + 1 < s.len() && ends_sentences(s[end]) && is_space(s[end + 1]) {
        lemma_first_end(s, 0, 0, end);
        lemma_shifted(s, end + 1, end + 1, end + 1);
        assert(s.subrange(0, end + 1) =~= s.take(end + 1));
    }
    if end == s.len() {
        lemma_no_end(s, 0, 0);
    }
}

proof fn lemma_marks_filtered(s: Seq<char>)
    ensures
        count_marks(s) == s.filter(|c: char| ends_sentences(c)).len(),
        count_marks(s) <= s.len(),
    decreases s.len(),
{
    reveal(Seq::filter);
    if s.len() > 0 {
        lemma_marks_filtered(s.drop_last());
    }
}

/// A text of up to fourteen million words has next to no punctuation just where it has words, and fewer
/// than one mark to a hundred of them. Then it is cut into windows of twenty words, and else at its
/// marks.
pub proof fn few_marks_are_none(s: Seq<char>)
    requires
        split_words(s).len() <= 14_000_000,
    ensures
        ({
            let words = split_words(s).len();
            let marks = s.filter(|c: char| ends_sentences(c)).len();
            &&& marks <= words ==> (unpunctuated(s) <==> 100 * marks < words)
            &&& unpunctuated(s) ==> words > 0
            &&& unpunctuated(s) ==> sentences_of(s) == word_windows(s, 20)
            &&& !unpunctuated(s) ==> sentences_of(s) == punctuated_sentences(s)
        }),
{
    let words = split_words(s).len();
    let marks = count_marks(s);
    lemma_marks_filtered(s);
    lemma_small(words);
    if marks <= words {
        lemma_small(marks);
    }
}

proof fn lemma_small(n: nat)
    requires
        n < 0x100_0000,
    ensures
        rounded(n) == n,
{
    let unit = bit_unit(n);
    assert(unit == 1);
    let q = n / unit;
    assert(q == n && n % unit == 0);
    assert(q * unit == q) by (nonlinear_arith)
        requires
            unit == 1,
    ;
}

proof fn lemma_gap(gap: Seq<char>, rest: Seq<char>)
    requires
        forall|i: int| 0 <= i < gap.len() ==> is_space(#[trigger] gap[i]),
        rest.len() > 0,
        !is_space(rest[0]),
    ensures
        trim_start(gap + rest) == rest,
        split_words(gap + rest) == split_words(rest),
    decreases gap.len(),
{
    let all = gap + rest;
    if gap.len() > 0 {
        let less = gap.drop_first();
        assert forall|i: int| 0 <= i < less.len() implies is_space(#[trigger] less[i]) by {
            assert(less[i] == gap[i + 1]);
        }
        lemma_gap(less, rest);
        assert(is_space(gap[0]));
        assert(all[0] == gap[0]);
        assert(all.drop_first() =~= less + rest);
    } else {
        assert(all =~= rest);
    }
    assert(trim_start(rest) == rest);
}

proof fn lemma_window_words(t: Seq<char>, n: nat)
    requires
        t.len() > 0,
        !is_space(t[0]),
        n >= 1,
    ensures
        ({
            let count = if n < split_words(t).len() {
                n as int
            } else {
                split_words(t).len() as int
            };
            split_words(t.take(words_end(t, n))) == split_words(t).take(count)
        }),
    decreases n,
{
    let w = word_len(t);
    let word = t.take(w);
    let after = t.skip(w);
    let rest = trim_start(after);
    let end = words_end(t, n);
    lemma_word_len(t);
    lemma_words_end(t, n);
    lemma_trim_start_suffix(after);
    assert(t =~= Seq::<char>::empty() + word + after);
    words_stand_between_spaces(seq![], word, after);
    let piece = t.take(end);
    if n <= 1 || rest.len() == 0 {
        assert(piece =~= Seq::<char>::empty() + word + Seq::<char>::empty());
        words_stand_between_spaces(seq![], word, seq![]);
        assert(split_words(piece) == seq![word] + split_words(Seq::<char>::empty()));
        assert(split_words(Seq::<char>::empty()) =~= Seq::<Seq<char>>::empty());
        if rest.len() == 0 {
            assert(split_words(after) =~= Seq::<Seq<char>>::empty());
        }
        assert(split_words(piece) =~= split_words(t).take(1));
    } else {
        let m = (n - 1) as nat;
        lemma_window_words(rest, m);
        lemma_words_end(rest, m);
        let g = after.len() - rest.len();
        let gap = after.take(g);
        assert(after =~= gap + rest);
        assert forall|i: int| 0 <= i < gap.len() implies is_space(#[trigger] gap[i]) by {
            assert(gap[i] == after[i]);
        }
        lemma_gap(gap, rest);
        let head = rest.take(words_end(rest, m));
        assert(head[0] == rest[0]);
        lemma_gap(gap, head);
        assert(piece =~= Seq::<char>::empty() + word + (gap + head));
        assert(gap.len() > 0) by {
            if gap.len() == 0 {
                assert(after[0] == rest[0]);
            }
        }
        assert((gap + head)[0] == gap[0]);
        words_stand_between_spaces(seq![], word, gap + head);
        let count = if n < split_words(t).len() {
            n as int
        } else {
            split_words(t).len() as int
        };
        assert(split_words(t) == seq![word] + split_words(rest));
        assert(split_words(piece) == seq![word] + split_words(head));
        assert(split_words(piece) =~= split_words(t).take(count));
    }
}

/// The first window has as many words as the width says, or all where there are no more.
pub proof fn windows_have_one_width(s: Seq<char>, window: nat)
    requires
        window >= 1,
        split_words(s).len() > 0,
    ensures
        word_windows(s, window).len() > 0,
        split_words(word_windows(s, window)[0]) == split_words(s).take(
            if window < split_words(s).len() {
                window as int
            } else {
                split_words(s).len() as int
            },
        ),
        split_words(s).len() <= window ==> word_windows(s, window).len() == 1,
{
    let t = trim_start(s);
    lemma_trim_start_suffix(s);
    lemma_trim_identity_start(t);
    assert(split_words(t) == split_words(s));
    lemma_window_words(t, window);
    lemma_words_end(t, window);
    let end = words_end(t, window);
    windows_keep_all_words(t.skip(end), window);
    lemma_words_append(t.take(end), t.skip(end));
    assert(t =~= t.take(end) + t.skip(end));
    if split_words(s).len() <= window {
        assert(split_words(t).take(split_words(t).len() as int) =~= split_words(t));
        assert(split_words(t.skip(end)).len() == 0);
        if trim_start(t.skip(end)).len() > 0 {
            assert(split_words(t.skip(end)).len() > 0);
        }
        assert(word_windows(t.skip(end), window) =~= Seq::<Seq<char>>::empty());
        assert(word_windows(s, window) =~= seq![t.take(end)]);
    }
}

} // verus!
