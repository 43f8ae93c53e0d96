//! Base64 data, which says nothing to a reader, becomes a note of its size.
use crate::patterns::{
    holds_blob, is_blob, is_blob_span, is_data_uri_at, long_spans, no_blob_missed, ordered_spans,
    plain_spans, regex_find_iter, spans_of, touched, Pattern,
};
use crate::text::{
    byte_len, bytes_in, copy_str, dec, decimal_usize, is_digit, lemma_byte_len_add, lemma_dec,
    lemma_size_dec_len, slice_text, to_chars,
};
use vstd::prelude::*;

verus! {

pub open spec fn blob_note(bytes: nat) -> Seq<char> {
    "[... squishi pruned: base64 blob removed, "@ + dec(bytes) + " chars ...]"@
}

/// The text from `from` on, with each of the spans replaced by a note of its size.
pub open spec fn replaced(text: Seq<char>, spans: Seq<(int, int)>, from: int) -> Seq<char>
    decreases spans.len(),
{
    if spans.len() == 0 {
        text.skip(from)
    } else {
        let (start, end) = spans[0];
        text.subrange(from, start) + blob_note(byte_len(text.subrange(start, end))) + replaced(
            text,
            spans.drop_first(),
            end,
        )
    }
}

/// The text with what the pattern matches replaced by notes.
pub open spec fn without_matches(p: Pattern, text: Seq<char>) -> Seq<char> {
    replaced(text, p.spans_in(text), 0)
}

/// The spans are pieces of encoded data in the text, one after the other.
pub open spec fn disjoint_blobs(p: Pattern, text: Seq<char>, spans: Seq<(int, int)>) -> bool {
    &&& forall|k: int|
        0 <= k < spans.len() ==> is_blob_span(p, text, (#[trigger] spans[k]).0, spans[k].1) && 0
            <= spans[k].0 <= spans[k].1 <= text.len()
    &&& forall|i: int, j: int|
        0 <= i < j < spans.len() ==> (#[trigger] spans[i]).1 <= (#[trigger] spans[j]).0
}

pub open spec fn is_quote_mark(c: char) -> bool {
    c == '"' || c == '\\'
}

/// What tells the strings of a JSON text apart from the rest: its quotes and backslashes, in order.
pub open spec fn quote_marks(s: Seq<char>) -> Seq<char> {
    s.filter(|c: char| is_quote_mark(c))
}

fn note(bytes: usize) -> (s: String)
    ensures
        s@ == blob_note(bytes as nat),
{
    let mut s = copy_str("[... squishi pruned: base64 blob removed, ");
    let count = decimal_usize(bytes);
    s.append(count.as_str());
    s.append(" chars ...]");
    s
}

/// Spans of at least twenty characters are few.
proof fn lemma_few_spans(v: Seq<(usize, usize)>, len: nat, k: int)
    requires
        ordered_spans(v, len),
        long_spans(v),
        0 <= k <= v.len(),
    ensures
        k > 0 ==> 20 * k <= v[k - 1].1,
        20 * k <= len,
    decreases k,
{
    if k > 0 {
        lemma_few_spans(v, len, k - 1);
        assert(v[k - 1].0 + 20 <= v[k - 1].1);
        if k > 1 {
            assert(v[k - 2].1 <= v[k - 1].0);
        }
    }
}

proof fn lemma_no_marks(s: Seq<char>)
    requires
        forall|i: int| 0 <= i < s.len() ==> !is_quote_mark(#[trigger] s[i]),
    ensures
        quote_marks(s) == Seq::<char>::empty(),
    decreases s.len(),
{
    reveal(Seq::filter);
    if s.len() > 0 {
        lemma_no_marks(s.drop_last());
        assert(!is_quote_mark(s[s.len() - 1]));
    }
}

proof fn lemma_marks_add(a: Seq<char>, b: Seq<char>)
    ensures
        quote_marks(a + b) == quote_marks(a) + quote_marks(b),
{
    Seq::filter_distributes_over_add(a, b, |c: char| is_quote_mark(c));
}

/// A note has no quotes and no backslashes.
pub proof fn notes_are_plain(bytes: nat)
    ensures
        quote_marks(blob_note(bytes)) == Seq::<char>::empty(),
{
    reveal_strlit("[... squishi pruned: base64 blob removed, ");
    reveal_strlit(" chars ...]");
    lemma_dec(bytes);
    let d = dec(bytes);
    assert forall|i: int| 0 <= i < d.len() implies !is_quote_mark(#[trigger] d[i]) by {
        assert(is_digit(d[i]));
    }
    lemma_no_marks("[... squishi pruned: base64 blob removed, "@);
    lemma_no_marks(d);
    lemma_no_marks(" chars ...]"@);
    lemma_marks_add("[... squishi pruned: base64 blob removed, "@, d);
    lemma_marks_add("[... squishi pruned: base64 blob removed, "@ + d, " chars ...]"@);
}

proof fn lemma_marks_stay(text: Seq<char>, spans: Seq<(usize, usize)>, from: int)
    requires
        ordered_spans(spans, text.len()),
        plain_spans(spans, text),
        0 <= from <= text.len(),
        spans.len() > 0 ==> from <= spans[0].0,
    ensures
        quote_marks(replaced(text, spans_of(spans), from)) == quote_marks(text.skip(from)),
    decreases spans.len(),
{
    if spans.len() > 0 {
        let (start, end) = (spans[0].0 as int, spans[0].1 as int);
        let rest = spans.drop_first();
        let blob = text.subrange(start, end);
        let head = text.subrange(from, start);
        let note = blob_note(byte_len(blob));
        let tail = replaced(text, spans_of(rest), end);
        assert(spans_of(spans).drop_first() =~= spans_of(rest));
        lemma_spans_after(text, spans);
        assert forall|i: int, j: int|
            0 <= i < rest.len() && (#[trigger] rest[i]).0 <= j < rest[i].1 implies (#[trigger] text[j])
            != '"' && text[j] != '\\' by {
            assert(rest[i] == spans[i + 1]);
        }
        lemma_marks_stay(text, rest, end);
        assert forall|i: int| 0 <= i < blob.len() implies !is_quote_mark(#[trigger] blob[i]) by {
            assert(blob[i] == text[start + i]);
        }
        lemma_no_marks(blob);
        notes_are_plain(byte_len(blob));
        lemma_marks_add(head, note);
        lemma_marks_add(head + note, tail);
        lemma_marks_add(head, blob);
        lemma_marks_add(head + blob, text.skip(end));
        assert(head + blob + text.skip(end) =~= text.skip(from));
    }
}

/// The characters of encoded data: no brackets and no blanks, of which a note has some.
spec fn is_blob_char(c: char) -> bool {
    c != '[' && c != ']' && c != ' '
}

proof fn lemma_blob(p: Pattern, s: Seq<char>)
    requires
        is_blob(p, s),
    ensures
        s.len() >= 34,
        forall|i: int| 0 <= i < s.len() ==> is_blob_char(#[trigger] s[i]),
{
    if p == Pattern::DataUri {
        let m = choose|m: int| #[trigger] is_data_uri_at(s, m);
        reveal_strlit("data:");
        reveal_strlit(";base64,");
        assert forall|i: int| 0 <= i < s.len() implies is_blob_char(#[trigger] s[i]) by {
            if i < 5 {
                assert(s.take(5)[i] == s[i]);
            } else if m <= i < m + 8 {
                assert(s.subrange(m, m + 8)[i - m] == s[i]);
            }
        }
    }
}

/// No part of a note is encoded data.
proof fn lemma_note_holds_no_blob(p: Pattern, bytes: nat, i: int, j: int)
    requires
        bytes <= usize::MAX,
        0 <= i < j <= blob_note(bytes).len(),
    ensures
        !is_blob(p, blob_note(bytes).subrange(i, j)),
{
    let note = blob_note(bytes);
    let part = note.subrange(i, j);
    let d = dec(bytes).len() as int;
    reveal_strlit("[... squishi pruned: base64 blob removed, ");
    reveal_strlit(" chars ...]");
    lemma_size_dec_len(bytes);
    if is_blob(p, part) {
        lemma_blob(p, part);
        assert forall|k: int| i <= k < j implies is_blob_char(#[trigger] note[k]) by {
            assert(part[k - i] == note[k]);
        }
        assert(note[4] == ' ' && note[12] == ' ' && note[20] == ' ' && note[27] == ' ');
        assert(note[32] == ' ' && note[41] == ' ');
        assert(note[42 + d] == ' ');
        assert(note.len() == 53 + d);
    }
}

proof fn lemma_note_ends(bytes: nat)
    ensures
        blob_note(bytes).len() > 0,
        blob_note(bytes)[0] == '[',
        blob_note(bytes).last() == ']',
{
    reveal_strlit("[... squishi pruned: base64 blob removed, ");
    reveal_strlit(" chars ...]");
}

proof fn lemma_part_size(text: Seq<char>, i: int, j: int)
    requires
        0 <= i <= j <= text.len(),
    ensures
        byte_len(text.subrange(i, j)) <= byte_len(text),
{
    let (a, b, c) = (text.take(i), text.subrange(i, j), text.skip(j));
    lemma_byte_len_add(a, b);
    lemma_byte_len_add(a + b, c);
    assert(a + b + c =~= text);
}

/// Where no encoded data is clear of the spans, none is left.
proof fn lemma_no_blob_left(p: Pattern, text: Seq<char>, spans: Seq<(usize, usize)>, from: int)
    requires
        byte_len(text) <= usize::MAX,
        ordered_spans(spans, text.len()),
        no_blob_missed(p, spans, text, from),
        0 <= from <= text.len(),
        spans.len() > 0 ==> from <= spans[0].0,
    ensures
        !holds_blob(p, replaced(text, spans_of(spans), from)),
    decreases spans.len(),
{
    let out = replaced(text, spans_of(spans), from);
    if spans.len() == 0 {
        assert forall|i: int, j: int| 0 <= i < j <= out.len() implies !is_blob(
            p,
            #[trigger] out.subrange(i, j),
        ) by {
            assert(out.subrange(i, j) =~= text.subrange(from + i, from + j));
            assert(!touched(spans, from + i, from + j));
        }
    } else {
        let (start, end) = (spans[0].0 as int, spans[0].1 as int);
        let rest = spans.drop_first();
        let head = text.subrange(from, start);
        let note = blob_note(byte_len(text.subrange(start, end)));
        let tail = replaced(text, spans_of(rest), end);
        let h = head.len() as int;
        let n = note.len() as int;
        assert(spans_of(spans).drop_first() =~= spans_of(rest));
        assert(out =~= head + note + tail);
        lemma_spans_after(text, spans);
        lemma_part_size(text, start, end);
        lemma_note_ends(byte_len(text.subrange(start, end)));
        assert forall|i: int, j: int|
            end <= i < j <= text.len() && is_blob(p, #[trigger] text.subrange(i, j)) implies touched(
            rest,
            i,
            j,
        ) by {
            assert(touched(spans, i, j));
            let k = choose|k: int| 0 <= k < spans.len() && (#[trigger] spans[k]).0 < j && i < spans[k].1;
            assert(rest[k - 1] == spans[k]);
        }
        lemma_no_blob_left(p, text, rest, end);
        assert forall|i: int, j: int| 0 <= i < j <= out.len() implies !is_blob(
            p,
            #[trigger] out.subrange(i, j),
        ) by {
            let part = out.subrange(i, j);
            if is_blob(p, part) {
                lemma_blob(p, part);
                if j <= h {
                    assert(part =~= text.subrange(from + i, from + j));
                    assert(touched(spans, from + i, from + j));
                    let k = choose|k: int|
                        0 <= k < spans.len() && (#[trigger] spans[k]).0 < from + j && from + i
                            < spans[k].1;
                    assert(spans[0].0 <= spans[k].0);
                } else if i >= h + n {
                    assert(part =~= tail.subrange(i - h - n, j - h - n));
                } else if i <= h {
                    assert(part[h - i] == note[0]);
                } else if j >= h + n {
                    assert(part[h + n - 1 - i] == note[n - 1]);
                } else {
                    assert(part =~= note.subrange(i - h, j - h));
                    lemma_note_holds_no_blob(
                        p,
                        byte_len(text.subrange(start, end)),
                        i - h,
                        j - h,
                    );
                }
            }
        }
    }
}

/// What holds of spans holds of those after the first.
proof fn lemma_spans_after(text: Seq<char>, spans: Seq<(usize, usize)>)
    requires
        ordered_spans(spans, text.len()),
        spans.len() > 0,
    ensures
        ordered_spans(spans.drop_first(), text.len()),
        spans.len() > 1 ==> spans[0].1 <= spans.drop_first()[0].0,
        forall|k: int| 0 <= k < spans.len() ==> spans[0].0 <= (#[trigger] spans[k]).0,
{
    let rest = spans.drop_first();
    assert forall|i: int, j: int| 0 <= i < j < rest.len() implies (#[trigger] rest[i]).1 <= (
    #[trigger] rest[j]).0 by {
        assert(rest[i] == spans[i + 1] && rest[j] == spans[j + 1]);
    }
    assert forall|i: int| 0 <= i < rest.len() implies (#[trigger] rest[i]).0 <= rest[i].1
        <= text.len() by {
        assert(rest[i] == spans[i + 1]);
    }
    assert forall|k: int| 0 <= k < spans.len() implies spans[0].0 <= (#[trigger] spans[k]).0 by {
        if k > 0 {
            assert(spans[0].1 <= spans[k].0);
        }
    }
}

fn replace_matches(p: Pattern, text: &str) -> (r: (String, usize))
    requires
        p == Pattern::DataUri || p == Pattern::StandaloneBase64,
    ensures
        r.0@ == without_matches(p, text@),
        r.1 == p.spans_in(text@).len(),
        20 * r.1 <= usize::MAX,
        quote_marks(r.0@) == quote_marks(text@),
        disjoint_blobs(p, text@, p.spans_in(text@)),
        !holds_blob(p, r.0@),
        forall|q: Pattern| !holds_blob(q, text@) ==> !#[trigger] holds_blob(q, r.0@),
        !holds_blob(p, text@) ==> r.1 == 0,
        r.1 == 0 ==> r.0@ == text@,
{
    let size = bytes_in(text);
    let spans = p.find_all(text);
    let v = to_chars(text);
    let count: usize = v.len();
    let ghost ss = spans_of(spans@);
    let mut out = String::new();
    let mut from: usize = 0;
    let mut i: usize = 0;
    assert(ss.skip(0) =~= ss);
    assert(out@ + replaced(text@, ss, 0) =~= replaced(text@, ss, 0));
    while i < spans.len()
        invariant
            i <= spans@.len(),
            v@ == text@,
            ss == spans_of(spans@),
            ordered_spans(spans@, text@.len()),
            from <= text@.len(),
            i < spans@.len() ==> from <= spans@[i as int].0,
            out@ + replaced(text@, ss.skip(i as int), from as int) == replaced(text@, ss, 0),
        decreases spans.len() - i,
    {
        let (start, end) = spans[i];
        let ghost before = out@;
        let ghost rest = ss.skip(i as int);
        assert(rest[0] == (start as int, end as int));
        assert(start <= end <= text@.len());
        let kept = slice_text(&v, from, start);
        let blob = slice_text(&v, start, end);
        out.append(kept.as_str());
        let n = note(bytes_in(blob.as_str()));
        out.append(n.as_str());
        assert(rest.drop_first() =~= ss.skip(i + 1));
        assert(out@ + replaced(text@, ss.skip(i + 1), end as int) =~= before + replaced(
            text@,
            rest,
            from as int,
        ));
        if i + 1 < spans.len() {
            assert(spans@[i as int].1 <= spans@[i + 1].0);
        }
        from = end;
        i = i + 1;
    }
    assert(ss.skip(i as int) =~= seq![]);
    let tail = slice_text(&v, from, v.len());
    assert(tail@ =~= text@.skip(from as int));
    out.append(tail.as_str());
    proof {
        lemma_few_spans(spans@, text@.len(), spans@.len() as int);
        lemma_marks_stay(text@, spans@, 0);
        assert(text@.skip(0) =~= text@);
        assert(byte_len(text@) == size);
        lemma_no_blob_left(p, text@, spans@, 0);
        assert forall|q: Pattern| !holds_blob(q, text@) implies !#[trigger] holds_blob(q, out@) by {
            lemma_no_blob_left(q, text@, spans@, 0);
        }
        if spans@.len() > 0 {
            assert(is_blob_span(p, text@, spans@[0].0 as int, spans@[0].1 as int));
        }
        assert forall|k: int| 0 <= k < ss.len() implies is_blob_span(
            p,
            text@,
            (#[trigger] ss[k]).0,
            ss[k].1,
        ) && 0 <= ss[k].0 <= ss[k].1 <= text@.len() by {
            assert(ss[k] == (spans@[k].0 as int, spans@[k].1 as int));
        }
        assert forall|i: int, j: int| 0 <= i < j < ss.len() implies (#[trigger] ss[i]).1 <= (
        #[trigger] ss[j]).0 by {
            assert(spans@[i].1 <= spans@[j].0);
        }
    }
    (out, spans.len())
}

/// The text without base64 data, first in data URIs and then in what is left, and how many pieces were
/// taken out. A string of a JSON text stays a string: no quote and no backslash comes or goes. What is
/// left holds no base64 data, so that it comes back as it is when it is handed in again.
pub fn strip_base64_blobs(text: &str) -> (r: (String, usize))
    ensures
        ({
            let first = without_matches(Pattern::DataUri, text@);
            &&& disjoint_blobs(Pattern::DataUri, text@, Pattern::DataUri.spans_in(text@))
            &&& disjoint_blobs(
                Pattern::StandaloneBase64,
                first,
                Pattern::StandaloneBase64.spans_in(first),
            )
            &&& r.0@ == without_matches(Pattern::StandaloneBase64, first)
            &&& r.1 == Pattern::DataUri.spans_in(text@).len() + Pattern::StandaloneBase64.spans_in(
                first,
            ).len()
        }),
        quote_marks(r.0@) == quote_marks(text@),
        !holds_blob(Pattern::DataUri, r.0@) && !holds_blob(Pattern::StandaloneBase64, r.0@),
        r.1 == 0 <==> !holds_blob(Pattern::DataUri, text@) && !holds_blob(
            Pattern::StandaloneBase64,
            text@,
        ),
        r.1 == 0 <==> r.0@ == text@,
{
    let (first, uris) = replace_matches(Pattern::DataUri, text);
    let (second, blobs) = replace_matches(Pattern::StandaloneBase64, first.as_str());
    (second, uris + blobs)
}

/// A text in which neither pattern matches comes back as it is.
pub proof fn nothing_found_nothing_changed(text: Seq<char>)
    requires
        Pattern::DataUri.spans_in(text).len() == 0,
        Pattern::StandaloneBase64.spans_in(text).len() == 0,
    ensures
        without_matches(Pattern::StandaloneBase64, without_matches(Pattern::DataUri, text)) == text,
{
    assert(text.skip(0) =~= text);
}

/// A blob behind others becomes a note of its size. What stands around it stays, and so does what became
/// of the text before it.
pub proof fn blobs_become_notes(
    before: Seq<char>,
    blob: Seq<char>,
    after: Seq<char>,
    spans: Seq<(int, int)>,
    from: int,
)
    requires
        0 <= from <= before.len(),
        spans.len() > 0 ==> from <= spans[0].0,
        forall|i: int|
            0 <= i < spans.len() ==> 0 <= (#[trigger] spans[i]).0 <= spans[i].1 <= before.len(),
        forall|i: int, j: int|
            0 <= i < j < spans.len() ==> (#[trigger] spans[i]).1 <= (#[trigger] spans[j]).0,
    ensures
        replaced(
            before + blob + after,
            spans.push((before.len() as int, (before.len() + blob.len()) as int)),
            from,
        ) == replaced(before, spans, from) + "[... squishi pruned: base64 blob removed, "@ + dec(
            byte_len(blob),
        ) + " chars ...]"@ + after,
    decreases spans.len(),
{
    let text = before + blob + after;
    let last = (before.len() as int, (before.len() + blob.len()) as int);
    let all = spans.push(last);
    let note = blob_note(byte_len(blob));
    if spans.len() == 0 {
        assert(all.drop_first() =~= Seq::<(int, int)>::empty());
        assert(text.subrange(last.0, last.1) =~= blob);
        assert(text.skip(last.1) =~= after);
        assert(text.subrange(from, last.0) =~= before.skip(from));
        assert(all[0] == last);
        assert(replaced(text, all.drop_first(), last.1) == after);
        assert(replaced(text, all, from) == before.skip(from) + note + after);
        assert(replaced(text, all, from) =~= replaced(before, spans, from)
            + "[... squishi pruned: base64 blob removed, "@ + dec(byte_len(blob)) + " chars ...]"@
            + after);
    } else {
        let rest = spans.drop_first();
        let (start, end) = spans[0];
        assert(all[0] == spans[0]);
        assert(all.drop_first() =~= rest.push(last));
        assert forall|i: int| 0 <= i < rest.len() implies 0 <= (#[trigger] rest[i]).0 <= rest[i].1
            <= before.len() by {
            assert(rest[i] == spans[i + 1]);
        }
        assert forall|i: int, j: int| 0 <= i < j < rest.len() implies (#[trigger] rest[i]).1 <= (
        #[trigger] rest[j]).0 by {
            assert(rest[i] == spans[i + 1] && rest[j] == spans[j + 1]);
        }
        if rest.len() > 0 {
            assert(rest[0] == spans[1]);
        }
        blobs_become_notes(before, blob, after, rest, end);
        assert(text.subrange(from, start) =~= before.subrange(from, start));
        assert(text.subrange(start, end) =~= before.subrange(start, end));
        assert(replaced(text, all, from) =~= replaced(before, spans, from)
            + "[... squishi pruned: base64 blob removed, "@ + dec(byte_len(blob)) + " chars ...]"@
            + after);
    }
}

/// What is taken for encoded data: a data URI of at least twenty characters of data, and elsewhere a run
/// of at least five hundred.
pub proof fn blobs_are_found_by_shape(text: Seq<char>)
    ensures
        without_matches(Pattern::DataUri, text) == replaced(
            text,
            regex_find_iter(
                r"data:[a-zA-Z0-9/+.-]+;base64,[A-Za-z0-9+/\n]{20,}={0,2}"@,
                text,
            ),
            0,
        ),
        without_matches(Pattern::StandaloneBase64, text) == replaced(
            text,
            regex_find_iter(r"[A-Za-z0-9+/]{500,}={0,2}"@, text),
            0,
        ),
{
}

} // verus!
