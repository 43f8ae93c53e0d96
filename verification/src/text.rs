//! Text as a sequence of characters: lines, words, trimming, searching, joining, decimal numbers and
//! the order of strings.
//!
//! Every function works on whole characters, so no index ever falls inside one.
use vstd::prelude::*;
use vstd::utf8::encode_utf8;

verus! {

/// `String::push` puts one character at the end of the string and changes nothing else.
pub assume_specification[ String::push ](s: &mut String, c: char)
    ensures
        final(s)@ == old(s)@.push(c),
;

// ---------------------------------------------------------------------------
// Views of string vectors
// ---------------------------------------------------------------------------

/// The texts that a sequence of strings holds.
pub open spec fn views(v: Seq<String>) -> Seq<Seq<char>> {
    Seq::new(v.len(), |i: int| v[i]@)
}

pub broadcast proof fn lemma_views_push(v: Seq<String>, s: String)
    ensures
        #[trigger] views(v.push(s)) == views(v).push(s@),
{
    assert(views(v.push(s)) =~= views(v).push(s@));
}

pub proof fn lemma_views_add(a: Seq<String>, b: Seq<String>)
    ensures
        views(a + b) == views(a) + views(b),
{
    assert(views(a + b) =~= views(a) + views(b));
}

// ---------------------------------------------------------------------------
// Characters and strings
// ---------------------------------------------------------------------------

/// The characters with the Unicode property `White_Space`.
pub open spec fn is_space(c: char) -> bool {
    ||| '\u{9}' <= c <= '\u{d}'
    ||| c == ' '
    ||| c == '\u{85}'
    ||| c == '\u{a0}'
    ||| c == '\u{1680}'
    ||| '\u{2000}' <= c <= '\u{200a}'
    ||| c == '\u{2028}'
    ||| c == '\u{2029}'
    ||| c == '\u{202f}'
    ||| c == '\u{205f}'
    ||| c == '\u{3000}'
}

pub fn is_whitespace(c: char) -> (b: bool)
    ensures
        b == is_space(c),
{
    ('\u{9}' <= c && c <= '\u{d}') || c == ' ' || c == '\u{85}' || c == '\u{a0}' || c == '\u{1680}' || (
    '\u{2000}' <= c && c <= '\u{200a}') || c == '\u{2028}' || c == '\u{2029}' || c == '\u{202f}' || c
        == '\u{205f}' || c == '\u{3000}'
}

pub fn to_chars(s: &str) -> (v: Vec<char>)
    ensures
        v@ == s@,
{
    let mut out: Vec<char> = Vec::new();
    for c in it: s.chars()
        invariant
            out@ == it.seq().take(it.index()),
    {
        out.push(c);
        assert(it.seq().take(it.index() + 1) =~= it.seq().take(it.index()).push(c));
    }
    assert(out@ =~= s@);
    out
}

/// The characters `lo..hi` of `v` as a string.
pub fn slice_text(v: &Vec<char>, lo: usize, hi: usize) -> (s: String)
    requires
        lo <= hi <= v@.len(),
    ensures
        s@ == v@.subrange(lo as int, hi as int),
{
    let mut out = String::new();
    let mut i: usize = lo;
    while i < hi
        invariant
            lo <= i <= hi <= v@.len(),
            out@ == v@.subrange(lo as int, i as int),
        decreases hi - i,
    {
        out.push(v[i]);
        assert(v@.subrange(lo as int, i + 1) =~= v@.subrange(lo as int, i as int).push(v@[i as int]));
        i = i + 1;
    }
    out
}

/// The text that an optional string holds.
pub open spec fn option_view(s: Option<String>) -> Option<Seq<char>> {
    match s {
        Some(t) => Some(t@),
        None => None,
    }
}

pub fn copy_str(s: &str) -> (r: String)
    ensures
        r@ == s@,
{
    s.to_owned()
}

/// The number of bytes of the UTF-8 form of `s`.
pub open spec fn byte_len(s: Seq<char>) -> nat {
    encode_utf8(s).len()
}

pub fn bytes_in(s: &str) -> (n: usize)
    ensures
        n == byte_len(s@),
{
    s.as_bytes().len()
}

pub proof fn lemma_byte_len_add(a: Seq<char>, b: Seq<char>)
    ensures
        byte_len(a + b) == byte_len(a) + byte_len(b),
    decreases a.len(),
{
    if a.len() == 0 {
        assert(a + b =~= b);
    } else {
        lemma_byte_len_add(a.drop_first(), b);
        assert((a + b).drop_first() =~= a.drop_first() + b);
    }
}

pub open spec fn is_ascii_text(s: Seq<char>) -> bool {
    forall|i: int| 0 <= i < s.len() ==> '\u{7f}' >= #[trigger] s[i]
}

proof fn lemma_ascii_width(c: char)
    requires
        '\u{7f}' >= c,
    ensures
        vstd::utf8::encode_scalar(c as u32).len() == 1,
{
}

/// A character takes at least one byte, and an ASCII character just one.
pub proof fn lemma_byte_len_bounds(s: Seq<char>)
    ensures
        byte_len(s) >= s.len(),
        is_ascii_text(s) ==> byte_len(s) == s.len(),
    decreases s.len(),
{
    if s.len() > 0 {
        let rest = s.drop_first();
        lemma_byte_len_bounds(rest);
        if is_ascii_text(s) {
            assert forall|i: int| 0 <= i < rest.len() implies '\u{7f}' >= #[trigger] rest[i] by {
                assert(rest[i] == s[i + 1]);
            }
            assert('\u{7f}' >= s[0]);
            lemma_ascii_width(s[0]);
        }
    }
}

pub fn char_count(s: &str) -> (n: usize)
    ensures
        n == s@.len(),
{
    let v = to_chars(s);
    v.len()
}

pub fn same_text(a: &str, b: &str) -> (r: bool)
    ensures
        r == (a@ == b@),
{
    let x = to_chars(a);
    let y = to_chars(b);
    if x.len() != y.len() {
        return false;
    }
    let mut i: usize = 0;
    while i < x.len()
        invariant
            i <= x@.len(),
            x@ == a@,
            y@ == b@,
            x@.len() == y@.len(),
            forall|j: int| 0 <= j < i ==> x@[j] == y@[j],
        decreases x.len() - i,
    {
        if x[i] != y[i] {
            return false;
        }
        i = i + 1;
    }
    assert(x@ =~= y@);
    true
}

pub fn is_empty_text(s: &str) -> (b: bool)
    ensures
        b == (s@.len() == 0),
{
    char_count(s) == 0
}

pub fn copy_texts(v: &Vec<String>) -> (out: Vec<String>)
    ensures
        views(out@) == views(v@),
{
    let mut out: Vec<String> = Vec::new();
    let mut i: usize = 0;
    while i < v.len()
        invariant
            i <= v@.len(),
            out@.len() == i,
            forall|j: int| 0 <= j < i ==> (#[trigger] out@[j])@ == v@[j]@,
        decreases v.len() - i,
    {
        out.push(v[i].clone());
        i = i + 1;
    }
    assert(views(out@) =~= views(v@));
    out
}

/// The lower-case form of a text.
pub uninterp spec fn lower(s: Seq<char>) -> Seq<char>;

/// `str::to_lowercase`: a function of the text.
#[verifier::external_body]
pub(crate) fn lowercase(s: &str) -> (r: String)
    ensures
        r@ == lower(s@),
{
    s.to_lowercase()
}

/// The form in which `{:?}` writes a string.
pub uninterp spec fn str_debug(s: Seq<char>) -> Seq<char>;

/// `format!` of a string with `{:?}`: a function of the string.
#[verifier::external_body]
pub(crate) fn debug_text(s: &str) -> (r: String)
    ensures
        r@ == str_debug(s@),
{
    format!("{s:?}")
}

/// Whether `texts` holds `t`.
pub open spec fn holds(texts: Seq<Seq<char>>, t: Seq<char>) -> bool {
    exists|i: int| 0 <= i < texts.len() && #[trigger] texts[i] == t
}

pub fn holds_text(v: &Vec<String>, t: &str) -> (r: bool)
    ensures
        r == holds(views(v@), t@),
{
    let mut i: usize = 0;
    while i < v.len()
        invariant
            i <= v@.len(),
            forall|j: int| 0 <= j < i ==> v@[j]@ != t@,
        decreases v.len() - i,
    {
        if same_text(v[i].as_str(), t) {
            assert(views(v@)[i as int] == t@);
            return true;
        }
        i = i + 1;
    }
    assert forall|j: int| 0 <= j < views(v@).len() implies #[trigger] views(v@)[j] != t@ by {}
    false
}

// ---------------------------------------------------------------------------
// Prefixes, suffixes, searching
// ---------------------------------------------------------------------------

pub open spec fn starts_with(s: Seq<char>, p: Seq<char>) -> bool {
    p.len() <= s.len() && s.take(p.len() as int) == p
}

pub open spec fn occurs_at(s: Seq<char>, p: Seq<char>, i: int) -> bool {
    0 <= i && i + p.len() <= s.len() && s.subrange(i, i + p.len()) == p
}

pub open spec fn contains_text(s: Seq<char>, p: Seq<char>) -> bool {
    exists|i: int| occurs_at(s, p, i)
}

/// The first place at or after `from` where `p` occurs in `s`.
pub open spec fn find_from(s: Seq<char>, p: Seq<char>, from: int) -> Option<int>
    decreases s.len() + 1 - from,
{
    if from < 0 || from > s.len() {
        None
    } else if occurs_at(s, p, from) {
        Some(from)
    } else {
        find_from(s, p, from + 1)
    }
}

pub proof fn lemma_find_from(s: Seq<char>, p: Seq<char>, from: int)
    requires
        0 <= from,
    ensures
        find_from(s, p, from) matches Some(k) ==> from <= k && occurs_at(s, p, k) && forall|j: int|
            from <= j < k ==> !occurs_at(s, p, j),
        find_from(s, p, from) is None ==> forall|j: int| from <= j ==> !occurs_at(s, p, j),
    decreases s.len() + 1 - from,
{
    if from <= s.len() && !occurs_at(s, p, from) {
        lemma_find_from(s, p, from + 1);
    }
}

/// Whether `p` occurs in `v` at `i`.
pub fn matches_at(v: &Vec<char>, p: &Vec<char>, i: usize) -> (b: bool)
    requires
        i <= v@.len(),
    ensures
        b == occurs_at(v@, p@, i as int),
{
    if v.len() - i < p.len() {
        return false;
    }
    let mut j: usize = 0;
    while j < p.len()
        invariant
            j <= p@.len(),
            i + p@.len() <= v@.len() <= usize::MAX,
            forall|k: int| 0 <= k < j ==> v@[i + k] == p@[k],
        decreases p.len() - j,
    {
        if v[i + j] != p[j] {
            assert(v@.subrange(i as int, i + p@.len())[j as int] != p@[j as int]);
            return false;
        }
        j = j + 1;
    }
    assert(v@.subrange(i as int, i + p@.len()) =~= p@);
    true
}

pub fn find_text(v: &Vec<char>, p: &Vec<char>, from: usize) -> (r: Option<usize>)
    requires
        from <= v@.len(),
    ensures
        r is Some <==> find_from(v@, p@, from as int) is Some,
        r matches Some(k) ==> find_from(v@, p@, from as int) == Some(k as int) && k <= v@.len(),
{
    let mut i: usize = from;
    loop
        invariant
            from <= i <= v@.len(),
            find_from(v@, p@, from as int) == find_from(v@, p@, i as int),
        decreases v@.len() - i,
    {
        if matches_at(v, p, i) {
            return Some(i);
        }
        if i == v.len() {
            assert(find_from(v@, p@, i as int + 1) is None);
            return None;
        }
        i = i + 1;
    }
}

pub fn text_contains(s: &str, p: &str) -> (b: bool)
    ensures
        b == contains_text(s@, p@),
{
    let v = to_chars(s);
    let q = to_chars(p);
    let r = find_text(&v, &q, 0);
    proof {
        lemma_find_from(s@, p@, 0);
    }
    r.is_some()
}

pub fn text_starts_with(s: &str, p: &str) -> (b: bool)
    ensures
        b == starts_with(s@, p@),
{
    let v = to_chars(s);
    let q = to_chars(p);
    let b = matches_at(&v, &q, 0);
    assert(p@.len() <= s@.len() ==> s@.take(p@.len() as int) == s@.subrange(
        0,
        p@.len() as int,
    ));
    b
}

/// Whether the first character of `s` is `c`.
pub open spec fn first_is(s: Seq<char>, c: char) -> bool {
    s.len() > 0 && s[0] == c
}

pub open spec fn last_is(s: Seq<char>, c: char) -> bool {
    s.len() > 0 && s.last() == c
}

pub fn text_first_is(s: &str, c: char) -> (b: bool)
    ensures
        b == first_is(s@, c),
{
    let v = to_chars(s);
    v.len() > 0 && v[0] == c
}

pub fn text_last_is(s: &str, c: char) -> (b: bool)
    ensures
        b == last_is(s@, c),
{
    let v = to_chars(s);
    v.len() > 0 && v[v.len() - 1] == c
}

/// The index of the first `c` in `s`, or the length of `s`.
pub open spec fn index_of(s: Seq<char>, c: char) -> int
    decreases s.len(),
{
    if s.len() == 0 || s[0] == c {
        0
    } else {
        1 + index_of(s.drop_first(), c)
    }
}

pub proof fn lemma_index_of(s: Seq<char>, c: char)
    ensures
        0 <= index_of(s, c) <= s.len(),
        forall|j: int| 0 <= j < index_of(s, c) ==> s[j] != c,
        index_of(s, c) < s.len() ==> s[index_of(s, c)] == c,
    decreases s.len(),
{
    if s.len() > 0 && s[0] != c {
        lemma_index_of(s.drop_first(), c);
        let k = index_of(s.drop_first(), c);
        assert forall|j: int| 0 <= j < 1 + k implies s[j] != c by {
            if j > 0 {
                assert(s.drop_first()[j - 1] == s[j]);
            }
        }
    }
}

pub proof fn lemma_index_of_is(s: Seq<char>, c: char, k: int)
    requires
        0 <= k <= s.len(),
        forall|j: int| 0 <= j < k ==> s[j] != c,
        k < s.len() ==> s[k] == c,
    ensures
        index_of(s, c) == k,
{
    lemma_index_of(s, c);
    let m = index_of(s, c);
    if m < k {
        assert(s[m] != c);
    }
    if k < m {
        assert(s[k] != c);
    }
}

/// The index of the first `c` at or after `from`, or the length of `v`.
pub fn find_char(v: &Vec<char>, c: char, from: usize) -> (k: usize)
    requires
        from <= v@.len(),
    ensures
        from <= k <= v@.len(),
        k == from + index_of(v@.skip(from as int), c),
        k < v@.len() ==> v@[k as int] == c,
        forall|j: int| from <= j < k ==> v@[j] != c,
{
    let mut i: usize = from;
    while i < v.len() && v[i] != c
        invariant
            from <= i <= v@.len(),
            forall|j: int| from <= j < i ==> v@[j] != c,
        decreases v.len() - i,
    {
        i = i + 1;
    }
    proof {
        let t = v@.skip(from as int);
        assert forall|j: int| 0 <= j < i - from implies t[j] != c by {
            assert(t[j] == v@[from + j]);
        }
        lemma_index_of_is(t, c, i - from);
    }
    i
}

/// Whether `c` occurs in `s`.
pub open spec fn has_char(s: Seq<char>, c: char) -> bool {
    s.contains(c)
}

pub fn text_has_char(s: &str, c: char) -> (b: bool)
    ensures
        b == has_char(s@, c),
{
    let v = to_chars(s);
    let k = find_char(&v, c, 0);
    proof {
        if s@.contains(c) {
            let j = choose|j: int| 0 <= j < s@.len() && s@[j] == c;
            assert(v@[j] == c);
        }
    }
    k < v.len()
}

// ---------------------------------------------------------------------------
// Lines
// ---------------------------------------------------------------------------

pub open spec fn strip_cr(s: Seq<char>) -> Seq<char> {
    if last_is(s, '\r') {
        s.drop_last()
    } else {
        s
    }
}

/// The lines of a text: split after every newline, each line without its newline and without a
/// carriage return right before it; a text that ends in a newline has no empty last line.
pub open spec fn split_lines(s: Seq<char>) -> Seq<Seq<char>>
    decreases s.len(),
    via split_lines_decreases
{
    if s.len() == 0 {
        seq![]
    } else {
        let k = index_of(s, '\n');
        if k == s.len() {
            seq![s]
        } else {
            seq![strip_cr(s.take(k))] + split_lines(s.skip(k + 1))
        }
    }
}

#[via_fn]
proof fn split_lines_decreases(s: Seq<char>) {
    lemma_index_of(s, '\n');
}

pub fn lines(text: &str) -> (out: Vec<String>)
    ensures
        views(out@) == split_lines(text@),
{
    let chars = to_chars(text);
    let n = chars.len();
    let mut out: Vec<String> = Vec::new();
    let mut start: usize = 0;
    assert(text@.skip(0) =~= text@);
    assert(views(out@) =~= Seq::<Seq<char>>::empty());
    while start < n
        invariant
            start <= n,
            n == chars@.len(),
            chars@ == text@,
            views(out@) + split_lines(text@.skip(start as int)) == split_lines(text@),
        decreases n - start,
    {
        broadcast use lemma_views_push;
        let ghost rest = text@.skip(start as int);
        let ghost before = out@;
        let k = find_char(&chars, '\n', start);
        if k == n {
            assert(rest =~= text@.subrange(start as int, n as int));
            out.push(slice_text(&chars, start, n));
            assert(views(out@) =~= views(before) + seq![rest]);
            start = n;
            assert(text@.skip(n as int) =~= Seq::<char>::empty());
            assert(split_lines(text@.skip(n as int)) =~= Seq::<Seq<char>>::empty());
            assert(views(out@) + split_lines(text@.skip(start as int)) =~= views(out@));
        } else {
            let end = if k > start && chars[k - 1] == '\r' {
                k - 1
            } else {
                k
            };
            assert(rest.take(k - start) =~= text@.subrange(start as int, k as int));
            assert(strip_cr(rest.take(k - start)) =~= text@.subrange(start as int, end as int));
            out.push(slice_text(&chars, start, end));
            assert(rest.skip(k - start + 1) =~= text@.skip(k + 1));
            assert(split_lines(rest) == seq![strip_cr(rest.take(k - start))] + split_lines(
                text@.skip(k + 1),
            ));
            assert(views(out@) + split_lines(text@.skip(k + 1)) =~= views(before) + split_lines(rest));
            start = k + 1;
        }
    }
    assert(split_lines(text@.skip(start as int)) =~= Seq::<Seq<char>>::empty());
    assert(views(out@) =~= split_lines(text@));
    out
}

// ---------------------------------------------------------------------------
// Trimming
// ---------------------------------------------------------------------------

pub open spec fn trim_start(s: Seq<char>) -> Seq<char>
    decreases s.len(),
{
    if s.len() > 0 && is_space(s[0]) {
        trim_start(s.drop_first())
    } else {
        s
    }
}

pub open spec fn trim_end(s: Seq<char>) -> Seq<char>
    decreases s.len(),
{
    if s.len() > 0 && is_space(s.last()) {
        trim_end(s.drop_last())
    } else {
        s
    }
}

pub open spec fn trim(s: Seq<char>) -> Seq<char> {
    trim_end(trim_start(s))
}

/// The index of the first character at or after `from` that is not white space.
pub fn skip_spaces(v: &Vec<char>, from: usize) -> (k: usize)
    requires
        from <= v@.len(),
    ensures
        from <= k <= v@.len(),
        v@.skip(k as int) == trim_start(v@.skip(from as int)),
        k < v@.len() ==> !is_space(v@[k as int]),
{
    let mut i: usize = from;
    while i < v.len() && is_whitespace(v[i])
        invariant
            from <= i <= v@.len(),
            trim_start(v@.skip(i as int)) == trim_start(v@.skip(from as int)),
        decreases v.len() - i,
    {
        assert(v@.skip(i as int).drop_first() =~= v@.skip(i + 1));
        i = i + 1;
    }
    i
}

pub fn trim_start_text(s: &str) -> (r: String)
    ensures
        r@ == trim_start(s@),
{
    let v = to_chars(s);
    let k = skip_spaces(&v, 0);
    assert(s@.skip(0) =~= s@);
    assert(v@.skip(k as int) =~= v@.subrange(k as int, v@.len() as int));
    slice_text(&v, k, v.len())
}

pub fn trim_text(s: &str) -> (r: String)
    ensures
        r@ == trim(s@),
{
    let v = to_chars(s);
    let k = skip_spaces(&v, 0);
    assert(s@.skip(0) =~= s@);
    let mut hi: usize = v.len();
    assert(v@.skip(k as int) =~= v@.subrange(k as int, hi as int));
    while hi > k && is_whitespace(v[hi - 1])
        invariant
            k <= hi <= v@.len(),
            trim_end(v@.subrange(k as int, hi as int)) == trim(s@),
        decreases hi - k,
    {
        assert(v@.subrange(k as int, hi as int).drop_last() =~= v@.subrange(k as int, hi - 1));
        hi = hi - 1;
    }
    slice_text(&v, k, hi)
}

pub proof fn lemma_trim_start_suffix(s: Seq<char>)
    ensures
        trim_start(s).len() <= s.len(),
        trim_start(s) == s.skip(s.len() - trim_start(s).len()),
        trim_start(s).len() > 0 ==> !is_space(trim_start(s)[0]),
        forall|j: int| 0 <= j < s.len() - trim_start(s).len() ==> is_space(s[j]),
    decreases s.len(),
{
    if s.len() > 0 && is_space(s[0]) {
        lemma_trim_start_suffix(s.drop_first());
        let t = trim_start(s);
        assert(s.drop_first().skip(s.drop_first().len() - t.len()) =~= s.skip(s.len() - t.len()));
        assert forall|j: int| 0 <= j < s.len() - t.len() implies is_space(s[j]) by {
            if j > 0 {
                assert(s.drop_first()[j - 1] == s[j]);
            }
        }
    } else {
        assert(s.skip(0) =~= s);
    }
}

pub proof fn lemma_trim_end_prefix(s: Seq<char>)
    ensures
        trim_end(s).len() <= s.len(),
        trim_end(s) == s.take(trim_end(s).len() as int),
        trim_end(s).len() > 0 ==> !is_space(trim_end(s).last()),
    decreases s.len(),
{
    if s.len() > 0 && is_space(s.last()) {
        lemma_trim_end_prefix(s.drop_last());
        let t = trim_end(s);
        assert(s.drop_last().take(t.len() as int) =~= s.take(t.len() as int));
    } else {
        assert(s.take(s.len() as int) =~= s);
    }
}

// ---------------------------------------------------------------------------
// Words
// ---------------------------------------------------------------------------

/// The number of characters before the first white space.
pub open spec fn word_len(s: Seq<char>) -> int
    decreases s.len(),
{
    if s.len() == 0 || is_space(s[0]) {
        0
    } else {
        1 + word_len(s.drop_first())
    }
}

pub proof fn lemma_word_len(s: Seq<char>)
    ensures
        0 <= word_len(s) <= s.len(),
        forall|j: int| 0 <= j < word_len(s) ==> !is_space(s[j]),
        word_len(s) < s.len() ==> is_space(s[word_len(s)]),
    decreases s.len(),
{
    if s.len() > 0 && !is_space(s[0]) {
        lemma_word_len(s.drop_first());
        let k = word_len(s.drop_first());
        assert forall|j: int| 0 <= j < 1 + k implies !is_space(s[j]) by {
            if j > 0 {
                assert(s.drop_first()[j - 1] == s[j]);
            }
        }
    }
}

/// The maximal runs of characters that are not white space, in order.
pub open spec fn split_words(s: Seq<char>) -> Seq<Seq<char>>
    decreases s.len(),
    via split_words_decreases
{
    let t = trim_start(s);
    if t.len() == 0 {
        seq![]
    } else {
        seq![t.take(word_len(t))] + split_words(t.skip(word_len(t)))
    }
}

#[via_fn]
proof fn split_words_decreases(s: Seq<char>) {
    lemma_trim_start_suffix(s);
    lemma_word_len(trim_start(s));
}

/// Where the words of `v` stand.
pub fn word_spans(v: &Vec<char>) -> (out: Vec<(usize, usize)>)
    ensures
        out@.len() == split_words(v@).len(),
        forall|i: int|
            0 <= i < out@.len() ==> (#[trigger] out@[i]).0 < out@[i].1 <= v@.len() && v@.subrange(
                out@[i].0 as int,
                out@[i].1 as int,
            ) == split_words(v@)[i],
        forall|i: int, j: int| 0 <= i < j < out@.len() ==> (#[trigger] out@[i]).1 <= (#[trigger] out@[j]).0,
{
    let n = v.len();
    let mut out: Vec<(usize, usize)> = Vec::new();
    let mut pos: usize = 0;
    assert(v@.skip(0) =~= v@);
    let ghost all = split_words(v@);
    loop
        invariant
            pos <= n,
            n == v@.len(),
            all == split_words(v@),
            out@.len() + split_words(v@.skip(pos as int)).len() == all.len(),
            forall|i: int|
                0 <= i < split_words(v@.skip(pos as int)).len() ==> #[trigger] split_words(
                    v@.skip(pos as int),
                )[i] == all[out@.len() + i],
            forall|i: int|
                0 <= i < out@.len() ==> (#[trigger] out@[i]).0 < out@[i].1 <= pos && v@.subrange(
                    out@[i].0 as int,
                    out@[i].1 as int,
                ) == all[i],
            forall|i: int, j: int| 0 <= i < j < out@.len() ==> (#[trigger] out@[i]).1 <= (#[trigger] out@[j]).0,
        decreases n - pos,
    {
        let ghost rest = v@.skip(pos as int);
        let start = skip_spaces(v, pos);
        let ghost t = trim_start(rest);
        if start == n {
            return out;
        }
        let mut end: usize = start;
        proof {
            lemma_word_len(t);
        }
        while end < n && !is_whitespace(v[end])
            invariant
                start <= end <= n,
                n == v@.len(),
                t == v@.skip(start as int),
                end - start + word_len(v@.skip(end as int)) == word_len(t),
            decreases n - end,
        {
            assert(v@.skip(end as int).drop_first() =~= v@.skip(end + 1));
            end = end + 1;
        }
        assert(word_len(t) == end - start);
        assert(end > start);
        assert(t.take(end - start) =~= v@.subrange(start as int, end as int));
        assert(t.skip(end - start) =~= v@.skip(end as int));
        let ghost tail = split_words(v@.skip(end as int));
        assert(split_words(rest) == seq![t.take(end - start)] + tail);
        proof {
            assert(split_words(rest)[0] == all[out@.len() as int]);
            assert forall|i: int| 0 <= i < tail.len() implies #[trigger] tail[i] == all[out@.len() + 1 + i] by {
                assert(split_words(rest)[i + 1] == tail[i]);
            }
        }
        out.push((start, end));
        pos = end;
    }
}

pub fn words(s: &str) -> (out: Vec<String>)
    ensures
        views(out@) == split_words(s@),
{
    let v = to_chars(s);
    let spans = word_spans(&v);
    let mut out: Vec<String> = Vec::new();
    let mut i: usize = 0;
    while i < spans.len()
        invariant
            i <= spans@.len(),
            v@ == s@,
            spans@.len() == split_words(v@).len(),
            forall|i: int|
                0 <= i < spans@.len() ==> (#[trigger] spans@[i]).0 < spans@[i].1 <= v@.len() && v@.subrange(
                    spans@[i].0 as int,
                    spans@[i].1 as int,
                ) == split_words(v@)[i],
            out@.len() == i,
            forall|j: int| 0 <= j < i ==> (#[trigger] out@[j])@ == split_words(s@)[j],
        decreases spans.len() - i,
    {
        out.push(slice_text(&v, spans[i].0, spans[i].1));
        i = i + 1;
    }
    assert(views(out@) =~= split_words(s@));
    out
}

pub fn word_count(s: &str) -> (n: usize)
    ensures
        n == split_words(s@).len(),
{
    let v = to_chars(s);
    word_spans(&v).len()
}

// ---------------------------------------------------------------------------
// Splitting at a character, joining
// ---------------------------------------------------------------------------

/// The pieces between the occurrences of `c`; there is always at least one.
pub open spec fn split_at_char(s: Seq<char>, c: char) -> Seq<Seq<char>>
    decreases s.len(),
    via split_at_char_decreases
{
    let k = index_of(s, c);
    if k >= s.len() {
        seq![s]
    } else {
        seq![s.take(k)] + split_at_char(s.skip(k + 1), c)
    }
}

#[via_fn]
proof fn split_at_char_decreases(s: Seq<char>, c: char) {
    lemma_index_of(s, c);
}

pub fn split_text(s: &str, c: char) -> (out: Vec<String>)
    ensures
        views(out@) == split_at_char(s@, c),
{
    broadcast use lemma_views_push;
    let v = to_chars(s);
    let n = v.len();
    let mut out: Vec<String> = Vec::new();
    let mut start: usize = 0;
    assert(s@.skip(0) =~= s@);
    assert(views(out@) =~= Seq::<Seq<char>>::empty());
    loop
        invariant
            start <= n,
            n == v@.len(),
            v@ == s@,
            views(out@) + split_at_char(s@.skip(start as int), c) == split_at_char(s@, c),
        decreases n - start,
    {
        let ghost rest = s@.skip(start as int);
        let ghost before = out@;
        let k = find_char(&v, c, start);
        out.push(slice_text(&v, start, k));
        if k == n {
            assert(rest =~= s@.subrange(start as int, n as int));
            assert(views(out@) =~= views(before) + seq![rest]);
            return out;
        }
        assert(rest.take(k - start) =~= s@.subrange(start as int, k as int));
        assert(rest.skip(k - start + 1) =~= s@.skip(k + 1));
        assert(views(out@) + split_at_char(s@.skip(k + 1), c) =~= views(before) + split_at_char(rest, c));
        start = k + 1;
    }
}

/// The parts one after the other, with `sep` between each two.
pub open spec fn join(parts: Seq<Seq<char>>, sep: Seq<char>) -> Seq<char>
    decreases parts.len(),
{
    if parts.len() == 0 {
        seq![]
    } else if parts.len() == 1 {
        parts[0]
    } else {
        join(parts.drop_last(), sep) + sep + parts.last()
    }
}

pub fn join_texts(v: &Vec<String>, sep: &str) -> (out: String)
    ensures
        out@ == join(views(v@), sep@),
{
    let mut out = String::new();
    let mut i: usize = 0;
    assert(views(v@).take(0) =~= Seq::<Seq<char>>::empty());
    while i < v.len()
        invariant
            i <= v@.len(),
            out@ == join(views(v@).take(i as int), sep@),
        decreases v.len() - i,
    {
        let ghost part = views(v@).take(i + 1);
        assert(part.drop_last() =~= views(v@).take(i as int));
        assert(part.last() == v@[i as int]@);
        if i > 0 {
            out.append(sep);
        }
        out.append(v[i].as_str());
        assert(i == 0 ==> out@ =~= v@[i as int]@);
        i = i + 1;
    }
    assert(views(v@).take(v@.len() as int) =~= views(v@));
    out
}

/// The texts from `lo` to `hi` joined by spaces.
pub fn join_range(words: &Vec<String>, lo: usize, hi: usize) -> (out: String)
    requires
        lo <= hi <= words@.len(),
    ensures
        out@ == join(views(words@).subrange(lo as int, hi as int), " "@),
{
    let mut part: Vec<String> = Vec::new();
    let mut i: usize = lo;
    while i < hi
        invariant
            lo <= i <= hi <= words@.len(),
            part@.len() == i - lo,
            forall|j: int| 0 <= j < part@.len() ==> (#[trigger] part@[j])@ == words@[lo + j]@,
        decreases hi - i,
    {
        part.push(copy_str(words[i].as_str()));
        i = i + 1;
    }
    assert(views(part@) =~= views(words@).subrange(lo as int, hi as int));
    join_texts(&part, " ")
}

pub proof fn lemma_index_of_shift(a: Seq<char>, b: Seq<char>, c: char)
    requires
        !has_char(a, c),
    ensures
        index_of(a + b, c) == a.len() + index_of(b, c),
{
    let s = a + b;
    lemma_index_of(b, c);
    let k = a.len() + index_of(b, c);
    assert forall|j: int| 0 <= j < k implies s[j] != c by {
        if j < a.len() {
            assert(s[j] == a[j]);
            assert(a.contains(a[j]));
        } else {
            assert(s[j] == b[j - a.len()]);
        }
    }
    if k < s.len() {
        assert(s[k] == b[index_of(b, c)]);
    }
    lemma_index_of_is(s, c, k);
}

pub proof fn lemma_absent(s: Seq<char>, c: char)
    requires
        !has_char(s, c),
    ensures
        index_of(s, c) == s.len(),
{
    assert forall|j: int| 0 <= j < s.len() implies s[j] != c by {
        assert(s.contains(s[j]));
    }
    lemma_index_of_is(s, c, s.len() as int);
}

pub proof fn lemma_join_first(parts: Seq<Seq<char>>, sep: Seq<char>)
    requires
        parts.len() >= 2,
    ensures
        join(parts, sep) == parts[0] + sep + join(parts.drop_first(), sep),
    decreases parts.len(),
{
    let rest = parts.drop_first();
    if parts.len() == 2 {
        assert(parts.drop_last() =~= seq![parts[0]]);
        assert(rest =~= seq![parts[1]]);
        assert(join(parts.drop_last(), sep) == parts[0]);
        assert(join(rest, sep) == parts[1]);
    } else {
        lemma_join_first(parts.drop_last(), sep);
        assert(parts.drop_last().drop_first() =~= rest.drop_last());
        assert(rest.last() == parts.last());
        assert(join(parts, sep) =~= parts[0] + sep + (join(rest.drop_last(), sep) + sep + rest.last()));
    }
}

/// A line that survives joining with newlines and splitting into lines.
pub open spec fn clean(line: Seq<char>) -> bool {
    line.len() > 0 && !has_char(line, '\n') && line.last() != '\r'
}

pub open spec fn all_clean(ls: Seq<Seq<char>>) -> bool {
    forall|i: int| 0 <= i < ls.len() ==> clean(#[trigger] ls[i])
}

pub proof fn lemma_lines_join(ls: Seq<Seq<char>>)
    requires
        ls.len() > 0,
        all_clean(ls),
    ensures
        split_lines(join(ls, "\n"@)) == ls,
    decreases ls.len(),
{
    reveal_strlit("\n");
    assert(clean(ls[0]));
    if ls.len() == 1 {
        lemma_absent(ls[0], '\n');
        assert(split_lines(ls[0]) =~= ls);
    } else {
        let rest = ls.drop_first();
        lemma_join_first(ls, "\n"@);
        assert forall|i: int| 0 <= i < rest.len() implies clean(#[trigger] rest[i]) by {
            assert(rest[i] == ls[i + 1]);
        }
        lemma_lines_join(rest);
        let tail = "\n"@ + join(rest, "\n"@);
        let s = join(ls, "\n"@);
        assert(s =~= ls[0] + tail);
        lemma_index_of_shift(ls[0], tail, '\n');
        assert(index_of(tail, '\n') == 0);
        let k = ls[0].len() as int;
        assert(s.take(k) =~= ls[0]);
        assert(s.skip(k + 1) =~= join(rest, "\n"@));
        assert(strip_cr(ls[0]) == ls[0]);
        assert(split_lines(s) =~= seq![ls[0]] + rest);
        assert(seq![ls[0]] + rest =~= ls);
    }
}

// ---------------------------------------------------------------------------
// Decimal numbers
// ---------------------------------------------------------------------------

pub open spec fn digit(d: int) -> char {
    (48 + d) as char
}

pub open spec fn is_digit(c: char) -> bool {
    '0' <= c <= '9'
}

/// The decimal form of `n`, without leading zeros.
pub open spec fn dec(n: nat) -> Seq<char>
    decreases n,
{
    if n < 10 {
        seq![digit(n as int)]
    } else {
        dec(n / 10).push(digit((n % 10) as int))
    }
}

/// The decimal form of `n`, with a sign where it is negative.
pub open spec fn signed_dec(n: int) -> Seq<char> {
    if n < 0 {
        seq!['-'] + dec((-n) as nat)
    } else {
        dec(n as nat)
    }
}

pub fn digit_char(d: u8) -> (c: char)
    requires
        d < 10,
    ensures
        c == digit(d as int),
{
    let b: u8 = 48 + d;
    b as char
}

pub fn decimal(n: u64) -> (s: String)
    ensures
        s@ == dec(n as nat),
    decreases n,
{
    if n < 10 {
        let mut s = String::new();
        s.push(digit_char(n as u8));
        assert(s@ =~= seq![digit(n as int)]);
        s
    } else {
        let mut s = decimal(n / 10);
        s.push(digit_char((n % 10) as u8));
        s
    }
}

pub fn decimal_usize(n: usize) -> (s: String)
    ensures
        s@ == dec(n as nat),
{
    decimal(n as u64)
}

pub open spec fn all_digits(s: Seq<char>) -> bool {
    forall|i: int| 0 <= i < s.len() ==> is_digit(#[trigger] s[i])
}

pub open spec fn digits_value(s: Seq<char>) -> nat
    decreases s.len(),
{
    if s.len() == 0 {
        0
    } else {
        (10 * digits_value(s.drop_last()) + (s.last() as int - 48)) as nat
    }
}

/// Ten to the power of `k`.
pub open spec fn ten_to(k: nat) -> nat
    decreases k,
{
    if k == 0 {
        1
    } else {
        10 * ten_to((k - 1) as nat)
    }
}

pub proof fn lemma_dec_len(n: nat, k: nat)
    requires
        k > 0,
        n < ten_to(k),
    ensures
        dec(n).len() <= k,
    decreases k,
{
    if n >= 10 {
        assert(k > 1) by {
            reveal_with_fuel(ten_to, 3);
        }
        lemma_dec_len(n / 10, (k - 1) as nat);
    }
}

/// The decimal form of a size takes no more than twenty characters.
pub proof fn lemma_size_dec_len(n: nat)
    requires
        n <= usize::MAX,
    ensures
        dec(n).len() <= 20,
{
    assert(ten_to(20) == 100_000_000_000_000_000_000) by {
        reveal_with_fuel(ten_to, 21);
    }
    lemma_dec_len(n, 20);
}

pub proof fn lemma_dec(n: nat)
    ensures
        dec(n).len() > 0,
        all_digits(dec(n)),
        digits_value(dec(n)) == n,
    decreases n,
{
    if n < 10 {
        let s = dec(n);
        assert(s.drop_last() =~= Seq::<char>::empty());
        assert(s.last() as int == 48 + n);
        assert(digits_value(s.drop_last()) == 0);
    } else {
        lemma_dec(n / 10);
        let s = dec(n);
        assert(s.drop_last() =~= dec(n / 10));
        assert(s.last() as int == 48 + n % 10);
        assert(all_digits(s)) by {
            assert forall|i: int| 0 <= i < s.len() implies is_digit(#[trigger] s[i]) by {
                if i < s.len() - 1 {
                    assert(s[i] == dec(n / 10)[i]);
                }
            }
        }
    }
}

pub proof fn lemma_digits_value_bound(s: Seq<char>, k: int)
    requires
        all_digits(s),
        0 <= k <= s.len(),
    ensures
        digits_value(s.take(k)) <= digits_value(s),
    decreases s.len() - k,
{
    if k == s.len() {
        assert(s.take(k) =~= s);
    } else {
        lemma_digits_value_bound(s, k + 1);
        assert(s.take(k + 1).drop_last() =~= s.take(k));
        assert(is_digit(s[k]));
        assert(s.take(k + 1).last() == s[k]);
    }
}

/// The number that `s` reads as: an optional plus sign, then one or more ASCII digits, at most `max`.
pub open spec fn parse_unsigned(s: Seq<char>, max: nat) -> Option<nat> {
    let body = if first_is(s, '+') {
        s.skip(1)
    } else {
        s
    };
    if body.len() > 0 && all_digits(body) && digits_value(body) <= max {
        Some(digits_value(body))
    } else {
        None
    }
}

fn parse_digits(v: &Vec<char>, from: usize) -> (r: Option<u64>)
    requires
        from <= v@.len(),
    ensures
        ({
            let body = v@.skip(from as int);
            r matches Some(n) ==> body.len() > 0 && all_digits(body) && digits_value(body) == n
        }),
        ({
            let body = v@.skip(from as int);
            r is None ==> body.len() == 0 || !all_digits(body) || digits_value(body) > u64::MAX
        }),
{
    if from == v.len() {
        return None;
    }
    let ghost body = v@.skip(from as int);
    let mut n: u64 = 0;
    let mut i: usize = from;
    assert(body.take(0) =~= Seq::<char>::empty());
    while i < v.len()
        invariant
            from <= i <= v@.len(),
            body == v@.skip(from as int),
            all_digits(body.take(i - from)),
            digits_value(body.take(i - from)) == n,
        decreases v.len() - i,
    {
        let c = v[i];
        let ghost part = body.take(i - from + 1);
        assert(part.drop_last() =~= body.take(i - from));
        assert(part.last() == c);
        assert(body[i - from] == c);
        if !('0' <= c && c <= '9') {
            assert(!is_digit(body[i - from]));
            return None;
        }
        let d: u64 = (c as u32 - 48) as u64;
        if n > (u64::MAX - d) / 10 {
            proof {
                assert(digits_value(part) == 10 * n + d);
                assert(10 * n + d > u64::MAX);
                if all_digits(body) {
                    lemma_digits_value_bound(body, i - from + 1);
                }
            }
            return None;
        }
        n = 10 * n + d;
        assert(all_digits(part)) by {
            assert forall|j: int| 0 <= j < part.len() implies is_digit(#[trigger] part[j]) by {
                if j < part.len() - 1 {
                    assert(part[j] == body.take(i - from)[j]);
                }
            }
        }
        i = i + 1;
    }
    assert(body.take(body.len() as int) =~= body);
    Some(n)
}

pub fn parse_u64(s: &str) -> (r: Option<u64>)
    ensures
        r is Some <==> parse_unsigned(s@, u64::MAX as nat) is Some,
        r matches Some(n) ==> parse_unsigned(s@, u64::MAX as nat) == Some(n as nat),
{
    let v = to_chars(s);
    assert(s@.skip(0) =~= s@);
    if v.len() > 0 && v[0] == '+' {
        parse_digits(&v, 1)
    } else {
        parse_digits(&v, 0)
    }
}

pub fn parse_usize(s: &str) -> (r: Option<usize>)
    ensures
        r is Some <==> parse_unsigned(s@, usize::MAX as nat) is Some,
        r matches Some(n) ==> parse_unsigned(s@, usize::MAX as nat) == Some(n as nat),
{
    match parse_u64(s) {
        None => None,
        Some(n) => {
            if n <= usize::MAX as u64 {
                Some(n as usize)
            } else {
                None
            }
        },
    }
}

/// The number that `s` reads as: an optional sign, then one or more ASCII digits, in the range of
/// `i64`.
pub open spec fn parse_signed(s: Seq<char>) -> Option<int> {
    if first_is(s, '-') {
        let body = s.skip(1);
        if body.len() > 0 && all_digits(body) && digits_value(body) <= 0x8000_0000_0000_0000 {
            Some(-(digits_value(body) as int))
        } else {
            None
        }
    } else {
        match parse_unsigned(s, i64::MAX as nat) {
            Some(n) => Some(n as int),
            None => None,
        }
    }
}

pub fn parse_i64(s: &str) -> (r: Option<i64>)
    ensures
        r is Some <==> parse_signed(s@) is Some,
        r matches Some(n) ==> parse_signed(s@) == Some(n as int),
{
    let v = to_chars(s);
    if v.len() > 0 && v[0] == '-' {
        match parse_digits(&v, 1) {
            None => None,
            Some(n) => {
                if n < 0x8000_0000_0000_0000 {
                    Some(-(n as i64))
                } else if n == 0x8000_0000_0000_0000 {
                    Some(i64::MIN)
                } else {
                    None
                }
            },
        }
    } else {
        match parse_u64(s) {
            None => None,
            Some(n) => {
                if n <= i64::MAX as u64 {
                    Some(n as i64)
                } else {
                    None
                }
            },
        }
    }
}

// ---------------------------------------------------------------------------
// Texts that look like numbers
// ---------------------------------------------------------------------------

/// The number of ASCII digits at the start of `s`.
pub open spec fn digit_run(s: Seq<char>) -> int
    decreases s.len(),
{
    if s.len() == 0 || !is_digit(s[0]) {
        0
    } else {
        1 + digit_run(s.drop_first())
    }
}

pub open spec fn skip_sign(s: Seq<char>) -> Seq<char> {
    if first_is(s, '+') || first_is(s, '-') {
        s.skip(1)
    } else {
        s
    }
}

pub open spec fn exponent_or_end(s: Seq<char>) -> bool {
    ||| s.len() == 0
    ||| (first_is(s, 'e') || first_is(s, 'E')) && skip_sign(s.skip(1)).len() > 0 && all_digits(
        skip_sign(s.skip(1)),
    )
}

/// A number in the shape `[+-]digits[.digits][e[+-]digits]`.
pub open spec fn numeric_like(s: Seq<char>) -> bool {
    let t = skip_sign(s);
    let rest = t.skip(digit_run(t));
    &&& digit_run(t) > 0
    &&& {
        ||| exponent_or_end(rest)
        ||| first_is(rest, '.') && digit_run(rest.skip(1)) > 0 && exponent_or_end(
            rest.skip(1).skip(digit_run(rest.skip(1))),
        )
    }
}

/// The end of the digits from `from` on.
fn skip_digits(v: &Vec<char>, from: usize) -> (k: usize)
    requires
        from <= v@.len(),
    ensures
        from <= k <= v@.len(),
        k == from + digit_run(v@.skip(from as int)),
        k < v@.len() ==> !is_digit(v@[k as int]),
        forall|j: int| from <= j < k ==> is_digit(#[trigger] v@[j]),
{
    let mut i: usize = from;
    while i < v.len() && '0' <= v[i] && v[i] <= '9'
        invariant
            from <= i <= v@.len(),
            i + digit_run(v@.skip(i as int)) == from + digit_run(v@.skip(from as int)),
            forall|j: int| from <= j < i ==> is_digit(#[trigger] v@[j]),
        decreases v.len() - i,
    {
        assert(v@.skip(i as int).drop_first() =~= v@.skip(i + 1));
        i = i + 1;
    }
    i
}

/// Where the text from `from` on goes on after a sign.
fn after_sign(v: &Vec<char>, from: usize) -> (k: usize)
    requires
        from <= v@.len(),
    ensures
        from <= k <= v@.len(),
        v@.skip(k as int) == skip_sign(v@.skip(from as int)),
{
    if from < v.len() && (v[from] == '+' || v[from] == '-') {
        assert(v@.skip(from as int).skip(1) =~= v@.skip(from + 1));
        from + 1
    } else {
        from
    }
}

fn ends_as_exponent(v: &Vec<char>, from: usize) -> (b: bool)
    requires
        from <= v@.len(),
    ensures
        b == exponent_or_end(v@.skip(from as int)),
{
    if from == v.len() {
        return true;
    }
    if v[from] != 'e' && v[from] != 'E' {
        return false;
    }
    let start = after_sign(v, from + 1);
    let ghost tail = v@.skip(start as int);
    assert(v@.skip(from as int).skip(1) =~= v@.skip(from + 1));
    let end = skip_digits(v, start);
    proof {
        if end < v@.len() {
            assert(tail[end - start] == v@[end as int]);
        }
        assert forall|i: int| end == v@.len() && 0 <= i < tail.len() implies is_digit(#[trigger] tail[i]) by {
            assert(tail[i] == v@[start + i]);
        }
    }
    start < v.len() && end == v.len()
}

pub fn is_numeric_like(s: &str) -> (b: bool)
    ensures
        b == numeric_like(s@),
{
    let v = to_chars(s);
    assert(v@.skip(0) =~= v@);
    let start = after_sign(&v, 0);
    let end = skip_digits(&v, start);
    let ghost t = skip_sign(s@);
    let ghost rest = t.skip(digit_run(t));
    assert(rest =~= v@.skip(end as int));
    if end == start {
        return false;
    }
    if ends_as_exponent(&v, end) {
        return true;
    }
    if end < v.len() && v[end] == '.' {
        assert(rest.skip(1) =~= v@.skip(end + 1));
        let fraction = skip_digits(&v, end + 1);
        assert(rest.skip(1).skip(digit_run(rest.skip(1))) =~= v@.skip(fraction as int));
        return fraction > end + 1 && ends_as_exponent(&v, fraction);
    }
    false
}

/// The characters of a number.
pub open spec fn numeric_char(c: char) -> bool {
    is_digit(c) || c == '+' || c == '-' || c == '.' || c == 'e' || c == 'E'
}

proof fn lemma_digit_run(s: Seq<char>)
    ensures
        0 <= digit_run(s) <= s.len(),
        forall|i: int| 0 <= i < digit_run(s) ==> is_digit(#[trigger] s[i]),
        digit_run(s) < s.len() ==> !is_digit(s[digit_run(s)]),
    decreases s.len(),
{
    if s.len() > 0 && is_digit(s[0]) {
        let r = s.drop_first();
        lemma_digit_run(r);
        assert forall|i: int| 0 <= i < digit_run(s) implies is_digit(#[trigger] s[i]) by {
            if i > 0 {
                assert(s[i] == r[i - 1]);
            }
        }
    }
}

proof fn lemma_digit_run_all(s: Seq<char>)
    requires
        all_digits(s),
    ensures
        digit_run(s) == s.len(),
{
    lemma_digit_run(s);
}

proof fn lemma_exponent_chars(s: Seq<char>)
    requires
        exponent_or_end(s),
    ensures
        forall|i: int| 0 <= i < s.len() ==> numeric_char(#[trigger] s[i]),
{
    if s.len() > 0 {
        let v = skip_sign(s.skip(1));
        let k = s.len() - v.len();
        assert forall|i: int| 0 <= i < s.len() implies numeric_char(#[trigger] s[i]) by {
            if i >= k {
                assert(v[i - k] == s[i]);
            } else if i == 1 {
                assert(s.skip(1)[0] == s[1]);
            }
        }
    }
}

pub proof fn lemma_numeric_chars(s: Seq<char>)
    requires
        numeric_like(s),
    ensures
        s.len() > 0,
        forall|i: int| 0 <= i < s.len() ==> numeric_char(#[trigger] s[i]),
{
    let t = skip_sign(s);
    let k = s.len() - t.len();
    let d = digit_run(t);
    lemma_digit_run(t);
    let rest = t.skip(d);
    let e = digit_run(rest.skip(1));
    if exponent_or_end(rest) {
        lemma_exponent_chars(rest);
    } else {
        lemma_digit_run(rest.skip(1));
        lemma_exponent_chars(rest.skip(1).skip(e));
    }
    assert forall|i: int| 0 <= i < s.len() implies numeric_char(#[trigger] s[i]) by {
        if i >= k + d {
            let j = i - k - d;
            assert(rest[j] == s[i]);
            if !exponent_or_end(rest) && j > 0 {
                assert(rest.skip(1)[j - 1] == s[i]);
                if j - 1 >= e {
                    assert(rest.skip(1).skip(e)[j - 1 - e] == s[i]);
                }
            }
        } else if i >= k {
            assert(t[i - k] == s[i]);
        }
    }
}

/// The decimal form of an integer looks like a number, without a point or an exponent.
pub proof fn lemma_signed_dec_numeric(n: int)
    ensures
        numeric_like(signed_dec(n)),
        first_is(signed_dec(n), '-') <==> n < 0,
        !has_char(signed_dec(n), '.'),
        !has_char(signed_dec(n), 'e'),
{
    let t = signed_dec(n);
    let digits = if n < 0 {
        dec((-n) as nat)
    } else {
        dec(n as nat)
    };
    if n < 0 {
        lemma_dec((-n) as nat);
    } else {
        lemma_dec(n as nat);
    }
    assert(is_digit(digits[0]));
    assert(n < 0 ==> t.skip(1) =~= digits);
    assert(skip_sign(t) =~= digits);
    lemma_digit_run_all(digits);
    assert(digits.skip(digits.len() as int) =~= Seq::<char>::empty());
    assert forall|c: char| c == '.' || c == 'e' implies !has_char(t, c) by {
        if t.contains(c) {
            let j = choose|j: int| 0 <= j < t.len() && t[j] == c;
            if n < 0 {
                if j > 0 {
                    assert(digits[j - 1] == c);
                }
            } else {
                assert(digits[j] == c);
            }
        }
    }
}

// ---------------------------------------------------------------------------
// Order
// ---------------------------------------------------------------------------

/// Whether `a` comes before `b`: by the first character in which they differ, a prefix first. This is
/// also the order of the UTF-8 bytes.
pub open spec fn text_less(a: Seq<char>, b: Seq<char>) -> bool
    decreases a.len(),
{
    if b.len() == 0 {
        false
    } else if a.len() == 0 {
        true
    } else if a[0] != b[0] {
        a[0] < b[0]
    } else {
        text_less(a.drop_first(), b.drop_first())
    }
}

pub proof fn lemma_text_less_irreflexive(a: Seq<char>)
    ensures
        !text_less(a, a),
    decreases a.len(),
{
    if a.len() > 0 {
        lemma_text_less_irreflexive(a.drop_first());
    }
}

pub proof fn lemma_text_less_total(a: Seq<char>, b: Seq<char>)
    ensures
        text_less(a, b) || text_less(b, a) || a == b,
    decreases a.len(),
{
    if a.len() == 0 || b.len() == 0 {
        assert(a.len() == b.len() ==> a =~= b);
    } else if a[0] == b[0] {
        lemma_text_less_total(a.drop_first(), b.drop_first());
        if a.drop_first() == b.drop_first() {
            assert(a =~= seq![a[0]] + a.drop_first());
            assert(b =~= seq![b[0]] + b.drop_first());
        }
    }
}

pub proof fn lemma_text_less_transitive(a: Seq<char>, b: Seq<char>, c: Seq<char>)
    requires
        text_less(a, b),
        text_less(b, c),
    ensures
        text_less(a, c),
    decreases a.len(),
{
    if a.len() > 0 && b.len() > 0 && c.len() > 0 && a[0] == b[0] && b[0] == c[0] {
        lemma_text_less_transitive(a.drop_first(), b.drop_first(), c.drop_first());
    }
}

pub fn text_before(a: &str, b: &str) -> (r: bool)
    ensures
        r == text_less(a@, b@),
{
    let x = to_chars(a);
    let y = to_chars(b);
    let mut i: usize = 0;
    assert(a@.skip(0) =~= a@);
    assert(b@.skip(0) =~= b@);
    loop
        invariant
            x@ == a@,
            y@ == b@,
            i <= x@.len(),
            i <= y@.len(),
            text_less(a@.skip(i as int), b@.skip(i as int)) == text_less(a@, b@),
        decreases x@.len() - i,
    {
        if i == y.len() {
            return false;
        }
        if i == x.len() {
            return true;
        }
        if x[i] != y[i] {
            return x[i] < y[i];
        }
        assert(a@.skip(i as int).drop_first() =~= a@.skip(i + 1));
        assert(b@.skip(i as int).drop_first() =~= b@.skip(i + 1));
        i = i + 1;
    }
}

// ---------------------------------------------------------------------------
// Laws
// ---------------------------------------------------------------------------

/// A text without a break is one line, and a break ends the first one. A carriage return before the
/// break belongs to it.
pub proof fn breaks_end_lines(a: Seq<char>, b: Seq<char>)
    requires
        !a.contains('\n'),
    ensures
        a.len() > 0 ==> split_lines(a) == seq![a],
        a.len() == 0 || a.last() != '\r' ==> split_lines(a + seq!['\n'] + b) == seq![a] + split_lines(b),
        split_lines(a + seq!['\r', '\n'] + b) == seq![a] + split_lines(b),
{
    lemma_absent(a, '\n');
    let s = a + seq!['\n'] + b;
    assert(s =~= a + (seq!['\n'] + b));
    lemma_index_of_shift(a, seq!['\n'] + b, '\n');
    lemma_index_of_is(seq!['\n'] + b, '\n', 0);
    assert(s.take(a.len() as int) =~= a);
    assert(s.skip(a.len() as int + 1) =~= b);
    let c = a.push('\r');
    let t = a + seq!['\r', '\n'] + b;
    assert(!c.contains('\n')) by {
        if c.contains('\n') {
            let k = choose|k: int| 0 <= k < c.len() && c[k] == '\n';
            assert(a[k] == '\n');
        }
    }
    assert(t =~= c + (seq!['\n'] + b));
    lemma_index_of_shift(c, seq!['\n'] + b, '\n');
    assert(t.take(c.len() as int) =~= c);
    assert(t.skip(c.len() as int + 1) =~= b);
    assert(c.drop_last() =~= a);
}

/// Only white space comes off the ends of a text, and all of it does.
pub proof fn only_space_is_trimmed(before: Seq<char>, s: Seq<char>, after: Seq<char>)
    requires
        forall|i: int| 0 <= i < before.len() ==> is_space(#[trigger] before[i]),
        forall|i: int| 0 <= i < after.len() ==> is_space(#[trigger] after[i]),
        s.len() > 0 ==> !is_space(s[0]) && !is_space(s.last()),
    ensures
        trim(before + s + after) == s,
    decreases before.len() + after.len(),
{
    let all = before + s + after;
    if before.len() > 0 {
        let rest = before.drop_first();
        assert forall|i: int| 0 <= i < rest.len() implies is_space(#[trigger] rest[i]) by {
            assert(rest[i] == before[i + 1]);
        }
        only_space_is_trimmed(rest, s, after);
        assert(all.drop_first() =~= rest + s + after);
        assert(is_space(before[0]));
        assert(all[0] == before[0]);
    } else if s.len() > 0 {
        assert(all =~= s + after);
        assert(all[0] == s[0]);
        assert(trim_start(all) == all);
        lemma_trailing_space(s, after);
    } else {
        assert(all =~= after);
        lemma_all_space(after);
    }
}

proof fn lemma_trailing_space(s: Seq<char>, after: Seq<char>)
    requires
        s.len() > 0,
        !is_space(s.last()),
        forall|i: int| 0 <= i < after.len() ==> is_space(#[trigger] after[i]),
    ensures
        trim_end(s + after) == s,
    decreases after.len(),
{
    let all = s + after;
    if after.len() > 0 {
        let rest = after.drop_last();
        assert forall|i: int| 0 <= i < rest.len() implies is_space(#[trigger] rest[i]) by {
            assert(rest[i] == after[i]);
        }
        lemma_trailing_space(s, rest);
        assert(all.drop_last() =~= s + rest);
        assert(is_space(after[after.len() - 1]));
    } else {
        assert(all =~= s);
    }
}

proof fn lemma_all_space(s: Seq<char>)
    requires
        forall|i: int| 0 <= i < s.len() ==> is_space(#[trigger] s[i]),
    ensures
        trim_start(s) == Seq::<char>::empty(),
        trim(s) == Seq::<char>::empty(),
    decreases s.len(),
{
    if s.len() > 0 {
        let rest = s.drop_first();
        assert forall|i: int| 0 <= i < rest.len() implies is_space(#[trigger] rest[i]) by {
            assert(rest[i] == s[i + 1]);
        }
        lemma_all_space(rest);
        assert(is_space(s[0]));
    } else {
        assert(s =~= Seq::<char>::empty());
    }
}

/// White space has no words, and the first word of a text is what stands before the next white space.
pub proof fn words_stand_between_spaces(before: Seq<char>, word: Seq<char>, after: Seq<char>)
    requires
        forall|i: int| 0 <= i < before.len() ==> is_space(#[trigger] before[i]),
        word.len() > 0,
        forall|i: int| 0 <= i < word.len() ==> !is_space(#[trigger] word[i]),
        after.len() > 0 ==> is_space(after[0]),
    ensures
        split_words(before) == Seq::<Seq<char>>::empty(),
        split_words(before + word + after) == seq![word] + split_words(after),
    decreases before.len(),
{
    let all = before + word + after;
    lemma_all_space(before);
    if before.len() > 0 {
        let rest = before.drop_first();
        assert forall|i: int| 0 <= i < rest.len() implies is_space(#[trigger] rest[i]) by {
            assert(rest[i] == before[i + 1]);
        }
        words_stand_between_spaces(rest, word, after);
        assert(all.drop_first() =~= rest + word + after);
        assert(is_space(before[0]));
        assert(all[0] == before[0]);
        assert(trim_start(all) == trim_start(rest + word + after));
    } else {
        assert(all =~= word + after);
        assert(!is_space(word[0]));
        assert(all[0] == word[0]);
        assert(trim_start(all) == all);
        lemma_word_len(all);
        let k = word_len(all);
        assert(k == word.len()) by {
            if k < word.len() {
                assert(is_space(all[k]));
                assert(all[k] == word[k]);
            } else if k > word.len() {
                assert(all[word.len() as int] == after[0]);
            }
        }
        assert(all.take(k) =~= word);
        assert(all.skip(k) =~= after);
    }
}

/// A further part comes last, with the separator before it where there were parts before.
pub proof fn further_parts_come_last(parts: Seq<Seq<char>>, part: Seq<char>, sep: Seq<char>)
    ensures
        join(seq![part], sep) == part,
        parts.len() > 0 ==> join(parts.push(part), sep) == join(parts, sep) + sep + part,
{
    assert(parts.push(part).drop_last() =~= parts);
}

/// A number is written without leading zeros, and a digit sequence reads as the number that it writes.
pub proof fn numbers_read_back(n: int)
    requires
        -0x8000_0000_0000_0000 <= n < 0x8000_0000_0000_0000,
    ensures
        parse_signed(signed_dec(n)) == Some(n),
        n > 0 ==> dec(n as nat)[0] != '0',
        n >= 0 ==> parse_unsigned(dec(n as nat), u64::MAX as nat) == Some(n as nat),
{
    let m = if n < 0 {
        (-n) as nat
    } else {
        n as nat
    };
    lemma_dec(m);
    lemma_no_leading_zero(m);
    let d = dec(m);
    assert(is_digit(d[0]));
    if n < 0 {
        let s = signed_dec(n);
        assert(s[0] == '-');
        assert(s.skip(1) =~= d);
    }
}

proof fn lemma_no_leading_zero(n: nat)
    ensures
        dec(n).len() > 0,
        n > 0 ==> dec(n)[0] != '0',
    decreases n,
{
    if n >= 10 {
        lemma_no_leading_zero(n / 10);
        assert(dec(n)[0] == dec(n / 10)[0]);
    } else if n > 0 {
        assert(dec(n)[0] as int == 48 + n);
    }
}

/// One decimal digit or more, and nothing else.
pub open spec fn is_digits(s: Seq<char>) -> bool {
    s.len() > 0 && forall|i: int| 0 <= i < s.len() ==> '0' <= #[trigger] s[i] <= '9'
}

/// Nothing, or a point and digits.
pub open spec fn is_fraction(s: Seq<char>) -> bool {
    s.len() == 0 || s[0] == '.' && is_digits(s.skip(1))
}

/// Nothing, or an `e`, a sign or none, and digits.
pub open spec fn is_exponent(s: Seq<char>) -> bool {
    ||| s.len() == 0
    ||| (s[0] == 'e' || s[0] == 'E') && (is_digits(s.skip(1)) || s.len() > 1 && (s[1] == '+' || s[1] == '-')
        && is_digits(s.skip(2)))
}

/// The text is a sign or none, digits, a fraction or none, and an exponent or none, which end at the given
/// places.
pub open spec fn is_number_by(s: Seq<char>, a: int, b: int, c: int) -> bool {
    &&& 0 <= a <= 1
    &&& a < b <= c <= s.len()
    &&& a == 1 ==> s[0] == '+' || s[0] == '-'
    &&& is_digits(s.subrange(a, b))
    &&& is_fraction(s.subrange(b, c))
    &&& is_exponent(s.skip(c))
}

proof fn lemma_exponent(s: Seq<char>)
    ensures
        exponent_or_end(s) <==> is_exponent(s),
{
    if s.len() > 0 && (s[0] == 'e' || s[0] == 'E') {
        let t = s.skip(1);
        if t.len() > 0 {
            assert(t[0] == s[1]);
            assert(t.skip(1) =~= s.skip(2));
        }
        lemma_is_digits(t);
        lemma_is_digits(s.skip(2));
        if t.len() > 0 && is_digits(t) {
            assert('0' <= t[0] <= '9');
        }
    }
}

proof fn lemma_is_digits(s: Seq<char>)
    ensures
        is_digits(s) <==> s.len() > 0 && all_digits(s),
{
    if is_digits(s) {
        assert forall|i: int| 0 <= i < s.len() implies is_digit(#[trigger] s[i]) by {
            assert('0' <= s[i] <= '9');
        }
    }
    if s.len() > 0 && all_digits(s) {
        assert forall|i: int| 0 <= i < s.len() implies '0' <= #[trigger] s[i] <= '9' by {
            assert(is_digit(s[i]));
        }
    }
}

proof fn lemma_run_is(s: Seq<char>, k: int)
    requires
        0 <= k <= s.len(),
        forall|i: int| 0 <= i < k ==> is_digit(#[trigger] s[i]),
        k < s.len() ==> !is_digit(s[k]),
    ensures
        digit_run(s) == k,
{
    lemma_digit_run(s);
    let d = digit_run(s);
    if d < k {
        assert(is_digit(s[d]));
    } else if d > k {
        assert(is_digit(s[k]));
    }
}

/// A text looks like a number just where it is a sign or none, digits, a fraction or none, and an
/// exponent or none.
pub proof fn numbers_have_a_shape(s: Seq<char>, a: int, b: int, c: int)
    ensures
        is_number_by(s, a, b, c) ==> numeric_like(s),
        numeric_like(s) ==> exists|x: int, y: int, z: int| #[trigger] is_number_by(s, x, y, z),
{
    if is_number_by(s, a, b, c) {
        let digits = s.subrange(a, b);
        lemma_is_digits(digits);
        assert(is_digit(digits[0]));
        assert(digits[0] == s[a]);
        let t = skip_sign(s);
        assert(t =~= s.skip(a));
        let frac = s.subrange(b, c);
        let exp = s.skip(c);
        assert forall|i: int| 0 <= i < b - a implies is_digit(#[trigger] t[i]) by {
            assert(is_digit(digits[i]));
        }
        if b < s.len() {
            assert(t[b - a] == s[b]);
            if c > b {
                assert(frac[0] == s[b]);
            } else {
                assert(exp[0] == s[b]);
            }
            assert(!is_digit(t[b - a]));
        }
        lemma_run_is(t, b - a);
        let rest = t.skip(b - a);
        assert(rest =~= s.skip(b));
        lemma_exponent(exp);
        if c > b {
            let more = rest.skip(1);
            let tail = frac.skip(1);
            lemma_is_digits(tail);
            assert(rest[0] == frac[0]);
            assert forall|i: int| 0 <= i < c - b - 1 implies is_digit(#[trigger] more[i]) by {
                assert(is_digit(tail[i]));
            }
            if c < s.len() {
                assert(more[c - b - 1] == s[c]);
                assert(exp[0] == s[c]);
            }
            lemma_run_is(more, c - b - 1);
            assert(more.skip(c - b - 1) =~= exp);
        } else {
            assert(rest =~= exp);
        }
    }
    if numeric_like(s) {
        let t = skip_sign(s);
        let x = s.len() - t.len();
        let d = digit_run(t);
        lemma_digit_run(t);
        let rest = t.skip(d);
        let y = x + d;
        assert(t =~= s.skip(x));
        let digits = s.subrange(x, y);
        assert forall|i: int| 0 <= i < digits.len() implies '0' <= #[trigger] digits[i] <= '9' by {
            assert(is_digit(t[i]));
        }
        assert(rest =~= s.skip(y));
        if exponent_or_end(rest) {
            lemma_exponent(rest);
            assert(s.subrange(y, y).len() == 0);
            assert(is_number_by(s, x, y, y));
        } else {
            let more = rest.skip(1);
            let e = digit_run(more);
            lemma_digit_run(more);
            let z = y + 1 + e;
            let frac = s.subrange(y, z);
            assert(frac[0] == rest[0]);
            let tail = frac.skip(1);
            assert forall|i: int| 0 <= i < tail.len() implies '0' <= #[trigger] tail[i] <= '9' by {
                assert(is_digit(more[i]));
                assert(tail[i] == more[i]);
            }
            assert(more.skip(e) =~= s.skip(z));
            lemma_exponent(s.skip(z));
            assert(is_number_by(s, x, y, z));
        }
    }
}

/// A text occurs in every text that is put together around it, and nowhere else; a text starts with what
/// it goes on from.
pub proof fn parts_are_found(before: Seq<char>, part: Seq<char>, after: Seq<char>, s: Seq<char>)
    ensures
        contains_text(before + part + after, part),
        contains_text(s, part) ==> exists|k: int|
            0 <= k && k + part.len() <= s.len() && s == #[trigger] s.take(k) + part + s.skip(
                k + part.len(),
            ),
        starts_with(part + after, part),
        starts_with(s, part) ==> s == part + s.skip(part.len() as int),
{
    let all = before + part + after;
    let at = before.len() as int;
    assert(all.subrange(at, at + part.len()) =~= part);
    assert(occurs_at(all, part, at));
    assert((part + after).take(part.len() as int) =~= part);
    if contains_text(s, part) {
        let k = choose|k: int| occurs_at(s, part, k);
        assert(s =~= s.take(k) + part + s.skip(k + part.len()));
        assert(s == s.take(k) + part + s.skip(k + part.len()));
    }
    if starts_with(s, part) {
        assert(s =~= part + s.skip(part.len() as int));
    }
}

/// Texts are ordered by the first character in which they differ, and a text comes before what goes on
/// from it.
pub proof fn texts_are_ordered_by_character(
    start: Seq<char>,
    x: char,
    y: char,
    a: Seq<char>,
    b: Seq<char>,
)
    ensures
        x != y ==> (text_less(start + seq![x] + a, start + seq![y] + b) <==> x < y),
        text_less(start, start + seq![y] + b),
        !text_less(start + seq![y] + b, start),
    decreases start.len(),
{
    let s = start + seq![x] + a;
    let t = start + seq![y] + b;
    if start.len() > 0 {
        let rest = start.drop_first();
        texts_are_ordered_by_character(rest, x, y, a, b);
        assert(s.drop_first() =~= rest + seq![x] + a);
        assert(t.drop_first() =~= rest + seq![y] + b);
        assert(s[0] == start[0] && t[0] == start[0]);
    } else {
        assert(s[0] == x && t[0] == y);
    }
}

/// A text without the character is one piece, and at each place of the character a piece ends.
pub proof fn pieces_stand_between(a: Seq<char>, b: Seq<char>, c: char)
    requires
        !a.contains(c),
    ensures
        split_at_char(a, c) == seq![a],
        split_at_char(a + seq![c] + b, c) == seq![a] + split_at_char(b, c),
{
    lemma_absent(a, c);
    let s = a + seq![c] + b;
    assert(s =~= a + (seq![c] + b));
    lemma_index_of_shift(a, seq![c] + b, c);
    lemma_index_of_is(seq![c] + b, c, 0);
    assert(s.take(a.len() as int) =~= a);
    assert(s.skip(a.len() as int + 1) =~= b);
}

} // verus!
