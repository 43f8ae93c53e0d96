//! The regular expressions that the compressors look for, and the calls into the `regex` crate.
//!
//! Every expression the library uses is a [`Pattern`], so that compiling one never fails.
use crate::text::{copy_str, digit_run, first_is, option_view, starts_with, views};
use regex::Regex;
use vstd::prelude::*;

verus! {

#[derive(Clone, Copy, Debug, PartialEq, Eq, Structural)]
pub enum Pattern {
    HunkHeader,
    HunkNewRange,
    DiffGit,
    DiffCombined,
    DiffCc,
    OldFile,
    NewFile,
    Binary,
    PriorityError,
    PriorityNote,
    PrioritySecurity,
    LogError,
    LogWarning,
    LogSummary,
    SearchResult,
    LineNumber,
    DataUri,
    StandaloneBase64,
    CredentialField,
    SearchLine,
    LogLevel,
    DiffHeader,
    NakedOldFile,
    HunkMarker,
    NarrativeMarker,
}

impl Pattern {
    /// The regular expression, in the syntax of the `regex` crate.
    pub open spec fn source(self) -> Seq<char> {
        match self {
            Pattern::HunkHeader => r"^(?:@@ -\d+(?:,\d+)? \+\d+(?:,\d+)? @@|@@@ -\d+(?:,\d+)? -\d+(?:,\d+)? \+\d+(?:,\d+)? @@@|@@@@ -\d+(?:,\d+)? -\d+(?:,\d+)? -\d+(?:,\d+)? \+\d+(?:,\d+)? @@@@)(.*)$"@,
            Pattern::HunkNewRange => r"\+(\d+)"@,
            Pattern::DiffGit => r"^diff --git a/(.+) b/(.+)$"@,
            Pattern::DiffCombined => r"^diff --combined (.+)$"@,
            Pattern::DiffCc => r"^diff --cc (.+)$"@,
            Pattern::OldFile => r"^--- (a/(.+)|/dev/null)$"@,
            Pattern::NewFile => r"^\+\+\+ (b/(.+)|/dev/null)$"@,
            Pattern::Binary => r"^Binary files .+ differ$"@,
            Pattern::PriorityError => r"(?i)\b(error|exception|fail(?:ed|ure)?|fatal|critical|crash|panic)\b"@,
            Pattern::PriorityNote => r"(?i)\b(important|note|todo|fixme|hack|xxx|bug|fix)\b"@,
            Pattern::PrioritySecurity => r"(?i)\b(security|auth|password|secret|token)\b"@,
            Pattern::LogError => r"(?i)\b(error|fatal|critical|fail(ed)?)\b"@,
            Pattern::LogWarning => r"(?i)\bwarn(ing)?\b"@,
            Pattern::LogSummary => r"^(={3,}|-{3,}|\d+ (passed|failed|skipped)|TOTAL|Summary)"@,
            Pattern::SearchResult => r"^([^:]+):(\d+):"@,
            Pattern::LineNumber => r"^(\d+)\t"@,
            Pattern::DataUri => r"data:[a-zA-Z0-9/+.-]+;base64,[A-Za-z0-9+/\n]{20,}={0,2}"@,
            Pattern::StandaloneBase64 => r"[A-Za-z0-9+/]{500,}={0,2}"@,
            Pattern::CredentialField => r"(?i)token|secret|password|passwd|api[_-]?key|auth|credential|session[_-]?id"@,
            Pattern::SearchLine => r"^\S+:\d+:"@,
            Pattern::LogLevel => r"(?i)\b(error|warn(ing)?|fatal|fail(ed)?)\b"@,
            Pattern::DiffHeader => r"^diff --(git a/|combined |cc )"@,
            Pattern::NakedOldFile => r"^--- (a/.+|/dev/null)$"@,
            Pattern::HunkMarker => r"^@@ -\d"@,
            Pattern::NarrativeMarker => r"(?i)\b(I had|I remember|I once|I worked with|I saw|I met|there was a|there was an|she said|he said|they said|told me|my (client|patient|daughter|son|friend|colleague)|years ago|one day|a client of mine)\b"@,
        }
    }

    pub fn text(self) -> (s: &'static str)
        ensures
            s@ == self.source(),
    {
        match self {
            Pattern::HunkHeader => r"^(?:@@ -\d+(?:,\d+)? \+\d+(?:,\d+)? @@|@@@ -\d+(?:,\d+)? -\d+(?:,\d+)? \+\d+(?:,\d+)? @@@|@@@@ -\d+(?:,\d+)? -\d+(?:,\d+)? -\d+(?:,\d+)? \+\d+(?:,\d+)? @@@@)(.*)$",
            Pattern::HunkNewRange => r"\+(\d+)",
            Pattern::DiffGit => r"^diff --git a/(.+) b/(.+)$",
            Pattern::DiffCombined => r"^diff --combined (.+)$",
            Pattern::DiffCc => r"^diff --cc (.+)$",
            Pattern::OldFile => r"^--- (a/(.+)|/dev/null)$",
            Pattern::NewFile => r"^\+\+\+ (b/(.+)|/dev/null)$",
            Pattern::Binary => r"^Binary files .+ differ$",
            Pattern::PriorityError => r"(?i)\b(error|exception|fail(?:ed|ure)?|fatal|critical|crash|panic)\b",
            Pattern::PriorityNote => r"(?i)\b(important|note|todo|fixme|hack|xxx|bug|fix)\b",
            Pattern::PrioritySecurity => r"(?i)\b(security|auth|password|secret|token)\b",
            Pattern::LogError => r"(?i)\b(error|fatal|critical|fail(ed)?)\b",
            Pattern::LogWarning => r"(?i)\bwarn(ing)?\b",
            Pattern::LogSummary => r"^(={3,}|-{3,}|\d+ (passed|failed|skipped)|TOTAL|Summary)",
            Pattern::SearchResult => r"^([^:]+):(\d+):",
            Pattern::LineNumber => r"^(\d+)\t",
            Pattern::DataUri => r"data:[a-zA-Z0-9/+.-]+;base64,[A-Za-z0-9+/\n]{20,}={0,2}",
            Pattern::StandaloneBase64 => r"[A-Za-z0-9+/]{500,}={0,2}",
            Pattern::CredentialField => r"(?i)token|secret|password|passwd|api[_-]?key|auth|credential|session[_-]?id",
            Pattern::SearchLine => r"^\S+:\d+:",
            Pattern::LogLevel => r"(?i)\b(error|warn(ing)?|fatal|fail(ed)?)\b",
            Pattern::DiffHeader => r"^diff --(git a/|combined |cc )",
            Pattern::NakedOldFile => r"^--- (a/.+|/dev/null)$",
            Pattern::HunkMarker => r"^@@ -\d",
            Pattern::NarrativeMarker => r"(?i)\b(I had|I remember|I once|I worked with|I saw|I met|there was a|there was an|she said|he said|they said|told me|my (client|patient|daughter|son|friend|colleague)|years ago|one day|a client of mine)\b",
        }
    }

    /// Whether the expression matches somewhere in `text`.
    pub open spec fn matches_in(self, text: Seq<char>) -> bool {
        regex_is_match(self.source(), text)
    }

    /// Whether the expression matches in each of `texts`.
    pub fn match_each(self, texts: &Vec<String>) -> (r: Vec<bool>)
        ensures
            r@.len() == texts@.len(),
            forall|i: int| 0 <= i < r@.len() ==> #[trigger] r@[i] == self.matches_in(texts@[i]@),
    {
        call_is_match(self.text(), texts)
    }

    pub fn is_match(self, text: &str) -> (b: bool)
        ensures
            b == self.matches_in(text@),
    {
        let texts = vec![copy_str(text)];
        let found = self.match_each(&texts);
        found[0]
    }

    /// The text of the first capture group of the leftmost match.
    pub open spec fn group_in(self, text: Seq<char>) -> Option<Seq<char>> {
        regex_group(self.source(), text)
    }

    /// The first capture group in each of `texts`.
    pub fn group_each(self, texts: &Vec<String>) -> (r: Vec<Option<String>>)
        ensures
            r@.len() == texts@.len(),
            forall|i: int|
                0 <= i < r@.len() ==> option_view(#[trigger] r@[i]) == self.group_in(texts@[i]@),
            self == Pattern::LineNumber ==> forall|i: int|
                0 <= i < r@.len() ==> line_number_group(texts@[i]@, option_view(#[trigger] r@[i])),
    {
        call_captures(self.text(), texts)
    }

    pub fn group(self, text: &str) -> (r: Option<String>)
        ensures
            option_view(r) == self.group_in(text@),
    {
        let texts = vec![copy_str(text)];
        let mut found = self.group_each(&texts);
        assert(option_view(found@[0]) == self.group_in(texts@[0]@));
        found.swap_remove(0)
    }

    /// Where the successive matches stand, in characters.
    pub open spec fn spans_in(self, text: Seq<char>) -> Seq<(int, int)> {
        regex_find_iter(self.source(), text)
    }

    pub fn find_all(self, text: &str) -> (r: Vec<(usize, usize)>)
        ensures
            spans_of(r@) == self.spans_in(text@),
            ordered_spans(r@, text@.len()),
            self == Pattern::DataUri || self == Pattern::StandaloneBase64 ==> long_spans(r@)
                && plain_spans(r@, text@) && blob_spans(self, r@, text@),
    {
        call_find_iter(self.text(), text)
    }
}

/// Whether `source` is the text of one of the patterns, and so a valid expression.
pub open spec fn is_pattern(source: Seq<char>) -> bool {
    exists|p: Pattern| #[trigger] p.source() == source
}

// ---------------------------------------------------------------------------
// Facts about single patterns
// ---------------------------------------------------------------------------

/// What the first group of the line-number pattern can be: digits that a tab follows at the start of
/// the text, and the ASCII digits there where a tab follows them.
pub open spec fn line_number_group(text: Seq<char>, group: Option<Seq<char>>) -> bool {
    &&& group matches Some(g) ==> {
        &&& g.len() > 0
        &&& starts_with(text, g.push('\t'))
        &&& forall|i: int| 0 <= i < g.len() ==> #[trigger] g[i] != '+' && g[i] != '\t'
    }
    &&& digit_run(text) > 0 && first_is(text.skip(digit_run(text)), '\t') ==> group == Some(
        text.take(digit_run(text)),
    )
}

pub open spec fn spans_of(v: Seq<(usize, usize)>) -> Seq<(int, int)> {
    Seq::new(v.len(), |i: int| (v[i].0 as int, v[i].1 as int))
}

/// Spans inside a text of `len` characters, none before the end of an earlier one.
pub open spec fn ordered_spans(v: Seq<(usize, usize)>, len: nat) -> bool {
    &&& forall|i: int| 0 <= i < v.len() ==> (#[trigger] v[i]).0 <= v[i].1 <= len
    &&& forall|i: int, j: int| 0 <= i < j < v.len() ==> (#[trigger] v[i]).1 <= (#[trigger] v[j]).0
}

/// Spans of at least twenty characters.
pub open spec fn long_spans(v: Seq<(usize, usize)>) -> bool {
    forall|i: int| 0 <= i < v.len() ==> (#[trigger] v[i]).0 + 20 <= v[i].1
}

/// Spans in which the text has neither a quote nor a backslash.
pub open spec fn plain_spans(v: Seq<(usize, usize)>, text: Seq<char>) -> bool {
    forall|i: int, j: int|
        0 <= i < v.len() && (#[trigger] v[i]).0 <= j < v[i].1 ==> (#[trigger] text[j]) != '"' && text[j]
            != '\\'
}

/// The characters of base64.
pub open spec fn is_base64_char(c: char) -> bool {
    'A' <= c <= 'Z' || 'a' <= c <= 'z' || '0' <= c <= '9' || c == '+' || c == '/'
}

/// The characters of the media type in a data URI.
pub open spec fn is_media_char(c: char) -> bool {
    is_base64_char(c) || c == '.' || c == '-'
}

/// A run of at least five hundred characters of base64.
pub open spec fn is_long_run(s: Seq<char>) -> bool {
    s.len() >= 500 && forall|i: int| 0 <= i < s.len() ==> is_base64_char(#[trigger] s[i])
}

/// A data URI whose media type ends before `m`, with at least twenty characters of base64 and line
/// breaks.
pub open spec fn is_data_uri_at(s: Seq<char>, m: int) -> bool {
    &&& 6 <= m
    &&& m + 28 <= s.len()
    &&& s.take(5) == "data:"@
    &&& forall|i: int| 5 <= i < m ==> is_media_char(#[trigger] s[i])
    &&& s.subrange(m, m + 8) == ";base64,"@
    &&& forall|i: int| m + 8 <= i < s.len() ==> is_base64_char(#[trigger] s[i]) || s[i] == '\n'
}

pub open spec fn is_data_uri(s: Seq<char>) -> bool {
    exists|m: int| #[trigger] is_data_uri_at(s, m)
}

/// Encoded data as one of the two patterns for it finds it, without the signs that fill it up.
pub open spec fn is_blob(p: Pattern, s: Seq<char>) -> bool {
    match p {
        Pattern::DataUri => is_data_uri(s),
        Pattern::StandaloneBase64 => is_long_run(s),
        _ => false,
    }
}

/// The text holds encoded data of the kind that the pattern finds.
pub open spec fn holds_blob(p: Pattern, text: Seq<char>) -> bool {
    exists|i: int, j: int| 0 <= i < j <= text.len() && is_blob(p, #[trigger] text.subrange(i, j))
}

/// Each span is encoded data, and none is missed: whatever encoded data the text holds, a span holds
/// some of it.
pub open spec fn blob_spans(p: Pattern, v: Seq<(usize, usize)>, text: Seq<char>) -> bool {
    &&& forall|k: int|
        0 <= k < v.len() ==> is_blob_span(p, text, (#[trigger] v[k]).0 as int, v[k].1 as int)
    &&& no_blob_missed(p, v, text, 0)
}

/// Between `start` and `end` the text is encoded data, with no more than two signs to fill it up.
pub open spec fn is_blob_span(p: Pattern, text: Seq<char>, start: int, end: int) -> bool {
    exists|j: int|
        start < j && end - 2 <= j <= end && is_blob(p, #[trigger] text.subrange(start, j)) && forall|
            i: int,
        |
            j <= i < end ==> #[trigger] text[i] == '='
}

/// Encoded data in the text from `from` on shares a character with a span.
pub open spec fn no_blob_missed(
    p: Pattern,
    v: Seq<(usize, usize)>,
    text: Seq<char>,
    from: int,
) -> bool {
    forall|i: int, j: int|
        from <= i < j <= text.len() && is_blob(p, #[trigger] text.subrange(i, j)) ==> touched(v, i, j)
}

/// A span has a character between `i` and `j`.
pub open spec fn touched(v: Seq<(usize, usize)>, i: int, j: int) -> bool {
    exists|k: int| 0 <= k < v.len() && (#[trigger] v[k]).0 < j && i < v[k].1
}

// ---------------------------------------------------------------------------
// The calls
// ---------------------------------------------------------------------------

/// Whether the expression `source` matches somewhere in `text`.
pub uninterp spec fn regex_is_match(source: Seq<char>, text: Seq<char>) -> bool;

/// `Regex::is_match` on each of `texts`: its result is a function of the expression and the text.
#[verifier::external_body]
fn call_is_match(source: &str, texts: &Vec<String>) -> (r: Vec<bool>)
    requires
        is_pattern(source@),
    ensures
        r@.len() == texts@.len(),
        forall|i: int| 0 <= i < r@.len() ==> #[trigger] r@[i] == regex_is_match(source@, texts@[i]@),
{
    let re = Regex::new(source).unwrap();
    texts.iter().map(|t| re.is_match(t)).collect()
}

/// The text of the first group in the leftmost match of the expression `source`.
pub uninterp spec fn regex_group(source: Seq<char>, text: Seq<char>) -> Option<Seq<char>>;

/// `Regex::captures` on each of `texts`, of which the first group is taken: a function of the expression
/// and the text.
/// For the line-number pattern the group is a run of decimal digits (of any script) at the start of
/// the text with a tab behind it, and the match is the longest such run.
#[verifier::external_body]
fn call_captures(source: &str, texts: &Vec<String>) -> (r: Vec<Option<String>>)
    requires
        is_pattern(source@),
    ensures
        r@.len() == texts@.len(),
        forall|i: int|
            0 <= i < r@.len() ==> option_view(#[trigger] r@[i]) == regex_group(source@, texts@[i]@),
        source@ == Pattern::LineNumber.source() ==> forall|i: int|
            0 <= i < r@.len() ==> line_number_group(texts@[i]@, option_view(#[trigger] r@[i])),
{
    let re = Regex::new(source).unwrap();
    let first = |t: &String| re.captures(t)?.get(1).map(|m| m.as_str().to_string());
    texts.iter().map(first).collect()
}

/// Where the successive non-overlapping matches of the expression `source` stand, in characters.
pub uninterp spec fn regex_find_iter(source: Seq<char>, text: Seq<char>) -> Seq<(int, int)>;

/// `Regex::find_iter`: the matches from left to right, none of which overlaps an earlier one, with
/// their byte offsets turned into character offsets. The two patterns of encoded data match no fewer
/// than twenty characters, and neither quotes nor backslashes. A match of one of them is data of its
/// shape and up to two equals signs, and since the search goes on at the end of each match and finds
/// what starts first, no data of that shape stands clear of all matches.
#[verifier::external_body]
fn call_find_iter(source: &str, text: &str) -> (r: Vec<(usize, usize)>)
    requires
        is_pattern(source@),
    ensures
        spans_of(r@) == regex_find_iter(source@, text@),
        ordered_spans(r@, text@.len()),
        source@ == Pattern::DataUri.source() || source@ == Pattern::StandaloneBase64.source()
            ==> long_spans(r@) && plain_spans(r@, text@),
        source@ == Pattern::DataUri.source() ==> blob_spans(Pattern::DataUri, r@, text@),
        source@ == Pattern::StandaloneBase64.source() ==> blob_spans(
            Pattern::StandaloneBase64,
            r@,
            text@,
        ),
{
    let chars_before = |end: usize| text[..end].chars().count();
    let re = Regex::new(source).unwrap();
    re.find_iter(text).map(|m| (chars_before(m.start()), chars_before(m.end()))).collect()
}

// ---------------------------------------------------------------------------
// Patterns over lines
// ---------------------------------------------------------------------------

/// How many of `lines` the pattern matches in.
pub open spec fn count_matching(p: Pattern, lines: Seq<Seq<char>>) -> nat
    decreases lines.len(),
{
    if lines.len() == 0 {
        0
    } else {
        count_matching(p, lines.drop_last()) + if p.matches_in(lines.last()) {
            1nat
        } else {
            0nat
        }
    }
}

pub fn count_lines_matching(p: Pattern, lines: &Vec<String>) -> (n: usize)
    ensures
        n == count_matching(p, views(lines@)),
        n <= lines@.len(),
{
    let found = p.match_each(lines);
    let mut n: usize = 0;
    let mut i: usize = 0;
    assert(views(lines@).take(0) =~= Seq::<Seq<char>>::empty());
    while i < lines.len()
        invariant
            n <= i <= lines@.len(),
            found@.len() == lines@.len(),
            forall|j: int| 0 <= j < found@.len() ==> #[trigger] found@[j] == p.matches_in(lines@[j]@),
            n == count_matching(p, views(lines@).take(i as int)),
        decreases lines.len() - i,
    {
        let ghost part = views(lines@).take(i + 1);
        assert(part.drop_last() =~= views(lines@).take(i as int));
        assert(part.last() == lines@[i as int]@);
        if found[i] {
            n = n + 1;
        }
        i = i + 1;
    }
    assert(views(lines@).take(lines@.len() as int) =~= views(lines@));
    n
}

/// The pattern matches in one of `lines` just when at least one line counts.
pub proof fn lemma_count_matching_positive(p: Pattern, lines: Seq<Seq<char>>)
    ensures
        count_matching(p, lines) > 0 <==> exists|i: int|
            0 <= i < lines.len() && p.matches_in(#[trigger] lines[i]),
    decreases lines.len(),
{
    if lines.len() > 0 {
        let rest = lines.drop_last();
        lemma_count_matching_positive(p, rest);
        if count_matching(p, rest) > 0 {
            let i = choose|i: int| 0 <= i < rest.len() && p.matches_in(#[trigger] rest[i]);
            assert(lines[i] == rest[i]);
        }
        if exists|i: int| 0 <= i < lines.len() && p.matches_in(#[trigger] lines[i]) {
            let i = choose|i: int| 0 <= i < lines.len() && p.matches_in(#[trigger] lines[i]);
            if i < rest.len() {
                assert(rest[i] == lines[i]);
            }
        }
    }
}

} // verus!
