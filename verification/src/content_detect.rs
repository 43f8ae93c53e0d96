//! What kind of content a text is.
//!
//! The shape of the text decides first. Where it says nothing, the label of a classifier does.
use crate::json::{json_parse, parse_json, Json};
use crate::patterns::{
    count_lines_matching, count_matching, lemma_count_matching_positive, regex_is_match, Pattern,
};
use crate::text::{
    copy_str, debug_text, first_is, lines, option_view, same_text, split_lines, str_debug,
    text_first_is, trim_start, trim_start_text, views,
};
use vstd::prelude::*;

verus! {

#[derive(Debug, Clone, PartialEq, Eq)]
pub enum ContentKind {
    Json,
    SearchResults,
    Log,
    Diff,
    PlainText,
    Other(String),
}

pub enum KindModel {
    Json,
    SearchResults,
    Log,
    Diff,
    PlainText,
    Other(Seq<char>),
}

impl View for ContentKind {
    type V = KindModel;

    open spec fn view(&self) -> KindModel {
        match self {
            ContentKind::Json => KindModel::Json,
            ContentKind::SearchResults => KindModel::SearchResults,
            ContentKind::Log => KindModel::Log,
            ContentKind::Diff => KindModel::Diff,
            ContentKind::PlainText => KindModel::PlainText,
            ContentKind::Other(label) => KindModel::Other(label@),
        }
    }
}

/// A JSON array or object.
pub open spec fn is_json(content: Seq<char>) -> bool {
    let t = trim_start(content);
    (first_is(t, '[') || first_is(t, '{')) && json_parse(t) is Some
}

pub open spec fn any_line(p: Pattern, lines: Seq<Seq<char>>) -> bool {
    exists|i: int| 0 <= i < lines.len() && p.matches_in(#[trigger] lines[i])
}

/// At least half of the lines name a file and a line.
pub open spec fn is_search_output(lines: Seq<Seq<char>>) -> bool {
    2 * count_matching(Pattern::SearchLine, lines) >= lines.len()
}

pub open spec fn is_diff(lines: Seq<Seq<char>>) -> bool {
    any_line(Pattern::DiffHeader, lines) || any_line(Pattern::NakedOldFile, lines) && any_line(
        Pattern::HunkMarker,
        lines,
    )
}

/// The kind that the shape of the text shows, if it shows one.
pub open spec fn shape_kind(content: Seq<char>) -> Option<KindModel> {
    let ls = split_lines(content);
    if is_json(content) {
        Some(KindModel::Json)
    } else if ls.len() == 0 {
        None
    } else if is_search_output(ls) {
        Some(KindModel::SearchResults)
    } else if is_diff(ls) {
        Some(KindModel::Diff)
    } else if any_line(Pattern::LogLevel, ls) {
        Some(KindModel::Log)
    } else {
        None
    }
}

/// The kind that the label of the classifier stands for.
pub open spec fn label_kind(label: Option<Seq<char>>) -> KindModel {
    match label {
        Some(l) => if l == "txt"@ {
            KindModel::PlainText
        } else {
            KindModel::Other(l)
        },
        None => KindModel::PlainText,
    }
}

pub open spec fn content_kind(content: Seq<char>, label: Option<Seq<char>>) -> KindModel {
    match shape_kind(content) {
        Some(k) => k,
        None => label_kind(label),
    }
}

fn has_match(p: Pattern, lines: &Vec<String>) -> (b: bool)
    ensures
        b == any_line(p, views(lines@)),
{
    let n = count_lines_matching(p, lines);
    proof {
        lemma_count_matching_positive(p, views(lines@));
    }
    n > 0
}

/// The kind that the shape of the text shows, if it shows one.
pub fn detect_shape(content: &str) -> (r: Option<ContentKind>)
    ensures
        r is Some <==> shape_kind(content@) is Some,
        r matches Some(k) ==> shape_kind(content@) == Some(k@),
{
    let trimmed = trim_start_text(content);
    if (text_first_is(trimmed.as_str(), '[') || text_first_is(trimmed.as_str(), '{')) && parse_json(
        trimmed.as_str(),
    ).is_some() {
        return Some(ContentKind::Json);
    }
    let ls = lines(content);
    if ls.len() == 0 {
        return None;
    }
    let search_lines = count_lines_matching(Pattern::SearchLine, &ls);
    if search_lines as u128 * 2 >= ls.len() as u128 {
        return Some(ContentKind::SearchResults);
    }
    if has_match(Pattern::DiffHeader, &ls) || (has_match(Pattern::NakedOldFile, &ls) && has_match(
        Pattern::HunkMarker,
        &ls,
    )) {
        return Some(ContentKind::Diff);
    }
    if has_match(Pattern::LogLevel, &ls) {
        return Some(ContentKind::Log);
    }
    None
}

/// The kind of a text, given the label that the classifier has for it, if any.
pub fn detect(content: &str, label: Option<String>) -> (k: ContentKind)
    ensures
        k@ == content_kind(content@, option_view(label)),
{
    match detect_shape(content) {
        Some(k) => k,
        None => match label {
            Some(l) => {
                if same_text(l.as_str(), "txt") {
                    ContentKind::PlainText
                } else {
                    ContentKind::Other(l)
                }
            },
            None => ContentKind::PlainText,
        },
    }
}

/// The name of a kind, with the label in quotes where it has one.
pub open spec fn kind_text(k: KindModel) -> Seq<char> {
    match k {
        KindModel::Json => "Json"@,
        KindModel::SearchResults => "SearchResults"@,
        KindModel::Log => "Log"@,
        KindModel::Diff => "Diff"@,
        KindModel::PlainText => "PlainText"@,
        KindModel::Other(label) => "Other("@ + str_debug(label) + ")"@,
    }
}

pub fn kind_name(kind: &ContentKind) -> (s: String)
    ensures
        s@ == kind_text(kind@),
{
    match kind {
        ContentKind::Json => copy_str("Json"),
        ContentKind::SearchResults => copy_str("SearchResults"),
        ContentKind::Log => copy_str("Log"),
        ContentKind::Diff => copy_str("Diff"),
        ContentKind::PlainText => copy_str("PlainText"),
        ContentKind::Other(label) => {
            let mut s = copy_str("Other(");
            let quoted = debug_text(label.as_str());
            s.append(quoted.as_str());
            s.append(")");
            s
        },
    }
}

/// What the classifier calls one of its outcomes, and what to call it when it is not sure.
#[derive(Debug)]
pub struct LabelEntry {
    pub label: String,
    pub low_confidence_label: String,
    pub overwrite_label: Option<String>,
}

/// The label of an outcome: the cautious one unless the classifier is confident, and what replaces
/// the label where something does.
pub fn resolve_label(entry: &LabelEntry, confident: bool) -> (s: String)
    ensures
        s@ == (if !confident {
            entry.low_confidence_label@
        } else {
            match option_view(entry.overwrite_label) {
                Some(o) => o,
                None => entry.label@,
            }
        }),
{
    if !confident {
        return copy_str(entry.low_confidence_label.as_str());
    }
    match &entry.overwrite_label {
        Some(o) => copy_str(o.as_str()),
        None => copy_str(entry.label.as_str()),
    }
}

// ---------------------------------------------------------------------------
// What the classifier reads
// ---------------------------------------------------------------------------

pub const BEG_SIZE: usize = 1024;

pub const END_SIZE: usize = 1024;

pub const BLOCK_SIZE: usize = 4096;

/// Stands where there is no byte.
pub const PADDING_TOKEN: i64 = 256;

/// Fewer bytes than this are not classified.
pub const MIN_FILE_SIZE_FOR_DL: usize = 8;

pub open spec fn is_blank_byte(b: u8) -> bool {
    9 <= b <= 13 || b == 32
}

pub open spec fn skip_blank_start(xs: Seq<u8>) -> Seq<u8>
    decreases xs.len(),
{
    if xs.len() > 0 && is_blank_byte(xs[0]) {
        skip_blank_start(xs.drop_first())
    } else {
        xs
    }
}

pub open spec fn skip_blank_end(xs: Seq<u8>) -> Seq<u8>
    decreases xs.len(),
{
    if xs.len() > 0 && is_blank_byte(xs.last()) {
        skip_blank_end(xs.drop_last())
    } else {
        xs
    }
}

pub open spec fn at_most(a: int, b: int) -> int {
    if a < b {
        a
    } else {
        b
    }
}

/// The bytes from the first on, with padding after them.
pub open spec fn left_aligned(src: Seq<u8>, size: nat) -> Seq<i64> {
    Seq::new(
        size,
        |i: int|
            if i < src.len() {
                src[i] as i64
            } else {
                PADDING_TOKEN
            },
    )
}

/// The bytes up to the last, with padding before them.
pub open spec fn right_aligned(src: Seq<u8>, size: nat) -> Seq<i64> {
    Seq::new(
        size,
        |i: int|
            if size - i <= src.len() {
                src[src.len() - (size - i)] as i64
            } else {
                PADDING_TOKEN
            },
    )
}

/// The start and the end of the content, each without the white space around it.
pub open spec fn features(content: Seq<u8>) -> Seq<i64> {
    let n = at_most(BLOCK_SIZE as int, content.len() as int);
    left_aligned(skip_blank_start(content.take(n)), BEG_SIZE as nat) + right_aligned(
        skip_blank_end(content.skip(content.len() - n)),
        END_SIZE as nat,
    )
}

/// The index of the first byte from `lo` on that is not white space.
fn strip_prefix(xs: &[u8], lo: usize, hi: usize) -> (k: usize)
    requires
        lo <= hi <= xs@.len(),
    ensures
        lo <= k <= hi,
        xs@.subrange(k as int, hi as int) == skip_blank_start(xs@.subrange(lo as int, hi as int)),
{
    let mut i: usize = lo;
    while i < hi && ((9 <= xs[i] && xs[i] <= 13) || xs[i] == 32)
        invariant
            lo <= i <= hi <= xs@.len(),
            skip_blank_start(xs@.subrange(i as int, hi as int)) == skip_blank_start(
                xs@.subrange(lo as int, hi as int),
            ),
        decreases hi - i,
    {
        assert(xs@.subrange(i as int, hi as int).drop_first() =~= xs@.subrange(i + 1, hi as int));
        i = i + 1;
    }
    i
}

/// The index behind the last byte before `hi` that is not white space.
fn strip_suffix(xs: &[u8], lo: usize, hi: usize) -> (k: usize)
    requires
        lo <= hi <= xs@.len(),
    ensures
        lo <= k <= hi,
        xs@.subrange(lo as int, k as int) == skip_blank_end(xs@.subrange(lo as int, hi as int)),
{
    let mut j: usize = hi;
    while j > lo && ((9 <= xs[j - 1] && xs[j - 1] <= 13) || xs[j - 1] == 32)
        invariant
            lo <= j <= hi <= xs@.len(),
            skip_blank_end(xs@.subrange(lo as int, j as int)) == skip_blank_end(
                xs@.subrange(lo as int, hi as int),
            ),
        decreases j - lo,
    {
        assert(xs@.subrange(lo as int, j as int).drop_last() =~= xs@.subrange(lo as int, j - 1));
        j = j - 1;
    }
    j
}

/// Puts `size` tokens for the bytes `lo..hi` to `out`: from the first byte on with padding behind, or
/// up to the last byte with padding before.
fn copy_features(out: &mut Vec<i64>, xs: &[u8], lo: usize, hi: usize, size: usize, right_align: bool)
    requires
        lo <= hi <= xs@.len(),
    ensures
        final(out)@ == old(out)@ + (if right_align {
            right_aligned(xs@.subrange(lo as int, hi as int), size as nat)
        } else {
            left_aligned(xs@.subrange(lo as int, hi as int), size as nat)
        }),
{
    let ghost src = xs@.subrange(lo as int, hi as int);
    let ghost before = out@;
    let ghost all = if right_align {
        right_aligned(src, size as nat)
    } else {
        left_aligned(src, size as nat)
    };
    let mut i: usize = 0;
    assert(before + all.take(0) =~= before);
    while i < size
        invariant
            i <= size,
            lo <= hi <= xs@.len(),
            src == xs@.subrange(lo as int, hi as int),
            all == (if right_align {
                right_aligned(src, size as nat)
            } else {
                left_aligned(src, size as nat)
            }),
            out@ == before + all.take(i as int),
        decreases size - i,
    {
        let token: i64 = if right_align {
            if size - i <= hi - lo {
                xs[hi - (size - i)] as i64
            } else {
                PADDING_TOKEN
            }
        } else {
            if i < hi - lo {
                xs[lo + i] as i64
            } else {
                PADDING_TOKEN
            }
        };
        assert(token == all[i as int]);
        out.push(token);
        assert(before + all.take(i + 1) =~= (before + all.take(i as int)).push(token));
        i = i + 1;
    }
    assert(all.take(size as int) =~= all);
}

/// The tokens that the classifier reads of a content, or nothing where the content is too short.
pub fn extract_features(content: &[u8]) -> (r: Option<Vec<i64>>)
    ensures
        r is Some <==> content@.len() > 0 && features(content@)[MIN_FILE_SIZE_FOR_DL - 1] != PADDING_TOKEN,
        r matches Some(v) ==> v@ == features(content@),
{
    let len: usize = content.len();
    if len == 0 {
        return None;
    }
    let n: usize = if BLOCK_SIZE < len {
        BLOCK_SIZE
    } else {
        len
    };
    let start = strip_prefix(content, 0, n);
    let end = strip_suffix(content, len - n, len);
    assert(content@.subrange(0, n as int) =~= content@.take(n as int));
    assert(content@.subrange(len - n, len as int) =~= content@.skip(len - n));
    let mut out: Vec<i64> = Vec::new();
    copy_features(&mut out, content, start, n, BEG_SIZE, false);
    copy_features(&mut out, content, len - n, end, END_SIZE, true);
    assert(out@ =~= features(content@));
    if out[MIN_FILE_SIZE_FOR_DL - 1] == PADDING_TOKEN {
        return None;
    }
    Some(out)
}

// ---------------------------------------------------------------------------
// Laws
// ---------------------------------------------------------------------------

/// A shape decides whatever the classifier says.
pub proof fn shape_comes_first(content: Seq<char>, a: Option<Seq<char>>, b: Option<Seq<char>>)
    requires
        shape_kind(content) is Some,
    ensures
        content_kind(content, a) == content_kind(content, b),
{
}

/// The classifier always reads the same number of tokens.
pub proof fn features_have_one_size(content: Seq<u8>)
    ensures
        features(content).len() == BEG_SIZE + END_SIZE,
{
}

/// The lines in which an expression matches.
pub open spec fn lines_with(source: Seq<char>, lines: Seq<Seq<char>>) -> Seq<Seq<char>> {
    lines.filter(|l: Seq<char>| regex_is_match(source, l))
}

proof fn lemma_lines_with(p: Pattern, lines: Seq<Seq<char>>)
    ensures
        count_matching(p, lines) == lines_with(p.source(), lines).len(),
        any_line(p, lines) <==> lines_with(p.source(), lines).len() > 0,
    decreases lines.len(),
{
    reveal(Seq::filter);
    lemma_count_matching_positive(p, lines);
    if lines.len() > 0 {
        lemma_lines_with(p, lines.drop_last());
    }
}

/// What the shape of a text shows: an array or an object of JSON; else, in a text with lines, at least
/// half of them with a file and a line number; else a header of a diff, or an old file and a hunk; else
/// a word of errors or warnings. Any other text has no shape.
pub proof fn shapes_are_told_by_lines(content: Seq<char>)
    ensures
        ({
            let start = trim_start(content);
            let ls = split_lines(content);
            let json = start.len() > 0 && (start[0] == '[' || start[0] == '{') && json_parse(
                start,
            ) is Some;
            let search = 2 * lines_with(r"^\S+:\d+:"@, ls).len() >= ls.len();
            let diff = lines_with(r"^diff --(git a/|combined |cc )"@, ls).len() > 0 || (lines_with(
                r"^--- (a/.+|/dev/null)$"@,
                ls,
            ).len() > 0 && lines_with(r"^@@ -\d"@, ls).len() > 0);
            let log = lines_with(r"(?i)\b(error|warn(ing)?|fatal|fail(ed)?)\b"@, ls).len() > 0;
            &&& json <==> shape_kind(content) == Some(KindModel::Json)
            &&& !json && ls.len() > 0 && search <==> shape_kind(content) == Some(
                KindModel::SearchResults,
            )
            &&& !json && ls.len() > 0 && !search && diff <==> shape_kind(content) == Some(
                KindModel::Diff,
            )
            &&& !json && ls.len() > 0 && !search && !diff && log <==> shape_kind(content) == Some(
                KindModel::Log,
            )
            &&& !json && (ls.len() == 0 || !search && !diff && !log) <==> shape_kind(content) is None
        }),
{
    let ls = split_lines(content);
    lemma_lines_with(Pattern::SearchLine, ls);
    lemma_lines_with(Pattern::DiffHeader, ls);
    lemma_lines_with(Pattern::NakedOldFile, ls);
    lemma_lines_with(Pattern::HunkMarker, ls);
    lemma_lines_with(Pattern::LogLevel, ls);
}

/// A text without a shape is plain where the classifier says nothing or that it is, and else what the
/// classifier says.
pub proof fn labels_decide_the_rest(content: Seq<char>, label: Seq<char>)
    requires
        shape_kind(content) is None,
    ensures
        content_kind(content, None) == KindModel::PlainText,
        content_kind(content, Some("txt"@)) == KindModel::PlainText,
        label != "txt"@ ==> content_kind(content, Some(label)) == KindModel::Other(label),
{
}

proof fn lemma_blank_start(xs: Seq<u8>, k: int)
    requires
        0 <= k <= xs.len(),
        forall|j: int| 0 <= j < k ==> 9 <= #[trigger] xs[j] <= 13 || xs[j] == 32,
        k < xs.len() ==> !(9 <= xs[k] <= 13 || xs[k] == 32),
    ensures
        skip_blank_start(xs) == xs.skip(k),
    decreases xs.len(),
{
    if k == 0 {
        assert(xs.skip(0) =~= xs);
    } else {
        let rest = xs.drop_first();
        assert(is_blank_byte(xs[0]));
        assert forall|j: int| 0 <= j < k - 1 implies 9 <= #[trigger] rest[j] <= 13 || rest[j] == 32 by {
            assert(rest[j] == xs[j + 1]);
        }
        lemma_blank_start(rest, k - 1);
        assert(rest.skip(k - 1) =~= xs.skip(k));
    }
}

proof fn lemma_blank_end(xs: Seq<u8>, k: int)
    requires
        0 <= k <= xs.len(),
        forall|j: int| k <= j < xs.len() ==> 9 <= #[trigger] xs[j] <= 13 || xs[j] == 32,
        k > 0 ==> !(9 <= xs[k - 1] <= 13 || xs[k - 1] == 32),
    ensures
        skip_blank_end(xs) == xs.take(k),
    decreases xs.len(),
{
    if k == xs.len() {
        assert(xs.take(k) =~= xs);
    } else {
        let rest = xs.drop_last();
        assert(is_blank_byte(xs[xs.len() - 1]));
        assert forall|j: int| k <= j < rest.len() implies 9 <= #[trigger] rest[j] <= 13 || rest[j] == 32 by {
            assert(rest[j] == xs[j]);
        }
        lemma_blank_end(rest, k);
        assert(rest.take(k) =~= xs.take(k));
    }
}

/// The first half of what the classifier reads is the start of the content behind its white space, in
/// so far as it stands in the first 4096 bytes. The mark for no byte fills the rest.
pub proof fn features_start_with_the_content(content: Seq<u8>, k: int, i: int)
    requires
        0 <= k <= content.len(),
        k <= 4096,
        forall|j: int| 0 <= j < k ==> 9 <= #[trigger] content[j] <= 13 || content[j] == 32,
        k < content.len() && k < 4096 ==> !(9 <= content[k] <= 13 || content[k] == 32),
        0 <= i < 1024,
    ensures
        features(content)[i] == (if k + i < content.len() && k + i < 4096 {
            content[k + i] as i64
        } else {
            256
        }),
{
    let n = at_most(BLOCK_SIZE as int, content.len() as int);
    let head = content.take(n);
    lemma_blank_start(head, k);
}

/// The second half is the end of the content before its white space, in so far as it stands in the last
/// 4096 bytes, with the mark for no byte before it.
pub proof fn features_end_with_the_content(content: Seq<u8>, k: int, i: int)
    requires
        0 <= k <= content.len(),
        k <= 4096,
        forall|j: int|
            content.len() - k <= j < content.len() ==> 9 <= #[trigger] content[j] <= 13 || content[j]
                == 32,
        k < content.len() && k < 4096 ==> !(9 <= content[content.len() - 1 - k] <= 13
            || content[content.len() - 1 - k] == 32),
        0 <= i < 1024,
    ensures
        features(content)[2047 - i] == (if k + i < content.len() && k + i < 4096 {
            content[content.len() - 1 - k - i] as i64
        } else {
            256
        }),
{
    let n = at_most(BLOCK_SIZE as int, content.len() as int);
    let tail = content.skip(content.len() - n);
    assert forall|j: int| n - k <= j < tail.len() implies 9 <= #[trigger] tail[j] <= 13 || tail[j] == 32 by {
        assert(tail[j] == content[content.len() - n + j]);
    }
    if n - k > 0 {
        assert(tail[n - k - 1] == content[content.len() - 1 - k]);
    }
    lemma_blank_end(tail, n - k);
}

/// The names of the kinds.
pub proof fn kinds_have_names(label: Seq<char>)
    ensures
        kind_text(KindModel::Json) == "Json"@,
        kind_text(KindModel::SearchResults) == "SearchResults"@,
        kind_text(KindModel::Log) == "Log"@,
        kind_text(KindModel::Diff) == "Diff"@,
        kind_text(KindModel::PlainText) == "PlainText"@,
        kind_text(KindModel::Other(label)) == "Other("@ + str_debug(label) + ")"@,
{
}

/// A content is classified where at least eight bytes of its first 4096 are left behind the white space
/// that it starts with.
pub proof fn eight_bytes_are_enough(content: Seq<u8>, k: int)
    requires
        0 <= k <= content.len(),
        k <= 4096,
        forall|j: int| 0 <= j < k ==> 9 <= #[trigger] content[j] <= 13 || content[j] == 32,
        k < content.len() && k < 4096 ==> !(9 <= content[k] <= 13 || content[k] == 32),
    ensures
        content.len() > 0 && features(content)[MIN_FILE_SIZE_FOR_DL - 1] != PADDING_TOKEN <==> k + 8
            <= content.len() && k + 8 <= 4096,
{
    features_start_with_the_content(content, k, 7);
}

} // verus!
