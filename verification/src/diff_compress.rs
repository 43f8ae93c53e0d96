//! Compression of unified diffs: the least telling files, hunks and context lines go.
use crate::order::{
    arranged, ascending_below, distinct_below, ints, is_subsequence, lemma_sum_arranged,
    lemma_sum_below, lemma_sum_prefix, order_by, signed_keys, stable_order, stable_order_sorts, sum,
};
use crate::patterns::{regex_group, regex_is_match, Pattern};
use crate::text::{
    byte_len, bytes_in, contains_text, copy_str, copy_texts, dec, decimal_usize, first_is,
    is_empty_text, join, join_texts, lemma_views_push, lines, lower, lowercase, parse_unsigned,
    parse_usize, split_lines, split_words, starts_with, text_contains, text_first_is,
    text_starts_with, views, words,
};
use vstd::prelude::*;

verus! {

broadcast use lemma_views_push;

// ---------------------------------------------------------------------------
// Files and hunks
// ---------------------------------------------------------------------------

/// A hunk: its `@@` line and the lines below it.
pub struct DiffHunk {
    pub header: String,
    pub lines: Vec<String>,
}

/// What a diff says of one file.
pub struct DiffFile {
    pub header: String,
    pub old_file: String,
    pub new_file: String,
    pub hunks: Vec<DiffHunk>,
    pub is_binary: bool,
    pub is_new_file: bool,
    pub is_deleted_file: bool,
    pub rename_lines: Vec<String>,
}

pub struct HunkModel {
    pub header: Seq<char>,
    pub lines: Seq<Seq<char>>,
}

pub struct FileModel {
    pub header: Seq<char>,
    pub old_file: Seq<char>,
    pub new_file: Seq<char>,
    pub hunks: Seq<HunkModel>,
    pub is_binary: bool,
    pub is_new_file: bool,
    pub is_deleted_file: bool,
    pub rename_lines: Seq<Seq<char>>,
}

impl View for DiffHunk {
    type V = HunkModel;

    open spec fn view(&self) -> HunkModel {
        HunkModel { header: self.header@, lines: views(self.lines@) }
    }
}

pub open spec fn hunk_models(hs: Seq<DiffHunk>) -> Seq<HunkModel> {
    Seq::new(hs.len(), |i: int| hs[i]@)
}

impl View for DiffFile {
    type V = FileModel;

    open spec fn view(&self) -> FileModel {
        FileModel {
            header: self.header@,
            old_file: self.old_file@,
            new_file: self.new_file@,
            hunks: hunk_models(self.hunks@),
            is_binary: self.is_binary,
            is_new_file: self.is_new_file,
            is_deleted_file: self.is_deleted_file,
            rename_lines: views(self.rename_lines@),
        }
    }
}

pub open spec fn file_models(fs: Seq<DiffFile>) -> Seq<FileModel> {
    Seq::new(fs.len(), |i: int| fs[i]@)
}

// ---------------------------------------------------------------------------
// Parsing
// ---------------------------------------------------------------------------

/// A line that starts the diff of a file.
pub open spec fn is_diff_header(line: Seq<char>) -> bool {
    Pattern::DiffGit.matches_in(line) || Pattern::DiffCombined.matches_in(line)
        || Pattern::DiffCc.matches_in(line)
}

/// What was read so far: the lines before the first file, the files that are done, and the file and
/// the hunk that are open.
pub struct ParseModel {
    pub pre: Seq<Seq<char>>,
    pub files: Seq<FileModel>,
    pub file: Option<FileModel>,
    pub hunk: Option<HunkModel>,
}

pub open spec fn new_file(header: Seq<char>) -> FileModel {
    FileModel {
        header,
        old_file: seq![],
        new_file: seq![],
        hunks: seq![],
        is_binary: false,
        is_new_file: false,
        is_deleted_file: false,
        rename_lines: seq![],
    }
}

/// The open file with the open hunk put to its hunks.
pub open spec fn with_hunk(file: FileModel, hunk: Option<HunkModel>) -> FileModel {
    match hunk {
        Some(h) => FileModel { hunks: file.hunks.push(h), ..file },
        None => file,
    }
}

/// The files with the open one, if there is one.
pub open spec fn closed_files(st: ParseModel) -> Seq<FileModel> {
    match st.file {
        Some(f) => st.files.push(with_hunk(f, st.hunk)),
        None => st.files,
    }
}

pub open spec fn is_rename_line(line: Seq<char>) -> bool {
    starts_with(line, "rename "@) || starts_with(line, "similarity "@) || starts_with(line, "copy "@)
        || starts_with(line, "dissimilarity "@)
}

/// The file with what an extended header line says of it.
pub open spec fn annotated(file: FileModel, line: Seq<char>) -> FileModel {
    if starts_with(line, "new file mode"@) {
        FileModel { is_new_file: true, ..file }
    } else if starts_with(line, "deleted file mode"@) {
        FileModel { is_deleted_file: true, ..file }
    } else if is_rename_line(line) {
        FileModel { rename_lines: file.rename_lines.push(line), ..file }
    } else if Pattern::Binary.matches_in(line) {
        FileModel { is_binary: true, ..file }
    } else {
        file
    }
}

/// What was read after one more line.
pub open spec fn parse_step(st: ParseModel, line: Seq<char>) -> ParseModel {
    if is_diff_header(line) {
        ParseModel { pre: st.pre, files: closed_files(st), file: Some(new_file(line)), hunk: None }
    } else {
        match st.file {
            None => ParseModel { pre: st.pre.push(line), ..st },
            Some(f) => {
                let g = annotated(f, line);
                if Pattern::OldFile.matches_in(line) {
                    ParseModel { file: Some(FileModel { old_file: line, ..g }), ..st }
                } else if Pattern::NewFile.matches_in(line) {
                    ParseModel { file: Some(FileModel { new_file: line, ..g }), ..st }
                } else if Pattern::HunkHeader.matches_in(line) {
                    ParseModel {
                        file: Some(with_hunk(g, st.hunk)),
                        hunk: Some(HunkModel { header: line, lines: seq![] }),
                        ..st
                    }
                } else {
                    match st.hunk {
                        Some(h) => ParseModel {
                            file: Some(g),
                            hunk: Some(HunkModel { lines: h.lines.push(line), ..h }),
                            ..st
                        },
                        None => ParseModel { file: Some(g), ..st },
                    }
                }
            },
        }
    }
}

pub open spec fn nothing_read() -> ParseModel {
    ParseModel { pre: seq![], files: seq![], file: None, hunk: None }
}

pub open spec fn parse_lines(lines: Seq<Seq<char>>) -> ParseModel
    decreases lines.len(),
{
    if lines.len() == 0 {
        nothing_read()
    } else {
        parse_step(parse_lines(lines.drop_last()), lines.last())
    }
}

/// The files of a diff.
pub open spec fn diff_files(lines: Seq<Seq<char>>) -> Seq<FileModel> {
    closed_files(parse_lines(lines))
}

/// The lines before the first file.
pub open spec fn pre_diff_lines(lines: Seq<Seq<char>>) -> Seq<Seq<char>> {
    parse_lines(lines).pre
}

struct ParseState {
    pre: Vec<String>,
    files: Vec<DiffFile>,
    file: Option<DiffFile>,
    hunk: Option<DiffHunk>,
}

impl View for ParseState {
    type V = ParseModel;

    closed spec fn view(&self) -> ParseModel {
        ParseModel {
            pre: views(self.pre@),
            files: file_models(self.files@),
            file: match self.file {
                Some(f) => Some(f@),
                None => None,
            },
            hunk: match self.hunk {
                Some(h) => Some(h@),
                None => None,
            },
        }
    }
}

fn start_file(header: &str) -> (f: DiffFile)
    ensures
        f@ == new_file(header@),
{
    let f = DiffFile {
        header: copy_str(header),
        old_file: String::new(),
        new_file: String::new(),
        hunks: Vec::new(),
        is_binary: false,
        is_new_file: false,
        is_deleted_file: false,
        rename_lines: Vec::new(),
    };
    assert(f@.old_file =~= seq![]);
    assert(f@.new_file =~= seq![]);
    assert(f@.hunks =~= seq![]);
    assert(f@.rename_lines =~= seq![]);
    f
}

fn put_hunk(file: DiffFile, hunk: Option<DiffHunk>) -> (f: DiffFile)
    ensures
        f@ == with_hunk(
            file@,
            match hunk {
                Some(h) => Some(h@),
                None => None,
            },
        ),
{
    let mut file = file;
    match hunk {
        Some(h) => {
            let ghost before = file.hunks@;
            let ghost hm = h@;
            file.hunks.push(h);
            assert(hunk_models(file.hunks@) =~= hunk_models(before).push(hm));
            file
        },
        None => file,
    }
}

fn annotate(file: DiffFile, line: &str, binary: bool) -> (f: DiffFile)
    requires
        binary == Pattern::Binary.matches_in(line@),
    ensures
        f@ == annotated(file@, line@),
{
    let mut file = file;
    if text_starts_with(line, "new file mode") {
        file.is_new_file = true;
    } else if text_starts_with(line, "deleted file mode") {
        file.is_deleted_file = true;
    } else if text_starts_with(line, "rename ") || text_starts_with(line, "similarity ")
        || text_starts_with(line, "copy ") || text_starts_with(line, "dissimilarity ") {
        file.rename_lines.push(copy_str(line));
    } else if binary {
        file.is_binary = true;
    }
    file
}

/// What the patterns say of a line.
struct LineFacts {
    header: bool,
    binary: bool,
    old_file: bool,
    new_file: bool,
    hunk: bool,
}

impl LineFacts {
    spec fn hold_of(&self, line: Seq<char>) -> bool {
        &&& self.header == is_diff_header(line)
        &&& self.binary == Pattern::Binary.matches_in(line)
        &&& self.old_file == Pattern::OldFile.matches_in(line)
        &&& self.new_file == Pattern::NewFile.matches_in(line)
        &&& self.hunk == Pattern::HunkHeader.matches_in(line)
    }
}

fn close_files(files: Vec<DiffFile>, file: Option<DiffFile>, hunk: Option<DiffHunk>) -> (out: Vec<
    DiffFile,
>)
    ensures
        file_models(out@) == (match file {
            Some(f) => file_models(files@).push(
                with_hunk(
                    f@,
                    match hunk {
                        Some(h) => Some(h@),
                        None => None,
                    },
                ),
            ),
            None => file_models(files@),
        }),
{
    let mut files = files;
    match file {
        Some(f) => {
            let done = put_hunk(f, hunk);
            let ghost before = files@;
            let ghost dm = done@;
            files.push(done);
            assert(file_models(files@) =~= file_models(before).push(dm));
            files
        },
        None => files,
    }
}

fn step(st: ParseState, line: &str, facts: &LineFacts) -> (next: ParseState)
    requires
        facts.hold_of(line@),
    ensures
        next@ == parse_step(st@, line@),
{
    let ghost old_model = st@;
    let ParseState { pre, files, file, hunk } = st;
    let mut pre = pre;
    if facts.header {
        let files = close_files(files, file, hunk);
        return ParseState { pre, files, file: Some(start_file(line)), hunk: None };
    }
    match file {
        None => {
            pre.push(copy_str(line));
            ParseState { pre, files, file: None, hunk }
        },
        Some(f) => {
            let mut f = annotate(f, line, facts.binary);
            if facts.old_file {
                f.old_file = copy_str(line);
                return ParseState { pre, files, file: Some(f), hunk };
            }
            if facts.new_file {
                f.new_file = copy_str(line);
                return ParseState { pre, files, file: Some(f), hunk };
            }
            if facts.hunk {
                let f = put_hunk(f, hunk);
                let h = DiffHunk { header: copy_str(line), lines: Vec::new() };
                assert(views(h.lines@) =~= seq![]);
                return ParseState { pre, files, file: Some(f), hunk: Some(h) };
            }
            match hunk {
                Some(h) => {
                    let mut h = h;
                    h.lines.push(copy_str(line));
                    ParseState { pre, files, file: Some(f), hunk: Some(h) }
                },
                None => ParseState { pre, files, file: Some(f), hunk: None },
            }
        },
    }
}

/// How many hunks the files have.
pub open spec fn hunk_counts(files: Seq<FileModel>) -> Seq<nat> {
    Seq::new(files.len(), |i: int| files[i].hunks.len())
}

spec fn hunks_read(st: ParseModel) -> nat {
    sum(hunk_counts(st.files)) + (match st.file {
        Some(f) => f.hunks.len(),
        None => 0,
    }) + (match st.hunk {
        Some(_) => 1nat,
        None => 0nat,
    })
}

proof fn lemma_hunks_read(lines: Seq<Seq<char>>)
    ensures
        hunks_read(parse_lines(lines)) <= lines.len(),
        parse_lines(lines).hunk is Some ==> parse_lines(lines).file is Some,
        parse_lines(lines).files.len() <= lines.len(),
        parse_lines(lines).file is Some ==> parse_lines(lines).files.len() < lines.len(),
        sum(hunk_counts(diff_files(lines))) <= lines.len(),
    decreases lines.len(),
{
    if lines.len() > 0 {
        lemma_hunks_read(lines.drop_last());
        let st = parse_lines(lines.drop_last());
        lemma_closed_hunks(st);
    } else {
        assert(hunk_counts(nothing_read().files) =~= seq![]);
    }
    lemma_closed_hunks(parse_lines(lines));
}

proof fn lemma_closed_hunks(st: ParseModel)
    requires
        st.hunk is Some ==> st.file is Some,
    ensures
        sum(hunk_counts(closed_files(st))) == hunks_read(st),
{
    match st.file {
        Some(f) => {
            let all = hunk_counts(closed_files(st));
            assert(all.drop_last() =~= hunk_counts(st.files));
            assert(all.last() == with_hunk(f, st.hunk).hunks.len());
        },
        None => {},
    }
}

pub struct ParsedDiff {
    pub pre_diff_lines: Vec<String>,
    pub files: Vec<DiffFile>,
}

pub fn parse_diff(lines: &Vec<String>) -> (r: ParsedDiff)
    ensures
        views(r.pre_diff_lines@) == pre_diff_lines(views(lines@)),
        file_models(r.files@) == diff_files(views(lines@)),
        sum(hunk_counts(file_models(r.files@))) <= lines@.len(),
{
    let git = Pattern::DiffGit.match_each(lines);
    let combined = Pattern::DiffCombined.match_each(lines);
    let cc = Pattern::DiffCc.match_each(lines);
    let binary = Pattern::Binary.match_each(lines);
    let old_file = Pattern::OldFile.match_each(lines);
    let new_file_line = Pattern::NewFile.match_each(lines);
    let hunk = Pattern::HunkHeader.match_each(lines);
    let ghost ls = views(lines@);
    let mut st = ParseState { pre: Vec::new(), files: Vec::new(), file: None, hunk: None };
    assert(st@.pre =~= seq![]);
    assert(st@.files =~= seq![]);
    assert(ls.take(0) =~= seq![]);
    let mut i: usize = 0;
    while i < lines.len()
        invariant
            i <= lines@.len(),
            ls == views(lines@),
            st@ == parse_lines(ls.take(i as int)),
            git@.len() == combined@.len() == cc@.len() == binary@.len() == old_file@.len()
                == new_file_line@.len() == hunk@.len() == lines@.len(),
            forall|j: int| 0 <= j < ls.len() ==> #[trigger] git@[j] == Pattern::DiffGit.matches_in(lines@[j]@),
            forall|j: int|
                0 <= j < ls.len() ==> #[trigger] combined@[j] == Pattern::DiffCombined.matches_in(lines@[j]@),
            forall|j: int| 0 <= j < ls.len() ==> #[trigger] cc@[j] == Pattern::DiffCc.matches_in(lines@[j]@),
            forall|j: int| 0 <= j < ls.len() ==> #[trigger] binary@[j] == Pattern::Binary.matches_in(lines@[j]@),
            forall|j: int|
                0 <= j < ls.len() ==> #[trigger] old_file@[j] == Pattern::OldFile.matches_in(lines@[j]@),
            forall|j: int|
                0 <= j < ls.len() ==> #[trigger] new_file_line@[j] == Pattern::NewFile.matches_in(lines@[j]@),
            forall|j: int|
                0 <= j < ls.len() ==> #[trigger] hunk@[j] == Pattern::HunkHeader.matches_in(lines@[j]@),
        decreases lines.len() - i,
    {
        let facts = LineFacts {
            header: git[i] || combined[i] || cc[i],
            binary: binary[i],
            old_file: old_file[i],
            new_file: new_file_line[i],
            hunk: hunk[i],
        };
        assert(ls[i as int] == lines@[i as int]@);
        assert(ls.take(i + 1).drop_last() =~= ls.take(i as int));
        assert(ls.take(i + 1).last() == ls[i as int]);
        st = step(st, lines[i].as_str(), &facts);
        i = i + 1;
    }
    assert(ls.take(ls.len() as int) =~= ls);
    proof {
        lemma_hunks_read(ls);
    }
    let ghost stm = st@;
    let ParseState { pre, files, file, hunk } = st;
    let files = close_files(files, file, hunk);
    ParsedDiff { pre_diff_lines: pre, files }
}

// ---------------------------------------------------------------------------
// Scores
// ---------------------------------------------------------------------------

/// A line that the diff adds or takes away.
pub open spec fn is_change(line: Seq<char>) -> bool {
    first_is(line, '+') || first_is(line, '-')
}

pub open spec fn change_count(lines: Seq<Seq<char>>) -> nat
    decreases lines.len(),
{
    if lines.len() == 0 {
        0
    } else {
        change_count(lines.drop_last()) + if is_change(lines.last()) {
            1nat
        } else {
            0nat
        }
    }
}

/// How many changes a file has.
pub open spec fn total_changes(hunks: Seq<HunkModel>) -> nat
    decreases hunks.len(),
{
    if hunks.len() == 0 {
        0
    } else {
        total_changes(hunks.drop_last()) + change_count(hunks.last().lines)
    }
}

// A score is a double from 0 to 1. It is held as its multiple of 2^-58, the last place of the smallest
// weight, so that sums and their rounding to 53 bits are exact.

/// 0.03, for each change.
pub const CHANGE_WEIGHT: u64 = 0x1eb851eb851eb8;

/// 0.2, for each word of the context.
pub const WORD_WEIGHT: u64 = 0xccccccccccccd0;

/// 0.3, for a priority word, and the most that changes count for.
pub const PRIORITY_WEIGHT: u64 = 0x133333333333330;

/// 1.0
pub const FULL_SCORE: u64 = 0x400000000000000;

/// The distance between neighbouring doubles at `x`.
pub open spec fn spacing(x: int) -> int {
    if x < 0x20000000000000 {
        1
    } else if x < 0x40000000000000 {
        2
    } else if x < 0x80000000000000 {
        4
    } else if x < 0x100000000000000 {
        8
    } else if x < 0x200000000000000 {
        16
    } else if x < 0x400000000000000 {
        32
    } else {
        64
    }
}

/// The double nearest to `x`; of two equally near ones the even one.
pub open spec fn rounded(x: int) -> int {
    let g = spacing(x);
    let q = x / g;
    let r = x % g;
    if 2 * r > g || 2 * r == g && q % 2 == 1 {
        (q + 1) * g
    } else {
        q * g
    }
}

/// The sum of two scores, at most 1.
pub open spec fn add_score(a: int, b: int) -> int {
    let s = rounded(a + b);
    if s > FULL_SCORE {
        FULL_SCORE as int
    } else {
        s
    }
}

pub open spec fn change_score(changes: nat) -> int {
    if changes >= 10 {
        PRIORITY_WEIGHT as int
    } else {
        rounded(changes * CHANGE_WEIGHT)
    }
}

/// The score with 0.2 for each of the words that has more than two bytes and occurs in the text.
pub open spec fn word_score(score: int, words: Seq<Seq<char>>, text: Seq<char>) -> int
    decreases words.len(),
{
    if words.len() == 0 {
        score
    } else {
        let before = word_score(score, words.drop_last(), text);
        if byte_len(words.last()) > 2 && contains_text(text, words.last()) {
            add_score(before, WORD_WEIGHT as int)
        } else {
            before
        }
    }
}

pub open spec fn has_priority_word(text: Seq<char>) -> bool {
    Pattern::PriorityError.matches_in(text) || Pattern::PriorityNote.matches_in(text)
        || Pattern::PrioritySecurity.matches_in(text)
}

/// How telling a hunk is: by its changes, by the words of the context that occur in it, and by
/// whether a priority word does.
pub open spec fn hunk_score(lines: Seq<Seq<char>>, words: Seq<Seq<char>>) -> int {
    let text = lower(join(lines, "\n"@));
    let score = word_score(change_score(change_count(lines)), words, text);
    if has_priority_word(text) {
        add_score(score, PRIORITY_WEIGHT as int)
    } else {
        score
    }
}

pub open spec fn context_words(context: Seq<char>) -> Seq<Seq<char>> {
    split_words(lower(context))
}

fn spacing_of(x: u64) -> (g: u64)
    ensures
        g == spacing(x as int),
        1 <= g <= 64,
{
    if x < 0x20000000000000 {
        1
    } else if x < 0x40000000000000 {
        2
    } else if x < 0x80000000000000 {
        4
    } else if x < 0x100000000000000 {
        8
    } else if x < 0x200000000000000 {
        16
    } else if x < 0x400000000000000 {
        32
    } else {
        64
    }
}

fn round_score(x: u64) -> (r: u64)
    requires
        x < 0x1000000000000000,
    ensures
        r == rounded(x as int),
        r <= x + 64,
{
    let g: u64 = spacing_of(x);
    let q: u64 = x / g;
    let r: u64 = x % g;
    proof {
        assert(x == g * q + r) by (nonlinear_arith)
            requires
                g > 0,
                q == x / g,
                r == x % g,
        ;
        assert(q * g == g * q) by (nonlinear_arith);
        assert((q + 1) * g == q * g + g) by (nonlinear_arith);
    }
    if 2 * r > g || (2 * r == g && q % 2 == 1) {
        (q + 1) * g
    } else {
        q * g
    }
}

fn add_scores(a: u64, b: u64) -> (r: u64)
    requires
        a <= FULL_SCORE,
        b <= FULL_SCORE,
    ensures
        r == add_score(a as int, b as int),
        r <= FULL_SCORE,
{
    let s = round_score(a + b);
    if s > FULL_SCORE {
        FULL_SCORE
    } else {
        s
    }
}

fn count_changes(lines: &Vec<String>) -> (n: usize)
    ensures
        n == change_count(views(lines@)),
        n <= lines@.len(),
{
    let ghost ls = views(lines@);
    let mut n: usize = 0;
    let mut i: usize = 0;
    assert(ls.take(0) =~= seq![]);
    while i < lines.len()
        invariant
            n <= i <= lines@.len(),
            ls == views(lines@),
            n == change_count(ls.take(i as int)),
        decreases lines.len() - i,
    {
        assert(ls.take(i + 1).drop_last() =~= ls.take(i as int));
        assert(ls.take(i + 1).last() == lines@[i as int]@);
        if text_first_is(lines[i].as_str(), '+') || text_first_is(lines[i].as_str(), '-') {
            n = n + 1;
        }
        i = i + 1;
    }
    assert(ls.take(ls.len() as int) =~= ls);
    n
}

fn score_changes(changes: usize) -> (r: u64)
    ensures
        r == change_score(changes as nat),
        r <= FULL_SCORE,
{
    if changes >= 10 {
        PRIORITY_WEIGHT
    } else {
        round_score(changes as u64 * CHANGE_WEIGHT)
    }
}

fn score_words(score: u64, words: &Vec<String>, text: &str) -> (r: u64)
    requires
        score <= FULL_SCORE,
    ensures
        r == word_score(score as int, views(words@), text@),
        r <= FULL_SCORE,
{
    let ghost ws = views(words@);
    let mut r: u64 = score;
    let mut i: usize = 0;
    assert(ws.take(0) =~= seq![]);
    while i < words.len()
        invariant
            i <= words@.len(),
            ws == views(words@),
            r == word_score(score as int, ws.take(i as int), text@),
            r <= FULL_SCORE,
        decreases words.len() - i,
    {
        assert(ws.take(i + 1).drop_last() =~= ws.take(i as int));
        assert(ws.take(i + 1).last() == words@[i as int]@);
        if bytes_in(words[i].as_str()) > 2 && text_contains(text, words[i].as_str()) {
            r = add_scores(r, WORD_WEIGHT);
        }
        i = i + 1;
    }
    assert(ws.take(ws.len() as int) =~= ws);
    r
}

fn score_hunk(lines: &Vec<String>, words: &Vec<String>) -> (r: u64)
    ensures
        r == hunk_score(views(lines@), views(words@)),
{
    let joined = join_texts(lines, "\n");
    let text = lowercase(joined.as_str());
    let changes = count_changes(lines);
    let score = score_words(score_changes(changes), words, text.as_str());
    if Pattern::PriorityError.is_match(text.as_str()) || Pattern::PriorityNote.is_match(text.as_str())
        || Pattern::PrioritySecurity.is_match(text.as_str()) {
        add_scores(score, PRIORITY_WEIGHT)
    } else {
        score
    }
}

// ---------------------------------------------------------------------------
// Which hunks stay
// ---------------------------------------------------------------------------

/// The line at which the new side of a hunk starts, or 0.
pub open spec fn line_number(header: Seq<char>) -> int {
    match Pattern::HunkNewRange.group_in(header) {
        Some(g) => match parse_unsigned(g, usize::MAX as nat) {
            Some(n) => n as int,
            None => 0,
        },
        None => 0,
    }
}

pub open spec fn negated_scores(hunks: Seq<HunkModel>, words: Seq<Seq<char>>) -> Seq<int> {
    Seq::new(hunks.len(), |i: int| -hunk_score(hunks[i].lines, words))
}

/// The hunks between the first and the last.
pub open spec fn middle_hunks(hunks: Seq<HunkModel>) -> Seq<HunkModel> {
    if hunks.len() >= 2 {
        hunks.subrange(1, hunks.len() - 1)
    } else {
        seq![]
    }
}

/// How many of the hunks in the middle stay.
pub open spec fn middle_slots(hunks: Seq<HunkModel>, max: int) -> int {
    let free = if max > 2 {
        max - 2
    } else {
        0
    };
    if free < middle_hunks(hunks).len() {
        free
    } else {
        middle_hunks(hunks).len() as int
    }
}

/// The hunks of the middle that stay: those with the highest scores.
pub open spec fn best_of_middle(hunks: Seq<HunkModel>, words: Seq<Seq<char>>, max: int) -> Seq<int> {
    stable_order(negated_scores(middle_hunks(hunks), words)).take(middle_slots(hunks, max))
}

/// Indexes in ascending order.
pub open spec fn in_sequence(indexes: Seq<int>) -> Seq<int> {
    arranged(indexes, stable_order(indexes))
}

/// Where the hunks that stay stand: the first, the best of the middle, and the last.
pub open spec fn kept_positions(hunks: Seq<HunkModel>, words: Seq<Seq<char>>, max: int) -> Seq<int> {
    let best = in_sequence(best_of_middle(hunks, words, max));
    seq![0int] + Seq::new(best.len(), |i: int| 1 + best[i]) + if hunks.len() >= 2 {
        seq![hunks.len() - 1]
    } else {
        seq![]
    }
}

/// The hunks of a file that stay, in the sequence in which they appear: all where there are not too many.
pub open spec fn selected_hunks(hunks: Seq<HunkModel>, words: Seq<Seq<char>>, max: int) -> Seq<HunkModel> {
    if hunks.len() <= max || hunks.len() == 0 {
        hunks
    } else {
        arranged(hunks, kept_positions(hunks, words, max))
    }
}

pub open spec fn dropped_hunks(hunks: Seq<HunkModel>, max: int) -> int {
    if hunks.len() <= max || hunks.len() == 0 {
        0
    } else {
        middle_hunks(hunks).len() - middle_slots(hunks, max)
    }
}

impl DiffHunk {
    fn copy(&self) -> (h: DiffHunk)
        ensures
            h@ == self@,
    {
        DiffHunk { header: self.header.clone(), lines: copy_texts(&self.lines) }
    }
}

fn copy_hunks(hunks: &Vec<DiffHunk>, order: &Vec<usize>) -> (out: Vec<DiffHunk>)
    requires
        forall|i: int| 0 <= i < order@.len() ==> #[trigger] order@[i] < hunks@.len(),
    ensures
        hunk_models(out@) == arranged(hunk_models(hunks@), ints(order@)),
{
    let mut out: Vec<DiffHunk> = Vec::new();
    let mut i: usize = 0;
    while i < order.len()
        invariant
            i <= order@.len(),
            out@.len() == i,
            forall|i: int| 0 <= i < order@.len() ==> #[trigger] order@[i] < hunks@.len(),
            forall|j: int| 0 <= j < i ==> (#[trigger] out@[j])@ == hunks@[order@[j] as int]@,
        decreases order.len() - i,
    {
        assert(order@[i as int] < hunks@.len());
        out.push(hunks[order[i]].copy());
        i = i + 1;
    }
    assert(hunk_models(out@) =~= arranged(hunk_models(hunks@), ints(order@)));
    out
}

/// The line at which the new side of a hunk starts, by its header.
pub fn extract_line_number(header: &str) -> (n: usize)
    ensures
        n == line_number(header@),
{
    match Pattern::HunkNewRange.group(header) {
        Some(g) => match parse_usize(g.as_str()) {
            Some(n) => n,
            None => 0,
        },
        None => 0,
    }
}

fn score_keys(hunks: &Vec<DiffHunk>, lo: usize, hi: usize, words: &Vec<String>) -> (keys: Vec<u128>)
    requires
        lo <= hi <= hunks@.len(),
    ensures
        signed_keys(keys@, true) == negated_scores(
            hunk_models(hunks@).subrange(lo as int, hi as int),
            views(words@),
        ),
        keys@.len() == hi - lo,
{
    let ghost part = hunk_models(hunks@).subrange(lo as int, hi as int);
    let mut keys: Vec<u128> = Vec::new();
    let mut i: usize = lo;
    while i < hi
        invariant
            lo <= i <= hi <= hunks@.len(),
            part == hunk_models(hunks@).subrange(lo as int, hi as int),
            keys@.len() == i - lo,
            forall|j: int|
                0 <= j < i - lo ==> #[trigger] keys@[j] == hunk_score(part[j].lines, views(words@)),
        decreases hi - i,
    {
        assert(part[i - lo].lines == views(hunks@[i as int].lines@));
        keys.push(score_hunk(&hunks[i].lines, words) as u128);
        i = i + 1;
    }
    assert(signed_keys(keys@, true) =~= negated_scores(part, views(words@)));
    keys
}

/// The first `k` indexes in ascending order.
fn sequence_of_first(order: &Vec<usize>, k: usize) -> (out: Vec<usize>)
    requires
        k <= order@.len(),
    ensures
        ints(out@) == in_sequence(ints(order@).take(k as int)),
        out@.len() == k,
{
    let ghost some = ints(order@).take(k as int);
    let mut keys: Vec<u128> = Vec::new();
    let mut i: usize = 0;
    while i < k
        invariant
            i <= k <= order@.len(),
            keys@.len() == i,
            forall|j: int| 0 <= j < i ==> #[trigger] keys@[j] == order@[j],
        decreases k - i,
    {
        keys.push(order[i] as u128);
        i = i + 1;
    }
    assert(signed_keys(keys@, false) =~= some);
    let sorted = order_by(&keys, false);
    let mut out: Vec<usize> = Vec::new();
    let mut i: usize = 0;
    while i < k
        invariant
            i <= k <= order@.len(),
            some == ints(order@).take(k as int),
            sorted@.len() == k,
            distinct_below(ints(sorted@), k as int),
            out@.len() == i,
            forall|j: int| 0 <= j < i ==> #[trigger] out@[j] == some[ints(sorted@)[j]],
        decreases k - i,
    {
        assert(ints(sorted@)[i as int] == sorted@[i as int]);
        out.push(order[sorted[i]]);
        i = i + 1;
    }
    assert(ints(out@) =~= in_sequence(some));
    out
}

/// Where the hunks that stay stand, and how many do not.
fn choose_hunks(hunks: &Vec<DiffHunk>, words: &Vec<String>, max: usize) -> (r: (Vec<usize>, usize))
    requires
        hunks@.len() > 0,
    ensures
        ints(r.0@) == kept_positions(hunk_models(hunks@), views(words@), max as int),
        forall|i: int| 0 <= i < r.0@.len() ==> #[trigger] r.0@[i] < hunks@.len(),
        r.1 == middle_hunks(hunk_models(hunks@)).len() - middle_slots(hunk_models(hunks@), max as int),
{
    let ghost hm = hunk_models(hunks@);
    let ghost ws = views(words@);
    let n: usize = hunks.len();
    let hi: usize = if n >= 2 {
        n - 1
    } else {
        1
    };
    let ghost middle = middle_hunks(hm);
    assert(middle =~= hm.subrange(1, hi as int));
    let keys = score_keys(hunks, 1, hi, words);
    let order = order_by(&keys, true);
    let free: usize = if max > 2 {
        max - 2
    } else {
        0
    };
    let slots: usize = if free < hi - 1 {
        free
    } else {
        hi - 1
    };
    let best = sequence_of_first(&order, slots);
    let ghost bs = ints(best@);
    proof {
        lemma_kept_positions(hm, ws, max as int);
    }
    assert forall|j: int| 0 <= j < best@.len() implies 0 <= #[trigger] best@[j] < middle.len() by {
        assert(bs[j] == best@[j]);
    }
    let mut out: Vec<usize> = Vec::new();
    out.push(0);
    let mut i: usize = 0;
    while i < slots
        invariant
            hunks@.len() == n,
            i <= slots == best@.len(),
            slots <= middle.len(),
            middle.len() + 1 <= hunks@.len(),
            forall|j: int| 0 <= j < best@.len() ==> 0 <= #[trigger] best@[j] < middle.len(),
            out@.len() == i + 1,
            out@[0] == 0,
            forall|j: int| 0 <= j < i ==> #[trigger] out@[j + 1] == 1 + best@[j],
        decreases slots - i,
    {
        assert(0 <= best@[i as int] < middle.len());
        out.push(1 + best[i]);
        i = i + 1;
    }
    if n >= 2 {
        out.push(n - 1);
    }
    let ghost all = kept_positions(hm, ws, max as int);
    assert forall|j: int| 0 <= j < ints(out@).len() implies #[trigger] ints(out@)[j] == all[j] by {
        if 0 < j <= slots {
            assert(out@[(j - 1) + 1] == 1 + best@[j - 1]);
            assert(bs[j - 1] == best@[j - 1]);
        }
    }
    assert(ints(out@) =~= all);
    assert forall|i: int| 0 <= i < out@.len() implies #[trigger] out@[i] < hunks@.len() by {
        assert(ints(out@)[i] == out@[i]);
    }
    (out, hi - 1 - slots)
}

/// Indexes that are all different are strictly ascending once they are in sequence.
proof fn lemma_in_sequence(indexes: Seq<int>, n: int)
    requires
        distinct_below(indexes, n),
    ensures
        ascending_below(in_sequence(indexes), n),
        in_sequence(indexes).len() == indexes.len(),
        forall|k: int| indexes.contains(k) <==> #[trigger] in_sequence(indexes).contains(k),
{
    stable_order_sorts(indexes);
    let order = stable_order(indexes);
    let out = in_sequence(indexes);
    assert forall|i: int| 0 <= i < out.len() implies 0 <= #[trigger] out[i] < n by {
        assert(0 <= order[i] < indexes.len());
        assert(0 <= indexes[order[i]] < n);
    }
    assert forall|i: int, j: int| 0 <= i < j < out.len() implies #[trigger] out[i] < #[trigger] out[j] by {
        let a = order[i];
        let b = order[j];
        assert(indexes[a] < indexes[b] || indexes[a] == indexes[b] && a < b);
        if indexes[a] == indexes[b] {
            assert(indexes[a] != indexes[b]);
        }
    }
    assert forall|k: int| indexes.contains(k) <==> #[trigger] out.contains(k) by {
        if indexes.contains(k) {
            let i = choose|i: int| 0 <= i < indexes.len() && indexes[i] == k;
            assert(order.contains(i));
            let j = choose|j: int| 0 <= j < order.len() && order[j] == i;
            assert(out[j] == k);
        }
        if out.contains(k) {
            let j = choose|j: int| 0 <= j < out.len() && out[j] == k;
            assert(indexes[order[j]] == k);
        }
    }
}

proof fn lemma_best_of_middle(hunks: Seq<HunkModel>, words: Seq<Seq<char>>, max: int)
    requires
        hunks.len() > 0,
        0 <= max,
    ensures
        best_of_middle(hunks, words, max).len() == middle_slots(hunks, max),
        distinct_below(best_of_middle(hunks, words, max), middle_hunks(hunks).len() as int),
{
    let keys = negated_scores(middle_hunks(hunks), words);
    stable_order_sorts(keys);
    let order = stable_order(keys);
    let best = best_of_middle(hunks, words, max);
    assert forall|i: int| 0 <= i < best.len() implies 0 <= #[trigger] best[i] < keys.len() by {
        assert(best[i] == order[i]);
    }
    assert forall|i: int, j: int| 0 <= i < j < best.len() implies #[trigger] best[i] != #[trigger] best[j] by {
        assert(best[i] == order[i] && best[j] == order[j]);
    }
}

proof fn lemma_kept_positions(hunks: Seq<HunkModel>, words: Seq<Seq<char>>, max: int)
    requires
        hunks.len() > 0,
        0 <= max,
    ensures
        ascending_below(kept_positions(hunks, words, max), hunks.len() as int),
        ascending_below(
            in_sequence(best_of_middle(hunks, words, max)),
            middle_hunks(hunks).len() as int,
        ),
        in_sequence(best_of_middle(hunks, words, max)).len() == middle_slots(hunks, max),
{
    let n = hunks.len() as int;
    let best = best_of_middle(hunks, words, max);
    lemma_best_of_middle(hunks, words, max);
    lemma_in_sequence(best, middle_hunks(hunks).len() as int);
    let seq = in_sequence(best);
    let p = kept_positions(hunks, words, max);
    assert forall|i: int| 0 <= i < p.len() implies 0 <= #[trigger] p[i] < n by {
        if 0 < i <= seq.len() {
            assert(p[i] == 1 + seq[i - 1]);
        }
    }
    assert forall|i: int, j: int| 0 <= i < j < p.len() implies #[trigger] p[i] < #[trigger] p[j] by {
        if 0 < i <= seq.len() {
            assert(p[i] == 1 + seq[i - 1]);
        }
        if 0 < j <= seq.len() {
            assert(p[j] == 1 + seq[j - 1]);
        }
    }
}

fn all_hunks(hunks: &Vec<DiffHunk>) -> (out: Vec<DiffHunk>)
    ensures
        hunk_models(out@) == hunk_models(hunks@),
{
    let mut out: Vec<DiffHunk> = Vec::new();
    let mut i: usize = 0;
    while i < hunks.len()
        invariant
            i <= hunks@.len(),
            out@.len() == i,
            forall|j: int| 0 <= j < i ==> (#[trigger] out@[j])@ == hunks@[j]@,
        decreases hunks.len() - i,
    {
        out.push(hunks[i].copy());
        i = i + 1;
    }
    assert(hunk_models(out@) =~= hunk_models(hunks@));
    out
}

/// The hunks of a file that stay, in the sequence in which they appear, and how many do not.
pub fn select_hunks(hunks: &Vec<DiffHunk>, words: &Vec<String>, max: usize) -> (r: (Vec<DiffHunk>, usize))
    ensures
        hunk_models(r.0@) == selected_hunks(hunk_models(hunks@), views(words@), max as int),
        is_subsequence(hunk_models(r.0@), hunk_models(hunks@)),
        r.1 == dropped_hunks(hunk_models(hunks@), max as int),
        r.1 <= hunks@.len(),
{
    let ghost hm = hunk_models(hunks@);
    if hunks.len() <= max || hunks.len() == 0 {
        proof {
            let all = Seq::new(hm.len(), |i: int| i);
            assert(ascending_below(all, hm.len() as int));
            assert(arranged(hm, all) =~= hm);
        }
        return (all_hunks(hunks), 0);
    }
    let (positions, dropped) = choose_hunks(hunks, words, max);
    proof {
        lemma_kept_positions(hm, views(words@), max as int);
    }
    (copy_hunks(hunks, &positions), dropped)
}

// ---------------------------------------------------------------------------
// Which context lines stay
// ---------------------------------------------------------------------------

/// A change stands at most `context` lines from line `i`.
pub open spec fn near_change(lines: Seq<Seq<char>>, i: int, context: int) -> bool {
    exists|p: int|
        0 <= p < lines.len() && i - context <= p <= i + context && is_change(#[trigger] lines[p])
}

/// The notice that a file does not end in a newline.
pub open spec fn is_notice(line: Seq<char>) -> bool {
    first_is(line, '\\')
}

/// The lines of the first `n` that are near a change, or a notice.
pub open spec fn near_lines(lines: Seq<Seq<char>>, context: int, n: nat) -> Seq<Seq<char>>
    decreases n,
{
    if n == 0 {
        seq![]
    } else {
        let before = near_lines(lines, context, (n - 1) as nat);
        if near_change(lines, n - 1, context) || is_notice(lines[n - 1]) {
            before.push(lines[n - 1])
        } else {
            before
        }
    }
}

/// The lines of a hunk that stay: those near a change, or the first few where there is no change.
pub open spec fn reduced_lines(lines: Seq<Seq<char>>, context: int) -> Seq<Seq<char>> {
    if change_count(lines) == 0 {
        if context < lines.len() {
            lines.take(context)
        } else {
            lines
        }
    } else {
        near_lines(lines, context, lines.len())
    }
}

pub open spec fn reduced_hunk(hunk: HunkModel, context: int) -> HunkModel {
    HunkModel { header: hunk.header, lines: reduced_lines(hunk.lines, context) }
}

proof fn lemma_change_count(lines: Seq<Seq<char>>)
    ensures
        change_count(lines) == 0 <==> forall|i: int|
            0 <= i < lines.len() ==> !is_change(#[trigger] lines[i]),
    decreases lines.len(),
{
    if lines.len() > 0 {
        let rest = lines.drop_last();
        lemma_change_count(rest);
        assert(forall|i: int| 0 <= i < rest.len() ==> rest[i] == lines[i]);
        assert(lines.last() == lines[lines.len() - 1]);
    }
}

fn is_near_change(lines: &Vec<String>, i: usize, context: usize) -> (b: bool)
    requires
        i < lines@.len(),
    ensures
        b == near_change(views(lines@), i as int, context as int),
{
    let ghost ls = views(lines@);
    let n: usize = lines.len();
    let lo: usize = if i > context {
        i - context
    } else {
        0
    };
    let hi: usize = if n - i > context {
        i + context + 1
    } else {
        n
    };
    let mut p: usize = lo;
    while p < hi
        invariant
            lo <= p <= hi <= n == lines@.len(),
            ls == views(lines@),
            i < n,
            lo == (if i > context {
                i - context
            } else {
                0
            }),
            hi == (if n - i > context {
                i + context + 1
            } else {
                n as int
            }),
            forall|q: int| lo <= q < p ==> !is_change(#[trigger] ls[q]),
        decreases hi - p,
    {
        assert(ls[p as int] == lines@[p as int]@);
        if text_first_is(lines[p].as_str(), '+') || text_first_is(lines[p].as_str(), '-') {
            assert(is_change(ls[p as int]));
            return true;
        }
        p = p + 1;
    }
    false
}

pub fn reduce_context(hunk: &DiffHunk, context: usize) -> (r: DiffHunk)
    ensures
        r@ == reduced_hunk(hunk@, context as int),
{
    let ghost ls = views(hunk.lines@);
    let n: usize = hunk.lines.len();
    let mut out: Vec<String> = Vec::new();
    if count_changes(&hunk.lines) == 0 {
        let take: usize = if context < n {
            context
        } else {
            n
        };
        let mut i: usize = 0;
        while i < take
            invariant
                i <= take <= hunk.lines@.len(),
                out@.len() == i,
                forall|j: int| 0 <= j < i ==> (#[trigger] out@[j])@ == hunk.lines@[j]@,
            decreases take - i,
        {
            out.push(hunk.lines[i].clone());
            i = i + 1;
        }
        assert(views(out@) =~= reduced_lines(ls, context as int));
        return DiffHunk { header: hunk.header.clone(), lines: out };
    }
    let mut i: usize = 0;
    assert(views(out@) =~= near_lines(ls, context as int, 0));
    while i < n
        invariant
            i <= n == hunk.lines@.len(),
            ls == views(hunk.lines@),
            views(out@) == near_lines(ls, context as int, i as nat),
        decreases n - i,
    {
        assert(ls[i as int] == hunk.lines@[i as int]@);
        if is_near_change(&hunk.lines, i, context) || text_first_is(hunk.lines[i].as_str(), '\\') {
            out.push(hunk.lines[i].clone());
        }
        i = i + 1;
    }
    DiffHunk { header: hunk.header.clone(), lines: out }
}

// ---------------------------------------------------------------------------
// The whole diff
// ---------------------------------------------------------------------------

pub struct DiffCompressConfig {
    pub max_context_lines: usize,
    pub max_hunks_per_file: usize,
    pub max_files: usize,
}

impl Default for DiffCompressConfig {
    fn default() -> (c: DiffCompressConfig)
        ensures
            c.max_context_lines == 2,
            c.max_hunks_per_file == 10,
            c.max_files == 20,
    {
        DiffCompressConfig { max_context_lines: 2, max_hunks_per_file: 10, max_files: 20 }
    }
}

pub struct DiffCompressResult {
    pub content: String,
    pub original_line_count: usize,
    pub compressed_line_count: usize,
    pub files_affected: usize,
    pub hunks_removed: usize,
}

pub open spec fn negated_changes(files: Seq<FileModel>) -> Seq<int> {
    Seq::new(files.len(), |i: int| -(total_changes(files[i].hunks) as int))
}

/// The files that stay: all, or the ones with the most changes.
pub open spec fn selected_files(files: Seq<FileModel>, max: int) -> Seq<FileModel> {
    if files.len() > max {
        arranged(files, stable_order(negated_changes(files)).take(max))
    } else {
        files
    }
}

/// A file with only the hunks and the context lines that stay.
pub open spec fn compressed_file(
    file: FileModel,
    words: Seq<Seq<char>>,
    max_hunks: int,
    context: int,
) -> FileModel {
    let selected = selected_hunks(file.hunks, words, max_hunks);
    FileModel {
        hunks: Seq::new(selected.len(), |i: int| reduced_hunk(selected[i], context)),
        ..file
    }
}

pub open spec fn compressed_files(
    files: Seq<FileModel>,
    words: Seq<Seq<char>>,
    max_hunks: int,
    context: int,
) -> Seq<FileModel> {
    Seq::new(files.len(), |i: int| compressed_file(files[i], words, max_hunks, context))
}

pub open spec fn dropped_counts(files: Seq<FileModel>, max_hunks: int) -> Seq<nat> {
    Seq::new(files.len(), |i: int| dropped_hunks(files[i].hunks, max_hunks) as nat)
}

pub open spec fn hunk_output(hunks: Seq<HunkModel>) -> Seq<Seq<char>>
    decreases hunks.len(),
{
    if hunks.len() == 0 {
        seq![]
    } else {
        hunk_output(hunks.drop_last()).push(hunks.last().header) + hunks.last().lines
    }
}

pub open spec fn one_if(b: bool, line: Seq<char>) -> Seq<Seq<char>> {
    if b {
        seq![line]
    } else {
        seq![]
    }
}

/// The lines that are written for a file.
pub open spec fn file_output(f: FileModel) -> Seq<Seq<char>> {
    let head = seq![f.header] + f.rename_lines + (if f.is_new_file {
        seq!["new file mode 100644"@]
    } else {
        one_if(f.is_deleted_file, "deleted file mode 100644"@)
    });
    if f.is_binary {
        head.push("Binary files differ"@)
    } else {
        head + one_if(f.old_file.len() > 0, f.old_file) + one_if(f.new_file.len() > 0, f.new_file)
            + hunk_output(f.hunks)
    }
}

pub open spec fn files_output(files: Seq<FileModel>) -> Seq<Seq<char>>
    decreases files.len(),
{
    if files.len() == 0 {
        seq![]
    } else {
        files_output(files.drop_last()) + file_output(files.last())
    }
}

/// The last line: how many files there are and how many hunks are left out.
pub open spec fn footer(files: nat, hunks_removed: nat) -> Seq<char> {
    if hunks_removed > 0 {
        "["@ + dec(files) + " files changed, "@ + dec(hunks_removed) + " hunks omitted]"@
    } else {
        "["@ + dec(files) + " files changed]"@
    }
}

pub open spec fn diff_output(pre: Seq<Seq<char>>, files: Seq<FileModel>, hunks_removed: nat) -> Seq<Seq<char>> {
    pre + files_output(files) + one_if(files.len() > 0, footer(files.len(), hunks_removed))
}

fn push_all(out: &mut Vec<String>, more: &Vec<String>)
    ensures
        views(final(out)@) == views(old(out)@) + views(more@),
{
    let ghost before = views(out@);
    let mut i: usize = 0;
    assert(before + views(more@).take(0) =~= before);
    while i < more.len()
        invariant
            i <= more@.len(),
            views(out@) == before + views(more@).take(i as int),
        decreases more.len() - i,
    {
        out.push(more[i].clone());
        assert(before + views(more@).take(i + 1) =~= (before + views(more@).take(i as int)).push(
            more@[i as int]@,
        ));
        i = i + 1;
    }
    assert(views(more@).take(more@.len() as int) =~= views(more@));
}

#[verifier::rlimit(50)]
fn push_file(out: &mut Vec<String>, f: &DiffFile)
    ensures
        views(final(out)@) == views(old(out)@) + file_output(f@),
{
    let ghost start = views(out@);
    out.push(f.header.clone());
    push_all(out, &f.rename_lines);
    if f.is_new_file {
        out.push(copy_str("new file mode 100644"));
    } else if f.is_deleted_file {
        out.push(copy_str("deleted file mode 100644"));
    }
    let ghost fm = f@;
    let ghost head = seq![fm.header] + fm.rename_lines + (if fm.is_new_file {
        seq!["new file mode 100644"@]
    } else {
        one_if(fm.is_deleted_file, "deleted file mode 100644"@)
    });
    assert(views(out@) =~= start + head);
    if f.is_binary {
        out.push(copy_str("Binary files differ"));
        assert(views(out@) =~= start + file_output(f@));
        return ;
    }
    if !is_empty_text(f.old_file.as_str()) {
        out.push(f.old_file.clone());
    }
    if !is_empty_text(f.new_file.as_str()) {
        out.push(f.new_file.clone());
    }
    let ghost top = head + one_if(fm.old_file.len() > 0, fm.old_file) + one_if(
        fm.new_file.len() > 0,
        fm.new_file,
    );
    assert(views(out@) =~= start + top);
    let ghost hm = hunk_models(f.hunks@);
    let mut i: usize = 0;
    assert(start + top + hunk_output(hm.take(0)) =~= start + top);
    while i < f.hunks.len()
        invariant
            i <= f.hunks@.len(),
            hm == hunk_models(f.hunks@),
            views(out@) == start + top + hunk_output(hm.take(i as int)),
        decreases f.hunks.len() - i,
    {
        let ghost before = views(out@);
        out.push(f.hunks[i].header.clone());
        push_all(out, &f.hunks[i].lines);
        assert(hm.take(i + 1).drop_last() =~= hm.take(i as int));
        assert(hm.take(i + 1).last() == f.hunks@[i as int]@);
        assert(views(out@) =~= start + top + hunk_output(hm.take(i + 1)));
        i = i + 1;
    }
    assert(hm.take(hm.len() as int) =~= hm);
    assert(views(out@) =~= start + file_output(f@));
}

fn footer_text(files: usize, hunks_removed: usize) -> (s: String)
    ensures
        s@ == footer(files as nat, hunks_removed as nat),
{
    let mut s = copy_str("[");
    let count = decimal_usize(files);
    s.append(count.as_str());
    if hunks_removed > 0 {
        s.append(" files changed, ");
        let removed = decimal_usize(hunks_removed);
        s.append(removed.as_str());
        s.append(" hunks omitted]");
    } else {
        s.append(" files changed]");
    }
    s
}

fn format_output(pre: &Vec<String>, files: &Vec<DiffFile>, hunks_removed: usize) -> (s: String)
    ensures
        s@ == join(diff_output(views(pre@), file_models(files@), hunks_removed as nat), "\n"@),
{
    let mut out: Vec<String> = Vec::new();
    push_all(&mut out, pre);
    assert(views(out@) =~= views(pre@));
    let ghost fm = file_models(files@);
    let mut i: usize = 0;
    assert(views(pre@) + files_output(fm.take(0)) =~= views(pre@));
    while i < files.len()
        invariant
            i <= files@.len(),
            fm == file_models(files@),
            views(out@) == views(pre@) + files_output(fm.take(i as int)),
        decreases files.len() - i,
    {
        push_file(&mut out, &files[i]);
        assert(fm.take(i + 1).drop_last() =~= fm.take(i as int));
        assert(fm.take(i + 1).last() == files@[i as int]@);
        assert(views(out@) =~= views(pre@) + files_output(fm.take(i + 1)));
        i = i + 1;
    }
    assert(fm.take(fm.len() as int) =~= fm);
    if files.len() > 0 {
        out.push(footer_text(files.len(), hunks_removed));
    }
    assert(views(out@) =~= diff_output(views(pre@), fm, hunks_removed as nat));
    join_texts(&out, "\n")
}

fn file_changes(hunks: &Vec<DiffHunk>) -> (n: u128)
    ensures
        n == total_changes(hunk_models(hunks@)),
        n <= hunks@.len() * usize::MAX,
{
    let ghost hm = hunk_models(hunks@);
    let total: usize = hunks.len();
    let mut n: u128 = 0;
    let mut i: usize = 0;
    assert(hm.take(0) =~= seq![]);
    while i < total
        invariant
            i <= total == hunks@.len(),
            hm == hunk_models(hunks@),
            n == total_changes(hm.take(i as int)),
            n <= i * usize::MAX,
        decreases total - i,
    {
        let c: usize = count_changes(&hunks[i].lines);
        assert(hm.take(i + 1).drop_last() =~= hm.take(i as int));
        assert(hm.take(i + 1).last().lines == views(hunks@[i as int].lines@));
        assert(i * usize::MAX + usize::MAX == (i + 1) * usize::MAX) by (nonlinear_arith);
        assert((i + 1) * usize::MAX <= usize::MAX * usize::MAX) by (nonlinear_arith)
            requires
                i + 1 <= usize::MAX,
        ;
        assert(usize::MAX * usize::MAX <= u128::MAX) by (nonlinear_arith)
            requires
                usize::MAX <= u64::MAX,
        ;
        n = n + c as u128;
        i = i + 1;
    }
    assert(hm.take(hm.len() as int) =~= hm);
    n
}

fn change_keys(files: &Vec<DiffFile>) -> (keys: Vec<u128>)
    ensures
        signed_keys(keys@, true) == negated_changes(file_models(files@)),
        keys@.len() == files@.len(),
{
    let mut keys: Vec<u128> = Vec::new();
    let mut i: usize = 0;
    while i < files.len()
        invariant
            i <= files@.len(),
            keys@.len() == i,
            forall|j: int|
                0 <= j < i ==> #[trigger] keys@[j] == total_changes(hunk_models(files@[j].hunks@)),
        decreases files.len() - i,
    {
        keys.push(file_changes(&files[i].hunks));
        i = i + 1;
    }
    assert(signed_keys(keys@, true) =~= negated_changes(file_models(files@)));
    keys
}

/// Which files stay, as their indexes.
fn select_files(files: &Vec<DiffFile>, max: usize) -> (order: Vec<usize>)
    ensures
        arranged(file_models(files@), ints(order@)) == selected_files(file_models(files@), max as int),
        distinct_below(ints(order@), files@.len() as int),
{
    let ghost fm = file_models(files@);
    if files.len() > max {
        let keys = change_keys(files);
        let mut order = order_by(&keys, true);
        let ghost all = ints(order@);
        order.truncate(max);
        assert(ints(order@) =~= all.take(max as int));
        assert forall|i: int| 0 <= i < ints(order@).len() implies 0 <= #[trigger] ints(order@)[i] < files@.len() by {
            assert(ints(order@)[i] == all[i]);
        }
        assert forall|i: int, j: int| 0 <= i < j < ints(order@).len() implies #[trigger] ints(order@)[i]
            != #[trigger] ints(order@)[j] by {
            assert(ints(order@)[i] == all[i] && ints(order@)[j] == all[j]);
        }
        return order;
    }
    let mut order: Vec<usize> = Vec::new();
    let mut i: usize = 0;
    while i < files.len()
        invariant
            i <= files@.len(),
            order@.len() == i,
            forall|j: int| 0 <= j < i ==> #[trigger] order@[j] == j,
        decreases files.len() - i,
    {
        order.push(i);
        i = i + 1;
    }
    assert(arranged(fm, ints(order@)) =~= fm);
    order
}

fn compress_file(file: &DiffFile, words: &Vec<String>, max_hunks: usize, context: usize) -> (r: (
    DiffFile,
    usize,
))
    ensures
        r.0@ == compressed_file(file@, views(words@), max_hunks as int, context as int),
        r.1 == dropped_hunks(file@.hunks, max_hunks as int),
        r.1 <= file@.hunks.len(),
{
    let (selected, dropped) = select_hunks(&file.hunks, words, max_hunks);
    let mut hunks: Vec<DiffHunk> = Vec::new();
    let mut i: usize = 0;
    while i < selected.len()
        invariant
            i <= selected@.len(),
            hunks@.len() == i,
            forall|j: int|
                0 <= j < i ==> (#[trigger] hunks@[j])@ == reduced_hunk(selected@[j]@, context as int),
        decreases selected.len() - i,
    {
        hunks.push(reduce_context(&selected[i], context));
        i = i + 1;
    }
    let out = DiffFile {
        header: file.header.clone(),
        old_file: file.old_file.clone(),
        new_file: file.new_file.clone(),
        hunks,
        is_binary: file.is_binary,
        is_new_file: file.is_new_file,
        is_deleted_file: file.is_deleted_file,
        rename_lines: copy_texts(&file.rename_lines),
    };
    assert(out@.hunks =~= compressed_file(file@, views(words@), max_hunks as int, context as int).hunks);
    (out, dropped)
}

/// The text that a diff is compressed to, and the numbers of files and of left-out hunks.
pub open spec fn compressed_diff(
    content: Seq<char>,
    context: Seq<char>,
    config: DiffCompressConfig,
) -> (Seq<char>, nat, nat) {
    let ls = split_lines(content);
    let files = selected_files(diff_files(ls), config.max_files as int);
    let removed = sum(dropped_counts(files, config.max_hunks_per_file as int));
    let out = compressed_files(
        files,
        context_words(context),
        config.max_hunks_per_file as int,
        config.max_context_lines as int,
    );
    if diff_files(ls).len() == 0 {
        (content, 0, 0)
    } else {
        (join(diff_output(pre_diff_lines(ls), out, removed), "\n"@), files.len(), removed)
    }
}

pub fn compress_diff(content: &str, context: &str, config: &DiffCompressConfig) -> (r: DiffCompressResult)
    ensures
        (r.content@, r.files_affected as nat, r.hunks_removed as nat) == compressed_diff(
            content@,
            context@,
            *config,
        ),
        r.original_line_count == split_lines(content@).len(),
        r.compressed_line_count == split_lines(r.content@).len(),
{
    let ls = lines(content);
    let original_line_count: usize = ls.len();
    let parsed = parse_diff(&ls);
    if parsed.files.len() == 0 {
        return DiffCompressResult {
            content: copy_str(content),
            original_line_count,
            compressed_line_count: original_line_count,
            files_affected: 0,
            hunks_removed: 0,
        };
    }
    let ghost fm = file_models(parsed.files@);
    let context_lower = lowercase(context);
    let context_words_found = words(context_lower.as_str());
    let ghost ws = views(context_words_found@);
    let order = select_files(&parsed.files, config.max_files);
    let ghost chosen = arranged(fm, ints(order@));
    let ghost counts = dropped_counts(chosen, config.max_hunks_per_file as int);
    proof {
        lemma_sum_arranged(hunk_counts(fm), ints(order@));
        assert(hunk_counts(chosen) =~= arranged(hunk_counts(fm), ints(order@)));
        assert forall|i: int| 0 <= i < counts.len() implies #[trigger] counts[i] <= hunk_counts(chosen)[i] by {}
        lemma_sum_below(counts, hunk_counts(chosen));
    }
    let mut out: Vec<DiffFile> = Vec::new();
    let mut removed: usize = 0;
    let mut i: usize = 0;
    assert(counts.take(0) =~= seq![]);
    while i < order.len()
        invariant
            i <= order@.len(),
            fm == file_models(parsed.files@),
            ws == views(context_words_found@),
            chosen == arranged(fm, ints(order@)),
            distinct_below(ints(order@), fm.len() as int),
            counts == dropped_counts(chosen, config.max_hunks_per_file as int),
            sum(counts) <= usize::MAX,
            removed == sum(counts.take(i as int)),
            out@.len() == i,
            forall|j: int|
                0 <= j < i ==> (#[trigger] out@[j])@ == compressed_file(
                    chosen[j],
                    ws,
                    config.max_hunks_per_file as int,
                    config.max_context_lines as int,
                ),
        decreases order.len() - i,
    {
        assert(ints(order@)[i as int] == order@[i as int]);
        assert(chosen[i as int] == parsed.files@[order@[i as int] as int]@);
        let (file, dropped) = compress_file(
            &parsed.files[order[i]],
            &context_words_found,
            config.max_hunks_per_file,
            config.max_context_lines,
        );
        assert(counts.take(i + 1).drop_last() =~= counts.take(i as int));
        proof {
            lemma_sum_prefix(counts, i + 1);
        }
        out.push(file);
        removed = removed + dropped;
        i = i + 1;
    }
    assert(counts.take(counts.len() as int) =~= counts);
    assert(file_models(out@) =~= compressed_files(
        chosen,
        ws,
        config.max_hunks_per_file as int,
        config.max_context_lines as int,
    ));
    let files_affected: usize = out.len();
    let compressed = format_output(&parsed.pre_diff_lines, &out, removed);
    let compressed_lines = lines(compressed.as_str());
    DiffCompressResult {
        content: compressed,
        original_line_count,
        compressed_line_count: compressed_lines.len(),
        files_affected,
        hunks_removed: removed,
    }
}

// ---------------------------------------------------------------------------
// Laws
// ---------------------------------------------------------------------------

/// A text without a diff header comes back as it is.
pub proof fn no_header_no_change(content: Seq<char>, context: Seq<char>, config: DiffCompressConfig)
    requires
        forall|i: int|
            0 <= i < split_lines(content).len() ==> !is_diff_header(#[trigger] split_lines(content)[i]),
    ensures
        compressed_diff(content, context, config) == (content, 0nat, 0nat),
{
    lemma_no_header(split_lines(content));
}

proof fn lemma_no_header(ls: Seq<Seq<char>>)
    requires
        forall|i: int| 0 <= i < ls.len() ==> !is_diff_header(#[trigger] ls[i]),
    ensures
        parse_lines(ls).file is None,
        parse_lines(ls).files.len() == 0,
        parse_lines(ls).pre == ls,
    decreases ls.len(),
{
    if ls.len() > 0 {
        let rest = ls.drop_last();
        assert forall|i: int| 0 <= i < rest.len() implies !is_diff_header(#[trigger] rest[i]) by {
            assert(rest[i] == ls[i]);
        }
        lemma_no_header(rest);
        assert(!is_diff_header(ls[ls.len() - 1]));
        assert(rest.push(ls.last()) =~= ls);
    } else {
        assert(parse_lines(ls).pre =~= ls);
    }
}

/// The lines before the first file stand unchanged at the start of the output.
pub proof fn pre_diff_lines_stay(pre: Seq<Seq<char>>, files: Seq<FileModel>, hunks_removed: nat)
    ensures
        diff_output(pre, files, hunks_removed).take(pre.len() as int) == pre,
{
    assert(diff_output(pre, files, hunks_removed).take(pre.len() as int) =~= pre);
}

/// No more files stay than the limit allows.
pub proof fn files_are_capped(files: Seq<FileModel>, max: int)
    requires
        0 <= max,
    ensures
        selected_files(files, max).len() <= max,
{
    stable_order_sorts(negated_changes(files));
}

/// Of a file no more hunks stay than the limit allows, but for its first and its last; and those that
/// stay and those that are dropped are all of them.
pub proof fn hunks_are_capped(hunks: Seq<HunkModel>, words: Seq<Seq<char>>, max: int)
    requires
        0 <= max,
    ensures
        selected_hunks(hunks, words, max).len() <= max || selected_hunks(hunks, words, max).len() <= 2,
        selected_hunks(hunks, words, max).len() + dropped_hunks(hunks, max) == hunks.len(),
{
    if hunks.len() > max && hunks.len() > 0 {
        lemma_kept_positions(hunks, words, max);
    }
}

/// Where a file has more hunks than the limit of two or more allows, as many as the limit stay, in the
/// sequence in which they appear: the first, the last, and of the others those that score no less than
/// any hunk that goes.
pub proof fn the_best_hunks_stay(hunks: Seq<HunkModel>, words: Seq<Seq<char>>, max: int, kept: int, gone: int)
    requires
        2 <= max < hunks.len(),
        0 < kept < hunks.len() - 1,
        0 <= gone < hunks.len(),
        kept_positions(hunks, words, max).contains(kept),
        !kept_positions(hunks, words, max).contains(gone),
    ensures
        selected_hunks(hunks, words, max) == arranged(hunks, kept_positions(hunks, words, max)),
        selected_hunks(hunks, words, max).len() == max,
        ascending_below(kept_positions(hunks, words, max), hunks.len() as int),
        kept_positions(hunks, words, max)[0] == 0,
        kept_positions(hunks, words, max).last() == hunks.len() - 1,
        hunk_score(hunks[kept].lines, words) >= hunk_score(hunks[gone].lines, words),
{
    lemma_kept_positions(hunks, words, max);
    lemma_best_of_middle(hunks, words, max);
    let p = kept_positions(hunks, words, max);
    let best = best_of_middle(hunks, words, max);
    let middle = middle_hunks(hunks);
    lemma_in_sequence(best, middle.len() as int);
    let seq = in_sequence(best);
    let keys = negated_scores(middle, words);
    stable_order_sorts(keys);
    let order = stable_order(keys);
    let i = choose|i: int| 0 <= i < p.len() && p[i] == kept;
    assert(p[i] == 1 + seq[i - 1]);
    assert(seq.contains(kept - 1));
    assert(best.contains(kept - 1));
    let a = choose|a: int| 0 <= a < best.len() && best[a] == kept - 1;
    assert(p[0] == 0 && p[p.len() - 1] == hunks.len() - 1);
    assert(0 < gone < hunks.len() - 1);
    assert(order.contains(gone - 1));
    let b = choose|b: int| 0 <= b < order.len() && order[b] == gone - 1;
    if b < best.len() {
        assert(best[b] == gone - 1);
        assert(seq.contains(gone - 1));
        let j = choose|j: int| 0 <= j < seq.len() && seq[j] == gone - 1;
        assert(p[j + 1] == gone);
    }
    assert(order[a] == kept - 1 && order[b] == gone - 1);
    assert(keys[kept - 1] <= keys[gone - 1]);
    assert(middle[kept - 1] == hunks[kept] && middle[gone - 1] == hunks[gone]);
}

/// Every change of a hunk that stays is kept.
pub proof fn changes_are_kept(lines: Seq<Seq<char>>, context: int, i: int)
    requires
        0 <= context,
        0 <= i < lines.len(),
        is_change(lines[i]),
    ensures
        reduced_lines(lines, context).contains(lines[i]),
{
    lemma_change_count(lines);
    lemma_near_kept(lines, context, lines.len(), i);
}

proof fn lemma_near_kept(lines: Seq<Seq<char>>, context: int, n: nat, i: int)
    requires
        0 <= context,
        0 <= i < n <= lines.len(),
        is_change(lines[i]),
    ensures
        near_lines(lines, context, n).contains(lines[i]),
    decreases n,
{
    let out = near_lines(lines, context, n);
    if i == n - 1 {
        assert(near_change(lines, i, context));
        assert(out.last() == lines[i]);
    } else {
        let before = near_lines(lines, context, (n - 1) as nat);
        lemma_near_kept(lines, context, (n - 1) as nat, i);
        let k = choose|k: int| 0 <= k < before.len() && before[k] == lines[i];
        assert(out[k] == lines[i]);
    }
}

// ---------------------------------------------------------------------------
// What is read
// ---------------------------------------------------------------------------

/// The line starts the diff of a file.
pub open spec fn starts_file(line: Seq<char>) -> bool {
    ||| regex_is_match(r"^diff --git a/(.+) b/(.+)$"@, line)
    ||| regex_is_match(r"^diff --combined (.+)$"@, line)
    ||| regex_is_match(r"^diff --cc (.+)$"@, line)
}

/// The line names the old side of a file.
pub open spec fn names_old_file(line: Seq<char>) -> bool {
    regex_is_match(r"^--- (a/(.+)|/dev/null)$"@, line)
}

/// The line names the new side of a file.
pub open spec fn names_new_file(line: Seq<char>) -> bool {
    regex_is_match(r"^\+\+\+ (b/(.+)|/dev/null)$"@, line)
}

/// The line starts a hunk.
pub open spec fn starts_hunk(line: Seq<char>) -> bool {
    regex_is_match(
        r"^(?:@@ -\d+(?:,\d+)? \+\d+(?:,\d+)? @@|@@@ -\d+(?:,\d+)? -\d+(?:,\d+)? \+\d+(?:,\d+)? @@@|@@@@ -\d+(?:,\d+)? -\d+(?:,\d+)? -\d+(?:,\d+)? \+\d+(?:,\d+)? @@@@)(.*)$"@,
        line,
    )
}

/// The line tells of a renamed or copied file.
pub open spec fn tells_of_rename(line: Seq<char>) -> bool {
    ||| starts_with(line, "rename "@)
    ||| starts_with(line, "similarity "@)
    ||| starts_with(line, "copy "@)
    ||| starts_with(line, "dissimilarity "@)
}

proof fn lemma_open_hunk(lines: Seq<Seq<char>>)
    ensures
        parse_lines(lines).file is None ==> parse_lines(lines).hunk is None && parse_lines(
            lines,
        ).files.len() == 0,
        parse_lines(lines).file matches Some(f) ==> parse_lines(lines).hunk is Some || f.hunks.len()
            == 0,
    decreases lines.len(),
{
    if lines.len() > 0 {
        lemma_open_hunk(lines.drop_last());
    }
}

/// A line that starts the diff of a file adds a file of which nothing else is known yet. What was read
/// before stays as it is.
pub proof fn headers_open_files(lines: Seq<Seq<char>>, line: Seq<char>)
    requires
        starts_file(line),
    ensures
        pre_diff_lines(lines.push(line)) == pre_diff_lines(lines),
        diff_files(lines.push(line)) == diff_files(lines).push(
            FileModel {
                header: line,
                old_file: seq![],
                new_file: seq![],
                hunks: seq![],
                is_binary: false,
                is_new_file: false,
                is_deleted_file: false,
                rename_lines: seq![],
            },
        ),
{
    assert(lines.push(line).drop_last() =~= lines);
}

/// Any other line stays before the files where there is none yet, and else tells of the last file: it
/// starts a hunk, names a side, or belongs to the last hunk.
pub proof fn other_lines_tell_of_the_last_file(lines: Seq<Seq<char>>, line: Seq<char>)
    requires
        !starts_file(line),
    ensures
        ({
            let before = diff_files(lines);
            let after = diff_files(lines.push(line));
            let n = before.len() - 1;
            let f = before[n];
            let g = after[n];
            let side = names_old_file(line) || names_new_file(line);
            &&& before.len() == 0 ==> after == before && pre_diff_lines(lines.push(line))
                == pre_diff_lines(lines).push(line)
            &&& before.len() > 0 ==> {
                &&& pre_diff_lines(lines.push(line)) == pre_diff_lines(lines)
                &&& after.len() == before.len()
                &&& after.take(n) == before.take(n)
                &&& g.header == f.header
                &&& names_old_file(line) ==> g.old_file == line && g.new_file == f.new_file
                &&& !names_old_file(line) && names_new_file(line) ==> g.new_file == line && g.old_file
                    == f.old_file
                &&& !side ==> g.old_file == f.old_file && g.new_file == f.new_file
                &&& side ==> g.hunks == f.hunks
                &&& !side && starts_hunk(line) ==> g.hunks == f.hunks.push(
                    HunkModel { header: line, lines: seq![] },
                )
                &&& !side && !starts_hunk(line) && f.hunks.len() == 0 ==> g.hunks == f.hunks
                &&& !side && !starts_hunk(line) && f.hunks.len() > 0 ==> g.hunks
                    == f.hunks.drop_last().push(
                    HunkModel { header: f.hunks.last().header, lines: f.hunks.last().lines.push(line) },
                )
            }
        }),
{
    let st = parse_lines(lines);
    assert(lines.push(line).drop_last() =~= lines);
    lemma_open_hunk(lines);
    lemma_open_hunk(lines.push(line));
    if st.file is Some {
        let before = diff_files(lines);
        let after = diff_files(lines.push(line));
        let n = before.len() - 1;
        assert(before.take(n) =~= st.files);
        assert(after.take(n) =~= st.files);
        let f = st.file->0;
        let g = annotated(f, line);
        assert(g.hunks == f.hunks && g.old_file == f.old_file && g.new_file == f.new_file && g.header
            == f.header);
        if st.hunk is Some {
            let h = st.hunk->0;
            assert(f.hunks.push(h).drop_last() =~= f.hunks);
        }
    }
}

/// A line of the extended header tells whether the file is new, deleted, renamed or binary.
pub proof fn extended_headers_are_told(lines: Seq<Seq<char>>, line: Seq<char>)
    requires
        !starts_file(line),
        diff_files(lines).len() > 0,
    ensures
        ({
            let f = diff_files(lines).last();
            let g = diff_files(lines.push(line)).last();
            let created = starts_with(line, "new file mode"@);
            let deleted = starts_with(line, "deleted file mode"@);
            let renamed = tells_of_rename(line);
            let binary = regex_is_match(r"^Binary files .+ differ$"@, line);
            &&& g.is_new_file == (f.is_new_file || created)
            &&& g.is_deleted_file == (f.is_deleted_file || !created && deleted)
            &&& !created && !deleted && renamed ==> g.rename_lines == f.rename_lines.push(line)
            &&& created || deleted || !renamed ==> g.rename_lines == f.rename_lines
            &&& g.is_binary == (f.is_binary || !created && !deleted && !renamed && binary)
        }),
{
    assert(lines.push(line).drop_last() =~= lines);
    lemma_open_hunk(lines);
}

// ---------------------------------------------------------------------------
// What is kept
// ---------------------------------------------------------------------------

/// The line is added or taken away.
pub open spec fn changes(line: Seq<char>) -> bool {
    line.len() > 0 && (line[0] == '+' || line[0] == '-')
}

/// How many lines of a hunk are changes.
pub open spec fn changes_in(hunk: HunkModel) -> nat {
    hunk.lines.filter(|l: Seq<char>| changes(l)).len()
}

/// How many changes a file has in all its hunks.
pub open spec fn changes_in_file(file: FileModel) -> nat {
    sum(file.hunks.map_values(|h: HunkModel| changes_in(h)))
}

proof fn lemma_changes(lines: Seq<Seq<char>>)
    ensures
        change_count(lines) == lines.filter(|l: Seq<char>| changes(l)).len(),
    decreases lines.len(),
{
    reveal(Seq::filter);
    if lines.len() > 0 {
        lemma_changes(lines.drop_last());
    }
}

proof fn lemma_changes_in_file(hunks: Seq<HunkModel>)
    ensures
        total_changes(hunks) == sum(hunks.map_values(|h: HunkModel| changes_in(h))),
    decreases hunks.len(),
{
    let count = |h: HunkModel| changes_in(h);
    if hunks.len() > 0 {
        lemma_changes_in_file(hunks.drop_last());
        lemma_changes(hunks.last().lines);
        assert(hunks.map_values(count).drop_last() =~= hunks.drop_last().map_values(count));
        assert(hunks.map_values(count).last() == changes_in(hunks.last()));
    }
}

/// All files stay where there are not too many. Else as many as allowed do, those with the most changes
/// first, and none with fewer changes than a file that goes; of files with as many changes the earlier
/// come first.
pub proof fn the_most_changed_files_stay(files: Seq<FileModel>, max: int) -> (kept: Seq<int>)
    requires
        0 <= max,
    ensures
        files.len() <= max ==> selected_files(files, max) == files,
        files.len() > max ==> ({
            &&& kept.len() == max
            &&& distinct_below(kept, files.len() as int)
            &&& selected_files(files, max) == arranged(files, kept)
            &&& forall|i: int, g: int|
                0 <= i < kept.len() && 0 <= g < files.len() && !kept.contains(g) ==> changes_in_file(
                    files[#[trigger] kept[i]],
                ) >= changes_in_file(#[trigger] files[g])
            &&& forall|i: int, j: int|
                0 <= i < j < kept.len() ==> {
                    let a = changes_in_file(files[#[trigger] kept[i]]);
                    let b = changes_in_file(files[#[trigger] kept[j]]);
                    a > b || a == b && kept[i] < kept[j]
                }
        }),
{
    let keys = negated_changes(files);
    let order = stable_order(keys);
    stable_order_sorts(keys);
    assert forall|i: int| 0 <= i < files.len() implies #[trigger] keys[i] == -(changes_in_file(
        files[i],
    ) as int) by {
        lemma_changes_in_file(files[i].hunks);
    }
    if files.len() > max {
        let kept = order.take(max);
        assert forall|i: int, g: int|
            0 <= i < kept.len() && 0 <= g < files.len() && !kept.contains(g) implies changes_in_file(
            files[#[trigger] kept[i]],
        ) >= changes_in_file(#[trigger] files[g]) by {
            assert(order.contains(g));
            let p = choose|p: int| 0 <= p < order.len() && order[p] == g;
            if p < max {
                assert(kept[p] == g);
            }
            assert(kept[i] == order[i]);
            assert(keys[order[i]] <= keys[order[p]]);
        }
        assert forall|i: int, j: int| 0 <= i < j < kept.len() implies {
            let a = changes_in_file(files[#[trigger] kept[i]]);
            let b = changes_in_file(files[#[trigger] kept[j]]);
            a > b || a == b && kept[i] < kept[j]
        } by {
            assert(kept[i] == order[i] && kept[j] == order[j]);
            assert(keys[order[i]] == keys[kept[i]] && keys[order[j]] == keys[kept[j]]);
        }
        kept
    } else {
        seq![]
    }
}

/// All hunks of a file stay where there are not too many. Else its first and last hunk always stay.
pub proof fn first_and_last_hunks_stay(hunks: Seq<HunkModel>, words: Seq<Seq<char>>, max: int)
    requires
        0 <= max,
    ensures
        hunks.len() <= max ==> selected_hunks(hunks, words, max) == hunks,
        hunks.len() > 0 ==> selected_hunks(hunks, words, max).len() > 0 && selected_hunks(
            hunks,
            words,
            max,
        )[0] == hunks[0] && selected_hunks(hunks, words, max).last() == hunks.last(),
        hunks.len() > max && max <= 2 && hunks.len() >= 2 ==> selected_hunks(hunks, words, max) == seq![
            hunks[0],
            hunks.last(),
        ],
        hunks.len() == 1 ==> selected_hunks(hunks, words, max) == hunks,
{
    if hunks.len() > max && hunks.len() > 0 {
        lemma_kept_positions(hunks, words, max);
        let p = kept_positions(hunks, words, max);
        assert(p[0] == 0);
        assert(p[p.len() - 1] == hunks.len() - 1);
        if hunks.len() == 1 {
            assert(selected_hunks(hunks, words, max) =~= hunks);
        } else if max <= 2 {
            assert(selected_hunks(hunks, words, max) =~= seq![hunks[0], hunks.last()]);
        }
    }
}

/// A change stands close to line `i`, or the line is a notice.
pub open spec fn stays_in_hunk(lines: Seq<Seq<char>>, i: int, context: int) -> bool {
    lines[i].len() > 0 && lines[i][0] == '\\' || exists|p: int|
        0 <= p < lines.len() && changes(#[trigger] lines[p]) && p - i <= context && i - p <= context
}

spec fn near_places(lines: Seq<Seq<char>>, context: int, n: nat) -> Seq<int>
    decreases n,
{
    if n == 0 {
        seq![]
    } else {
        let before = near_places(lines, context, (n - 1) as nat);
        if near_change(lines, n - 1, context) || is_notice(lines[n - 1]) {
            before.push(n - 1)
        } else {
            before
        }
    }
}

proof fn lemma_near_places(lines: Seq<Seq<char>>, context: int, n: nat)
    requires
        n <= lines.len(),
    ensures
        ascending_below(near_places(lines, context, n), n as int),
        near_lines(lines, context, n) == arranged(lines, near_places(lines, context, n)),
        forall|i: int| #[trigger]
            near_places(lines, context, n).contains(i) <==> 0 <= i < n && stays_in_hunk(
                lines,
                i,
                context,
            ),
    decreases n,
{
    let out = near_places(lines, context, n);
    if n > 0 {
        let before = near_places(lines, context, (n - 1) as nat);
        lemma_near_places(lines, context, (n - 1) as nat);
        let k = n - 1;
        if near_change(lines, k, context) {
            let p = choose|p: int|
                0 <= p < lines.len() && k - context <= p <= k + context && is_change(#[trigger] lines[p]);
            assert(changes(lines[p]));
        }
        if stays_in_hunk(lines, k, context) && !is_notice(lines[k]) {
            let p = choose|p: int|
                0 <= p < lines.len() && changes(#[trigger] lines[p]) && p - k <= context && k - p
                    <= context;
            assert(is_change(lines[p]));
        }
        assert forall|i: int| #[trigger] out.contains(i) <==> 0 <= i < n && stays_in_hunk(
            lines,
            i,
            context,
        ) by {
            assert(before.contains(i) <==> 0 <= i < n - 1 && stays_in_hunk(lines, i, context));
            if before.contains(i) {
                let m = choose|m: int| 0 <= m < before.len() && before[m] == i;
                assert(out[m] == i);
            }
            if out.contains(i) {
                let m = choose|m: int| 0 <= m < out.len() && out[m] == i;
                if m < before.len() {
                    assert(before[m] == i);
                }
            }
            if out.len() > before.len() {
                assert(out[out.len() - 1] == k);
            }
        }
    }
    assert(near_lines(lines, context, n) =~= arranged(lines, out));
}

/// Of a hunk with changes just those lines stay that are close to one, and the notices, in their
/// sequence; of a hunk without changes the first lines, as many as the context allows.
pub proof fn lines_close_to_changes_stay(lines: Seq<Seq<char>>, context: int) -> (kept: Seq<int>)
    requires
        0 <= context,
    ensures
        ascending_below(kept, lines.len() as int),
        reduced_lines(lines, context) == arranged(lines, kept),
        (exists|p: int| 0 <= p < lines.len() && changes(#[trigger] lines[p])) ==> forall|i: int| #[trigger]
            kept.contains(i) <==> 0 <= i < lines.len() && stays_in_hunk(lines, i, context),
        (forall|p: int| 0 <= p < lines.len() ==> !changes(#[trigger] lines[p])) ==> kept == Seq::new(
            if context < lines.len() {
                context as nat
            } else {
                lines.len()
            },
            |i: int| i,
        ),
{
    lemma_change_count(lines);
    lemma_near_places(lines, context, lines.len());
    if change_count(lines) == 0 {
        let kept = Seq::new(
            if context < lines.len() {
                context as nat
            } else {
                lines.len()
            },
            |i: int| i,
        );
        assert forall|p: int| 0 <= p < lines.len() implies !changes(#[trigger] lines[p]) by {
            assert(!is_change(lines[p]));
        }
        assert(reduced_lines(lines, context) =~= arranged(lines, kept));
        kept
    } else {
        let p = choose|p: int| 0 <= p < lines.len() && is_change(#[trigger] lines[p]);
        assert(changes(lines[p]));
        near_places(lines, context, lines.len())
    }
}

/// What becomes of a file: it keeps its header and what is told of it, and the hunks that stay keep their
/// headers.
pub proof fn files_keep_their_headers(
    file: FileModel,
    words: Seq<Seq<char>>,
    max_hunks: int,
    context: int,
    i: int,
)
    requires
        0 <= i < selected_hunks(file.hunks, words, max_hunks).len(),
    ensures
        ({
            let out = compressed_file(file, words, max_hunks, context);
            let stay = selected_hunks(file.hunks, words, max_hunks);
            &&& out.header == file.header
            &&& out.old_file == file.old_file
            &&& out.new_file == file.new_file
            &&& out.is_binary == file.is_binary
            &&& out.is_new_file == file.is_new_file
            &&& out.is_deleted_file == file.is_deleted_file
            &&& out.rename_lines == file.rename_lines
            &&& out.hunks.len() == stay.len()
            &&& out.hunks[i].header == stay[i].header
            &&& out.hunks[i].lines == reduced_lines(stay[i].lines, context)
        }),
{
}

// ---------------------------------------------------------------------------
// What is written
// ---------------------------------------------------------------------------

/// A further hunk of a file that is not binary is written behind the others: its header, then its lines.
/// Of a binary file no hunk is.
pub proof fn further_hunks_are_written(file: FileModel, hunk: HunkModel)
    ensures
        !file.is_binary ==> file_output(FileModel { hunks: file.hunks.push(hunk), ..file })
            == file_output(file) + seq![hunk.header] + hunk.lines,
        file.is_binary ==> file_output(FileModel { hunks: file.hunks.push(hunk), ..file })
            == file_output(file),
{
    let more = FileModel { hunks: file.hunks.push(hunk), ..file };
    assert(file.hunks.push(hunk).drop_last() =~= file.hunks);
    if !file.is_binary {
        assert(file_output(more) =~= file_output(file) + seq![hunk.header] + hunk.lines);
    }
}

/// The lines of a file without hunks: its header, its renames, whether it is new or deleted, and its
/// two sides, or that it is binary.
pub proof fn file_headers_are_written(file: FileModel)
    requires
        file.hunks.len() == 0,
    ensures
        ({
            let out = file_output(file);
            let n = file.rename_lines.len() as int;
            let mode = file.is_new_file || file.is_deleted_file;
            let at: int = if mode {
                n + 2
            } else {
                n + 1
            };
            &&& out[0] == file.header
            &&& out.subrange(1, n + 1) == file.rename_lines
            &&& file.is_new_file ==> out[n + 1] == "new file mode 100644"@
            &&& !file.is_new_file && file.is_deleted_file ==> out[n + 1] == "deleted file mode 100644"@
            &&& file.is_binary ==> out.skip(at) == seq!["Binary files differ"@]
            &&& !file.is_binary && file.old_file.len() > 0 && file.new_file.len() > 0 ==> out.skip(at)
                == seq![file.old_file, file.new_file]
            &&& !file.is_binary && file.old_file.len() > 0 && file.new_file.len() == 0 ==> out.skip(at)
                == seq![file.old_file]
            &&& !file.is_binary && file.old_file.len() == 0 && file.new_file.len() > 0 ==> out.skip(at)
                == seq![file.new_file]
            &&& !file.is_binary && file.old_file.len() == 0 && file.new_file.len() == 0 ==> out.len()
                == at
        }),
{
    let out = file_output(file);
    let n = file.rename_lines.len() as int;
    assert(out.subrange(1, n + 1) =~= file.rename_lines);
    let at: int = if file.is_new_file || file.is_deleted_file {
        n + 2
    } else {
        n + 1
    };
    if file.is_binary {
        assert(out.skip(at) =~= seq!["Binary files differ"@]);
    } else if file.old_file.len() > 0 && file.new_file.len() > 0 {
        assert(out.skip(at) =~= seq![file.old_file, file.new_file]);
    } else if file.old_file.len() > 0 {
        assert(out.skip(at) =~= seq![file.old_file]);
    } else if file.new_file.len() > 0 {
        assert(out.skip(at) =~= seq![file.new_file]);
    }
}

/// A compressed diff has the lines before the first file, the lines of each file that stays, one file
/// after the other, and last how many files there are and, where hunks are left out, how many.
pub proof fn a_diff_ends_in_a_count(pre: Seq<Seq<char>>, files: Seq<FileModel>, file: FileModel, removed: nat)
    ensures
        ({
            let all = files.push(file);
            let last = if removed == 0 {
                "["@ + dec(all.len()) + " files changed]"@
            } else {
                "["@ + dec(all.len()) + " files changed, "@ + dec(removed) + " hunks omitted]"@
            };
            &&& diff_output(pre, all, removed) == pre + files_output(files) + file_output(file) + seq![last]
            &&& files_output(all) == files_output(files) + file_output(file)
            &&& files_output(Seq::<FileModel>::empty()) == Seq::<Seq<char>>::empty()
        }),
{
    let all = files.push(file);
    assert(all.drop_last() =~= files);
    assert(pre + (files_output(files) + file_output(file)) =~= pre + files_output(files)
        + file_output(file));
}

// ---------------------------------------------------------------------------
// What hunks score
// ---------------------------------------------------------------------------

proof fn lemma_rounded(x: int)
    requires
        0 <= x < 0x800000000000000,
    ensures
        0 <= rounded(x),
        rounded(x) <= x + 32,
        x <= rounded(x) + 32,
        x < 0x200000000000000 ==> rounded(x) <= x + 8 && x <= rounded(x) + 8,
{
    let g = spacing(x);
    let q = x / g;
    let r = x % g;
    assert(x == q * g + r && 0 <= r < g && q >= 0) by (nonlinear_arith)
        requires
            q == x / g,
            r == x % g,
            g > 0,
            x >= 0,
    ;
    assert((q + 1) * g == q * g + g) by (nonlinear_arith);
    assert(q * g >= 0) by (nonlinear_arith)
        requires
            q >= 0,
            g > 0,
    ;
}

/// A score of 1 stands for 2 to the power of 58. A hunk scores 0.03 for each change, up to ten, but for
/// the rounding of doubles.
pub proof fn changes_score(n: nat)
    ensures
        n >= 10 ==> -100 <= 10 * change_score(n) - 3 * 0x400000000000000 <= 100,
        n < 10 ==> -2000 <= 100 * change_score(n) - 3 * n * 0x400000000000000 <= 2000,
{
    if n < 10 {
        assert(n * CHANGE_WEIGHT <= 9 * CHANGE_WEIGHT) by (nonlinear_arith)
            requires
                n <= 9,
        ;
        assert(0 <= n * CHANGE_WEIGHT) by (nonlinear_arith);
        lemma_rounded(n * CHANGE_WEIGHT);
    }
}

/// A word of the context that has more than two bytes and occurs in the text adds 0.2, up to a score of
/// 1 in all. Any other word adds nothing.
pub proof fn words_score(score: int, words: Seq<Seq<char>>, word: Seq<char>, text: Seq<char>)
    requires
        0 <= score <= 0x400000000000000,
    ensures
        ({
            let s = word_score(score, words, text);
            let t = word_score(score, words.push(word), text);
            &&& word_score(score, seq![], text) == score
            &&& 0 <= s <= 0x400000000000000
            &&& byte_len(word) <= 2 || !contains_text(text, word) ==> t == s
            &&& byte_len(word) > 2 && contains_text(text, word) ==> t == 0x400000000000000 || -200 <= 5
                * (t - s) - 0x400000000000000 <= 200
        }),
    decreases words.len(),
{
    assert(words.push(word).drop_last() =~= words);
    if words.len() > 0 {
        words_score(score, words.drop_last(), words.last(), text);
        assert(words.drop_last().push(words.last()) =~= words);
        lemma_rounded(word_score(score, words.drop_last(), text) + WORD_WEIGHT);
    }
    lemma_rounded(word_score(score, words, text) + WORD_WEIGHT);
}

/// A hunk is scored by its changes, the words of the context in it, and a word of errors, notes or
/// secrets, which adds 0.3, up to a score of 1 in all.
pub proof fn hunks_score(hunk: HunkModel, words: Seq<Seq<char>>)
    ensures
        ({
            let text = lower(join(hunk.lines, "\n"@));
            let s = word_score(change_score(changes_in(hunk)), words, text);
            let t = hunk_score(hunk.lines, words);
            let telling = regex_is_match(
                r"(?i)\b(error|exception|fail(?:ed|ure)?|fatal|critical|crash|panic)\b"@,
                text,
            ) || regex_is_match(r"(?i)\b(important|note|todo|fixme|hack|xxx|bug|fix)\b"@, text)
                || regex_is_match(r"(?i)\b(security|auth|password|secret|token)\b"@, text);
            &&& !telling ==> t == s
            &&& telling ==> t == 0x400000000000000 || -400 <= 10 * (t - s) - 3 * 0x400000000000000
                <= 400
        }),
{
    let text = lower(join(hunk.lines, "\n"@));
    lemma_changes(hunk.lines);
    changes_score(change_count(hunk.lines));
    let c = change_score(change_count(hunk.lines));
    assert(0 <= c <= 0x400000000000000) by {
        if change_count(hunk.lines) < 10 {
            let n = change_count(hunk.lines);
            assert(3 * n * 0x400000000000000 <= 27 * 0x400000000000000) by (nonlinear_arith)
                requires
                    n <= 9,
            ;
            assert(0 <= n * CHANGE_WEIGHT) by (nonlinear_arith);
            assert(n * CHANGE_WEIGHT <= 9 * CHANGE_WEIGHT) by (nonlinear_arith)
                requires
                    n <= 9,
            ;
            lemma_rounded(n * CHANGE_WEIGHT);
        }
    }
    words_score(c, words, seq![], text);
    lemma_rounded(word_score(c, words, text) + PRIORITY_WEIGHT);
}

/// The number that follows the first plus sign of a header, and 0 where there is none that fits.
pub proof fn headers_tell_their_line(header: Seq<char>, digits: Seq<char>)
    ensures
        regex_group(r"\+(\d+)"@, header) is None ==> line_number(header) == 0,
        regex_group(r"\+(\d+)"@, header) == Some(digits) && parse_unsigned(
            digits,
            usize::MAX as nat,
        ) is Some ==> line_number(header) == parse_unsigned(digits, usize::MAX as nat)->0,
        regex_group(r"\+(\d+)"@, header) == Some(digits) && parse_unsigned(
            digits,
            usize::MAX as nat,
        ) is None ==> line_number(header) == 0,
{
}

/// A diff is compressed file by file: of the files that stay the telling hunks stay, with the lines close
/// to changes, and the hunks that are left out are counted.
pub proof fn diffs_are_compressed_by_file(content: Seq<char>, context: Seq<char>, config: DiffCompressConfig, i: int)
    requires
        diff_files(split_lines(content)).len() > 0,
    ensures
        ({
            let lines = split_lines(content);
            let stay = selected_files(diff_files(lines), config.max_files as int);
            let words = split_words(lower(context));
            let out = Seq::new(
                stay.len(),
                |k: int|
                    compressed_file(
                        stay[k],
                        words,
                        config.max_hunks_per_file as int,
                        config.max_context_lines as int,
                    ),
            );
            let (text, files, removed) = compressed_diff(content, context, config);
            let gone = Seq::new(
                stay.len(),
                |k: int| (stay[k].hunks.len() - out[k].hunks.len()) as nat,
            );
            &&& files == stay.len()
            &&& removed == sum(gone)
            &&& text == join(diff_output(pre_diff_lines(lines), out, removed), "\n"@)
        }),
{
    let lines = split_lines(content);
    let stay = selected_files(diff_files(lines), config.max_files as int);
    let words = split_words(lower(context));
    let max = config.max_hunks_per_file as int;
    let around = config.max_context_lines as int;
    let out = Seq::new(stay.len(), |k: int| compressed_file(stay[k], words, max, around));
    let gone = Seq::new(stay.len(), |k: int| (stay[k].hunks.len() - out[k].hunks.len()) as nat);
    assert(compressed_files(stay, words, max, around) =~= out);
    assert forall|k: int| 0 <= k < stay.len() implies #[trigger] dropped_counts(stay, max)[k] == gone[k] by {
        hunks_are_capped(stay[k].hunks, words, max);
    }
    assert(dropped_counts(stay, max) =~= gone);
}

} // verus!
