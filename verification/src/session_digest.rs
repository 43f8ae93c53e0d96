//! The conversation of a session transcript as text, and a digest of it.
use crate::json::{group_json_models, json_parse, model, models, parse_json, Json, JsonModel};
use crate::text::{
    byte_len, bytes_in, contains_text, copy_str, dec, decimal_usize, find_from, find_text,
    is_empty_text, join, join_texts, lemma_find_from, lemma_views_push, lines, occurs_at,
    option_view, same_text, slice_text, split_lines, starts_with, to_chars, trim, trim_text, views,
};
use vstd::prelude::*;

verus! {

/// What a transcript says of itself.
#[derive(Debug, Clone, PartialEq, Default)]
pub struct SessionMeta {
    pub session_id: Option<String>,
    pub cwd: Option<String>,
    pub first_ts: Option<String>,
    pub last_ts: Option<String>,
    pub turn_count: usize,
    pub truncated: bool,
    pub raw_bytes: usize,
}

pub struct MetaModel {
    pub session_id: Option<Seq<char>>,
    pub cwd: Option<Seq<char>>,
    pub first_ts: Option<Seq<char>>,
    pub last_ts: Option<Seq<char>>,
    pub turn_count: nat,
    pub truncated: bool,
    pub raw_bytes: nat,
}

impl View for SessionMeta {
    type V = MetaModel;

    open spec fn view(&self) -> MetaModel {
        MetaModel {
            session_id: option_view(self.session_id),
            cwd: option_view(self.cwd),
            first_ts: option_view(self.first_ts),
            last_ts: option_view(self.last_ts),
            turn_count: self.turn_count as nat,
            truncated: self.truncated,
            raw_bytes: self.raw_bytes as nat,
        }
    }
}

/// The text before the first reminder, without spaces at its ends.
pub open spec fn without_reminder(text: Seq<char>) -> Seq<char> {
    match find_from(text, "<system-reminder>"@, 0) {
        Some(k) => trim(text.take(k)),
        None => trim(text),
    }
}

pub fn strip_system_reminder(text: &str) -> (out: String)
    ensures
        out@ == without_reminder(text@),
{
    let v = to_chars(text);
    let tag = to_chars("<system-reminder>");
    match find_text(&v, &tag, 0) {
        Some(k) => {
            let head = slice_text(&v, 0, k);
            assert(head@ =~= text@.take(k as int));
            trim_text(head.as_str())
        },
        None => trim_text(text),
    }
}

pub open spec fn truncation_note() -> Seq<char> {
    "\n\n...[truncated — session exceeded per-item cap]...\n\n"@
}

/// The text, or its first and last characters where it has more than allowed.
pub open spec fn cut_middle(text: Seq<char>, max_chars: int) -> Seq<char> {
    if text.len() <= max_chars {
        text
    } else {
        text.take(max_chars / 2) + truncation_note() + text.skip(text.len() - max_chars / 2)
    }
}

/// Cuts by characters, not bytes. The second part says whether anything was cut.
pub fn truncate_middle(text: &str, max_chars: usize) -> (r: (String, bool))
    ensures
        r.0@ == cut_middle(text@, max_chars as int),
        r.1 == (text@.len() > max_chars),
{
    let v = to_chars(text);
    if v.len() <= max_chars {
        return (copy_str(text), false);
    }
    let half = max_chars / 2;
    let mut out = slice_text(&v, 0, half);
    out.append("\n\n...[truncated — session exceeded per-item cap]...\n\n");
    let tail = slice_text(&v, v.len() - half, v.len());
    out.append(tail.as_str());
    assert(v@.subrange(0, half as int) =~= text@.take(half as int));
    assert(v@.subrange(v@.len() - half, v@.len() as int) =~= text@.skip(text@.len() - half));
    (out, true)
}

/// The texts of the blocks that are text and not empty.
pub open spec fn block_texts(blocks: Seq<JsonModel>) -> Seq<Seq<char>>
    decreases blocks.len(),
{
    if blocks.len() == 0 {
        seq![]
    } else {
        let texts = block_texts(blocks.drop_last());
        let block = blocks.last();
        match block.get_text("text"@) {
            Some(t) if block.get_text("type"@) == Some("text"@) && t.len() > 0 => texts.push(t),
            _ => texts,
        }
    }
}

/// What a record says: a text, or the texts of its blocks.
pub open spec fn message_texts(record: JsonModel) -> Seq<Seq<char>> {
    match record.get("message"@) {
        Some(message) => match message.get("content"@) {
            Some(JsonModel::Text(s)) => seq![s],
            Some(JsonModel::Array(blocks)) => block_texts(blocks),
            _ => seq![],
        },
        None => seq![],
    }
}

/// The turns that the texts make, without reminders and what is then empty.
pub open spec fn labelled(label: Seq<char>, texts: Seq<Seq<char>>) -> Seq<Seq<char>>
    decreases texts.len(),
{
    if texts.len() == 0 {
        seq![]
    } else {
        let turns = labelled(label, texts.drop_last());
        let t = without_reminder(texts.last());
        if t.len() == 0 {
            turns
        } else {
            turns.push(label + ": "@ + t)
        }
    }
}

/// The turns of a record: those of the user and of the assistant.
pub open spec fn record_turns(record: JsonModel) -> Seq<Seq<char>> {
    if record.get_text("type"@) == Some("user"@) {
        labelled("USER"@, message_texts(record))
    } else if record.get_text("type"@) == Some("assistant"@) {
        labelled("ASSISTANT"@, message_texts(record))
    } else {
        seq![]
    }
}

/// What the lines so far have said.
pub struct DigestModel {
    pub turns: Seq<Seq<char>>,
    pub session_id: Option<Seq<char>>,
    pub cwd: Option<Seq<char>>,
    pub first_ts: Option<Seq<char>>,
    pub last_ts: Option<Seq<char>>,
}

pub open spec fn first_of(a: Option<Seq<char>>, b: Option<Seq<char>>) -> Option<Seq<char>> {
    if a is Some {
        a
    } else {
        b
    }
}

pub open spec fn after_record(d: DigestModel, record: JsonModel) -> DigestModel {
    DigestModel {
        turns: d.turns + record_turns(record),
        session_id: first_of(record.get_text("sessionId"@), d.session_id),
        cwd: first_of(record.get_text("cwd"@), d.cwd),
        first_ts: first_of(d.first_ts, record.get_text("timestamp"@)),
        last_ts: first_of(record.get_text("timestamp"@), d.last_ts),
    }
}

/// Blank lines and lines that are no JSON say nothing.
pub open spec fn after_line(d: DigestModel, line: Seq<char>) -> DigestModel {
    if trim(line).len() == 0 {
        d
    } else {
        match json_parse(trim(line)) {
            Some(record) => after_record(d, record),
            None => d,
        }
    }
}

pub open spec fn digest_of(lines: Seq<Seq<char>>) -> DigestModel
    decreases lines.len(),
{
    if lines.len() == 0 {
        DigestModel { turns: seq![], session_id: None, cwd: None, first_ts: None, last_ts: None }
    } else {
        after_line(digest_of(lines.drop_last()), lines.last())
    }
}

struct Digest {
    turns: Vec<String>,
    session_id: Option<String>,
    cwd: Option<String>,
    first_ts: Option<String>,
    last_ts: Option<String>,
}

impl Digest {
    spec fn model(&self) -> DigestModel {
        DigestModel {
            turns: views(self.turns@),
            session_id: option_view(self.session_id),
            cwd: option_view(self.cwd),
            first_ts: option_view(self.first_ts),
            last_ts: option_view(self.last_ts),
        }
    }
}

fn texts_of_blocks(blocks: &Vec<Json>) -> (out: Vec<String>)
    ensures
        views(out@) == block_texts(models(blocks@)),
{
    broadcast use lemma_views_push;

    let ghost all = models(blocks@);
    let mut out: Vec<String> = Vec::new();
    let mut i: usize = 0;
    assert(all.take(0) =~= seq![]);
    assert(views(out@) =~= block_texts(all.take(0)));
    while i < blocks.len()
        invariant
            i <= blocks@.len(),
            all == models(blocks@),
            views(out@) == block_texts(all.take(i as int)),
        decreases blocks.len() - i,
    {
        assert(all.take(i + 1).drop_last() =~= all.take(i as int));
        assert(all.take(i + 1).last() == blocks@[i as int]@);
        let block = &blocks[i];
        let is_text = match block.get_text("type") {
            Some(t) => same_text(t, "text"),
            None => false,
        };
        match block.get_text("text") {
            Some(t) => {
                if is_text && !is_empty_text(t) {
                    out.push(copy_str(t));
                }
            },
            None => {},
        }
        i = i + 1;
    }
    assert(all.take(all.len() as int) =~= all);
    out
}

fn texts_of_message(record: &Json) -> (out: Vec<String>)
    ensures
        views(out@) == message_texts(record@),
{
    broadcast use {group_json_models, lemma_views_push};

    let mut none: Vec<String> = Vec::new();
    assert(views(none@) =~= seq![]);
    match record.get("message") {
        Some(message) => match message.get("content") {
            Some(Json::Text(s)) => {
                none.push(copy_str(s.as_str()));
                assert(views(none@) =~= seq![s@]);
                none
            },
            Some(Json::Array(blocks)) => texts_of_blocks(blocks),
            _ => none,
        },
        None => none,
    }
}

fn add_turns(turns: &mut Vec<String>, label: &str, texts: &Vec<String>)
    ensures
        views(final(turns)@) == views(old(turns)@) + labelled(label@, views(texts@)),
{
    broadcast use lemma_views_push;

    let ghost all = views(texts@);
    let ghost before = views(turns@);
    let mut i: usize = 0;
    assert(all.take(0) =~= seq![]);
    assert(before + seq![] =~= before);
    while i < texts.len()
        invariant
            i <= texts@.len(),
            all == views(texts@),
            views(turns@) == before + labelled(label@, all.take(i as int)),
        decreases texts.len() - i,
    {
        assert(all.take(i + 1).drop_last() =~= all.take(i as int));
        assert(all.take(i + 1).last() == texts@[i as int]@);
        let ghost so_far = labelled(label@, all.take(i as int));
        let t = strip_system_reminder(texts[i].as_str());
        if !is_empty_text(t.as_str()) {
            let mut turn = copy_str(label);
            turn.append(": ");
            turn.append(t.as_str());
            assert((before + so_far).push(turn@) =~= before + so_far.push(turn@));
            turns.push(turn);
        }
        i = i + 1;
    }
    assert(all.take(all.len() as int) =~= all);
}

fn read_record(digest: &mut Digest, record: &Json)
    ensures
        final(digest).model() == after_record(old(digest).model(), record@),
{
    match record.get_text("sessionId") {
        Some(id) => {
            digest.session_id = Some(copy_str(id));
        },
        None => {},
    }
    match record.get_text("cwd") {
        Some(c) => {
            digest.cwd = Some(copy_str(c));
        },
        None => {},
    }
    match record.get_text("timestamp") {
        Some(ts) => {
            if digest.first_ts.is_none() {
                digest.first_ts = Some(copy_str(ts));
            }
            digest.last_ts = Some(copy_str(ts));
        },
        None => {},
    }
    let ghost before = digest.model();
    assert(before.turns + seq![] =~= before.turns);
    match record.get_text("type") {
        Some(role) => {
            if same_text(role, "user") {
                let texts = texts_of_message(record);
                add_turns(&mut digest.turns, "USER", &texts);
            } else if same_text(role, "assistant") {
                let texts = texts_of_message(record);
                add_turns(&mut digest.turns, "ASSISTANT", &texts);
            }
        },
        None => {},
    }
}

fn read_digest(ls: &Vec<String>) -> (digest: Digest)
    ensures
        digest.model() == digest_of(views(ls@)),
{
    let ghost all = views(ls@);
    let mut digest = Digest {
        turns: Vec::new(),
        session_id: None,
        cwd: None,
        first_ts: None,
        last_ts: None,
    };
    let mut i: usize = 0;
    assert(all.take(0) =~= seq![]);
    assert(views(digest.turns@) =~= seq![]);
    while i < ls.len()
        invariant
            i <= ls@.len(),
            all == views(ls@),
            digest.model() == digest_of(all.take(i as int)),
        decreases ls.len() - i,
    {
        assert(all.take(i + 1).drop_last() =~= all.take(i as int));
        assert(all.take(i + 1).last() == ls@[i as int]@);
        let line = trim_text(ls[i].as_str());
        if !is_empty_text(line.as_str()) {
            match parse_json(line.as_str()) {
                Some(record) => read_record(&mut digest, &record),
                None => {},
            }
        }
        i = i + 1;
    }
    assert(all.take(all.len() as int) =~= all);
    digest
}

/// The turns of the lines joined to one text.
pub open spec fn lines_text(lines: Seq<Seq<char>>) -> Seq<char> {
    join(digest_of(lines).turns, "\n\n"@)
}

/// The lines of the transcript without the first so many.
pub open spec fn lines_from(jsonl: Seq<char>, start_line: int) -> Seq<Seq<char>> {
    let lines = split_lines(jsonl);
    if start_line < lines.len() {
        lines.skip(start_line)
    } else {
        seq![]
    }
}

pub open spec fn session_meta(jsonl: Seq<char>, lines: Seq<Seq<char>>, max_chars: int) -> MetaModel {
    let d = digest_of(lines);
    MetaModel {
        session_id: d.session_id,
        cwd: d.cwd,
        first_ts: d.first_ts,
        last_ts: d.last_ts,
        turn_count: d.turns.len(),
        truncated: lines_text(lines).len() > max_chars,
        raw_bytes: byte_len(jsonl),
    }
}

/// What the user and the assistant said from a line on, cut to so many characters, what those lines
/// say of the session, and how many lines there are in all: where to start the next time.
pub fn extract_session_text_from(jsonl: &str, max_chars: usize, start_line: usize) -> (r: (
    String,
    SessionMeta,
    usize,
))
    ensures
        r.0@ == cut_middle(lines_text(lines_from(jsonl@, start_line as int)), max_chars as int),
        r.1@ == session_meta(jsonl@, lines_from(jsonl@, start_line as int), max_chars as int),
        r.2 == split_lines(jsonl@).len(),
{
    let ls = lines(jsonl);
    let total: usize = ls.len();
    let mut rest: Vec<String> = Vec::new();
    let mut i: usize = start_line;
    while i < total
        invariant
            start_line <= i,
            total == ls@.len(),
            start_line <= total ==> i <= total,
            start_line > total ==> i == start_line,
            rest@.len() == i - start_line,
            forall|j: int| 0 <= j < rest@.len() ==> (#[trigger] rest@[j])@ == ls@[start_line + j]@,
        decreases total - i,
    {
        rest.push(copy_str(ls[i].as_str()));
        i = i + 1;
    }
    assert(views(ls@).len() == total);
    assert(views(rest@) =~= lines_from(jsonl@, start_line as int));
    let digest = read_digest(&rest);
    let text = join_texts(&digest.turns, "\n\n");
    let (cut, truncated) = truncate_middle(text.as_str(), max_chars);
    let turn_count = digest.turns.len();
    assert(digest.model().turns.len() == turn_count);
    let meta = SessionMeta {
        session_id: digest.session_id,
        cwd: digest.cwd,
        first_ts: digest.first_ts,
        last_ts: digest.last_ts,
        turn_count,
        truncated,
        raw_bytes: bytes_in(jsonl),
    };
    (cut, meta, total)
}

/// What the user and the assistant said, cut to so many characters, and what the transcript says of
/// itself.
pub fn extract_session_text(jsonl: &str, max_chars: usize) -> (r: (String, SessionMeta))
    ensures
        r.0@ == cut_middle(lines_text(split_lines(jsonl@)), max_chars as int),
        r.1@ == session_meta(jsonl@, split_lines(jsonl@), max_chars as int),
{
    let (text, meta, _) = extract_session_text_from(jsonl, max_chars, 0);
    assert(lines_from(jsonl@, 0) =~= split_lines(jsonl@));
    (text, meta)
}

pub open spec fn or_empty(s: Option<Seq<char>>) -> Seq<char> {
    match s {
        Some(t) => t,
        None => seq![],
    }
}

/// A header that tells which session it is, then the text.
pub open spec fn digest_content(compressed: Seq<char>, m: MetaModel) -> Seq<char> {
    "SESSION DIGEST "@ + or_empty(m.session_id) + "\n\n---\ntype: session-digest\nsession_id: "@
        + or_empty(m.session_id) + "\ncwd: "@ + or_empty(m.cwd) + "\nfirst_ts: "@ + or_empty(
        m.first_ts,
    ) + "\nlast_ts: "@ + or_empty(m.last_ts) + "\nturn_count: "@ + dec(m.turn_count)
        + "\n---\n\n"@ + compressed
}

fn append_option(out: &mut String, s: &Option<String>)
    ensures
        final(out)@ == old(out)@ + or_empty(option_view(*s)),
{
    match s {
        Some(t) => out.append(t.as_str()),
        None => {
            assert(out@ + seq![] =~= out@);
        },
    }
}

pub fn build_digest_content(compressed: &str, meta: &SessionMeta) -> (out: String)
    ensures
        out@ == digest_content(compressed@, meta@),
{
    let mut out = copy_str("SESSION DIGEST ");
    append_option(&mut out, &meta.session_id);
    out.append("\n\n---\ntype: session-digest\nsession_id: ");
    append_option(&mut out, &meta.session_id);
    out.append("\ncwd: ");
    append_option(&mut out, &meta.cwd);
    out.append("\nfirst_ts: ");
    append_option(&mut out, &meta.first_ts);
    out.append("\nlast_ts: ");
    append_option(&mut out, &meta.last_ts);
    out.append("\nturn_count: ");
    let turns = decimal_usize(meta.turn_count);
    out.append(turns.as_str());
    out.append("\n---\n\n");
    out.append(compressed);
    out
}

/// A text that was not cut is whole, and one that was cut holds no more of it than allowed.
pub proof fn cut_text_is_bounded(text: Seq<char>, max_chars: int)
    requires
        0 <= max_chars,
    ensures
        text.len() <= max_chars ==> cut_middle(text, max_chars) == text,
        cut_middle(text, max_chars).len() <= max_chars + truncation_note().len(),
        text.len() > max_chars ==> starts_with(
            cut_middle(text, max_chars),
            text.take(max_chars / 2),
        ),
        text.len() > max_chars ==> ({
            let out = cut_middle(text, max_chars);
            out.skip(out.len() - max_chars / 2) == text.skip(text.len() - max_chars / 2)
        }),
{
    if text.len() > max_chars {
        let cut = cut_middle(text, max_chars);
        assert(cut.take(max_chars / 2) =~= text.take(max_chars / 2));
    }
}

/// Transcripts whose lines say the same give the same text and say the same of the session, but for
/// their size: so do a transcript and its pruned copy.
pub proof fn what_is_said_is_all_that_counts(a: Seq<char>, b: Seq<char>, max_chars: int)
    requires
        digest_of(split_lines(a)) == digest_of(split_lines(b)),
    ensures
        cut_middle(lines_text(split_lines(a)), max_chars) == cut_middle(
            lines_text(split_lines(b)),
            max_chars,
        ),
        session_meta(a, split_lines(a), max_chars) == (MetaModel {
            raw_bytes: byte_len(a),
            ..session_meta(b, split_lines(b), max_chars)
        }),
{
}

/// A line that is no JSON changes nothing, wherever it stands.
pub proof fn malformed_lines_say_nothing(
    before: Seq<Seq<char>>,
    line: Seq<char>,
    after: Seq<Seq<char>>,
)
    requires
        json_parse(trim(line)) is None,
    ensures
        digest_of(before.push(line) + after) == digest_of(before + after),
    decreases after.len(),
{
    let with_line = before.push(line) + after;
    if after.len() == 0 {
        assert(with_line.drop_last() =~= before);
        assert(before + after =~= before);
    } else {
        malformed_lines_say_nothing(before, line, after.drop_last());
        assert(with_line.drop_last() =~= before.push(line) + after.drop_last());
        assert((before + after).drop_last() =~= before + after.drop_last());
    }
}

/// Starting where an earlier transcript ended gives only what was added since.
pub proof fn later_start_gives_only_what_is_new(earlier: Seq<char>, later: Seq<char>, added: Seq<Seq<char>>)
    requires
        split_lines(later) == split_lines(earlier) + added,
    ensures
        lines_from(later, split_lines(earlier).len() as int) == added,
{
    assert(lines_from(later, split_lines(earlier).len() as int) =~= added);
}

/// Of a text its part before the first reminder counts, and all of it where it has none.
pub proof fn reminders_say_nothing(before: Seq<char>, after: Seq<char>)
    ensures
        (forall|k: int|
            0 <= k < before.len() ==> !#[trigger] occurs_at(
                before + "<system-reminder>"@ + after,
                "<system-reminder>"@,
                k,
            )) ==> without_reminder(before + "<system-reminder>"@ + after) == trim(before),
        !contains_text(before, "<system-reminder>"@) ==> without_reminder(before) == trim(before),
{
    let tag = "<system-reminder>"@;
    let text = before + tag + after;
    lemma_find_from(text, tag, 0);
    lemma_find_from(before, tag, 0);
    assert(text.subrange(before.len() as int, (before.len() + tag.len()) as int) =~= tag);
    assert(occurs_at(text, tag, before.len() as int));
    assert(text.take(before.len() as int) =~= before);
}

/// The turns that texts make for a speaker: each text without its reminders, where that leaves
/// something, behind the name of the speaker.
pub open spec fn turns_of(speaker: Seq<char>, texts: Seq<Seq<char>>) -> Seq<Seq<char>> {
    texts.map_values(|t: Seq<char>| without_reminder(t)).filter(
        |t: Seq<char>| t.len() > 0,
    ).map_values(|t: Seq<char>| speaker + ": "@ + t)
}

proof fn lemma_turns_of(speaker: Seq<char>, texts: Seq<Seq<char>>)
    ensures
        labelled(speaker, texts) == turns_of(speaker, texts),
    decreases texts.len(),
{
    reveal(Seq::filter);
    let clean = |t: Seq<char>| without_reminder(t);
    let some = |t: Seq<char>| t.len() > 0;
    let mapped = texts.map_values(clean);
    if texts.len() > 0 {
        lemma_turns_of(speaker, texts.drop_last());
        assert(mapped.drop_last() =~= texts.drop_last().map_values(clean));
        assert(mapped.last() == without_reminder(texts.last()));
        assert(labelled(speaker, texts) =~= turns_of(speaker, texts));
    } else {
        assert(mapped.filter(some) =~= Seq::<Seq<char>>::empty());
        assert(labelled(speaker, texts) =~= turns_of(speaker, texts));
    }
}

/// A block adds its text where it is a text and not empty, and else nothing.
pub proof fn further_blocks_add_texts(blocks: Seq<JsonModel>, block: JsonModel)
    ensures
        block.get_text("type"@) == Some("text"@) && block.get_text("text"@) is Some && (block.get_text(
            "text"@,
        )->0).len() > 0 ==> block_texts(blocks.push(block)) == block_texts(blocks).push(
            block.get_text("text"@)->0,
        ),
        block.get_text("type"@) != Some("text"@) ==> block_texts(blocks.push(block)) == block_texts(
            blocks,
        ),
        !(block.get_text("text"@) is Some && (block.get_text("text"@)->0).len() > 0) ==> block_texts(
            blocks.push(block),
        ) == block_texts(blocks),
{
    assert(blocks.push(block).drop_last() =~= blocks);
}

/// A further record adds its turns behind those before: those of its text or of the texts of its blocks,
/// where it is of the user or of the assistant, and else none. It names the session and its directory
/// anew and ends its time; only where no record before it had a time does it start it.
pub proof fn further_records_are_told(lines: Seq<Seq<char>>, line: Seq<char>, record: JsonModel)
    requires
        trim(line).len() > 0,
        json_parse(trim(line)) == Some(record),
    ensures
        ({
            let d = digest_of(lines);
            let e = digest_of(lines.push(line));
            let kind = record.get_text("type"@);
            let content = match record.get("message"@) {
                Some(message) => message.get("content"@),
                None => None,
            };
            let speaker = if kind == Some("user"@) {
                "USER"@
            } else {
                "ASSISTANT"@
            };
            let speaks = kind == Some("user"@) || kind == Some("assistant"@);
            &&& speaks && content is Some && content->0 is Text ==> e.turns == d.turns + turns_of(
                speaker,
                seq![content->0->Text_0],
            )
            &&& speaks && content is Some && content->0 is Array ==> e.turns == d.turns + turns_of(
                speaker,
                block_texts(content->0->Array_0),
            )
            &&& !speaks ==> e.turns == d.turns
            &&& content is None ==> e.turns == d.turns
            &&& record.get_text("sessionId"@) is Some ==> e.session_id == record.get_text("sessionId"@)
            &&& record.get_text("sessionId"@) is None ==> e.session_id == d.session_id
            &&& record.get_text("cwd"@) is Some ==> e.cwd == record.get_text("cwd"@)
            &&& record.get_text("cwd"@) is None ==> e.cwd == d.cwd
            &&& record.get_text("timestamp"@) is Some ==> e.last_ts == record.get_text("timestamp"@)
            &&& record.get_text("timestamp"@) is None ==> e.last_ts == d.last_ts
            &&& d.first_ts is Some ==> e.first_ts == d.first_ts
            &&& d.first_ts is None ==> e.first_ts == record.get_text("timestamp"@)
        }),
{
    let d = digest_of(lines);
    assert(lines.push(line).drop_last() =~= lines);
    lemma_turns_of("USER"@, message_texts(record));
    lemma_turns_of("ASSISTANT"@, message_texts(record));
    assert(labelled("USER"@, Seq::empty()) =~= Seq::<Seq<char>>::empty());
    assert(labelled("ASSISTANT"@, Seq::empty()) =~= Seq::<Seq<char>>::empty());
    assert(d.turns + Seq::<Seq<char>>::empty() =~= d.turns);
}

/// The session has as many turns as were said, and is cut just where they take more than allowed.
pub proof fn a_session_tells_of_its_turns(jsonl: Seq<char>, lines: Seq<Seq<char>>, max_chars: int)
    ensures
        session_meta(jsonl, lines, max_chars).turn_count == digest_of(lines).turns.len(),
        session_meta(jsonl, lines, max_chars).truncated <==> join(
            digest_of(lines).turns,
            "\n\n"@,
        ).len() > max_chars,
        session_meta(jsonl, lines, max_chars).raw_bytes == byte_len(jsonl),
        session_meta(jsonl, lines, max_chars).session_id == digest_of(lines).session_id,
        session_meta(jsonl, lines, max_chars).cwd == digest_of(lines).cwd,
        session_meta(jsonl, lines, max_chars).first_ts == digest_of(lines).first_ts,
        session_meta(jsonl, lines, max_chars).last_ts == digest_of(lines).last_ts,
{
}

/// A digest starts with the name of its session and ends with the text.
pub proof fn digests_hold_the_text(compressed: Seq<char>, m: MetaModel)
    ensures
        ({
            let out = digest_content(compressed, m);
            let id = if m.session_id is Some {
                m.session_id->0
            } else {
                seq![]
            };
            &&& out.skip(out.len() - compressed.len()) == compressed
            &&& starts_with(
                out,
                "SESSION DIGEST "@ + id + "\n\n---\ntype: session-digest\nsession_id: "@ + id
                    + "\ncwd: "@,
            )
        }),
{
    let out = digest_content(compressed, m);
    let id = or_empty(m.session_id);
    let start = "SESSION DIGEST "@ + id + "\n\n---\ntype: session-digest\nsession_id: "@ + id + "\ncwd: "@;
    assert(out.skip(out.len() - compressed.len()) =~= compressed);
    assert(out.take(start.len() as int) =~= start);
}

/// The text of a session is its turns with an empty line between each two. Where it is too long, half of
/// what is allowed stays at each end, with a note between.
pub proof fn long_sessions_lose_their_middle(lines: Seq<Seq<char>>, text: Seq<char>, max_chars: int)
    requires
        0 <= max_chars,
    ensures
        lines_text(lines) == join(digest_of(lines).turns, "\n\n"@),
        text.len() > max_chars ==> cut_middle(text, max_chars) == text.take(max_chars / 2)
            + "\n\n...[truncated — session exceeded per-item cap]...\n\n"@ + text.skip(
            text.len() - max_chars / 2,
        ),
        text.len() <= max_chars ==> cut_middle(text, max_chars) == text,
{
}

} // verus!
